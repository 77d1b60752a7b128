//! Shows: a night's lineup of sets, each with a wall-clock start time.
use vstd::prelude::*;

use crate::date::{date_text, Date};
use crate::performer::Slug;
use crate::sorting::Ranked;
use crate::text::{
    all_digits, chars_of, clock_string, clock_text, concat_str, debug_quoted, debug_text, decimal, digit_char,
    digit_value, digits_value, lemma_digit_char_value, zero_pad, is_digit, parse_unsigned, parse_unsigned_range, owned, two_digits,
};

verus! {

/// Wall-clock time on the show's ET date, as `HH:MM`. Hours past 23 mean
/// the following day.
#[derive(Clone, Copy, Debug, PartialEq, Eq, Structural)]
pub struct WallTime {
    pub hour: u8,
    pub minute: u8,
}

/// One performer slot in a show.
#[derive(Debug, Clone)]
pub struct ShowSet {
    pub start: WallTime,
    /// Duration in minutes (60 when the file leaves it out).
    pub duration_min: u32,
    pub dj: Option<Slug>,
    pub vj: Option<Slug>,
    pub notes: String,
}

/// A single night's lineup. `date` is the ET calendar date.
#[derive(Debug, Clone)]
pub struct Show {
    pub date: Date,
    pub sets: Vec<ShowSet>,
}

/// Why a show file or show was rejected.
#[derive(Debug)]
pub enum ShowError {
    Io { path: String, message: String },
    Parse { path: String, message: String },
    DateFilenameMismatch { path: String, file_date: Date },
    BadFilename { path: String },
    EmptyLineup { date: Date },
    EmptySet { date: Date, time: String },
    BadTime { value: String },
}

/// The duration a set has when its file gives none.
pub fn default_duration() -> (r: u32)
    ensures
        r == 60,
{
    60
}

/// Index of the first occurrence of `c`.
pub open spec fn index_of_char(s: Seq<char>, c: char) -> Option<int>
    decreases s.len(),
{
    if s.len() == 0 {
        None
    } else if s[0] == c {
        Some(0)
    } else {
        match index_of_char(s.drop_first(), c) {
            Some(i) => Some(i + 1),
            None => None,
        }
    }
}

pub proof fn lemma_index_of_char(s: Seq<char>, c: char)
    ensures
        match index_of_char(s, c) {
            Some(i) => 0 <= i < s.len() && s[i] == c && forall|j: int|
                0 <= j < i ==> #[trigger] s[j] != c,
            None => forall|j: int| 0 <= j < s.len() ==> #[trigger] s[j] != c,
        },
    decreases s.len(),
{
    if s.len() > 0 {
        let t = s.drop_first();
        lemma_index_of_char(t, c);
        if s[0] != c {
            match index_of_char(t, c) {
                Some(i) => {
                    assert forall|j: int| 0 <= j < i + 1 implies #[trigger] s[j] != c by {
                        if j > 0 {
                            assert(s[j] == t[j - 1]);
                        }
                    }
                },
                None => {
                    assert forall|j: int| 0 <= j < s.len() implies #[trigger] s[j] != c by {
                        if j > 0 {
                            assert(s[j] == t[j - 1]);
                        }
                    }
                },
            }
        }
    }
}

/// Position of the first `c` in `v`.
pub fn find_char(v: &Vec<char>, c: char) -> (r: Option<usize>)
    ensures
        match index_of_char(v@, c) {
            Some(i) => r == Some(i as usize),
            None => r is None,
        },
        r matches Some(i) ==> i < v@.len() && v@[i as int] == c && index_of_char(v@, c) == Some(
            i as int,
        ),
{
    proof {
        lemma_index_of_char(v@, c);
    }
    let mut i: usize = 0;
    while i < v.len()
        invariant
            i <= v@.len(),
            forall|j: int| 0 <= j < i ==> #[trigger] v@[j] != c,
            match index_of_char(v@, c) {
                Some(f) => 0 <= f < v@.len() && v@[f] == c && forall|j: int|
                    0 <= j < f ==> #[trigger] v@[j] != c,
                None => forall|j: int| 0 <= j < v@.len() ==> #[trigger] v@[j] != c,
            },
        decreases v@.len() - i,
    {
        if v[i] == c {
            proof {
                if let Some(f) = index_of_char(v@, c) {
                    if f < i {
                        assert(v@[f] != c);
                    }
                    if f > i {
                        assert(v@[i as int] != c);
                    }
                }
            }
            return Some(i);
        }
        i = i + 1;
    }
    proof {
        if let Some(f) = index_of_char(v@, c) {
            assert(v@[f] != c);
        }
    }
    None
}

/// What `WallTime::parse` accepts: `H:M` split at the first `:`, each side
/// a `u8` as `str::parse` reads it, hour at most 23, minute at most 59.
pub open spec fn wall_time_of(s: Seq<char>) -> Option<(u8, u8)> {
    match index_of_char(s, ':') {
        None => None,
        Some(i) => match (
            parse_unsigned(s.subrange(0, i), 255),
            parse_unsigned(s.subrange(i + 1, s.len() as int), 255),
        ) {
            (Some(h), Some(m)) => if h <= 23 && m <= 59 {
                Some((h as u8, m as u8))
            } else {
                None
            },
            _ => None,
        },
    }
}

/// A two-digit text of a number below 100: digits whose value is that
/// number.
pub proof fn lemma_two_digits(n: nat)
    requires
        n < 100,
    ensures
        two_digits(n).len() == 2,
        is_digit(two_digits(n)[0]),
        is_digit(two_digits(n)[1]),
        all_digits(two_digits(n)),
        digits_value(two_digits(n)) == n,
{
    let t = two_digits(n);
    let (a, b) = if n < 10 { (0nat, n) } else { (n / 10, n % 10) };
    if n < 10 {
        assert(decimal(n) =~= seq![digit_char(n)]);
        assert(seq!['0'].add(decimal(n)).len() == 2);
        assert(two_digits(n) == zero_pad(seq!['0'].add(decimal(n)), 2));
        assert(zero_pad(seq!['0'].add(decimal(n)), 2) == seq!['0'].add(decimal(n)));
        assert(t =~= seq![digit_char(0), digit_char(n)]);
    } else {
        assert(decimal(n / 10) == seq![digit_char(n / 10)]);
        assert(decimal(n) == decimal(n / 10).push(digit_char(n % 10)));
        assert(t =~= seq![digit_char(n / 10), digit_char(n % 10)]);
    }
    lemma_digit_char_value(a);
    lemma_digit_char_value(b);
    assert(t =~= seq![digit_char(a), digit_char(b)]);
    assert(t.drop_last() =~= seq![t[0]]);
    assert(seq![t[0]].drop_last() =~= Seq::<char>::empty());
    assert(digits_value(seq![t[0]]) == digits_value(Seq::<char>::empty()) * 10 + digit_value(t[0]));
    assert(digits_value(t) == digits_value(t.drop_last()) * 10 + digit_value(t.last()));
    assert(all_digits(t)) by {
        assert forall|i: int| 0 <= i < t.len() implies is_digit(#[trigger] t[i]) by {}
    }
}

/// The text `to_text` gives for a valid time parses back to that time.
pub proof fn lemma_wall_time_round_trip(w: WallTime)
    requires
        w.hour <= 23,
        w.minute <= 59,
    ensures
        wall_time_of(clock_text(w.hour as nat, w.minute as nat)) == Some((w.hour, w.minute)),
{
    let h = w.hour as nat;
    let m = w.minute as nat;
    let s = clock_text(h, m);
    lemma_two_digits(h);
    lemma_two_digits(m);
    assert(s.len() == 5);
    assert(s[0] == two_digits(h)[0] && s[1] == two_digits(h)[1] && s[2] == ':');
    lemma_index_of_char(s, ':');
    assert(index_of_char(s, ':') == Some(2int));
    assert(s.subrange(0, 2) =~= two_digits(h));
    assert(s.subrange(3, 5) =~= two_digits(m));
}

impl WallTime {
    /// Parses `HH:MM`; otherwise `BadTime` holding the input.
    pub fn parse(s: &str) -> (r: Result<WallTime, ShowError>)
        ensures
            match wall_time_of(s@) {
                Some((h, m)) => r == Ok::<WallTime, ShowError>(WallTime { hour: h, minute: m }),
                None => r matches Err(ShowError::BadTime { value }) && value@ == s@,
            },
    {
        let v = chars_of(s);
        let colon = find_char(&v, ':');
        let i = match colon {
            Some(i) => i,
            None => {
                return Err(ShowError::BadTime { value: owned(s) });
            },
        };
        let h = parse_unsigned_range(&v, 0, i, 255);
        let m = parse_unsigned_range(&v, i + 1, v.len(), 255);
        assert(index_of_char(s@, ':') == Some(i as int));
        let ghost hs = parse_unsigned(s@.subrange(0, i as int), 255);
        let ghost ms = parse_unsigned(s@.subrange(i + 1, s@.len() as int), 255);
        assert(hs is Some <==> h is Some);
        assert(ms is Some <==> m is Some);
        assert(h is Some ==> hs.unwrap() == h.unwrap() as nat);
        assert(m is Some ==> ms.unwrap() == m.unwrap() as nat);
        match (h, m) {
            (Some(h), Some(m)) => {
                if h > 23 || m > 59 {
                    return Err(ShowError::BadTime { value: owned(s) });
                }
                Ok(WallTime { hour: h as u8, minute: m as u8 })
            },
            _ => Err(ShowError::BadTime { value: owned(s) }),
        }
    }

    /// `format!("{:02}:{:02}", hour, minute)`.
    pub fn to_text(&self) -> (r: String)
        ensures
            r@ == clock_text(self.hour as nat, self.minute as nat),
    {
        clock_string(self.hour as u32, self.minute as u32)
    }
}

/// Sets order by start time (hour, then minute).
impl Ranked for ShowSet {
    open spec fn rank_le(self, other: Self) -> bool {
        self.start.hour < other.start.hour || (self.start.hour == other.start.hour
            && self.start.minute <= other.start.minute)
    }

    proof fn lemma_rank_total(a: Self, b: Self) {
    }

    proof fn lemma_rank_transitive(a: Self, b: Self, c: Self) {
    }

    fn rank_le_exec(&self, other: &Self) -> (r: bool) {
        self.start.hour < other.start.hour || (self.start.hour == other.start.hour
            && self.start.minute <= other.start.minute)
    }
}

/// Index of the first set with neither a DJ nor a VJ.
pub open spec fn first_empty_set(sets: Seq<ShowSet>) -> Option<int>
    decreases sets.len(),
{
    if sets.len() == 0 {
        None
    } else if sets[0].dj is None && sets[0].vj is None {
        Some(0)
    } else {
        match first_empty_set(sets.drop_first()) {
            Some(i) => Some(i + 1),
            None => None,
        }
    }
}

pub proof fn lemma_first_empty_set(sets: Seq<ShowSet>)
    ensures
        match first_empty_set(sets) {
            Some(i) => 0 <= i < sets.len() && sets[i].dj is None && sets[i].vj is None
                && forall|j: int|
                0 <= j < i ==> (#[trigger] sets[j]).dj is Some || sets[j].vj is Some,
            None => forall|j: int|
                0 <= j < sets.len() ==> (#[trigger] sets[j]).dj is Some || sets[j].vj is Some,
        },
    decreases sets.len(),
{
    if sets.len() > 0 {
        let t = sets.drop_first();
        lemma_first_empty_set(t);
        if !(sets[0].dj is None && sets[0].vj is None) {
            assert forall|j: int| 0 < j < sets.len() implies #[trigger] sets[j] == t[j - 1] by {}
        }
    }
}

/// The check `validate_shape` makes: a show has sets and every set has a
/// DJ or a VJ.
pub open spec fn shape_ok(show: Show) -> bool {
    show.sets@.len() > 0 && first_empty_set(show.sets@) is None
}

impl Show {
    /// A show needs at least one set, and each set a DJ or a VJ. Otherwise
    /// `EmptyLineup`, or `EmptySet` for the first set without either.
    pub fn validate_shape(&self) -> (r: Result<(), ShowError>)
        ensures
            self.sets@.len() == 0 ==> (r matches Err(ShowError::EmptyLineup { date }) && date
                == self.date),
            self.sets@.len() > 0 ==> match first_empty_set(self.sets@) {
                Some(i) => r matches Err(ShowError::EmptySet { date, time }) && date == self.date
                    && time@ == clock_text(
                    self.sets@[i].start.hour as nat,
                    self.sets@[i].start.minute as nat,
                ),
                None => r is Ok,
            },
    {
        if self.sets.len() == 0 {
            return Err(ShowError::EmptyLineup { date: self.date });
        }
        proof {
            lemma_first_empty_set(self.sets@);
        }
        let mut i: usize = 0;
        while i < self.sets.len()
            invariant
                i <= self.sets@.len(),
                forall|j: int|
                    0 <= j < i ==> (#[trigger] self.sets@[j]).dj is Some || self.sets@[j].vj is Some,
                match first_empty_set(self.sets@) {
                    Some(f) => 0 <= f < self.sets@.len() && self.sets@[f].dj is None
                        && self.sets@[f].vj is None && forall|j: int|
                        0 <= j < f ==> (#[trigger] self.sets@[j]).dj is Some
                            || self.sets@[j].vj is Some,
                    None => forall|j: int|
                        0 <= j < self.sets@.len() ==> (#[trigger] self.sets@[j]).dj is Some
                            || self.sets@[j].vj is Some,
                },
            decreases self.sets@.len() - i,
        {
            let set = &self.sets[i];
            if set.dj.is_none() && set.vj.is_none() {
                proof {
                    if let Some(f) = first_empty_set(self.sets@) {
                        if f < i {
                            assert(self.sets@[f].dj is Some || self.sets@[f].vj is Some);
                        }
                        if f > i {
                            assert(self.sets@[i as int].dj is Some || self.sets@[i as int].vj is Some);
                        }
                    } else {
                        assert(self.sets@[i as int].dj is Some || self.sets@[i as int].vj is Some);
                    }
                }
                return Err(ShowError::EmptySet { date: self.date, time: set.start.to_text() });
            }
            i = i + 1;
        }
        proof {
            if let Some(f) = first_empty_set(self.sets@) {
                assert(self.sets@[f].dj is Some || self.sets@[f].vj is Some);
            }
        }
        Ok(())
    }

    /// The checks `load` makes once the file is parsed and its name's stem
    /// read as a `%Y-%m-%d` date (`file_date`, `None` when the name has no
    /// stem or the stem is no such date): the date must be the show's date,
    /// then `validate_shape`. `path` is for the messages.
    pub fn check_file_date(path: &str, file_date: Option<Date>, show: Show) -> (r: Result<Show, ShowError>)
        ensures
            match file_date {
                None => r matches Err(ShowError::BadFilename { path: p }) && p@ == path@,
                Some(fd) => if fd@ != show.date@ {
                    r matches Err(ShowError::DateFilenameMismatch { path: p, file_date })
                        && p@ == path@ && file_date == show.date
                } else if show.sets@.len() == 0 {
                    r matches Err(ShowError::EmptyLineup { date }) && date == show.date
                } else {
                    match first_empty_set(show.sets@) {
                        Some(i) => r matches Err(ShowError::EmptySet { date, time })
                            && date == show.date && time@ == clock_text(
                            show.sets@[i].start.hour as nat,
                            show.sets@[i].start.minute as nat,
                        ),
                        None => r == Ok::<Show, ShowError>(show),
                    }
                },
            },
    {
        let filename_date = match file_date {
            Some(d) => d,
            None => {
                return Err(ShowError::BadFilename { path: owned(path) });
            },
        };
        if !filename_date.same(&show.date) {
            return Err(ShowError::DateFilenameMismatch { path: owned(path), file_date: show.date });
        }
        match show.validate_shape() {
            Ok(()) => Ok(show),
            Err(e) => Err(e),
        }
    }

    /// The checks `load` makes once the file is parsed: the file name's
    /// stem (`stem`, `None` when it has none) must be a `%Y-%m-%d` date equal
    /// to the show's date, then `validate_shape` (see `check_file_date`).
    /// `path` is for the messages.
    pub fn check_file(path: &str, stem: Option<&str>, show: Show) -> (r: Result<Show, ShowError>)
        ensures
            match stem {
                None => r matches Err(ShowError::BadFilename { path: p }) && p@ == path@,
                Some(st) => match crate::date::chrono_parse_ymd(st@) {
                    None => r matches Err(ShowError::BadFilename { path: p }) && p@ == path@,
                    Some(fd) => if fd != show.date@ {
                        r matches Err(ShowError::DateFilenameMismatch { path: p, file_date })
                            && p@ == path@ && file_date == show.date
                    } else if show.sets@.len() == 0 {
                        r matches Err(ShowError::EmptyLineup { date }) && date == show.date
                    } else {
                        match first_empty_set(show.sets@) {
                            Some(i) => r matches Err(ShowError::EmptySet { date, time })
                                && date == show.date && time@ == clock_text(
                                show.sets@[i].start.hour as nat,
                                show.sets@[i].start.minute as nat,
                            ),
                            None => r == Ok::<Show, ShowError>(show),
                        }
                    },
                },
            },
    {
        match stem {
            Some(st) => Show::check_file_date(path, Date::parse_ymd(st), show),
            None => Show::check_file_date(path, None, show),
        }
    }
}

/// The text a `ShowError` displays.
pub open spec fn show_error_text(e: ShowError) -> Seq<char> {
    match e {
        ShowError::Io { path, message } => "reading "@ + path@ + ": "@ + message@,
        ShowError::Parse { path, message } => "parsing "@ + path@ + ": "@ + message@,
        ShowError::DateFilenameMismatch { path, file_date } => "show file "@ + path@ + ": date "@
            + date_text(file_date@) + " does not match filename"@,
        ShowError::BadFilename { path } => "show file "@ + path@
            + ": filename is not a YYYY-MM-DD date"@,
        ShowError::EmptyLineup { date } => "show "@ + date_text(date@) + ": has no sets"@,
        ShowError::EmptySet { date, time } => "show "@ + date_text(date@) + ": set at "@ + time@
            + " has neither dj nor vj"@,
        ShowError::BadTime { value } => "bad time value "@ + debug_text(value@),
    }
}

impl ShowError {
    /// The error's text (its `Display`).
    pub fn message(&self) -> (r: String)
        ensures
            r@ == show_error_text(*self),
    {
        match self {
            ShowError::Io { path, message } => {
                let mut r = concat_str("reading ", path.as_str());
                r.append(": ");
                r.append(message.as_str());
                r
            },
            ShowError::Parse { path, message } => {
                let mut r = concat_str("parsing ", path.as_str());
                r.append(": ");
                r.append(message.as_str());
                r
            },
            ShowError::DateFilenameMismatch { path, file_date } => {
                let mut r = concat_str("show file ", path.as_str());
                r.append(": date ");
                let d = file_date.to_text();
                r.append(d.as_str());
                r.append(" does not match filename");
                r
            },
            ShowError::BadFilename { path } => {
                let mut r = concat_str("show file ", path.as_str());
                r.append(": filename is not a YYYY-MM-DD date");
                r
            },
            ShowError::EmptyLineup { date } => {
                let d = date.to_text();
                let mut r = concat_str("show ", d.as_str());
                r.append(": has no sets");
                r
            },
            ShowError::EmptySet { date, time } => {
                let d = date.to_text();
                let mut r = concat_str("show ", d.as_str());
                r.append(": set at ");
                r.append(time.as_str());
                r.append(" has neither dj nor vj");
                r
            },
            ShowError::BadTime { value } => {
                let q = debug_quoted(value.as_str());
                concat_str("bad time value ", q.as_str())
            },
        }
    }
}

} // verus!
