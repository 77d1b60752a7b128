//! The forms of the desktop editor: drafts of a show and of a performer as
//! typed, checked and turned into data, and the lists it shows.
use vstd::prelude::*;

use crate::commands::{last_date, last_played_map, lookup_in};
use crate::data::Dataset;
use crate::date::{chrono_parse_ymd, date_lt, date_text, day_number, Date};
use crate::performer::{
    find_key, has_key, is_valid_slug, lemma_find_key, position_of, texts, valid_slug, Performer,
    PerformerView, Performers,
};
use crate::import::{
    in_start_order, lemma_sorted_by_start_in_order, lemma_sorted_by_start_members, lemma_sorted_view, set_view,
    sets_view, sorted_by_start, SetView,
};
use crate::seqs::{first_where, lemma_first_where_at, lemma_first_where_none};
use crate::show::{
    first_empty_set, lemma_first_empty_set, lemma_two_digits, lemma_wall_time_round_trip, shape_ok, show_error_text,
    wall_time_of, Show, ShowError, ShowSet, WallTime,
};
use crate::sorting::{sort_ranked, stable_sorted, Ranked};
use crate::text::{
    chars_of, clock_string, clock_text, concat_str, contains_str, debug_quoted, debug_text, decimal, is_digit,
    lemma_decimal_digits, lemma_trim_unchanged, two_digits,
    has_substring, lemma_text_lt_asymmetric, lemma_text_lt_total, lemma_text_lt_transitive,
    lowercase_of, str_eq, str_lt, string_from_chars, text_lt, to_lowercase,
    owned, parse_unsigned, parse_unsigned_range, push_decimal, push_decimal_usize, trim,
    trimmed,
};

verus! {

// ---------------------------------------------------------------------
// errors
// ---------------------------------------------------------------------

/// Why a form was refused.
#[derive(Debug)]
pub enum DraftError {
    NoSets,
    BadTime { row: usize, time: String, error: ShowError },
    BadDuration { row: usize },
    NoPerformer { row: usize },
    PerformerNotFound { slug: String },
    NameRequired,
    BadDate,
    ShowExists { date: Date },
    BadSlug,
}

pub open spec fn draft_error_text(e: DraftError) -> Seq<char> {
    match e {
        DraftError::NoSets => "show needs at least one set"@,
        DraftError::BadTime { row, time, error } => "row "@ + decimal(row as nat) + ": bad time "@
            + debug_text(time@) + ": "@ + show_error_text(error),
        DraftError::BadDuration { row } => "row "@ + decimal(row as nat) + ": duration must be a number"@,
        DraftError::NoPerformer { row } => "row "@ + decimal(row as nat) + ": needs a DJ or VJ slug"@,
        DraftError::PerformerNotFound { slug } => "performer "@ + debug_text(slug@) + " not found"@,
        DraftError::NameRequired => "display name required"@,
        DraftError::BadDate => "date must be YYYY-MM-DD"@,
        DraftError::ShowExists { date } => "show "@ + date_text(date@) + " already exists"@,
        DraftError::BadSlug => "slug must be a-z, 0-9, underscore"@,
    }
}

impl DraftError {
    /// The error's text.
    pub fn message(&self) -> (r: String)
        ensures
            r@ == draft_error_text(*self),
    {
        match self {
            DraftError::NoSets => owned("show needs at least one set"),
            DraftError::BadTime { row, time, error } => {
                let mut r = owned("row ");
                push_decimal_usize(&mut r, *row);
                r.append(": bad time ");
                let q = debug_quoted(time.as_str());
                r.append(q.as_str());
                r.append(": ");
                let e = error.message();
                r.append(e.as_str());
                assert(r@ =~= draft_error_text(*self));
                r
            },
            DraftError::BadDuration { row } => {
                let mut r = owned("row ");
                push_decimal_usize(&mut r, *row);
                r.append(": duration must be a number");
                assert(r@ =~= draft_error_text(*self));
                r
            },
            DraftError::NoPerformer { row } => {
                let mut r = owned("row ");
                push_decimal_usize(&mut r, *row);
                r.append(": needs a DJ or VJ slug");
                assert(r@ =~= draft_error_text(*self));
                r
            },
            DraftError::PerformerNotFound { slug } => {
                let q = debug_quoted(slug.as_str());
                let mut r = concat_str("performer ", q.as_str());
                r.append(" not found");
                r
            },
            DraftError::NameRequired => owned("display name required"),
            DraftError::BadDate => owned("date must be YYYY-MM-DD"),
            DraftError::ShowExists { date } => {
                let d = date.to_text();
                let mut r = concat_str("show ", d.as_str());
                r.append(" already exists");
                r
            },
            DraftError::BadSlug => owned("slug must be a-z, 0-9, underscore"),
        }
    }
}

// ---------------------------------------------------------------------
// the show form
// ---------------------------------------------------------------------

/// A text field's content trimmed, or `None` when nothing is left.
pub open spec fn opt_trimmed(s: Seq<char>) -> Option<Seq<char>> {
    if trim(s).len() == 0 {
        None
    } else {
        Some(trim(s))
    }
}

/// The trimmed text, or `None` when it is empty.
pub fn non_empty(s: &str) -> (r: Option<String>)
    ensures
        match opt_trimmed(s@) {
            Some(t) => r matches Some(x) && x@ == t,
            None => r is None,
        },
{
    let t = trimmed(s);
    if t.as_str().unicode_len() == 0 {
        None
    } else {
        Some(t)
    }
}

/// One set's row in the show form, as typed.
#[derive(Clone, Debug)]
pub struct SetDraft {
    pub time: String,
    pub duration: String,
    pub dj: String,
    pub vj: String,
    pub notes: String,
    pub mark_delete: bool,
}

/// A show being edited.
#[derive(Clone, Debug)]
pub struct ShowDraft {
    pub date: Date,
    pub sets: Vec<SetDraft>,
    pub dirty: bool,
}

pub open spec fn text_or_empty(o: Option<String>) -> Seq<char> {
    match o {
        Some(s) => s@,
        None => Seq::empty(),
    }
}

fn string_or_empty(o: &Option<String>) -> (r: String)
    ensures
        r@ == text_or_empty(*o),
{
    match o {
        Some(s) => s.clone(),
        None => String::new(),
    }
}

fn decimal_string(n: u32) -> (r: String)
    ensures
        r@ == decimal(n as nat),
{
    let mut r = String::new();
    push_decimal(&mut r, n);
    r
}

impl SetDraft {
    /// The row a stored set shows.
    pub fn from_set(s: &ShowSet) -> (r: SetDraft)
        ensures
            r.time@ == clock_text(s.start.hour as nat, s.start.minute as nat),
            r.duration@ == decimal(s.duration_min as nat),
            r.dj@ == text_or_empty(s.dj),
            r.vj@ == text_or_empty(s.vj),
            r.notes@ == s.notes@,
            !r.mark_delete,
    {
        SetDraft {
            time: clock_string(s.start.hour as u32, s.start.minute as u32),
            duration: decimal_string(s.duration_min),
            dj: string_or_empty(&s.dj),
            vj: string_or_empty(&s.vj),
            notes: s.notes.clone(),
            mark_delete: false,
        }
    }

    /// The row "+ Add set" adds: 21:00 for 60 minutes, nothing else.
    pub fn default_new() -> (r: SetDraft)
        ensures
            r.time@ == "21:00"@,
            r.duration@ == "60"@,
            r.dj@ == Seq::<char>::empty(),
            r.vj@ == Seq::<char>::empty(),
            r.notes@ == Seq::<char>::empty(),
            !r.mark_delete,
    {
        SetDraft {
            time: owned("21:00"),
            duration: owned("60"),
            dj: String::new(),
            vj: String::new(),
            notes: String::new(),
            mark_delete: false,
        }
    }
}

/// The rows not marked for deletion, in order.
pub open spec fn unmarked(rows: Seq<SetDraft>) -> Seq<SetDraft>
    decreases rows.len(),
{
    if rows.len() == 0 {
        Seq::empty()
    } else {
        let kept = unmarked(rows.drop_last());
        if rows.last().mark_delete {
            kept
        } else {
            kept.push(rows.last())
        }
    }
}

impl ShowDraft {
    /// Drops the rows marked for deletion; the form has changes to save
    /// once a row is dropped.
    pub fn drop_marked(&mut self)
        ensures
            final(self).date == old(self).date,
            final(self).sets@ == unmarked(old(self).sets@),
            final(self).dirty == (old(self).dirty || final(self).sets@.len() != old(self).sets@.len()),
    {
        let ghost rows = self.sets@;
        let mut rest: Vec<SetDraft> = Vec::new();
        std::mem::swap(&mut rest, &mut self.sets);
        let before = rest.len();
        let mut kept: Vec<SetDraft> = Vec::new();
        let mut k: usize = 0;
        while rest.len() > 0
            invariant
                k + rest@.len() == rows.len(),
                before == rows.len(),
                rest@ == rows.skip(k as int),
                kept@ == unmarked(rows.take(k as int)),
            decreases rest@.len(),
        {
            let row = rest.remove(0);
            proof {
                assert(row == rows[k as int]);
                assert(rows.take(k + 1).drop_last() =~= rows.take(k as int));
                assert(rows.take(k + 1).last() == rows[k as int]);
                assert(rows.skip(k + 1) =~= rows.skip(k as int).remove(0));
            }
            if !row.mark_delete {
                kept.push(row);
            }
            k = k + 1;
        }
        assert(rows.take(k as int) =~= rows);
        let changed = kept.len() != before;
        self.sets = kept;
        if changed {
            self.dirty = true;
        }
    }

    /// Adds the row "+ Add set" adds (see `SetDraft::default_new`); the
    /// form then has changes to save.
    pub fn add_default_set(&mut self)
        ensures
            final(self).date == old(self).date,
            final(self).sets@.len() == old(self).sets@.len() + 1,
            final(self).sets@.drop_last() == old(self).sets@,
            final(self).sets@.last().time@ == "21:00"@,
            final(self).sets@.last().duration@ == "60"@,
            final(self).sets@.last().dj@ == Seq::<char>::empty(),
            final(self).sets@.last().vj@ == Seq::<char>::empty(),
            final(self).sets@.last().notes@ == Seq::<char>::empty(),
            !final(self).sets@.last().mark_delete,
            final(self).dirty,
    {
        let row = SetDraft::default_new();
        self.sets.push(row);
        self.dirty = true;
        assert(self.sets@.drop_last() =~= old(self).sets@);
    }
}

/// The start a row gives: its time field, trimmed, as `HH:MM`.
pub open spec fn draft_time(d: SetDraft) -> Option<(u8, u8)> {
    wall_time_of(trim(d.time@))
}

/// The duration a row gives: its duration field, trimmed, as a `u32`.
pub open spec fn draft_duration(d: SetDraft) -> Option<nat> {
    parse_unsigned(trim(d.duration@), 0xffff_ffff)
}

/// A row that makes a set: a start, a duration, and a DJ or a VJ.
pub open spec fn row_ok(d: SetDraft) -> bool {
    &&& draft_time(d) is Some
    &&& draft_duration(d) is Some
    &&& (opt_trimmed(d.dj@) is Some || opt_trimmed(d.vj@) is Some)
}

pub open spec fn bad_row() -> spec_fn(SetDraft) -> bool {
    |d: SetDraft| !row_ok(d)
}

/// The set a good row makes.
pub open spec fn row_set(d: SetDraft) -> SetView {
    let (h, m) = draft_time(d)->0;
    SetView {
        start: WallTime { hour: h, minute: m },
        duration_min: draft_duration(d)->0 as u32,
        dj: opt_trimmed(d.dj@),
        vj: opt_trimmed(d.vj@),
        notes: d.notes@,
    }
}

/// Turns the show form into a show: every row must give a start, a
/// duration and a DJ or VJ (the first row that does not is reported, rows
/// counted from 1); the sets are put in start order.
pub fn build_show_from_draft(draft: &ShowDraft) -> (r: Result<Show, DraftError>)
    ensures
        draft.sets@.len() == 0 ==> (r matches Err(DraftError::NoSets)),
        draft.sets@.len() > 0 ==> match first_where(draft.sets@, bad_row()) {
            Some(i) => {
                let d = draft.sets@[i];
                if draft_time(d) is None {
                    r matches Err(DraftError::BadTime { row, time, error }) && row == i + 1 && time@
                        == d.time@ && (error matches ShowError::BadTime { value } && value@ == trim(
                        d.time@,
                    ))
                } else if draft_duration(d) is None {
                    r matches Err(DraftError::BadDuration { row }) && row == i + 1
                } else {
                    r matches Err(DraftError::NoPerformer { row }) && row == i + 1
                }
            },
            None => r matches Ok(show) && show.date == draft.date && sets_view(show.sets@)
                == sorted_by_start(draft.sets@.map_values(|d: SetDraft| row_set(d))),
        },
{
    if draft.sets.len() == 0 {
        return Err(DraftError::NoSets);
    }
    let ghost p = bad_row();
    let mut sets: Vec<ShowSet> = Vec::new();
    let mut i: usize = 0;
    while i < draft.sets.len()
        invariant
            i <= draft.sets@.len(),
            p == bad_row(),
            forall|j: int| 0 <= j < i ==> !p(#[trigger] draft.sets@[j]),
            sets_view(sets@) == draft.sets@.take(i as int).map_values(|d: SetDraft| row_set(d)),
        decreases draft.sets@.len() - i,
    {
        let s = &draft.sets[i];
        let t = trimmed(s.time.as_str());
        let start = match WallTime::parse(t.as_str()) {
            Ok(w) => w,
            Err(e) => {
                proof {
                    lemma_first_where_at(draft.sets@, p, i as int);
                }
                return Err(DraftError::BadTime { row: i + 1, time: s.time.clone(), error: e });
            },
        };
        let dv = chars_of(trimmed(s.duration.as_str()).as_str());
        let duration_min = match parse_unsigned_range(&dv, 0, dv.len(), 0xffff_ffff) {
            Some(n) => n,
            None => {
                assert(dv@.subrange(0, dv@.len() as int) =~= dv@);
                proof {
                    lemma_first_where_at(draft.sets@, p, i as int);
                }
                return Err(DraftError::BadDuration { row: i + 1 });
            },
        };
        assert(dv@.subrange(0, dv@.len() as int) =~= dv@);
        let dj = non_empty(s.dj.as_str());
        let vj = non_empty(s.vj.as_str());
        if dj.is_none() && vj.is_none() {
            proof {
                lemma_first_where_at(draft.sets@, p, i as int);
            }
            return Err(DraftError::NoPerformer { row: i + 1 });
        }
        let set = ShowSet { start, duration_min, dj, vj, notes: s.notes.clone() };
        let ghost before = sets@;
        sets.push(set);
        proof {
            assert(set_view(set) == row_set(*s));
            assert(draft.sets@.take(i + 1) =~= draft.sets@.take(i as int).push(*s));
            assert(sets_view(sets@) =~= sets_view(before).push(set_view(set)));
            assert(draft.sets@.take(i + 1).map_values(|d: SetDraft| row_set(d)) =~= draft.sets@.take(
                i as int,
            ).map_values(|d: SetDraft| row_set(d)).push(row_set(*s)));
        }
        i = i + 1;
    }
    proof {
        lemma_first_where_none(draft.sets@, p);
        assert(draft.sets@.take(i as int) =~= draft.sets@);
        lemma_sorted_view(sets@);
    }
    let sorted = sort_ranked(sets);
    Ok(Show { date: draft.date, sets: sorted })
}

/// A show the form builds passes `Show::validate_shape`: it has sets, and
/// each names a DJ or a VJ.
pub proof fn lemma_built_show_shape(draft: ShowDraft, show: Show)
    requires
        draft.sets@.len() > 0,
        first_where(draft.sets@, bad_row()) is None,
        sets_view(show.sets@) == sorted_by_start(draft.sets@.map_values(|d: SetDraft| row_set(d))),
    ensures
        shape_ok(show),
{
    let rows = draft.sets@.map_values(|d: SetDraft| row_set(d));
    crate::seqs::lemma_first_where(draft.sets@, bad_row());
    lemma_sorted_by_start_members(rows);
    assert(sets_view(show.sets@).len() == show.sets@.len());
    lemma_first_empty_set(show.sets@);
    if let Some(i) = first_empty_set(show.sets@) {
        assert(sets_view(show.sets@)[i] == set_view(show.sets@[i]));
        let j = choose|j: int| 0 <= j < rows.len() && #[trigger] sorted_by_start(rows)[i] == rows[j];
        assert(rows[j] == row_set(draft.sets@[j]));
        assert(!bad_row()(draft.sets@[j]));
    }
}

// ---------------------------------------------------------------------
// dirty check
// ---------------------------------------------------------------------

/// A form row shows exactly a stored set.
pub open spec fn row_shows(d: SetDraft, s: ShowSet) -> bool {
    &&& d.time@ == clock_text(s.start.hour as nat, s.start.minute as nat)
    &&& d.duration@ == decimal(s.duration_min as nat)
    &&& d.dj@ == text_or_empty(s.dj)
    &&& d.vj@ == text_or_empty(s.vj)
    &&& d.notes@ == s.notes@
}

/// The form's rows show exactly a stored show's sets.
pub open spec fn rows_show(ds: Seq<SetDraft>, ss: Seq<ShowSet>) -> bool {
    ds.len() == ss.len() && forall|i: int| 0 <= i < ds.len() ==> row_shows(#[trigger] ds[i], ss[i])
}

/// Whether the form has changes to save: already marked, or its rows
/// differ from the stored show (or there is none stored).
pub fn draft_is_dirty(draft: &ShowDraft, disk: Option<&Show>) -> (r: bool)
    ensures
        r == (draft.dirty || match disk {
            Some(s) => !rows_show(draft.sets@, s.sets@),
            None => true,
        }),
{
    if draft.dirty {
        return true;
    }
    let s = match disk {
        Some(s) => s,
        None => {
            return true;
        },
    };
    if draft.sets.len() != s.sets.len() {
        return true;
    }
    let mut i: usize = 0;
    while i < draft.sets.len()
        invariant
            i <= draft.sets@.len(),
            draft.sets@.len() == s.sets@.len(),
            !draft.dirty,
            disk == Some(s),
            forall|j: int| 0 <= j < i ==> row_shows(#[trigger] draft.sets@[j], s.sets@[j]),
        decreases draft.sets@.len() - i,
    {
        let d = &draft.sets[i];
        let c = SetDraft::from_set(&s.sets[i]);
        let same = str_eq(d.time.as_str(), c.time.as_str()) && str_eq(d.duration.as_str(), c.duration.as_str())
            && str_eq(d.dj.as_str(), c.dj.as_str()) && str_eq(d.vj.as_str(), c.vj.as_str()) && str_eq(
            d.notes.as_str(),
            c.notes.as_str(),
        );
        if !same {
            proof {
                assert(!row_shows(draft.sets@[i as int], s.sets@[i as int]));
                assert(!rows_show(draft.sets@, s.sets@));
            }
            return true;
        }
        i = i + 1;
    }
    false
}

/// The form for the stored show with this date (the first one), if any.
pub fn load_show_draft(shows: &Vec<Show>, date: Date) -> (r: Option<ShowDraft>)
    ensures
        match first_where(shows@, same_date(date)) {
            Some(i) => r matches Some(d) && d.date == shows@[i].date && !d.dirty && rows_show(d.sets@, shows@[i].sets@),
            None => r is None,
        },
{
    let ghost p = same_date(date);
    let mut i: usize = 0;
    while i < shows.len()
        invariant
            i <= shows@.len(),
            p == same_date(date),
            forall|j: int| 0 <= j < i ==> !p(#[trigger] shows@[j]),
        decreases shows@.len() - i,
    {
        if shows[i].date.same(&date) {
            proof {
                lemma_first_where_at(shows@, p, i as int);
            }
            let show = &shows[i];
            let mut sets: Vec<SetDraft> = Vec::new();
            let mut j: usize = 0;
            while j < show.sets.len()
                invariant
                    j <= show.sets@.len(),
                    sets@.len() == j,
                    forall|k: int| 0 <= k < j ==> row_shows(#[trigger] sets@[k], show.sets@[k]),
                decreases show.sets@.len() - j,
            {
                sets.push(SetDraft::from_set(&show.sets[j]));
                j = j + 1;
            }
            return Some(ShowDraft { date: show.date, sets, dirty: false });
        }
        i = i + 1;
    }
    proof {
        lemma_first_where_none(shows@, p);
    }
    None
}

/// A performer field of a stored set that the form gives back as it is:
/// empty, or text that is not empty and not padded with whitespace.
pub open spec fn plain_name(o: Option<String>) -> bool {
    o matches Some(t) ==> t@.len() > 0 && trim(t@) == t@
}

/// A stored set that survives a trip through the form: a start of at
/// most 23:59, plain performer fields, and a DJ or a VJ.
pub open spec fn form_safe(s: ShowSet) -> bool {
    &&& s.start.hour <= 23
    &&& s.start.minute <= 59
    &&& plain_name(s.dj)
    &&& plain_name(s.vj)
    &&& (s.dj is Some || s.vj is Some)
}

proof fn lemma_row_round_trip(d: SetDraft, s: ShowSet)
    requires
        row_shows(d, s),
        form_safe(s),
    ensures
        row_ok(d),
        row_set(d) == set_view(s),
{
    let h = s.start.hour as nat;
    let m = s.start.minute as nat;
    lemma_two_digits(h);
    lemma_two_digits(m);
    let t = clock_text(h, m);
    assert(t[0] == two_digits(h)[0]);
    assert(t[t.len() - 1] == two_digits(m)[1]);
    lemma_trim_unchanged(t);
    lemma_wall_time_round_trip(s.start);
    let n = decimal(s.duration_min as nat);
    lemma_decimal_digits(s.duration_min as nat);
    assert(is_digit(n[0]) && is_digit(n[n.len() - 1]));
    lemma_trim_unchanged(n);
    lemma_trim_unchanged(Seq::<char>::empty());
    assert(draft_duration(d) == Some(s.duration_min as nat));
}

/// Opening a stored show in the form and building it again gives back
/// its sets, when they are in start order and each set starts by 23:59,
/// names its performers by plain text and has a DJ or a VJ.
pub proof fn lemma_form_round_trip(draft: ShowDraft, show: Show)
    requires
        rows_show(draft.sets@, show.sets@),
        in_start_order(sets_view(show.sets@)),
        forall|i: int| 0 <= i < show.sets@.len() ==> form_safe(#[trigger] show.sets@[i]),
    ensures
        first_where(draft.sets@, bad_row()) is None,
        sorted_by_start(draft.sets@.map_values(|d: SetDraft| row_set(d))) == sets_view(show.sets@),
{
    let rows = draft.sets@.map_values(|d: SetDraft| row_set(d));
    assert forall|i: int| 0 <= i < draft.sets@.len() implies !bad_row()(#[trigger] draft.sets@[i]) by {
        lemma_row_round_trip(draft.sets@[i], show.sets@[i]);
    }
    lemma_first_where_none(draft.sets@, bad_row());
    assert forall|i: int| 0 <= i < rows.len() implies #[trigger] rows[i] == sets_view(show.sets@)[i] by {
        lemma_row_round_trip(draft.sets@[i], show.sets@[i]);
    }
    assert(rows =~= sets_view(show.sets@));
    lemma_sorted_by_start_in_order(sets_view(show.sets@));
}

pub open spec fn same_date(date: Date) -> spec_fn(Show) -> bool {
    |s: Show| s.date == date
}

/// How a slug field looks against the table: empty, a known performer, or
/// unknown.
#[derive(Clone, Copy, Debug, PartialEq, Eq, Structural)]
pub enum SlugStatus {
    Empty,
    Known,
    Unknown,
}

/// The status of a slug field: its trimmed text is empty, a performer's
/// slug, or neither.
pub fn slug_status(value: &str, performers: &Performers) -> (r: SlugStatus)
    ensures
        trim(value@).len() == 0 ==> r == SlugStatus::Empty,
        trim(value@).len() > 0 && has_key(performers.0@, trim(value@)) ==> r == SlugStatus::Known,
        trim(value@).len() > 0 && !has_key(performers.0@, trim(value@)) ==> r == SlugStatus::Unknown,
{
    let t = trimmed(value);
    if t.as_str().unicode_len() == 0 {
        SlugStatus::Empty
    } else if performers.contains(t.as_str()) {
        SlugStatus::Known
    } else {
        SlugStatus::Unknown
    }
}

// ---------------------------------------------------------------------
// new show, new performer
// ---------------------------------------------------------------------

/// Starts a new show on `date`, unless a show has that date already.
pub fn new_show_draft_on(shows: &Vec<Show>, date: Date) -> (r: Result<ShowDraft, DraftError>)
    ensures
        if exists|i: int| 0 <= i < shows@.len() && (#[trigger] shows@[i]).date@ == date@ {
            r matches Err(DraftError::ShowExists { date: d }) && d == date
        } else {
            r matches Ok(d) && d.date == date && d.sets@.len() == 0 && d.dirty
        },
{
    let mut i: usize = 0;
    while i < shows.len()
        invariant
            i <= shows@.len(),
            forall|j: int| 0 <= j < i ==> (#[trigger] shows@[j]).date@ != date@,
        decreases shows@.len() - i,
    {
        if shows[i].date.same(&date) {
            assert(shows@[i as int].date@ == date@);
            return Err(DraftError::ShowExists { date });
        }
        i = i + 1;
    }
    Ok(ShowDraft { date, sets: Vec::new(), dirty: true })
}

/// Starts a new show from the date typed (`YYYY-MM-DD`), unless a show
/// has that date already.
pub fn new_show_draft(shows: &Vec<Show>, text: &str) -> (r: Result<ShowDraft, DraftError>)
    ensures
        match chrono_parse_ymd(text@) {
            None => r matches Err(DraftError::BadDate),
            Some(v) => if exists|i: int| 0 <= i < shows@.len() && (#[trigger] shows@[i]).date@ == v {
                r matches Err(DraftError::ShowExists { date }) && date@ == v
            } else {
                r matches Ok(d) && d.date@ == v && d.sets@.len() == 0 && d.dirty
            },
        },
{
    match Date::parse_ymd(text) {
        Some(d) => new_show_draft_on(shows, d),
        None => Err(DraftError::BadDate),
    }
}

/// The new-performer fields, trimmed, when the slug is valid and a
/// display name is given.
pub fn new_performer_form(slug: &str, name: &str) -> (r: Result<(String, String), DraftError>)
    ensures
        !valid_slug(trim(slug@)) ==> (r matches Err(DraftError::BadSlug)),
        valid_slug(trim(slug@)) && trim(name@).len() == 0 ==> (r matches Err(DraftError::NameRequired)),
        valid_slug(trim(slug@)) && trim(name@).len() > 0 ==> (r matches Ok((s, n)) && s@ == trim(slug@) && n@
            == trim(name@)),
{
    let s = trimmed(slug);
    let n = trimmed(name);
    if !is_valid_slug(s.as_str()) {
        return Err(DraftError::BadSlug);
    }
    if n.as_str().unicode_len() == 0 {
        return Err(DraftError::NameRequired);
    }
    Ok((s, n))
}

// ---------------------------------------------------------------------
// the performer form
// ---------------------------------------------------------------------

/// A performer being edited; the aliases one per line.
#[derive(Clone, Debug)]
pub struct PerformerDraft {
    pub slug: String,
    pub display_name: String,
    pub aliases: String,
    pub twitch: String,
    pub cdn: String,
    pub notes: String,
    pub dirty: bool,
}

/// Texts joined by `sep`.
pub open spec fn joined(s: Seq<Seq<char>>, sep: Seq<char>) -> Seq<char>
    decreases s.len(),
{
    if s.len() == 0 {
        Seq::empty()
    } else if s.len() == 1 {
        s[0]
    } else {
        joined(s.drop_last(), sep) + sep + s.last()
    }
}

fn join_strings(v: &Vec<String>, sep: &str) -> (r: String)
    ensures
        r@ == joined(texts(v@), sep@),
{
    let mut r = String::new();
    let mut i: usize = 0;
    while i < v.len()
        invariant
            i <= v@.len(),
            r@ == joined(texts(v@.take(i as int)), sep@),
        decreases v@.len() - i,
    {
        let ghost before = texts(v@.take(i as int));
        if i > 0 {
            r.append(sep);
        }
        r.append(v[i].as_str());
        proof {
            let now = texts(v@.take(i + 1));
            assert(now.drop_last() =~= before);
            assert(now.last() == v@[i as int]@);
            if i == 0 {
                assert(now.len() == 1);
            }
        }
        i = i + 1;
    }
    assert(v@.take(i as int) =~= v@);
    r
}

impl PerformerDraft {
    /// The form for a stored performer.
    pub fn from_performer(slug: &str, p: &Performer) -> (r: PerformerDraft)
        ensures
            r.slug@ == slug@,
            r.display_name@ == p.display_name@,
            r.aliases@ == joined(texts(p.aliases@), seq!['\n']),
            r.twitch@ == p.twitch@,
            r.cdn@ == p.cdn@,
            r.notes@ == p.notes@,
            !r.dirty,
    {
        let aliases = join_strings(&p.aliases, "\n");
        proof {
            reveal_strlit("\n");
            assert("\n"@ =~= seq!['\n']);
        }
        PerformerDraft {
            slug: owned(slug),
            display_name: p.display_name.clone(),
            aliases,
            twitch: p.twitch.clone(),
            cdn: p.cdn.clone(),
            notes: p.notes.clone(),
            dirty: false,
        }
    }
}

/// Scanning text for aliases: the aliases so far and the current line.
pub open spec fn alias_scan(s: Seq<char>) -> (Seq<Seq<char>>, Seq<char>)
    decreases s.len(),
{
    if s.len() == 0 {
        (Seq::empty(), Seq::empty())
    } else {
        let (done, cur) = alias_scan(s.drop_last());
        if s.last() == '\n' {
            (keep_line(done, cur), Seq::empty())
        } else {
            (done, cur.push(s.last()))
        }
    }
}

/// A line, trimmed, is kept when something is left.
pub open spec fn keep_line(done: Seq<Seq<char>>, line: Seq<char>) -> Seq<Seq<char>> {
    if trim(line).len() > 0 {
        done.push(trim(line))
    } else {
        done
    }
}

/// The aliases typed one per line: each line trimmed, empty ones dropped.
pub open spec fn alias_lines(s: Seq<char>) -> Seq<Seq<char>> {
    keep_line(alias_scan(s).0, alias_scan(s).1)
}

fn parse_alias_lines(s: &str) -> (r: Vec<String>)
    ensures
        texts(r@) == alias_lines(s@),
{
    let v = chars_of(s);
    let mut out: Vec<String> = Vec::new();
    let mut cur: Vec<char> = Vec::new();
    let mut i: usize = 0;
    while i < v.len()
        invariant
            i <= v@.len(),
            v@ == s@,
            (texts(out@), cur@) == alias_scan(v@.take(i as int)),
        decreases v@.len() - i,
    {
        let ghost pre = v@.take(i + 1);
        assert(pre.drop_last() =~= v@.take(i as int));
        assert(pre.last() == v@[i as int]);
        if v[i] == '\n' {
            let line = string_from_chars(&cur);
            let t = trimmed(line.as_str());
            if t.as_str().unicode_len() > 0 {
                let ghost o = out@;
                out.push(t);
                assert(texts(out@) =~= texts(o).push(t@));
            }
            cur = Vec::new();
        } else {
            cur.push(v[i]);
        }
        i = i + 1;
    }
    assert(v@.take(i as int) =~= v@);
    let line = string_from_chars(&cur);
    let t = trimmed(line.as_str());
    if t.as_str().unicode_len() > 0 {
        let ghost o = out@;
        out.push(t);
        assert(texts(out@) =~= texts(o).push(t@));
    }
    out
}

/// The performer a saved form gives: names trimmed (notes as typed), the
/// aliases one per line.
pub open spec fn saved_view(d: PerformerDraft) -> PerformerView {
    PerformerView {
        display_name: trim(d.display_name@),
        aliases: alias_lines(d.aliases@),
        notes: d.notes@,
        twitch: trim(d.twitch@),
        cdn: trim(d.cdn@),
    }
}

/// Saves a performer form into the table: the performer must exist and
/// the display name must not be blank; otherwise the table is unchanged.
pub fn apply_performer_draft(performers: &mut Performers, draft: &PerformerDraft) -> (r: Result<(), DraftError>)
    requires
        old(performers).wf(),
    ensures
        final(performers).wf(),
        r is Err ==> *final(performers) == *old(performers),
        !has_key(old(performers).0@, draft.slug@) ==> (r matches Err(DraftError::PerformerNotFound { slug })
            && slug@ == draft.slug@),
        has_key(old(performers).0@, draft.slug@) && trim(draft.display_name@).len() == 0 ==> (r matches Err(
            DraftError::NameRequired,
        )),
        has_key(old(performers).0@, draft.slug@) && trim(draft.display_name@).len() > 0 ==> r is Ok && {
            let i = find_key(old(performers).0@, draft.slug@)->0;
            &&& final(performers).0@.len() == old(performers).0@.len()
            &&& final(performers).0@[i].0 == old(performers).0@[i].0
            &&& final(performers).0@[i].1@ == saved_view(*draft)
            &&& forall|j: int| 0 <= j < old(performers).0@.len() && j != i ==> #[trigger] final(performers).0@[j]
                == old(performers).0@[j]
        },
{
    proof {
        lemma_find_key(performers.0@, draft.slug@);
    }
    let i = match position_of(&performers.0, draft.slug.as_str()) {
        Some(i) => i,
        None => {
            return Err(DraftError::PerformerNotFound { slug: draft.slug.clone() });
        },
    };
    let name = trimmed(draft.display_name.as_str());
    if name.as_str().unicode_len() == 0 {
        return Err(DraftError::NameRequired);
    }
    let ghost before = performers.0@;
    let p = Performer {
        display_name: name,
        aliases: parse_alias_lines(draft.aliases.as_str()),
        notes: draft.notes.clone(),
        twitch: trimmed(draft.twitch.as_str()),
        cdn: trimmed(draft.cdn.as_str()),
    };
    let (k, _) = performers.0.remove(i);
    performers.0.insert(i, (k, p));
    proof {
        assert(performers.0@ =~= before.update(i as int, (before[i as int].0, p)));
        assert forall|a: int, b: int| 0 <= a < b < performers.0@.len() implies crate::text::text_lt(
            #[trigger] performers.0@[a].0@,
            #[trigger] performers.0@[b].0@,
        ) by {
            assert(performers.0@[a].0@ == before[a].0@);
            assert(performers.0@[b].0@ == before[b].0@);
        }
    }
    Ok(())
}

/// An alias the form gives back as it is: not empty, not padded with
/// whitespace, and on one line.
pub open spec fn plain_alias(a: Seq<char>) -> bool {
    &&& a.len() > 0
    &&& trim(a) == a
    &&& !a.contains('\n')
}

/// Scanning text that ends with a line without a line break: that line is
/// still being read.
proof fn lemma_alias_scan_tail(p: Seq<char>, y: Seq<char>)
    requires
        !y.contains('\n'),
    ensures
        alias_scan(p + y) == (alias_scan(p).0, alias_scan(p).1 + y),
    decreases y.len(),
{
    if y.len() == 0 {
        assert(p + y =~= p);
        assert(alias_scan(p).1 + y =~= alias_scan(p).1);
    } else {
        let z = y.drop_last();
        assert(!z.contains('\n')) by {
            if z.contains('\n') {
                let k = choose|k: int| 0 <= k < z.len() && z[k] == '\n';
                assert(y[k] == '\n');
            }
        }
        lemma_alias_scan_tail(p, z);
        assert((p + y).drop_last() =~= p + z);
        assert((p + y).last() == y.last());
        assert(y.last() != '\n') by {
            assert(y[y.len() - 1] == y.last());
        }
        assert((alias_scan(p).1 + z).push(y.last()) =~= alias_scan(p).1 + y);
    }
}

proof fn lemma_alias_scan_joined(s: Seq<Seq<char>>)
    requires
        s.len() > 0,
        forall|i: int| 0 <= i < s.len() ==> plain_alias(#[trigger] s[i]),
    ensures
        alias_scan(joined(s, seq!['\n'])) == (s.drop_last(), s.last()),
    decreases s.len(),
{
    let nl = seq!['\n'];
    if s.len() == 1 {
        assert(plain_alias(s[0]));
        lemma_alias_scan_tail(Seq::empty(), s[0]);
        assert(Seq::<char>::empty() + s[0] =~= s[0]);
        assert(s.drop_last() =~= Seq::<Seq<char>>::empty());
    } else {
        let t = s.drop_last();
        assert forall|i: int| 0 <= i < t.len() implies plain_alias(#[trigger] t[i]) by {
            assert(t[i] == s[i]);
        }
        lemma_alias_scan_joined(t);
        let j = joined(t, nl) + nl;
        assert(j.drop_last() =~= joined(t, nl));
        assert(j.last() == '\n');
        assert(plain_alias(t.last())) by {
            assert(t.last() == s[t.len() - 1]);
        }
        assert(t.drop_last().push(t.last()) =~= t);
        assert(alias_scan(j) == (t, Seq::<char>::empty()));
        assert(plain_alias(s.last())) by {
            assert(s.last() == s[s.len() - 1]);
        }
        lemma_alias_scan_tail(j, s.last());
        assert(joined(s, nl) == j + s.last());
        assert(Seq::<char>::empty() + s.last() =~= s.last());
    }
}

/// Aliases joined one per line read back as the same aliases, when each
/// is a plain one-line text.
proof fn lemma_alias_lines_joined(s: Seq<Seq<char>>)
    requires
        forall|i: int| 0 <= i < s.len() ==> plain_alias(#[trigger] s[i]),
    ensures
        alias_lines(joined(s, seq!['\n'])) == s,
{
    if s.len() == 0 {
        lemma_trim_unchanged(Seq::<char>::empty());
        assert(alias_lines(joined(s, seq!['\n'])) =~= s);
    } else {
        lemma_alias_scan_joined(s);
        assert(plain_alias(s.last())) by {
            assert(s.last() == s[s.len() - 1]);
        }
        assert(s.drop_last().push(s.last()) =~= s);
    }
}

/// Opening a stored performer in the form and saving it unchanged gives
/// back the performer, when its name and links are not padded with
/// whitespace, its name is not empty, and each alias is a plain one-line
/// text.
pub proof fn lemma_performer_form_round_trip(p: Performer, d: PerformerDraft)
    requires
        d.display_name@ == p.display_name@,
        d.aliases@ == joined(texts(p.aliases@), seq!['\n']),
        d.twitch@ == p.twitch@,
        d.cdn@ == p.cdn@,
        d.notes@ == p.notes@,
        p.display_name@.len() > 0,
        trim(p.display_name@) == p.display_name@,
        trim(p.twitch@) == p.twitch@,
        trim(p.cdn@) == p.cdn@,
        forall|i: int| 0 <= i < p.aliases@.len() ==> plain_alias(#[trigger] p.aliases@[i]@),
    ensures
        trim(d.display_name@).len() > 0,
        saved_view(d) == p@,
{
    let a = texts(p.aliases@);
    assert forall|i: int| 0 <= i < a.len() implies plain_alias(#[trigger] a[i]) by {
        assert(a[i] == p.aliases@[i]@);
    }
    lemma_alias_lines_joined(a);
}

// ---------------------------------------------------------------------
// the lists
// ---------------------------------------------------------------------

/// A show date in the list, which runs newest first.
#[derive(Clone, Copy, Debug)]
pub struct ListedDate {
    pub date: Date,
}

impl Ranked for ListedDate {
    open spec fn rank_le(self, other: Self) -> bool {
        !date_lt(self.date, other.date)
    }

    proof fn lemma_rank_total(a: Self, b: Self) {
    }

    proof fn lemma_rank_transitive(a: Self, b: Self, c: Self) {
    }

    fn rank_le_exec(&self, other: &Self) -> (r: bool) {
        !self.date.before(&other.date)
    }
}

pub open spec fn listed_dates(shows: Seq<Show>) -> Seq<ListedDate> {
    shows.map_values(|s: Show| ListedDate { date: s.date })
}

/// The dates of `ds` whose `YYYY-MM-DD` text contains `filter` (all when
/// `filter` is empty), in the order given.
pub open spec fn dates_matching(ds: Seq<ListedDate>, filter: Seq<char>) -> Seq<Date>
    decreases ds.len(),
{
    if ds.len() == 0 {
        Seq::empty()
    } else {
        let rest = dates_matching(ds.drop_last(), filter);
        if filter.len() == 0 || has_substring(date_text(ds.last().date@), filter) {
            rest.push(ds.last().date)
        } else {
            rest
        }
    }
}

/// The show list for a filter already in lowercase: every show's date,
/// newest first, whose `YYYY-MM-DD` text contains the filter (all of them
/// when it is empty).
pub fn show_list_lowered(shows: &Vec<Show>, lowered: &str) -> (r: Vec<Date>)
    ensures
        r@ == dates_matching(stable_sorted(listed_dates(shows@)), lowered@),
{
    let mut listed: Vec<ListedDate> = Vec::new();
    let mut i: usize = 0;
    while i < shows.len()
        invariant
            i <= shows@.len(),
            listed@ == listed_dates(shows@.take(i as int)),
        decreases shows@.len() - i,
    {
        listed.push(ListedDate { date: shows[i].date });
        assert(listed_dates(shows@.take(i + 1)) =~= listed_dates(shows@.take(i as int)).push(
            ListedDate { date: shows@[i as int].date },
        ));
        i = i + 1;
    }
    assert(shows@.take(i as int) =~= shows@);
    let sorted = sort_ranked(listed);
    let mut out: Vec<Date> = Vec::new();
    let mut j: usize = 0;
    while j < sorted.len()
        invariant
            j <= sorted@.len(),
            out@ == dates_matching(sorted@.take(j as int), lowered@),
        decreases sorted@.len() - j,
    {
        let d = sorted[j].date;
        let ghost pre = sorted@.take(j + 1);
        assert(pre.drop_last() =~= sorted@.take(j as int));
        let keep = lowered.unicode_len() == 0 || contains_str(d.to_text().as_str(), lowered);
        if keep {
            out.push(d);
        }
        j = j + 1;
    }
    assert(sorted@.take(j as int) =~= sorted@);
    out
}

/// The show list: every show's date, newest first, that contains the
/// filter (compared in lowercase).
pub fn show_list(shows: &Vec<Show>, filter: &str) -> (r: Vec<Date>)
    ensures
        r@ == dates_matching(stable_sorted(listed_dates(shows@)), lowercase_of(filter@)),
{
    let f = to_lowercase(filter);
    show_list_lowered(shows, f.as_str())
}

/// What the performer filter searches: the slug, the display name and
/// the aliases (these two in lowercase), separated by spaces.
pub open spec fn performer_haystack(slug: Seq<char>, p: Performer) -> Seq<char> {
    slug + " "@ + lowercase_of(p.display_name@) + " "@ + lowercase_of(joined(texts(p.aliases@), " "@))
}

/// The `(slug, display name)` of the entries that match the filter.
pub open spec fn performers_matching(es: Seq<(String, Performer)>, filter: Seq<char>) -> Seq<(Seq<char>, Seq<char>)>
    decreases es.len(),
{
    if es.len() == 0 {
        Seq::empty()
    } else {
        let rest = performers_matching(es.drop_last(), filter);
        let e = es.last();
        if filter.len() == 0 || has_substring(performer_haystack(e.0@, e.1), filter) {
            rest.push((e.0@, e.1.display_name@))
        } else {
            rest
        }
    }
}

/// The performer list: `(slug, display name)` in slug order, of those
/// that match the filter (compared in lowercase).
pub fn performer_list(performers: &Performers, filter: &str) -> (r: Vec<(String, String)>)
    ensures
        r@.map_values(|e: (String, String)| (e.0@, e.1@)) == performers_matching(performers.0@, lowercase_of(filter@)),
{
    let f = to_lowercase(filter);
    let mut out: Vec<(String, String)> = Vec::new();
    let mut i: usize = 0;
    while i < performers.0.len()
        invariant
            i <= performers.0@.len(),
            f@ == lowercase_of(filter@),
            out@.map_values(|e: (String, String)| (e.0@, e.1@)) == performers_matching(
                performers.0@.take(i as int),
                f@,
            ),
        decreases performers.0@.len() - i,
    {
        let (slug, p) = (&performers.0[i].0, &performers.0[i].1);
        let ghost pre = performers.0@.take(i + 1);
        assert(pre.drop_last() =~= performers.0@.take(i as int));
        assert(pre.last() == performers.0@[i as int]);
        let mut hay = slug.clone();
        hay.append(" ");
        let dn = to_lowercase(p.display_name.as_str());
        hay.append(dn.as_str());
        hay.append(" ");
        let al = join_strings(&p.aliases, " ");
        let all = to_lowercase(al.as_str());
        hay.append(all.as_str());
        assert(hay@ =~= performer_haystack(slug@, *p));
        let keep = f.as_str().unicode_len() == 0 || contains_str(hay.as_str(), f.as_str());
        if keep {
            let ghost o = out@;
            out.push((slug.clone(), p.display_name.clone()));
            assert(out@.map_values(|e: (String, String)| (e.0@, e.1@)) =~= o.map_values(
                |e: (String, String)| (e.0@, e.1@),
            ).push((slug@, p.display_name@)));
        }
        i = i + 1;
    }
    assert(performers.0@.take(i as int) =~= performers.0@);
    out
}

// ---------------------------------------------------------------------
// queries
// ---------------------------------------------------------------------

/// A performer found by the last-played search.
#[derive(Clone, Debug)]
pub struct SearchHit {
    pub slug: String,
    pub display_name: String,
    pub last_played: Option<Date>,
}

/// Most recently played first, never played last, and those by slug.
impl Ranked for SearchHit {
    open spec fn rank_le(self, other: Self) -> bool {
        match (self.last_played, other.last_played) {
            (Some(x), Some(y)) => !date_lt(x, y),
            (Some(_), None) => true,
            (None, Some(_)) => false,
            (None, None) => !text_lt(other.slug@, self.slug@),
        }
    }

    proof fn lemma_rank_total(a: Self, b: Self) {
        lemma_text_lt_asymmetric(a.slug@, b.slug@);
    }

    proof fn lemma_rank_transitive(a: Self, b: Self, c: Self) {
        if a.last_played is None && b.last_played is None && c.last_played is None {
            lemma_text_lt_total(a.slug@, b.slug@);
            lemma_text_lt_total(b.slug@, c.slug@);
            if text_lt(c.slug@, a.slug@) {
                if text_lt(a.slug@, b.slug@) {
                    lemma_text_lt_transitive(c.slug@, a.slug@, b.slug@);
                }
            }
        }
    }

    fn rank_le_exec(&self, other: &Self) -> (r: bool) {
        match (self.last_played, other.last_played) {
            (Some(x), Some(y)) => !x.before(&y),
            (Some(_), None) => true,
            (None, Some(_)) => false,
            (None, None) => !str_lt(other.slug.as_str(), self.slug.as_str()),
        }
    }
}

/// Some alias contains `q` in lowercase.
pub open spec fn alias_hit(aliases: Seq<String>, q: Seq<char>) -> bool {
    exists|i: int| 0 <= i < aliases.len() && has_substring(lowercase_of(#[trigger] aliases[i]@), q)
}

/// The slug, display name or an alias contains `q` in lowercase.
pub open spec fn performer_hit(slug: Seq<char>, p: Performer, q: Seq<char>) -> bool {
    ||| has_substring(lowercase_of(slug), q)
    ||| has_substring(lowercase_of(p.display_name@), q)
    ||| alias_hit(p.aliases@, q)
}

/// The performers (in slug order) that `q` finds, with their last date.
pub open spec fn search_hits(es: Seq<(String, Performer)>, shows: Seq<Show>, q: Seq<char>) -> Seq<SearchHit>
    decreases es.len(),
{
    if es.len() == 0 {
        Seq::empty()
    } else {
        let rest = search_hits(es.drop_last(), shows, q);
        let e = es.last();
        if performer_hit(e.0@, e.1, q) {
            rest.push(SearchHit { slug: e.0, display_name: e.1.display_name, last_played: last_date(shows, e.0@) })
        } else {
            rest
        }
    }
}

fn any_alias_hit(aliases: &Vec<String>, q: &str) -> (r: bool)
    ensures
        r == alias_hit(aliases@, q@),
{
    let mut i: usize = 0;
    while i < aliases.len()
        invariant
            i <= aliases@.len(),
            forall|j: int| 0 <= j < i ==> !has_substring(lowercase_of(#[trigger] aliases@[j]@), q@),
        decreases aliases@.len() - i,
    {
        let l = to_lowercase(aliases[i].as_str());
        if contains_str(l.as_str(), q) {
            return true;
        }
        i = i + 1;
    }
    false
}

/// The last-played search: the performers whose slug, display name or an
/// alias contains the query (trimmed, in lowercase), most recently played
/// first, never played last; nothing for an empty query.
pub fn last_played_search(ds: &Dataset, query: &str) -> (r: Vec<SearchHit>)
    ensures
        lowercase_of(trim(query@)).len() == 0 ==> r@.len() == 0,
        lowercase_of(trim(query@)).len() > 0 ==> r@ == stable_sorted(
            search_hits(ds.performers.0@, ds.shows@, lowercase_of(trim(query@))),
        ),
{
    let t = trimmed(query);
    let q = to_lowercase(t.as_str());
    if q.as_str().unicode_len() == 0 {
        return Vec::new();
    }
    let map = last_played_map(ds);
    let mut hits: Vec<SearchHit> = Vec::new();
    let mut i: usize = 0;
    while i < ds.performers.0.len()
        invariant
            i <= ds.performers.0@.len(),
            forall|k: Seq<char>| #[trigger] crate::commands::lookup_date(map@, k) == last_date(ds.shows@, k),
            hits@ == search_hits(ds.performers.0@.take(i as int), ds.shows@, q@),
        decreases ds.performers.0@.len() - i,
    {
        let (slug, p) = (&ds.performers.0[i].0, &ds.performers.0[i].1);
        let ghost pre = ds.performers.0@.take(i + 1);
        assert(pre.drop_last() =~= ds.performers.0@.take(i as int));
        assert(pre.last() == ds.performers.0@[i as int]);
        let ls = to_lowercase(slug.as_str());
        let ln = to_lowercase(p.display_name.as_str());
        let hit = contains_str(ls.as_str(), q.as_str()) || contains_str(ln.as_str(), q.as_str())
            || any_alias_hit(&p.aliases, q.as_str());
        if hit {
            let last = lookup_in(&map, slug.as_str());
            hits.push(SearchHit { slug: slug.clone(), display_name: p.display_name.clone(), last_played: last });
        }
        i = i + 1;
    }
    assert(ds.performers.0@.take(i as int) =~= ds.performers.0@);
    sort_ranked(hits)
}

/// One line of a performer's appearance history.
#[derive(Clone, Copy, Debug)]
pub struct HistoryRow {
    pub date: Date,
    /// `"DJ"` or `"VJ"`.
    pub role: &'static str,
    pub start: WallTime,
}

/// Newest show first; otherwise in order.
impl Ranked for HistoryRow {
    open spec fn rank_le(self, other: Self) -> bool {
        !date_lt(self.date, other.date)
    }

    proof fn lemma_rank_total(a: Self, b: Self) {
    }

    proof fn lemma_rank_transitive(a: Self, b: Self, c: Self) {
    }

    fn rank_le_exec(&self, other: &Self) -> (r: bool) {
        !self.date.before(&other.date)
    }
}

/// The history lines one set gives slug `k`: as DJ, then as VJ.
pub open spec fn set_history(date: Date, set: ShowSet, k: Seq<char>) -> Seq<HistoryRow> {
    (if set.dj matches Some(d) && d@ == k {
        seq![HistoryRow { date, role: "DJ", start: set.start }]
    } else {
        Seq::empty()
    }) + (if set.vj matches Some(v) && v@ == k {
        seq![HistoryRow { date, role: "VJ", start: set.start }]
    } else {
        Seq::empty()
    })
}

pub open spec fn sets_history(date: Date, sets: Seq<ShowSet>, k: Seq<char>) -> Seq<HistoryRow>
    decreases sets.len(),
{
    if sets.len() == 0 {
        Seq::empty()
    } else {
        sets_history(date, sets.drop_last(), k) + set_history(date, sets.last(), k)
    }
}

/// Every line of slug `k`'s history, in show and set order.
pub open spec fn history_of(shows: Seq<Show>, k: Seq<char>) -> Seq<HistoryRow>
    decreases shows.len(),
{
    if shows.len() == 0 {
        Seq::empty()
    } else {
        history_of(shows.drop_last(), k) + sets_history(shows.last().date, shows.last().sets@, k)
    }
}

/// A performer's appearances: date, role and start of every set they
/// play, newest show first.
pub fn appearance_history(ds: &Dataset, slug: &str) -> (r: Vec<HistoryRow>)
    ensures
        r@ == stable_sorted(history_of(ds.shows@, slug@)),
{
    let mut out: Vec<HistoryRow> = Vec::new();
    let mut i: usize = 0;
    while i < ds.shows.len()
        invariant
            i <= ds.shows@.len(),
            out@ == history_of(ds.shows@.take(i as int), slug@),
        decreases ds.shows@.len() - i,
    {
        let show = &ds.shows[i];
        let ghost pre = ds.shows@.take(i as int);
        let mut j: usize = 0;
        assert(sets_history(show.date, show.sets@.take(0), slug@) =~= Seq::<HistoryRow>::empty());
        assert(out@ =~= history_of(pre, slug@) + sets_history(show.date, show.sets@.take(0), slug@));
        while j < show.sets.len()
            invariant
                j <= show.sets@.len(),
                out@ == history_of(pre, slug@) + sets_history(show.date, show.sets@.take(j as int), slug@),
            decreases show.sets@.len() - j,
        {
            let set = &show.sets[j];
            let ghost before = out@;
            let is_dj = match &set.dj {
                Some(d) => str_eq(d.as_str(), slug),
                None => false,
            };
            if is_dj {
                out.push(HistoryRow { date: show.date, role: "DJ", start: set.start });
            }
            let is_vj = match &set.vj {
                Some(v) => str_eq(v.as_str(), slug),
                None => false,
            };
            if is_vj {
                out.push(HistoryRow { date: show.date, role: "VJ", start: set.start });
            }
            proof {
                let t = show.sets@.take(j + 1);
                assert(t.drop_last() =~= show.sets@.take(j as int));
                assert(t.last() == *set);
                assert(out@ =~= history_of(pre, slug@) + sets_history(show.date, t, slug@));
            }
            j = j + 1;
        }
        proof {
            let next = ds.shows@.take(i + 1);
            assert(next.drop_last() =~= pre);
            assert(next.last() == *show);
            assert(show.sets@.take(j as int) =~= show.sets@);
            assert(out@ =~= history_of(next, slug@));
        }
        i = i + 1;
    }
    assert(ds.shows@.take(i as int) =~= ds.shows@);
    sort_ranked(out)
}

/// How many days before `today` a performer last played `day` (negative
/// for a day after `today`), as the query lists show it.
pub fn days_ago(today: Date, day: Date) -> (r: i64)
    ensures
        r == day_number(today@) - day_number(day@),
{
    today.days_since(&day)
}

} // verus!
