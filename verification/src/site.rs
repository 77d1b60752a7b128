//! What the static site shows: links under the site's base URL, set times
//! in ET and JST (through the `chrono-tz` time zone database), the next and
//! recent shows, and each performer's appearances.
use vstd::prelude::*;

use chrono::Timelike;
use chrono::TimeZone;
use chrono_tz::America::New_York;
use chrono_tz::Asia::Tokyo;

use crate::data::Dataset;
use crate::date::{shifted, date_lt, Date};
use crate::performer::{find_key, insert_sorted, keys_sorted, lemma_find_key, lemma_find_key_update, lemma_sorted_key_unique, position_of};
use crate::show::{Show, ShowSet, WallTime};
use crate::sorting::{lemma_stable_sorted, reverse, sort_ranked, stable_sorted, Ranked};
use crate::text::{chars_of, clock_string, clock_text, string_from_range};

verus! {

// ---------------------------------------------------------------------
// links
// ---------------------------------------------------------------------

/// Where the site is served from, and the day it is built.
#[derive(Debug)]
pub struct BuildConfig {
    /// URL prefix for all site links: `/` at the root of a host, `/djdb/`
    /// under a project path.
    pub base_url: String,
    /// Today's date, which picks the next show and the recent ones.
    pub today: Date,
}

/// `s` without the `c` characters that end it (`trim_end_matches`).
pub open spec fn strip_end(s: Seq<char>, c: char) -> Seq<char>
    decreases s.len(),
{
    if s.len() > 0 && s.last() == c {
        strip_end(s.drop_last(), c)
    } else {
        s
    }
}

/// `s` without the `c` characters that start it (`trim_start_matches`).
pub open spec fn strip_start(s: Seq<char>, c: char) -> Seq<char>
    decreases s.len(),
{
    if s.len() > 0 && s[0] == c {
        strip_start(s.drop_first(), c)
    } else {
        s
    }
}

/// A site link: the base URL without its trailing slashes, one slash, and
/// the path without its leading slashes.
pub open spec fn url_text(base: Seq<char>, path: Seq<char>) -> Seq<char> {
    strip_end(base, '/') + seq!['/'] + strip_start(path, '/')
}

proof fn lemma_strip_end(s: Seq<char>, c: char, k: int)
    requires
        0 <= k <= s.len(),
        forall|j: int| k <= j < s.len() ==> #[trigger] s[j] == c,
        k == 0 || s[k - 1] != c,
    ensures
        strip_end(s, c) == s.subrange(0, k),
    decreases s.len() - k,
{
    if k == s.len() {
        assert(s.subrange(0, k) =~= s);
    } else {
        let t = s.drop_last();
        assert forall|j: int| k <= j < t.len() implies #[trigger] t[j] == c by {
            assert(t[j] == s[j]);
        }
        if k > 0 {
            assert(t[k - 1] == s[k - 1]);
        }
        lemma_strip_end(t, c, k);
        assert(t.subrange(0, k) =~= s.subrange(0, k));
    }
}

proof fn lemma_strip_start(s: Seq<char>, c: char, k: int)
    requires
        0 <= k <= s.len(),
        forall|j: int| 0 <= j < k ==> #[trigger] s[j] == c,
        k == s.len() || s[k] != c,
    ensures
        strip_start(s, c) == s.subrange(k, s.len() as int),
    decreases k,
{
    if k == 0 {
        assert(s.subrange(0, s.len() as int) =~= s);
    } else {
        let t = s.drop_first();
        assert forall|j: int| 0 <= j < k - 1 implies #[trigger] t[j] == c by {
            assert(t[j] == s[j + 1]);
        }
        if k < s.len() {
            assert(t[k - 1] == s[k]);
        }
        lemma_strip_start(t, c, k - 1);
        assert(t.subrange(k - 1, t.len() as int) =~= s.subrange(k, s.len() as int));
    }
}

/// A link to `path` under the site's base URL.
pub fn url(cfg: &BuildConfig, path: &str) -> (r: String)
    ensures
        r@ == url_text(cfg.base_url@, path@),
{
    let b = chars_of(cfg.base_url.as_str());
    let mut end = b.len();
    while end > 0 && b[end - 1] == '/'
        invariant
            end <= b@.len(),
            forall|j: int| end <= j < b@.len() ==> #[trigger] b@[j] == '/',
        decreases end,
    {
        end = end - 1;
    }
    proof {
        lemma_strip_end(b@, '/', end as int);
    }
    let p = chars_of(path);
    let mut start: usize = 0;
    while start < p.len() && p[start] == '/'
        invariant
            start <= p@.len(),
            forall|j: int| 0 <= j < start ==> #[trigger] p@[j] == '/',
        decreases p@.len() - start,
    {
        start = start + 1;
    }
    proof {
        lemma_strip_start(p@, '/', start as int);
    }
    let mut r = string_from_range(&b, 0, end);
    r.append("/");
    let tail = string_from_range(&p, start, p.len());
    r.append(tail.as_str());
    proof {
        reveal_strlit("/");
        assert(r@ =~= url_text(cfg.base_url@, path@));
    }
    r
}

// ---------------------------------------------------------------------
// ET and JST
// ---------------------------------------------------------------------

/// An instant on the America/New_York clock, as seconds since the Unix
/// epoch.
#[derive(Clone, Copy, Debug, PartialEq, Eq, Structural)]
pub struct EtDateTime {
    pub utc_seconds: i64,
}

/// What `New_York.from_local_datetime` gives for the wall-clock time
/// `hour:minute:00` on `date`: the earliest and latest instant (the same
/// one unless the time repeats on a fall-back night), as seconds since the
/// epoch; `None` in a spring-forward gap, or when the fields make no time.
pub uninterp spec fn new_york_local(date: (int, int, int), hour: int, minute: int) -> Option<(i64, i64)>;

/// `New_York.from_local_datetime` on a date and a time of day, each
/// instant read back by `DateTime::timestamp`. The contract only names
/// the result.
#[verifier::external_body]
fn new_york_instants(date: Date, hour: u32, minute: u32) -> (r: Option<(i64, i64)>)
    ensures
        r == new_york_local(date@, hour as int, minute as int),
{
    let naive = match chrono::NaiveDate::from_ymd_opt(date.year(), date.month(), date.day()) {
        Some(d) => d.and_hms_opt(hour, minute, 0),
        None => None,
    };
    match naive {
        Some(n) => match New_York.from_local_datetime(&n) {
            chrono::LocalResult::Single(t) => Some((t.timestamp(), t.timestamp())),
            chrono::LocalResult::Ambiguous(a, b) => Some((a.timestamp(), b.timestamp())),
            chrono::LocalResult::None => None,
        },
        None => None,
    }
}

/// The hour and minute an instant shows on the America/New_York clock
/// (`None` for a timestamp `chrono` cannot hold).
pub uninterp spec fn new_york_clock(utc: i64) -> Option<(u32, u32)>;

/// The hour and minute an instant shows on the Asia/Tokyo clock.
pub uninterp spec fn tokyo_clock(utc: i64) -> Option<(u32, u32)>;

/// `DateTime::from_timestamp` then `with_timezone(&New_York)`, read by
/// `hour()` and `minute()`. The contract only names the result.
#[verifier::external_body]
fn new_york_hour_minute(utc: i64) -> (r: Option<(u32, u32)>)
    ensures
        r == new_york_clock(utc),
{
    match chrono::DateTime::from_timestamp(utc, 0) {
        Some(t) => {
            let local = t.with_timezone(&New_York);
            Some((local.hour(), local.minute()))
        },
        None => None,
    }
}

/// `DateTime::from_timestamp` then `with_timezone(&Tokyo)`, read by
/// `hour()` and `minute()`. The contract only names the result.
#[verifier::external_body]
fn tokyo_hour_minute(utc: i64) -> (r: Option<(u32, u32)>)
    ensures
        r == tokyo_clock(utc),
{
    match chrono::DateTime::from_timestamp(utc, 0) {
        Some(t) => {
            let local = t.with_timezone(&Tokyo);
            Some((local.hour(), local.minute()))
        },
        None => None,
    }
}

/// The instant a show date and set start stand for in New York: hours
/// past 23 move the date forward by whole days; a time that repeats
/// (fall-back) is the earlier one; a time in a spring-forward gap is the
/// one an hour later. `None` where neither exists.
pub open spec fn et_instant(date: Date, wall: WallTime) -> Option<i64> {
    match shifted(date@, wall.hour as int / 24) {
        None => None,
        Some(d) => match new_york_local(d, wall.hour as int % 24, wall.minute as int) {
            Some((early, _)) => Some(early),
            None => match shifted(date@, (wall.hour + 1) / 24) {
                None => None,
                Some(d2) => match new_york_local(d2, (wall.hour + 1) % 24, wall.minute as int) {
                    Some((early, _)) => Some(early),
                    None => None,
                },
            },
        },
    }
}

/// The New York instant of a set, where there is one; see `et_instant`.
pub fn try_to_et_datetime(date: Date, wall: WallTime) -> (r: Option<EtDateTime>)
    ensures
        match et_instant(date, wall) {
            Some(t) => r == Some(EtDateTime { utc_seconds: t }),
            None => r is None,
        },
{
    let day = match date.plus_days((wall.hour / 24) as i64) {
        Some(d) => d,
        None => {
            return None;
        },
    };
    match new_york_instants(day, (wall.hour % 24) as u32, wall.minute as u32) {
        Some((early, _)) => Some(EtDateTime { utc_seconds: early }),
        None => {
            let later = wall.hour as u32 + 1;
            let day2 = match date.plus_days((later / 24) as i64) {
                Some(d) => d,
                None => {
                    return None;
                },
            };
            match new_york_instants(day2, later % 24, wall.minute as u32) {
                Some((early, _)) => Some(EtDateTime { utc_seconds: early }),
                None => None,
            }
        },
    }
}

/// Converts a show date and a set's wall-clock start (hours 24 and up
/// are the next days) into the New York instant; see `et_instant`.
pub fn to_et_datetime(date: Date, wall: WallTime) -> (r: EtDateTime)
    requires
        et_instant(date, wall) is Some,
    ensures
        r.utc_seconds == et_instant(date, wall)->0,
{
    try_to_et_datetime(date, wall).unwrap()
}

/// The clocks of a set's start in New York and in Tokyo.
pub open spec fn et_jst_clocks(date: Date, wall: WallTime) -> Option<((u32, u32), (u32, u32))> {
    match et_instant(date, wall) {
        Some(t) => match (new_york_clock(t), tokyo_clock(t)) {
            (Some(et), Some(jst)) => Some((et, jst)),
            _ => None,
        },
        None => None,
    }
}

/// A set's start as `HH:MM` in ET and in JST.
pub fn format_et_jst(date: Date, wall: WallTime) -> (r: (String, String))
    requires
        et_jst_clocks(date, wall) is Some,
    ensures
        et_jst_clocks(date, wall) matches Some((et, jst)) && r.0@ == clock_text(et.0 as nat, et.1 as nat)
            && r.1@ == clock_text(jst.0 as nat, jst.1 as nat),
{
    let et = to_et_datetime(date, wall);
    let (eh, em) = new_york_hour_minute(et.utc_seconds).unwrap();
    let (jh, jm) = tokyo_hour_minute(et.utc_seconds).unwrap();
    (clock_string(eh, em), clock_string(jh, jm))
}

/// A set's start as `HH:MM` in ET and in JST, where the time zone
/// database gives one.
pub fn et_jst(date: Date, wall: WallTime) -> (r: Option<(String, String)>)
    ensures
        match et_jst_clocks(date, wall) {
            Some((et, jst)) => r matches Some((a, b)) && a@ == clock_text(et.0 as nat, et.1 as nat) && b@
                == clock_text(jst.0 as nat, jst.1 as nat),
            None => r is None,
        },
{
    match try_to_et_datetime(date, wall) {
        Some(et) => match (new_york_hour_minute(et.utc_seconds), tokyo_hour_minute(et.utc_seconds)) {
            (Some(_), Some(_)) => Some(format_et_jst(date, wall)),
            _ => None,
        },
        None => None,
    }
}

// ---------------------------------------------------------------------
// the landing page
// ---------------------------------------------------------------------

/// Index of the first show on or after `today`.
pub open spec fn upcoming_index(shows: Seq<Show>, today: Date) -> Option<int>
    decreases shows.len(),
{
    if shows.len() == 0 {
        None
    } else if !date_lt(shows[0].date, today) {
        Some(0)
    } else {
        match upcoming_index(shows.drop_first(), today) {
            Some(i) => Some(i + 1),
            None => None,
        }
    }
}

/// Indices of the shows among the first `k` that are before `today`,
/// latest position first.
pub open spec fn past_indices(shows: Seq<Show>, today: Date, k: int) -> Seq<int>
    decreases k,
{
    if k <= 0 {
        Seq::empty()
    } else if date_lt(shows[k - 1].date, today) {
        seq![k - 1] + past_indices(shows, today, k - 1)
    } else {
        past_indices(shows, today, k - 1)
    }
}

/// The indices among the first `k` shows that are before `today`, each
/// once, latest first.
proof fn lemma_past_indices(shows: Seq<Show>, today: Date, k: int)
    requires
        0 <= k <= shows.len(),
    ensures
        ({
            let p = past_indices(shows, today, k);
            &&& forall|j: int| 0 <= j < p.len() ==> 0 <= #[trigger] p[j] < k && date_lt(shows[p[j]].date, today)
            &&& forall|a: int, b: int| 0 <= a < b < p.len() ==> #[trigger] p[a] > #[trigger] p[b]
            &&& forall|x: int| 0 <= x < k && date_lt(#[trigger] shows[x].date, today) ==> exists|j: int|
                0 <= j < p.len() && p[j] == x
        }),
    decreases k,
{
    if k > 0 {
        lemma_past_indices(shows, today, k - 1);
        let q = past_indices(shows, today, k - 1);
        let p = past_indices(shows, today, k);
        if date_lt(shows[k - 1].date, today) {
            assert(p == seq![k - 1] + q);
            assert forall|j: int| 0 < j < p.len() implies #[trigger] p[j] == q[j - 1] by {}
            assert forall|a: int, b: int| 0 <= a < b < p.len() implies #[trigger] p[a] > #[trigger] p[b] by {
                assert(p[b] == q[b - 1]);
                if a > 0 {
                    assert(p[a] == q[a - 1]);
                }
            }
            assert forall|x: int| 0 <= x < k && date_lt(#[trigger] shows[x].date, today) implies exists|j: int|
                0 <= j < p.len() && p[j] == x by {
                if x == k - 1 {
                    assert(p[0] == x);
                } else {
                    let j = choose|j: int| 0 <= j < q.len() && q[j] == x;
                    assert(p[j + 1] == x);
                }
            }
        }
    }
}

/// The recent shows the landing page lists are the latest ones before
/// `today`: each is before `today`, they run latest first, there are eight
/// of them unless fewer shows are before `today` (then all of those), and
/// every show before `today` left out comes before every listed one.
pub proof fn lemma_recent_are_latest(shows: Seq<Show>, today: Date)
    ensures
        ({
            let p = past_indices(shows, today, shows.len() as int);
            let m = if p.len() < recent_count() { p.len() as int } else { recent_count() as int };
            &&& forall|j: int| 0 <= j < m ==> 0 <= #[trigger] p[j] < shows.len() && date_lt(shows[p[j]].date, today)
            &&& forall|a: int, b: int| 0 <= a < b < m ==> #[trigger] p[a] > #[trigger] p[b]
            &&& m < recent_count() ==> forall|x: int| 0 <= x < shows.len() && date_lt(#[trigger] shows[x].date, today)
                ==> exists|j: int| 0 <= j < m && p[j] == x
            &&& forall|x: int, j: int|
                0 <= x < shows.len() && date_lt(#[trigger] shows[x].date, today) && 0 <= j < m && (forall|i: int|
                    0 <= i < m ==> p[i] != x) ==> x < #[trigger] p[j]
        }),
{
    let p = past_indices(shows, today, shows.len() as int);
    let m = if p.len() < recent_count() { p.len() as int } else { recent_count() as int };
    lemma_past_indices(shows, today, shows.len() as int);
    assert forall|x: int, j: int|
        0 <= x < shows.len() && date_lt(#[trigger] shows[x].date, today) && 0 <= j < m && (forall|i: int|
            0 <= i < m ==> p[i] != x) implies x < #[trigger] p[j] by {
        let q = choose|q: int| 0 <= q < p.len() && p[q] == x;
        if q < m {
            assert(p[q] != x);
        }
        assert(p[j] > p[q]);
    }
}

/// How many recent shows the landing page lists.
pub open spec fn recent_count() -> nat {
    8
}

/// The shows the landing page features: the first show on or after
/// `today` (shows are in date order, so the next one), and the last eight
/// shows before it, latest first.
pub fn landing_shows(shows: &Vec<Show>, today: Date) -> (r: (Option<usize>, Vec<usize>))
    ensures
        match upcoming_index(shows@, today) {
            Some(i) => r.0 == Some(i as usize),
            None => r.0 is None,
        },
        r.1@.len() <= recent_count(),
        forall|j: int| 0 <= j < r.1@.len() ==> (#[trigger] r.1@[j]) as int == past_indices(
            shows@,
            today,
            shows@.len() as int,
        )[j],
        r.1@.len() == if past_indices(shows@, today, shows@.len() as int).len() < recent_count() {
            past_indices(shows@, today, shows@.len() as int).len()
        } else {
            recent_count()
        },
{
    let n = shows.len();
    let mut up: Option<usize> = None;
    let mut i: usize = n;
    while i > 0
        invariant
            i <= n,
            n == shows@.len(),
            match upcoming_index(shows@.skip(i as int), today) {
                Some(k) => up == Some((k + i) as usize),
                None => up is None,
            },
        decreases i,
    {
        let k = i - 1;
        assert(shows@.skip(k as int)[0] == shows@[k as int]);
        assert(shows@.skip(k as int).drop_first() =~= shows@.skip(i as int));
        if !shows[k].date.before(&today) {
            up = Some(k);
        }
        i = k;
    }
    assert(shows@.skip(0) =~= shows@);
    let mut recent: Vec<usize> = Vec::new();
    let mut j: usize = n;
    while j > 0 && recent.len() < 8
        invariant
            j <= n,
            n == shows@.len(),
            recent@.len() <= 8,
            past_indices(shows@, today, n as int) == recent@.map_values(|x: usize| x as int) + past_indices(
                shows@,
                today,
                j as int,
            ),
        decreases j,
    {
        let k = j - 1;
        let ghost before = recent@;
        if shows[k].date.before(&today) {
            recent.push(k);
            assert(recent@.map_values(|x: usize| x as int) =~= before.map_values(|x: usize| x as int).push(
                k as int,
            ));
            assert(before.map_values(|x: usize| x as int) + past_indices(shows@, today, j as int)
                =~= recent@.map_values(|x: usize| x as int) + past_indices(shows@, today, k as int));
        }
        j = k;
    }
    proof {
        let all = past_indices(shows@, today, n as int);
        let got = recent@.map_values(|x: usize| x as int);
        assert forall|q: int| 0 <= q < recent@.len() implies (#[trigger] recent@[q]) as int == all[q] by {
            assert(got[q] == recent@[q] as int);
        }
        if recent@.len() < 8 {
            assert(j == 0);
            assert(past_indices(shows@, today, 0).len() == 0);
        }
    }
    (up, recent)
}

// ---------------------------------------------------------------------
// appearances
// ---------------------------------------------------------------------

/// One set a performer played, as DJ or VJ.
#[derive(Debug)]
pub struct Appearance {
    pub date: Date,
    /// `"DJ"` or `"VJ"`.
    pub role: &'static str,
    pub start: WallTime,
    pub notes: String,
}

/// Newest show first; within a show, earlier hour first.
impl Ranked for Appearance {
    open spec fn rank_le(self, other: Self) -> bool {
        date_lt(other.date, self.date) || (self.date@ == other.date@ && self.start.hour <= other.start.hour)
    }

    proof fn lemma_rank_total(a: Self, b: Self) {
    }

    proof fn lemma_rank_transitive(a: Self, b: Self, c: Self) {
    }

    fn rank_le_exec(&self, other: &Self) -> (r: bool) {
        other.date.before(&self.date) || (self.date.same(&other.date) && self.start.hour <= other.start.hour)
    }
}

/// The appearances one set gives slug `k`: as its DJ, then as its VJ.
pub open spec fn set_appearances(date: Date, set: ShowSet, k: Seq<char>) -> Seq<Appearance> {
    (if set.dj matches Some(d) && d@ == k {
        seq![Appearance { date, role: "DJ", start: set.start, notes: set.notes }]
    } else {
        Seq::empty()
    }) + (if set.vj matches Some(v) && v@ == k {
        seq![Appearance { date, role: "VJ", start: set.start, notes: set.notes }]
    } else {
        Seq::empty()
    })
}

/// The appearances a show's sets give slug `k`, in set order.
pub open spec fn sets_appearances(date: Date, sets: Seq<ShowSet>, k: Seq<char>) -> Seq<Appearance>
    decreases sets.len(),
{
    if sets.len() == 0 {
        Seq::empty()
    } else {
        sets_appearances(date, sets.drop_last(), k) + set_appearances(date, sets.last(), k)
    }
}

/// Every appearance of slug `k`, in show order.
pub open spec fn appearances_of(shows: Seq<Show>, k: Seq<char>) -> Seq<Appearance>
    decreases shows.len(),
{
    if shows.len() == 0 {
        Seq::empty()
    } else {
        appearances_of(shows.drop_last(), k) + sets_appearances(shows.last().date, shows.last().sets@, k)
    }
}

/// The list stored under key `k`, empty when there is none.
pub open spec fn group_of(s: Seq<(String, Vec<Appearance>)>, k: Seq<char>) -> Seq<Appearance> {
    match find_key(s, k) {
        Some(i) => s[i].1@,
        None => Seq::empty(),
    }
}

/// Every stored list is non-empty.
pub open spec fn groups_filled(s: Seq<(String, Vec<Appearance>)>) -> bool {
    forall|i: int| 0 <= i < s.len() ==> (#[trigger] s[i]).1@.len() > 0
}

/// Appends an appearance to the list of `slug`, starting the list if
/// there is none.
fn add_appearance(out: &mut Vec<(String, Vec<Appearance>)>, slug: &String, a: Appearance)
    requires
        keys_sorted(old(out)@),
        groups_filled(old(out)@),
    ensures
        keys_sorted(final(out)@),
        groups_filled(final(out)@),
        forall|k: Seq<char>| #[trigger] group_of(final(out)@, k) == group_of(old(out)@, k) + (if k == slug@ {
            seq![a]
        } else {
            Seq::empty()
        }),
{
    let ghost before = out@;
    proof {
        lemma_find_key(before, slug@);
    }
    match position_of(out, slug.as_str()) {
        Some(p) => {
            let (k, mut v) = out.remove(p);
            v.push(a);
            out.insert(p, (k, v));
            proof {
                assert(out@ =~= before.update(p as int, (k, v)));
                assert forall|q: Seq<char>| #[trigger] group_of(out@, q) == group_of(before, q) + (if q == slug@ {
                    seq![a]
                } else {
                    Seq::empty()
                }) by {
                    lemma_find_key_update(before, p as int, (k, v), q);
                    if q != slug@ {
                        if let Some(f) = find_key(before, q) {
                            lemma_find_key(before, q);
                            if f == p as int {
                                assert(before[p as int].0@ == q);
                            }
                        }
                    }
                }
                assert forall|a1: int, b1: int| 0 <= a1 < b1 < out@.len() implies crate::text::text_lt(
                    #[trigger] out@[a1].0@,
                    #[trigger] out@[b1].0@,
                ) by {
                    assert(out@[a1].0@ == before[a1].0@);
                    assert(out@[b1].0@ == before[b1].0@);
                }
            }
        },
        None => {
            let mut v: Vec<Appearance> = Vec::new();
            v.push(a);
            let key = slug.clone();
            insert_sorted(out, key, v);
            proof {
                let pos = choose|pos: int|
                    0 <= pos <= before.len() && out@ == before.insert(pos, (key, v));
                assert(out@[pos] == (key, v));
                lemma_sorted_key_unique(out@, slug@, pos);
                assert forall|q: Seq<char>| #[trigger] group_of(out@, q) == group_of(before, q) + (if q == slug@ {
                    seq![a]
                } else {
                    Seq::empty()
                }) by {
                    lemma_find_key(before, q);
                    lemma_find_key(out@, q);
                    if q == slug@ {
                        assert(v@ =~= seq![a]);
                        assert(group_of(before, q) =~= Seq::<Appearance>::empty());
                    } else {
                        match find_key(before, q) {
                            Some(j) => {
                                let j2 = if j < pos { j } else { j + 1 };
                                assert(out@[j2] == before[j]);
                                lemma_sorted_key_unique(out@, q, j2);
                            },
                            None => {
                                if let Some(f) = find_key(out@, q) {
                                    if f < pos {
                                        assert(out@[f] == before[f]);
                                    } else if f > pos {
                                        assert(out@[f] == before[f - 1]);
                                    }
                                }
                            },
                        }
                        assert(group_of(before, q) + Seq::<Appearance>::empty() =~= group_of(before, q));
                    }
                }
                assert forall|i: int| 0 <= i < out@.len() implies (#[trigger] out@[i]).1@.len() > 0 by {
                    if i < pos {
                        assert(out@[i] == before[i]);
                    } else if i > pos {
                        assert(out@[i] == before[i - 1]);
                    }
                }
            }
        },
    }
}

/// Finding a key depends only on the keys.
proof fn lemma_find_key_same_keys<V, W>(s: Seq<(String, V)>, t: Seq<(String, W)>, k: Seq<char>)
    requires
        s.len() == t.len(),
        forall|i: int| 0 <= i < s.len() ==> (#[trigger] s[i]).0 == t[i].0,
    ensures
        find_key(s, k) == find_key(t, k),
    decreases s.len(),
{
    if s.len() > 0 {
        assert(s[0].0 == t[0].0);
        let s1 = s.drop_first();
        let t1 = t.drop_first();
        assert forall|i: int| 0 <= i < s1.len() implies (#[trigger] s1[i]).0 == t1[i].0 by {
            assert(s1[i] == s[i + 1]);
            assert(t1[i] == t[i + 1]);
        }
        lemma_find_key_same_keys(s1, t1, k);
    }
}

/// Each slug's appearances over all shows, newest show first (within a
/// show, earlier hour first; otherwise in set order). Slugs in slug order;
/// only slugs that appear have a list.
pub fn index_appearances(ds: &Dataset) -> (r: Vec<(String, Vec<Appearance>)>)
    ensures
        keys_sorted(r@),
        groups_filled(r@),
        forall|k: Seq<char>| #[trigger] group_of(r@, k) == stable_sorted(appearances_of(ds.shows@, k)),
{
    let mut out: Vec<(String, Vec<Appearance>)> = Vec::new();
    let mut i: usize = 0;
    while i < ds.shows.len()
        invariant
            i <= ds.shows@.len(),
            keys_sorted(out@),
            groups_filled(out@),
            forall|k: Seq<char>| #[trigger] group_of(out@, k) == appearances_of(ds.shows@.take(i as int), k),
        decreases ds.shows@.len() - i,
    {
        let show = &ds.shows[i];
        let ghost pre = ds.shows@.take(i as int);
        let mut j: usize = 0;
        proof {
            assert forall|k: Seq<char>| #[trigger] group_of(out@, k) == appearances_of(pre, k) + sets_appearances(
                show.date,
                show.sets@.take(0),
                k,
            ) by {
                assert(show.sets@.take(0).len() == 0);
                assert(appearances_of(pre, k) + Seq::<Appearance>::empty() =~= appearances_of(pre, k));
            }
        }
        while j < show.sets.len()
            invariant
                j <= show.sets@.len(),
                keys_sorted(out@),
                groups_filled(out@),
                forall|k: Seq<char>| #[trigger] group_of(out@, k) == appearances_of(pre, k) + sets_appearances(
                    show.date,
                    show.sets@.take(j as int),
                    k,
                ),
            decreases show.sets@.len() - j,
        {
            let set = &show.sets[j];
            let ghost out0 = out@;
            if let Some(slug) = &set.dj {
                add_appearance(
                    &mut out,
                    slug,
                    Appearance { date: show.date, role: "DJ", start: set.start, notes: set.notes.clone() },
                );
            }
            let ghost out1 = out@;
            if let Some(slug) = &set.vj {
                add_appearance(
                    &mut out,
                    slug,
                    Appearance { date: show.date, role: "VJ", start: set.start, notes: set.notes.clone() },
                );
            }
            proof {
                let t = show.sets@.take(j + 1);
                assert(t.drop_last() =~= show.sets@.take(j as int));
                assert(t.last() == *set);
                assert forall|k: Seq<char>| #[trigger] group_of(out@, k) == appearances_of(pre, k) + sets_appearances(
                    show.date,
                    t,
                    k,
                ) by {
                    let x = appearances_of(pre, k) + sets_appearances(show.date, show.sets@.take(j as int), k);
                    assert(group_of(out0, k) == x);
                    let da = if set.dj matches Some(d) && d@ == k {
                        seq![Appearance { date: show.date, role: "DJ", start: set.start, notes: set.notes }]
                    } else {
                        Seq::empty()
                    };
                    let va = if set.vj matches Some(v) && v@ == k {
                        seq![Appearance { date: show.date, role: "VJ", start: set.start, notes: set.notes }]
                    } else {
                        Seq::empty()
                    };
                    if set.dj is Some {
                        assert(group_of(out1, k) == group_of(out0, k) + da);
                    } else {
                        assert(group_of(out1, k) == group_of(out0, k));
                        assert(group_of(out0, k) + da =~= group_of(out0, k));
                    }
                    if set.vj is Some {
                        assert(group_of(out@, k) == group_of(out1, k) + va);
                    } else {
                        assert(group_of(out@, k) == group_of(out1, k));
                        assert(group_of(out1, k) + va =~= group_of(out1, k));
                    }
                    assert(set_appearances(show.date, *set, k) == da + va);
                    assert(x + da + va =~= appearances_of(pre, k) + (sets_appearances(
                        show.date,
                        show.sets@.take(j as int),
                        k,
                    ) + (da + va)));
                }
            }
            j = j + 1;
        }
        proof {
            let next = ds.shows@.take(i + 1);
            assert(next.drop_last() =~= pre);
            assert(next.last() == *show);
            assert(show.sets@.take(j as int) =~= show.sets@);
        }
        i = i + 1;
    }
    assert(ds.shows@.take(i as int) =~= ds.shows@);
    // each list in its display order
    let ghost orig = out@;
    let n = out.len();
    let mut rest = reverse(out);
    let mut sorted: Vec<(String, Vec<Appearance>)> = Vec::new();
    let mut q: usize = 0;
    while q < n
        invariant
            q <= n,
            n == orig.len(),
            rest@.len() == n - q,
            forall|k: int| 0 <= k < n - q ==> #[trigger] rest@[k] == orig[n - 1 - k],
            sorted@.len() == q,
            keys_sorted(orig),
            groups_filled(orig),
            forall|k: Seq<char>| #[trigger] group_of(orig, k) == appearances_of(ds.shows@, k),
            forall|k: int| 0 <= k < q ==> (#[trigger] sorted@[k]).0 == orig[k].0 && sorted@[k].1@ == stable_sorted(
                orig[k].1@,
            ),
        decreases n - q,
    {
        let (key, v) = rest.pop().unwrap();
        assert((key, v) == orig[q as int]);
        sorted.push((key, sort_ranked(v)));
        q = q + 1;
    }
    proof {
        assert forall|k: Seq<char>| #[trigger] group_of(sorted@, k) == stable_sorted(appearances_of(ds.shows@, k)) by {
            lemma_find_key_same_keys(sorted@, orig, k);
            lemma_find_key(orig, k);
            assert(group_of(orig, k) == appearances_of(ds.shows@, k));
            if find_key(orig, k) is None {
                assert(stable_sorted(Seq::<Appearance>::empty()) =~= Seq::<Appearance>::empty());
            }
        }
        assert forall|a1: int, b1: int| 0 <= a1 < b1 < sorted@.len() implies crate::text::text_lt(
            #[trigger] sorted@[a1].0@,
            #[trigger] sorted@[b1].0@,
        ) by {
            assert(sorted@[a1].0 == orig[a1].0);
            assert(sorted@[b1].0 == orig[b1].0);
        }
        assert forall|k: int| 0 <= k < sorted@.len() implies (#[trigger] sorted@[k]).1@.len() > 0 by {
            lemma_stable_sorted(orig[k].1@);
        }
    }
    sorted
}

} // verus!
