//! Planning an import of the legacy workbook: years inferred by walking the
//! sheets backward from an anchor date, performers registered by slug,
//! lineup times normalized past midnight, and sheets that share a date
//! merged into one show.
use vstd::prelude::*;

use crate::date::{lemma_date_eq, max_year, min_year, valid_ymd, ymd_lt, Date};
use crate::import_text::{lemma_slugify_valid, slug_of, slugify};
use crate::performer::{
    contains_text, entries_map, first_entry_error, keys_sorted, lemma_entries_map_at,
    lemma_entries_map_insert, valid_slug,
    lemma_entries_map_update, lemma_find_key, position_of, texts, Performer, PerformerView,
    Performers, Slug,
};
use crate::text::{
    clock_string, clock_text, concat_str, debug_quoted, debug_text, is_blank, lemma_trim_not_blank, owned,
    str_eq, trim, trimmed,
};
use crate::sheet::{
    opt_text, parse_sheet, parsed_sheet, raw_rows_view, time_in_range, RawRow, RawRowView, RawSheet,
    RawSheetView, Sheet,
};
use crate::seqs::{first_where, lemma_first_where_at, lemma_first_where_none};
use crate::show::{Show, ShowSet, WallTime};
use crate::sorting::{insert_ranked, reverse, sort_ranked, stable_sorted, Ranked};

verus! {

// ---------------------------------------------------------------------
// sets of one sheet
// ---------------------------------------------------------------------

/// A set's fields as character sequences.
pub struct SetView {
    pub start: WallTime,
    pub duration_min: u32,
    pub dj: Option<Seq<char>>,
    pub vj: Option<Seq<char>>,
    pub notes: Seq<char>,
}

pub open spec fn set_view(s: ShowSet) -> SetView {
    SetView {
        start: s.start,
        duration_min: s.duration_min,
        dj: opt_text(s.dj),
        vj: opt_text(s.vj),
        notes: s.notes@,
    }
}

pub open spec fn sets_view(s: Seq<ShowSet>) -> Seq<SetView> {
    s.map_values(|x: ShowSet| set_view(x))
}

/// Where the walk down a sheet's rows stands: the last start taken, in
/// minutes from the show date's midnight (`-1` before the first), the
/// minutes added so far for rows past midnight, the sets made, and the
/// times that ran past 47:59.
pub struct Walk {
    pub prev: int,
    pub rollover: int,
    pub sets: Seq<SetView>,
    pub overflows: Seq<(u8, u8)>,
}

pub open spec fn walk_start() -> Walk {
    Walk { prev: -1, rollover: 0, sets: Seq::empty(), overflows: Seq::empty() }
}

/// The least multiple of a day (1440 minutes) that brings `eff` to at
/// least `prev`.
pub open spec fn catch_up(eff: int, prev: int) -> int {
    if eff < prev {
        1440 * ((prev - eff + 1439) / 1440)
    } else {
        0
    }
}

/// The slug of a lineup name, if there is a name and it has one: the slug
/// of the name trimmed, the one the performer table registers it under.
/// It is the slug of the name as written too: `deunicode` turns whitespace
/// into spaces, line breaks or nothing, never a letter or a digit, and a
/// slug keeps only letters and digits from either end.
pub open spec fn slug_opt(name: Option<Seq<char>>) -> Option<Seq<char>> {
    match name {
        Some(n) => if trim(n).len() == 0 {
            None
        } else {
            slug_of(trim(n))
        },
        None => None,
    }
}

/// One row of the walk. A row without a time, or with neither DJ nor VJ,
/// is passed over; so is one whose start equals the previous start. A
/// start earlier than the previous one moves to the next day (as many days
/// as it takes). A start at or past 48:00 is recorded as an overflow.
pub open spec fn walk_step(w: Walk, row: RawRowView) -> Walk {
    match row.parsed_time {
        None => w,
        Some((h, m)) => if row.dj is None && row.vj is None {
            w
        } else {
            let eff0 = h * 60 + m + w.rollover;
            if eff0 == w.prev {
                w
            } else {
                let add = catch_up(eff0, w.prev);
                let eff = eff0 + add;
                if eff >= 2880 {
                    Walk {
                        prev: eff,
                        rollover: w.rollover + add,
                        sets: w.sets,
                        overflows: w.overflows.push((h, m)),
                    }
                } else {
                    Walk {
                        prev: eff,
                        rollover: w.rollover + add,
                        sets: w.sets.push(
                            SetView {
                                start: WallTime { hour: (eff / 60) as u8, minute: (eff % 60) as u8 },
                                duration_min: 60,
                                dj: slug_opt(row.dj),
                                vj: slug_opt(row.vj),
                                notes: row.notes,
                            },
                        ),
                        overflows: w.overflows,
                    }
                }
            }
        },
    }
}

/// The walk from state `w` over `rows`, first to last.
pub open spec fn walk_from(w: Walk, rows: Seq<RawRowView>) -> Walk
    decreases rows.len(),
{
    if rows.len() == 0 {
        w
    } else {
        walk_from(walk_step(w, rows[0]), rows.drop_first())
    }
}

/// The walk over a whole sheet.
pub open spec fn walk_rows(rows: Seq<RawRowView>) -> Walk {
    walk_from(walk_start(), rows)
}

fn slug_of_name(name: &Option<String>) -> (r: Option<String>)
    ensures
        opt_text(r) == slug_opt(opt_text(*name)),
{
    match name {
        Some(n) => {
            let t = trimmed(n.as_str());
            if t.as_str().unicode_len() == 0 {
                None
            } else {
                slugify(t.as_str())
            }
        },
        None => None,
    }
}

/// `(d + 1439) / 1440` counts the days in `d` minutes, rounding up.
proof fn lemma_days_rounding_up(d: int, i: int)
    requires
        1440 * i - 1439 <= d <= 1440 * i,
    ensures
        (d + 1439) / 1440 == i,
{
    assert((d + 1439) / 1440 == i) by (nonlinear_arith)
        requires
            1440 * i <= d + 1439 < 1440 * i + 1440,
    ;
}

/// The sets of one sheet's lineup, and the times that overflowed. Times
/// are minutes from the show date's midnight; a row earlier than the one
/// before it is taken to be after midnight.
pub fn sheet_sets(rows: &Vec<RawRow>) -> (r: (Vec<ShowSet>, Vec<(u8, u8)>))
    requires
        forall|k: int| 0 <= k < rows@.len() ==> time_in_range(#[trigger] rows@[k].parsed_time),
    ensures
        sets_view(r.0@) == walk_rows(raw_rows_view(rows@)).sets,
        r.1@ == walk_rows(raw_rows_view(rows@)).overflows,
{
    let ghost all = raw_rows_view(rows@);
    let mut sets: Vec<ShowSet> = Vec::new();
    let mut overflows: Vec<(u8, u8)> = Vec::new();
    let mut prev: i128 = -1;
    let mut rollover: i128 = 0;
    let mut j: usize = 0;
    assert(all.skip(0) =~= all);
    assert(sets_view(sets@) =~= Seq::<SetView>::empty());
    while j < rows.len()
        invariant
            j <= rows@.len(),
            all == raw_rows_view(rows@),
            forall|k: int| 0 <= k < rows@.len() ==> time_in_range(#[trigger] rows@[k].parsed_time),
            (prev == -1 && rollover == 0) || (0 <= prev - rollover <= 1499),
            rollover % 1440 == 0,
            0 <= rollover <= 2880 * j,
            walk_from(
                Walk { prev: prev as int, rollover: rollover as int, sets: sets_view(sets@), overflows: overflows@ },
                all.skip(j as int),
            ) == walk_rows(all),
        decreases rows@.len() - j,
    {
        let row = &rows[j];
        let ghost w = Walk {
            prev: prev as int,
            rollover: rollover as int,
            sets: sets_view(sets@),
            overflows: overflows@,
        };
        assert(all.skip(j as int)[0] == row@);
        assert(all.skip(j as int).drop_first() =~= all.skip(j + 1));
        assert(time_in_range(rows@[j as int].parsed_time));
        match row.parsed_time {
            None => {},
            Some((h, m)) => {
                if row.dj.is_some() || row.vj.is_some() {
                    let raw_minutes: i128 = h as i128 * 60 + m as i128;
                    let mut effective: i128 = raw_minutes + rollover;
                    if effective != prev {
                        let ghost eff0 = effective as int;
                        let ghost mut days: int = 0;
                        while effective < prev
                            invariant
                                effective == eff0 + 1440 * days,
                                rollover == w.rollover + 1440 * days,
                                days >= 0,
                                days > 0 ==> effective - 1440 < prev,
                                prev as int == w.prev,
                                eff0 == raw_minutes + w.rollover,
                                0 <= raw_minutes <= 1499,
                                (prev == -1 && w.rollover == 0) || (0 <= prev - w.rollover <= 1499),
                                0 <= w.rollover <= 2880 * j,
                                j < rows@.len(),
                            decreases prev - effective + 1440,
                        {
                            effective = effective + 1440;
                            rollover = rollover + 1440;
                            proof {
                                days = days + 1;
                            }
                        }
                        proof {
                            if days > 0 {
                                lemma_days_rounding_up(prev - eff0, days);
                            }
                            assert(effective == eff0 + catch_up(eff0, w.prev));
                        }
                        prev = effective;
                        if effective >= 2880 {
                            overflows.push((h, m));
                        } else {
                            let set = ShowSet {
                                start: WallTime { hour: (effective / 60) as u8, minute: (effective % 60) as u8 },
                                duration_min: 60,
                                dj: slug_of_name(&row.dj),
                                vj: slug_of_name(&row.vj),
                                notes: row.notes.clone(),
                            };
                            let ghost before = sets@;
                            sets.push(set);
                            assert(sets_view(sets@) =~= sets_view(before).push(set_view(set)));
                        }
                    }
                }
            },
        }
        assert(walk_step(w, row@) == Walk {
            prev: prev as int,
            rollover: rollover as int,
            sets: sets_view(sets@),
            overflows: overflows@,
        });
        j = j + 1;
    }
    assert(all.skip(j as int).len() == 0);
    (sets, overflows)
}

// ---------------------------------------------------------------------
// years
// ---------------------------------------------------------------------

/// `NaiveDate::from_ymd_opt`: the date, if these fields make one.
pub fn make_date(year: i32, month: u32, day: u32) -> (r: Option<Date>)
    ensures
        r is Some <==> valid_ymd(year as int, month as int, day as int),
        r matches Some(d) ==> d@ == (year as int, month as int, day as int),
{
    Date::from_ymd_opt(year, month, day)
}

proof fn lemma_push_concat<A>(s: Seq<A>, x: A, t: Seq<A>)
    ensures
        s.push(x) + t == s + (seq![x] + t),
{
    assert(s.push(x) + t =~= s + (seq![x] + t));
}

/// Index of the last sheet that has a month-day.
pub open spec fn last_dated(md: Seq<Option<(nat, nat)>>) -> Option<int>
    decreases md.len(),
{
    if md.len() == 0 {
        None
    } else if md.last() is Some {
        Some(md.len() - 1)
    } else {
        last_dated(md.drop_last())
    }
}

proof fn lemma_last_dated(md: Seq<Option<(nat, nat)>>, l: int)
    requires
        0 <= l <= md.len(),
        forall|j: int| l <= j < md.len() ==> (#[trigger] md[j]) is None,
        l > 0 ==> md[l - 1] is Some,
    ensures
        last_dated(md) == (if l > 0 { Some(l - 1) } else { None::<int> }),
    decreases md.len(),
{
    if md.len() > 0 && md.last() is None {
        let t = md.drop_last();
        assert forall|j: int| l <= j < t.len() implies (#[trigger] t[j]) is None by {
            assert(t[j] == md[j]);
        }
        if l > 0 {
            assert(t[l - 1] == md[l - 1]);
        }
        lemma_last_dated(t, l);
    }
}

/// The dates of sheets `0..k`, walking down from sheet `k - 1`: a sheet
/// gets the current `year`, unless that would put it after `next` (the
/// date of the nearest dated sheet above it: its month-day jumps upward),
/// in which case the year goes back by one for it and every sheet below.
/// Two sheets on one month-day get the same date. `Err(i)` when sheet
/// `i`'s month-day is no date in the year it gets.
pub open spec fn dates_below(md: Seq<Option<(nat, nat)>>, k: int, year: int, next: (int, int, int)) -> Result<
    Seq<Option<(int, int, int)>>,
    int,
>
    decreases k,
{
    if k <= 0 {
        Ok(Seq::empty())
    } else {
        match md[k - 1] {
            None => match dates_below(md, k - 1, year, next) {
                Ok(s) => Ok(s.push(None)),
                Err(e) => Err(e),
            },
            Some((m, d)) => if !valid_ymd(year, m as int, d as int) {
                Err(k - 1)
            } else if ymd_lt(next, (year, m as int, d as int)) {
                if !valid_ymd(year - 1, m as int, d as int) {
                    Err(k - 1)
                } else {
                    match dates_below(md, k - 1, year - 1, (year - 1, m as int, d as int)) {
                        Ok(s) => Ok(s.push(Some((year - 1, m as int, d as int)))),
                        Err(e) => Err(e),
                    }
                }
            } else {
                match dates_below(md, k - 1, year, (year, m as int, d as int)) {
                    Ok(s) => Ok(s.push(Some((year, m as int, d as int)))),
                    Err(e) => Err(e),
                }
            },
        }
    }
}

/// The dates of all sheets (`None` for those without a month-day): the
/// last dated sheet is in the anchor's year, and the years go back from
/// there. `Err(i)` names the first sheet, walking down, whose month-day is
/// no date.
pub open spec fn year_plan(md: Seq<Option<(nat, nat)>>, anchor_year: int) -> Result<Seq<Option<(int, int, int)>>, int> {
    match last_dated(md) {
        None => Ok(Seq::new(md.len(), |i: int| None)),
        Some(l) => {
            let (m, d) = md[l]->0;
            if !valid_ymd(anchor_year, m as int, d as int) {
                Err(l)
            } else {
                match dates_below(md, l, anchor_year, (anchor_year, m as int, d as int)) {
                    Ok(s) => Ok(
                        s.push(Some((anchor_year, m as int, d as int))) + Seq::new(
                            (md.len() - l - 1) as nat,
                            |i: int| None,
                        ),
                    ),
                    Err(e) => Err(e),
                }
            }
        },
    }
}

/// The year a sheet with month-day `(t.1, t.2)` gets below a sheet dated
/// `u`: the year of `u`, or the year before when the month-day would fall
/// after `u` in that year.
pub open spec fn year_step(t: (int, int, int), u: (int, int, int)) -> bool {
    t.0 == if ymd_lt(u, (u.0, t.1, t.2)) {
        u.0 - 1
    } else {
        u.0
    }
}

/// No entry strictly between `i` and `j` has a date.
pub open spec fn none_between(s: Seq<Option<(int, int, int)>>, i: int, j: int) -> bool {
    forall|q: int| i < q < j ==> (#[trigger] s[q]) is None
}

/// One entry per sheet below `k`, a date exactly where there is a
/// month-day: that month and day, a valid date, not after `next`.
#[verifier::opaque]
pub open spec fn dated_right(md: Seq<Option<(nat, nat)>>, s: Seq<Option<(int, int, int)>>, k: int, next: (int, int, int)) -> bool {
    &&& s.len() == k
    &&& forall|i: int| 0 <= i < k ==> ((#[trigger] s[i]) is Some <==> md[i] is Some)
    &&& forall|i: int|
        0 <= i < k && (#[trigger] s[i]) is Some ==> {
            let t = s[i]->0;
            &&& md[i] == Some((t.1 as nat, t.2 as nat))
            &&& valid_ymd(t.0, t.1, t.2)
            &&& !ymd_lt(next, t)
        }
}

/// The dates of `s` below `k` never decrease.
#[verifier::opaque]
pub open spec fn never_decreasing(s: Seq<Option<(int, int, int)>>, k: int) -> bool {
    forall|i: int, j: int|
        0 <= i < j < k && (#[trigger] s[i]) is Some && (#[trigger] s[j]) is Some ==> !ymd_lt(s[j]->0, s[i]->0)
}

/// Each dated entry below `k` takes its year from the nearest dated entry
/// above it, or from `next` when there is none, by `year_step`.
#[verifier::opaque]
pub open spec fn steps_from(s: Seq<Option<(int, int, int)>>, k: int, next: (int, int, int)) -> bool {
    &&& forall|i: int, j: int|
        0 <= i < j < k && (#[trigger] s[i]) is Some && (#[trigger] s[j]) is Some && none_between(s, i, j)
            ==> year_step(s[i]->0, s[j]->0)
    &&& forall|i: int|
        0 <= i < k && (#[trigger] s[i]) is Some && none_between(s, i, k) ==> year_step(s[i]->0, next)
}

/// What `dates_below` assigns.
pub open spec fn assigned_below(md: Seq<Option<(nat, nat)>>, s: Seq<Option<(int, int, int)>>, k: int, next: (int, int, int)) -> bool {
    &&& dated_right(md, s, k, next)
    &&& never_decreasing(s, k)
    &&& steps_from(s, k, next)
}

proof fn lemma_assigned_none(md: Seq<Option<(nat, nat)>>, s0: Seq<Option<(int, int, int)>>, k: int, next: (int, int, int))
    requires
        0 < k <= md.len(),
        md[k - 1] is None,
        assigned_below(md, s0, k - 1, next),
    ensures
        assigned_below(md, s0.push(None), k, next),
{
    reveal(dated_right);
    reveal(never_decreasing);
    reveal(steps_from);
    let s = s0.push(None::<(int, int, int)>);
    assert forall|i: int| 0 <= i < k - 1 implies #[trigger] s[i] == s0[i] by {}
    assert(s[k - 1] is None);
    assert forall|i: int, j: int|
        0 <= i < j < k && (#[trigger] s[i]) is Some && (#[trigger] s[j]) is Some implies !ymd_lt(s[j]->0, s[i]->0) by {
        assert(s0[i] == s[i] && s0[j] == s[j]);
    }
    assert forall|i: int, j: int|
        0 <= i < j < k && (#[trigger] s[i]) is Some && (#[trigger] s[j]) is Some && none_between(s, i, j) implies year_step(
        s[i]->0,
        s[j]->0,
    ) by {
        assert(s0[i] == s[i] && s0[j] == s[j]);
        assert forall|q: int| i < q < j implies (#[trigger] s0[q]) is None by {
            assert(s[q] is None);
        }
    }
    assert forall|i: int| 0 <= i < k && (#[trigger] s[i]) is Some && none_between(s, i, k) implies year_step(
        s[i]->0,
        next,
    ) by {
        assert(s0[i] == s[i]);
        assert forall|q: int| i < q < k - 1 implies (#[trigger] s0[q]) is None by {
            assert(s[q] is None);
        }
    }
}

proof fn lemma_some_dated(
    md: Seq<Option<(nat, nat)>>,
    s0: Seq<Option<(int, int, int)>>,
    k: int,
    c: (int, int, int),
    next: (int, int, int),
)
    requires
        0 < k <= md.len(),
        md[k - 1] == Some((c.1 as nat, c.2 as nat)),
        valid_ymd(c.0, c.1, c.2),
        !ymd_lt(next, c),
        dated_right(md, s0, k - 1, c),
    ensures
        dated_right(md, s0.push(Some(c)), k, next),
{
    reveal(dated_right);
    let s = s0.push(Some(c));
    assert forall|i: int| 0 <= i < k - 1 implies #[trigger] s[i] == s0[i] by {}
    assert(s[k - 1] == Some(c));
}

proof fn lemma_some_order(md: Seq<Option<(nat, nat)>>, s0: Seq<Option<(int, int, int)>>, k: int, c: (int, int, int))
    requires
        0 < k,
        dated_right(md, s0, k - 1, c),
        never_decreasing(s0, k - 1),
    ensures
        never_decreasing(s0.push(Some(c)), k),
{
    reveal(dated_right);
    reveal(never_decreasing);
    let s = s0.push(Some(c));
    assert forall|i: int, j: int|
        0 <= i < j < k && (#[trigger] s[i]) is Some && (#[trigger] s[j]) is Some implies !ymd_lt(s[j]->0, s[i]->0) by {
        assert(s0[i] == s[i]);
        if j < k - 1 {
            assert(s0[j] == s[j]);
        }
    }
}

proof fn lemma_some_steps(s0: Seq<Option<(int, int, int)>>, k: int, c: (int, int, int), next: (int, int, int))
    requires
        0 < k,
        s0.len() == k - 1,
        year_step(c, next),
        steps_from(s0, k - 1, c),
    ensures
        steps_from(s0.push(Some(c)), k, next),
{
    reveal(steps_from);
    let s = s0.push(Some(c));
    assert forall|i: int, j: int|
        0 <= i < j < k && (#[trigger] s[i]) is Some && (#[trigger] s[j]) is Some && none_between(s, i, j) implies year_step(
        s[i]->0,
        s[j]->0,
    ) by {
        assert(s0[i] == s[i]);
        if j < k - 1 {
            assert(s0[j] == s[j]);
            assert forall|q: int| i < q < j implies (#[trigger] s0[q]) is None by {
                assert(s[q] is None);
            }
        } else {
            assert forall|q: int| i < q < k - 1 implies (#[trigger] s0[q]) is None by {
                assert(s[q] is None);
            }
        }
    }
    assert forall|i: int| 0 <= i < k && (#[trigger] s[i]) is Some && none_between(s, i, k) implies year_step(
        s[i]->0,
        next,
    ) by {
        if i < k - 1 {
            assert(s[k - 1] is Some);
        }
    }
}

proof fn lemma_dates_below(md: Seq<Option<(nat, nat)>>, k: int, year: int, next: (int, int, int))
    requires
        0 <= k <= md.len(),
        next.0 == year,
    ensures
        dates_below(md, k, year, next) matches Ok(s) ==> assigned_below(md, s, k, next),
    decreases k,
{
    if k == 0 {
        reveal(dated_right);
        reveal(never_decreasing);
        reveal(steps_from);
    } else {
        match md[k - 1] {
            None => {
                lemma_dates_below(md, k - 1, year, next);
                if let Ok(s0) = dates_below(md, k - 1, year, next) {
                    lemma_assigned_none(md, s0, k, next);
                }
            },
            Some((m, d)) => {
                if valid_ymd(year, m as int, d as int) {
                    let y2 = if ymd_lt(next, (year, m as int, d as int)) { year - 1 } else { year };
                    let c = (y2, m as int, d as int);
                    if valid_ymd(y2, m as int, d as int) {
                        lemma_dates_below(md, k - 1, y2, c);
                        if let Ok(s0) = dates_below(md, k - 1, y2, c) {
                            lemma_some_dated(md, s0, k, c, next);
                            lemma_some_order(md, s0, k, c);
                            assert(s0.len() == k - 1) by {
                                reveal(dated_right);
                            }
                            lemma_some_steps(s0, k, c, next);
                        }
                    }
                }
            },
        }
    }
}

/// The year inference, walking back from the last dated sheet: with `Ok`,
/// each sheet with a month-day gets a valid date with that month and day
/// (and only those sheets get one), the last dated sheet is in the
/// anchor's year, and each dated sheet is in the year of the next dated
/// sheet, or the year before when its month-day is later than that
/// sheet's (`year_step`). So the dates never decrease in workbook order,
/// and two sheets on one month-day with none between share a date.
pub proof fn lemma_year_plan(md: Seq<Option<(nat, nat)>>, anchor_year: int)
    ensures
        year_plan(md, anchor_year) matches Ok(ds) ==> {
            &&& ds.len() == md.len()
            &&& forall|i: int| 0 <= i < md.len() ==> ((#[trigger] ds[i]) is Some <==> md[i] is Some)
            &&& forall|i: int|
                0 <= i < md.len() && (#[trigger] ds[i]) is Some ==> md[i] == Some(
                    ((ds[i]->0).1 as nat, (ds[i]->0).2 as nat),
                ) && valid_ymd((ds[i]->0).0, (ds[i]->0).1, (ds[i]->0).2)
            &&& forall|i: int, j: int|
                0 <= i < j < md.len() && (#[trigger] ds[i]) is Some && (#[trigger] ds[j]) is Some ==> !ymd_lt(
                    ds[j]->0,
                    ds[i]->0,
                )
            &&& forall|i: int, j: int|
                0 <= i < j < md.len() && (#[trigger] ds[i]) is Some && (#[trigger] ds[j]) is Some
                    && none_between(ds, i, j) ==> year_step(ds[i]->0, ds[j]->0)
            &&& last_dated(md) matches Some(l) ==> (ds[l]->0).0 == anchor_year
        },
{
    lemma_last_dated_props(md);
    match last_dated(md) {
        None => {},
        Some(l) => {
            let (m, d) = md[l]->0;
            if valid_ymd(anchor_year, m as int, d as int) {
                let a = (anchor_year, m as int, d as int);
                lemma_dates_below(md, l, anchor_year, a);
                if let Ok(s) = dates_below(md, l, anchor_year, a) {
                    lemma_year_plan_joined(md, s, l, a);
                }
            }
        },
    }
}

proof fn lemma_year_plan_joined(md: Seq<Option<(nat, nat)>>, s: Seq<Option<(int, int, int)>>, l: int, a: (int, int, int))
    requires
        0 <= l < md.len(),
        md[l] == Some((a.1 as nat, a.2 as nat)),
        valid_ymd(a.0, a.1, a.2),
        forall|j: int| l < j < md.len() ==> (#[trigger] md[j]) is None,
        assigned_below(md, s, l, a),
    ensures
        ({
            let ds = s.push(Some(a)) + Seq::new((md.len() - l - 1) as nat, |i: int| None::<(int, int, int)>);
            &&& ds.len() == md.len()
            &&& forall|i: int| 0 <= i < md.len() ==> ((#[trigger] ds[i]) is Some <==> md[i] is Some)
            &&& forall|i: int|
                0 <= i < md.len() && (#[trigger] ds[i]) is Some ==> md[i] == Some(
                    ((ds[i]->0).1 as nat, (ds[i]->0).2 as nat),
                ) && valid_ymd((ds[i]->0).0, (ds[i]->0).1, (ds[i]->0).2)
            &&& forall|i: int, j: int|
                0 <= i < j < md.len() && (#[trigger] ds[i]) is Some && (#[trigger] ds[j]) is Some ==> !ymd_lt(
                    ds[j]->0,
                    ds[i]->0,
                )
            &&& forall|i: int, j: int|
                0 <= i < j < md.len() && (#[trigger] ds[i]) is Some && (#[trigger] ds[j]) is Some
                    && none_between(ds, i, j) ==> year_step(ds[i]->0, ds[j]->0)
            &&& ds[l] == Some(a)
        }),
{
    reveal(dated_right);
    reveal(never_decreasing);
    reveal(steps_from);
    let tail = Seq::new((md.len() - l - 1) as nat, |i: int| None::<(int, int, int)>);
    let ds = s.push(Some(a)) + tail;
    assert forall|i: int| 0 <= i < l implies #[trigger] ds[i] == s[i] by {}
    assert(ds[l] == Some(a));
    assert forall|i: int| l < i < md.len() implies #[trigger] ds[i] is None by {
        assert(ds[i] == tail[i - l - 1]);
    }
    assert forall|i: int, j: int|
        0 <= i < j < md.len() && (#[trigger] ds[i]) is Some && (#[trigger] ds[j]) is Some implies !ymd_lt(
        ds[j]->0,
        ds[i]->0,
    ) by {
        if j < l {
            assert(ds[i] == s[i] && ds[j] == s[j]);
        } else if j == l {
            assert(ds[i] == s[i]);
        } else {
            assert(ds[j] is None);
        }
    }
    assert forall|i: int, j: int|
        0 <= i < j < md.len() && (#[trigger] ds[i]) is Some && (#[trigger] ds[j]) is Some && none_between(ds, i, j)
            implies year_step(ds[i]->0, ds[j]->0) by {
        if j < l {
            assert(ds[i] == s[i] && ds[j] == s[j]);
            assert forall|q: int| i < q < j implies (#[trigger] s[q]) is None by {
                assert(ds[q] is None);
            }
        } else if j == l {
            assert(ds[i] == s[i]);
            assert forall|q: int| i < q < l implies (#[trigger] s[q]) is None by {
                assert(ds[q] is None);
            }
        } else {
            assert(ds[j] is None);
        }
    }
}

proof fn lemma_dates_below_ok(md: Seq<Option<(nat, nat)>>, k: int, year: int, next: (int, int, int))
    requires
        0 <= k <= md.len(),
        forall|i: int| 0 <= i < md.len() && (#[trigger] md[i]) is Some ==> valid_ymd(1, (md[i]->0).0 as int, (md[i]->0).1 as int),
        min_year() <= year - k,
        year <= max_year(),
    ensures
        dates_below(md, k, year, next) is Ok,
    decreases k,
{
    if k > 0 {
        match md[k - 1] {
            None => {
                lemma_dates_below_ok(md, k - 1, year, next);
            },
            Some((m, d)) => {
                assert(valid_ymd(1, m as int, d as int));
                assert(valid_ymd(year, m as int, d as int));
                assert(valid_ymd(year - 1, m as int, d as int));
                lemma_dates_below_ok(md, k - 1, year - 1, (year - 1, m as int, d as int));
                lemma_dates_below_ok(md, k - 1, year, (year, m as int, d as int));
            },
        }
    }
}

/// The year inference succeeds when every month-day is a date in every
/// year (a date of year 1, which is no leap year) and walking back one
/// year per sheet stays in the range of dates.
pub proof fn lemma_year_plan_ok(md: Seq<Option<(nat, nat)>>, anchor_year: int)
    requires
        forall|i: int| 0 <= i < md.len() && (#[trigger] md[i]) is Some ==> valid_ymd(1, (md[i]->0).0 as int, (md[i]->0).1 as int),
        min_year() <= anchor_year - md.len(),
        anchor_year <= max_year(),
    ensures
        year_plan(md, anchor_year) is Ok,
{
    lemma_last_dated_props(md);
    if let Some(l) = last_dated(md) {
        let (m, d) = md[l]->0;
        assert(valid_ymd(1, m as int, d as int));
        assert(valid_ymd(anchor_year, m as int, d as int));
        lemma_dates_below_ok(md, l, anchor_year, (anchor_year, m as int, d as int));
    }
}

/// The last dated sheet has a month-day and none after it does.
proof fn lemma_last_dated_props(md: Seq<Option<(nat, nat)>>)
    ensures
        match last_dated(md) {
            Some(l) => 0 <= l < md.len() && md[l] is Some && forall|j: int| l < j < md.len() ==> (#[trigger] md[j]) is None,
            None => forall|j: int| 0 <= j < md.len() ==> (#[trigger] md[j]) is None,
        },
    decreases md.len(),
{
    if md.len() > 0 && md.last() is None {
        let t = md.drop_last();
        lemma_last_dated_props(t);
        assert forall|j: int| 0 <= j < t.len() implies #[trigger] md[j] == t[j] by {}
    }
}

pub open spec fn md_view(v: Seq<Option<(u32, u32)>>) -> Seq<Option<(nat, nat)>> {
    v.map_values(
        |o: Option<(u32, u32)>|
            match o {
                Some((m, d)) => Some((m as nat, d as nat)),
                None => None,
            },
    )
}

pub open spec fn dates_view(v: Seq<Option<Date>>) -> Seq<Option<(int, int, int)>> {
    v.map_values(
        |o: Option<Date>|
            match o {
                Some(d) => Some(d@),
                None => None,
            },
    )
}

/// Assigns each sheet's month-day a year, walking backward from the last
/// dated sheet, which gets `anchor_year`. `Err` gives the sheet whose
/// month-day is no date.
pub fn assign_years(md: &Vec<Option<(u32, u32)>>, anchor_year: i32) -> (r: Result<Vec<Option<Date>>, usize>)
    ensures
        match year_plan(md_view(md@), anchor_year as int) {
            Ok(s) => r matches Ok(v) && dates_view(v@) == s,
            Err(e) => r matches Err(i) && i == e,
        },
        r matches Err(i) ==> i < md@.len(),
        r matches Ok(v) ==> v@.len() == md@.len(),
{
    let ghost mv = md_view(md@);
    let n = md.len();
    let mut l = n;
    while l > 0 && md[l - 1].is_none()
        invariant
            l <= n,
            n == md@.len(),
            mv == md_view(md@),
            forall|j: int| l <= j < n ==> (#[trigger] mv[j]) is None,
        decreases l,
    {
        l = l - 1;
    }
    proof {
        lemma_last_dated(mv, l as int);
    }
    let mut dates: Vec<Option<Date>> = Vec::new();
    let mut q: usize = 0;
    while q < n
        invariant
            q <= n,
            dates@.len() == q,
            forall|j: int| 0 <= j < q ==> (#[trigger] dates@[j]) is None,
        decreases n - q,
    {
        dates.push(None);
        q = q + 1;
    }
    if l == 0 {
        assert(dates_view(dates@) =~= Seq::new(mv.len(), |i: int| None::<(int, int, int)>));
        return Ok(dates);
    }
    let last = l - 1;
    let (m0, d0) = match md[last] {
        Some(p) => p,
        None => {
            return Ok(dates);
        },
    };
    let mut year = anchor_year;
    let first = match make_date(year, m0, d0) {
        Some(dt) => dt,
        None => {
            return Err(last);
        },
    };
    let ghost tail = Seq::new((n - l) as nat, |i: int| None::<(int, int, int)>);
    dates.set(last, Some(first));
    let mut next = first;
    let mut i = last;
    proof {
        let dv = dates_view(dates@);
        assert(dv.subrange(last as int, n as int) =~= seq![Some(first@)] + tail);
        assert(mv[last as int] == Some((m0 as nat, d0 as nat)));
        if let Ok(s) = dates_below(mv, last as int, year as int, first@) {
            lemma_push_concat(s, Some(first@), tail);
        }
    }
    while i > 0
        invariant
            i <= last < n,
            n == md@.len(),
            mv == md_view(md@),
            dates@.len() == n,
            forall|j: int| 0 <= j < i ==> (#[trigger] dates@[j]) is None,
            year_plan(mv, anchor_year as int) == match dates_below(mv, i as int, year as int, next@) {
                Ok(s) => Ok(s + dates_view(dates@).subrange(i as int, n as int)),
                Err(e) => Err::<Seq<Option<(int, int, int)>>, int>(e),
            },
        decreases i,
    {
        let k = i - 1;
        let ghost before = dates_view(dates@);
        match md[k] {
            None => {
                assert(mv[k as int] is None);
                assert(before[k as int] is None);
                assert(before.subrange(k as int, n as int) =~= seq![None::<(int, int, int)>]
                    + before.subrange(i as int, n as int));
                proof {
                    if let Ok(s) = dates_below(mv, k as int, year as int, next@) {
                        lemma_push_concat(s, None, before.subrange(i as int, n as int));
                    }
                }
            },
            Some((m, d)) => {
                assert(mv[k as int] == Some((m as nat, d as nat)));
                let mut cand = match make_date(year, m, d) {
                    Some(dt) => dt,
                    None => {
                        return Err(k);
                    },
                };
                if next.before(&cand) {
                    year = year - 1;
                    cand = match make_date(year, m, d) {
                        Some(dt) => dt,
                        None => {
                            return Err(k);
                        },
                    };
                }
                dates.set(k, Some(cand));
                next = cand;
                proof {
                    let after = dates_view(dates@);
                    assert(after.subrange(k as int, n as int) =~= seq![Some(cand@)] + before.subrange(
                        i as int,
                        n as int,
                    ));
                    if let Ok(s) = dates_below(mv, k as int, year as int, next@) {
                        lemma_push_concat(s, Some(cand@), before.subrange(i as int, n as int));
                    }
                }
            },
        }
        i = k;
    }
    assert(dates_view(dates@).subrange(0, n as int) =~= dates_view(dates@));
    Ok(dates)
}

// ---------------------------------------------------------------------
// performers
// ---------------------------------------------------------------------

/// Both strings of each pair as character sequences.
pub open spec fn pair_texts(s: Seq<(String, String)>) -> Seq<(Seq<char>, Seq<char>)> {
    s.map_values(|e: (String, String)| (e.0@, e.1@))
}

/// The performers registered so far, by slug, and the display names that
/// were merged into an existing slug as aliases.
pub struct Registry {
    pub performers: Map<Seq<char>, PerformerView>,
    pub merges: Seq<(Seq<char>, Seq<char>)>,
}

/// A performer known only by a display name.
pub open spec fn fresh_performer(name: Seq<char>) -> PerformerView {
    PerformerView {
        display_name: name,
        aliases: Seq::empty(),
        notes: Seq::empty(),
        twitch: Seq::empty(),
        cdn: Seq::empty(),
    }
}

/// Registering a display name (trimmed): nothing for an empty name or one
/// with no slug; a new performer for a new slug; for a known slug, the name
/// becomes an alias (and a merge) unless it already is the display name or
/// an alias.
pub open spec fn register(r: Registry, display: Seq<char>) -> Registry {
    let t = trim(display);
    if t.len() == 0 {
        r
    } else {
        match slug_of(t) {
            None => r,
            Some(slug) => if r.performers.contains_key(slug) {
                let p = r.performers[slug];
                if p.display_name != t && !p.aliases.contains(t) {
                    Registry {
                        performers: r.performers.insert(
                            slug,
                            PerformerView {
                                display_name: p.display_name,
                                aliases: p.aliases.push(t),
                                notes: p.notes,
                                twitch: p.twitch,
                                cdn: p.cdn,
                            },
                        ),
                        merges: r.merges.push((slug, t)),
                    }
                } else {
                    r
                }
            } else {
                Registry { performers: r.performers.insert(slug, fresh_performer(t)), merges: r.merges }
            },
        }
    }
}

/// Every registered slug is valid and every display name has a
/// non-whitespace character.
pub open spec fn registry_valid(r: Registry) -> bool {
    forall|k: Seq<char>|
        #[trigger] r.performers.contains_key(k) ==> valid_slug(k) && !is_blank(r.performers[k].display_name)
}

proof fn lemma_register_valid(r: Registry, display: Seq<char>)
    requires
        registry_valid(r),
    ensures
        registry_valid(register(r, display)),
{
    let t = trim(display);
    lemma_slugify_valid(t);
    lemma_trim_not_blank(display);
}

proof fn lemma_register_all_valid(r: Registry, names: Seq<Seq<char>>)
    requires
        registry_valid(r),
    ensures
        registry_valid(register_all(r, names)),
    decreases names.len(),
{
    if names.len() > 0 {
        lemma_register_valid(r, names[0]);
        lemma_register_all_valid(register(r, names[0]), names.drop_first());
    }
}

/// Registers the performer a display name stands for; see `register`.
pub fn register_performer(display: &str, performers: &mut Performers, merges: &mut Vec<(Slug, String)>)
    requires
        old(performers).wf(),
    ensures
        final(performers).wf(),
        entries_map(final(performers).0@) == register(
            Registry { performers: entries_map(old(performers).0@), merges: pair_texts(old(merges)@) },
            display@,
        ).performers,
        pair_texts(final(merges)@) == register(
            Registry { performers: entries_map(old(performers).0@), merges: pair_texts(old(merges)@) },
            display@,
        ).merges,
{
    let t = trimmed(display);
    if t.as_str().unicode_len() == 0 {
        return;
    }
    let slug = match slugify(t.as_str()) {
        Some(x) => x,
        None => {
            return;
        },
    };
    let ghost before = performers.0@;
    let ghost merges_before = merges@;
    proof {
        lemma_find_key(before, slug@);
    }
    match position_of(&performers.0, slug.as_str()) {
        Some(i) => {
            proof {
                lemma_entries_map_at(before, i as int);
            }
            let (k, mut p) = performers.0.remove(i);
            let ghost p0 = p;
            if !str_eq(p.display_name.as_str(), t.as_str()) && !contains_text(&p.aliases, &t) {
                p.aliases.push(t.clone());
                assert(texts(p.aliases@) =~= texts(p0.aliases@).push(t@));
                merges.push((slug, t));
                assert(pair_texts(merges@) =~= pair_texts(merges_before).push((slug@, t@)));
            }
            performers.0.insert(i, (k, p));
            proof {
                assert(performers.0@ =~= before.update(i as int, (before[i as int].0, p)));
                lemma_entries_map_update(before, i as int, p);
                assert(entries_map(before).insert(slug@, p0@) =~= entries_map(before));
            }
        },
        None => {
            let np = Performer {
                display_name: t,
                aliases: Vec::new(),
                notes: String::new(),
                twitch: String::new(),
                cdn: String::new(),
            };
            assert(np@.aliases =~= Seq::<Seq<char>>::empty());
            performers.insert(slug, np);
            proof {
                let pos = choose|pos: int|
                    0 <= pos <= before.len() && performers.0@ == before.insert(pos, (slug, np));
                lemma_entries_map_insert(before, pos, slug, np);
            }
        },
    }
}

// ---------------------------------------------------------------------
// shows by date
// ---------------------------------------------------------------------

/// A show the import will write, with the sheet (or sheets, joined by
/// ` + `) it came from.
#[derive(Debug)]
pub struct PlannedShow {
    pub date: Date,
    pub source_sheet: String,
    pub show: Show,
}

pub struct PlannedView {
    pub date: (int, int, int),
    pub source_sheet: Seq<char>,
    pub sets: Seq<SetView>,
}

impl View for PlannedShow {
    type V = PlannedView;

    open spec fn view(&self) -> PlannedView {
        PlannedView {
            date: self.date@,
            source_sheet: self.source_sheet@,
            sets: sets_view(self.show.sets@),
        }
    }
}

pub open spec fn planned_views(s: Seq<PlannedShow>) -> Seq<PlannedView> {
    s.map_values(|p: PlannedShow| p@)
}

/// Each planned show's `show` carries the planned date.
pub open spec fn dates_agree(s: Seq<PlannedShow>) -> bool {
    forall|i: int| 0 <= i < s.len() ==> (#[trigger] s[i]).show.date == s[i].date
}

/// The shows in strictly increasing date order.
pub open spec fn by_date(s: Seq<PlannedView>) -> bool {
    forall|i: int, j: int| 0 <= i < j < s.len() ==> ymd_lt(#[trigger] s[i].date, #[trigger] s[j].date)
}

pub open spec fn not_before(d: (int, int, int)) -> spec_fn(PlannedView) -> bool {
    |p: PlannedView| !ymd_lt(p.date, d)
}

/// `b` appended to `a`: its sheet name after ` + `, its sets after `a`'s.
pub open spec fn joined(a: PlannedView, b: PlannedView) -> PlannedView {
    PlannedView {
        date: a.date,
        source_sheet: a.source_sheet + " + "@ + b.source_sheet,
        sets: a.sets + b.sets,
    }
}

/// Adding a show to shows kept by date (a map keyed by date): joined to
/// the show of the same date if there is one, else placed before the first
/// later show.
pub open spec fn merge_in(acc: Seq<PlannedView>, p: PlannedView) -> Seq<PlannedView> {
    match first_where(acc, not_before(p.date)) {
        Some(k) => if acc[k].date == p.date {
            acc.update(k, joined(acc[k], p))
        } else {
            acc.insert(k, p)
        },
        None => acc.push(p),
    }
}

/// Adds a planned show to shows kept by date; see `merge_in`.
pub fn merge_planned(shows: &mut Vec<PlannedShow>, p: PlannedShow)
    requires
        dates_agree(old(shows)@),
        p.show.date == p.date,
    ensures
        dates_agree(final(shows)@),
        planned_views(final(shows)@) == merge_in(planned_views(old(shows)@), p@),
        by_date(planned_views(old(shows)@)) ==> by_date(planned_views(final(shows)@)),
{
    let ghost acc = planned_views(shows@);
    let ghost pred = not_before(p@.date);
    let mut k: usize = 0;
    while k < shows.len() && shows[k].date.before(&p.date)
        invariant
            k <= shows@.len(),
            acc == planned_views(shows@),
            pred == not_before(p@.date),
            forall|j: int| 0 <= j < k ==> !pred(#[trigger] acc[j]),
        decreases shows@.len() - k,
    {
        assert(acc[k as int].date == shows@[k as int].date@);
        k = k + 1;
    }
    proof {
        if k < shows.len() {
            assert(acc[k as int].date == shows@[k as int].date@);
            lemma_first_where_at(acc, pred, k as int);
        } else {
            lemma_first_where_none(acc, pred);
        }
    }
    if k < shows.len() && shows[k].date.same(&p.date) {
        let mut e = shows.remove(k);
        let mut q = p;
        let ghost e0 = e@;
        e.source_sheet.append(" + ");
        e.source_sheet.append(q.source_sheet.as_str());
        e.show.sets.append(&mut q.show.sets);
        assert(sets_view(e.show.sets@) =~= e0.sets + p@.sets);
        assert(e.source_sheet@ =~= e0.source_sheet + " + "@ + p@.source_sheet);
        shows.insert(k, e);
        proof {
            assert(planned_views(shows@) =~= acc.update(k as int, joined(acc[k as int], p@)));
            assert forall|i: int| 0 <= i < shows@.len() implies (#[trigger] shows@[i]).show.date == shows@[i].date by {
                if i != k {
                    assert(shows@[i] == old(shows)@[i]);
                }
            }
        }
    } else {
        proof {
            if k < shows.len() {
                lemma_date_eq(shows@[k as int].date, p.date);
            }
        }
        let ghost before = shows@;
        shows.insert(k, p);
        proof {
            assert(planned_views(shows@) =~= acc.insert(k as int, p@));
            if k == before.len() {
                assert(acc.insert(k as int, p@) =~= acc.push(p@));
            }
            assert forall|i: int| 0 <= i < shows@.len() implies (#[trigger] shows@[i]).show.date == shows@[i].date by {
                if i < k {
                    assert(shows@[i] == before[i]);
                } else if i > k {
                    assert(shows@[i] == before[i - 1]);
                }
            }
        }
    }
    proof {
        if by_date(acc) {
            let out = planned_views(shows@);
            assert forall|i: int, j: int| 0 <= i < j < out.len() implies ymd_lt(#[trigger] out[i].date, #[trigger] out[j].date) by {
                lemma_by_date_step(acc, p@, k as int, i, j);
            }
        }
    }
}

/// Strict date order is kept when a show joins or is placed at `k`.
proof fn lemma_by_date_step(acc: Seq<PlannedView>, p: PlannedView, k: int, i: int, j: int)
    requires
        by_date(acc),
        0 <= k <= acc.len(),
        forall|q: int| 0 <= q < k ==> ymd_lt(#[trigger] acc[q].date, p.date),
        k < acc.len() ==> !ymd_lt(acc[k].date, p.date),
        0 <= i < j < merge_in(acc, p).len(),
        first_where(acc, not_before(p.date)) == (if k < acc.len() { Some(k) } else { None::<int> }),
    ensures
        ymd_lt(merge_in(acc, p)[i].date, merge_in(acc, p)[j].date),
{
    let out = merge_in(acc, p);
    if k < acc.len() && acc[k].date == p.date {
        assert(out[i].date == acc[i].date);
        assert(out[j].date == acc[j].date);
    } else {
        if k < acc.len() {
            // p is before acc[k] and every later show
            assert(ymd_lt(p.date, acc[k].date));
        }
        if i < k && j == k {
            assert(out[j] == p);
        } else if i == k {
            assert(out[i] == p);
            assert(out[j] == acc[j - 1]);
            if j - 1 > k {
                assert(ymd_lt(acc[k].date, acc[j - 1].date));
            }
        } else if i < k {
            assert(out[i] == acc[i]);
            if j < k {
                assert(out[j] == acc[j]);
            } else {
                assert(out[j] == acc[j - 1]);
            }
        } else {
            assert(out[i] == acc[i - 1]);
            assert(out[j] == acc[j - 1]);
        }
    }
}

// ---------------------------------------------------------------------
// sets in start order
// ---------------------------------------------------------------------

/// Set views order by start (hour, then minute), as `ShowSet`s do.
pub open spec fn start_le(a: SetView, b: SetView) -> bool {
    a.start.hour < b.start.hour || (a.start.hour == b.start.hour && a.start.minute <= b.start.minute)
}

pub open spec fn insert_by_start(s: Seq<SetView>, x: SetView) -> Seq<SetView>
    decreases s.len(),
{
    if s.len() == 0 {
        seq![x]
    } else if start_le(s.last(), x) {
        s.push(x)
    } else {
        insert_by_start(s.drop_last(), x).push(s.last())
    }
}

/// The stable sort of set views by start time.
pub open spec fn sorted_by_start(v: Seq<SetView>) -> Seq<SetView>
    decreases v.len(),
{
    if v.len() == 0 {
        Seq::empty()
    } else {
        insert_by_start(sorted_by_start(v.drop_last()), v.last())
    }
}

proof fn lemma_insert_by_start_members(s: Seq<SetView>, x: SetView)
    ensures
        insert_by_start(s, x).len() == s.len() + 1,
        forall|i: int| 0 <= i < insert_by_start(s, x).len() ==> #[trigger] insert_by_start(s, x)[i] == x || exists|j: int|
            0 <= j < s.len() && insert_by_start(s, x)[i] == s[j],
    decreases s.len(),
{
    let r = insert_by_start(s, x);
    if s.len() > 0 && !start_le(s.last(), x) {
        let t = s.drop_last();
        lemma_insert_by_start_members(t, x);
        let r0 = insert_by_start(t, x);
        assert forall|i: int| 0 <= i < r.len() implies #[trigger] r[i] == x || exists|j: int|
            0 <= j < s.len() && r[i] == s[j] by {
            if i < r0.len() {
                assert(r[i] == r0[i]);
                if r0[i] != x {
                    let j = choose|j: int| 0 <= j < t.len() && r0[i] == t[j];
                    assert(s[j] == t[j]);
                }
            } else {
                assert(r[i] == s[s.len() - 1]);
            }
        }
    } else if s.len() > 0 {
        assert forall|i: int| 0 <= i < r.len() implies #[trigger] r[i] == x || exists|j: int|
            0 <= j < s.len() && r[i] == s[j] by {
            if i < s.len() {
                assert(r[i] == s[i]);
            }
        }
    }
}

/// Set views in start order.
pub open spec fn in_start_order(s: Seq<SetView>) -> bool {
    forall|i: int, j: int| 0 <= i < j < s.len() ==> start_le(#[trigger] s[i], #[trigger] s[j])
}

proof fn lemma_insert_by_start_sorted(s: Seq<SetView>, x: SetView)
    requires
        in_start_order(s),
    ensures
        in_start_order(insert_by_start(s, x)),
    decreases s.len(),
{
    if s.len() == 0 {
    } else if start_le(s.last(), x) {
        let r = s.push(x);
        assert forall|i: int, j: int| 0 <= i < j < r.len() implies start_le(#[trigger] r[i], #[trigger] r[j]) by {
            if j == s.len() && i < s.len() - 1 {
                assert(start_le(s[i], s.last()));
            }
        }
    } else {
        let t = s.drop_last();
        assert forall|i: int, j: int| 0 <= i < j < t.len() implies start_le(#[trigger] t[i], #[trigger] t[j]) by {
            assert(start_le(s[i], s[j]));
        }
        lemma_insert_by_start_sorted(t, x);
        lemma_insert_by_start_members(t, x);
        let u = insert_by_start(t, x);
        let r = u.push(s.last());
        assert forall|k: int| 0 <= k < u.len() implies start_le(#[trigger] u[k], s.last()) by {
            if u[k] != x {
                let m = choose|m: int| 0 <= m < t.len() && u[k] == t[m];
                assert(start_le(s[m], s[s.len() - 1]));
            }
        }
        assert forall|i: int, j: int| 0 <= i < j < r.len() implies start_le(#[trigger] r[i], #[trigger] r[j]) by {
            if j == u.len() {
                assert(r[i] == u[i]);
            } else {
                assert(r[i] == u[i] && r[j] == u[j]);
            }
        }
    }
}

/// Sorting by start puts the sets in start order.
pub proof fn lemma_sorted_by_start_sorted(v: Seq<SetView>)
    ensures
        in_start_order(sorted_by_start(v)),
    decreases v.len(),
{
    if v.len() > 0 {
        lemma_sorted_by_start_sorted(v.drop_last());
        lemma_insert_by_start_sorted(sorted_by_start(v.drop_last()), v.last());
    }
}

/// Sets already in start order are left as they are.
pub proof fn lemma_sorted_by_start_in_order(v: Seq<SetView>)
    requires
        in_start_order(v),
    ensures
        sorted_by_start(v) == v,
    decreases v.len(),
{
    if v.len() > 0 {
        let t = v.drop_last();
        assert(in_start_order(t)) by {
            assert forall|i: int, j: int| 0 <= i < j < t.len() implies start_le(#[trigger] t[i], #[trigger] t[j]) by {
                assert(t[i] == v[i] && t[j] == v[j]);
            }
        }
        lemma_sorted_by_start_in_order(t);
        if t.len() > 0 {
            assert(start_le(v[t.len() - 1], v[v.len() - 1]));
        }
        assert(t.push(v.last()) =~= v);
    }
}

/// Sorting by start keeps the number of sets, and every set of the result
/// is one of the input.
pub proof fn lemma_sorted_by_start_members(v: Seq<SetView>)
    ensures
        sorted_by_start(v).len() == v.len(),
        forall|i: int| 0 <= i < v.len() ==> exists|j: int| 0 <= j < v.len() && #[trigger] sorted_by_start(v)[i] == v[j],
    decreases v.len(),
{
    if v.len() > 0 {
        let t = v.drop_last();
        lemma_sorted_by_start_members(t);
        let st = sorted_by_start(t);
        lemma_insert_by_start_members(st, v.last());
        let r = sorted_by_start(v);
        assert forall|i: int| 0 <= i < v.len() implies exists|j: int| 0 <= j < v.len() && #[trigger] r[i] == v[j] by {
            if r[i] == v.last() {
                assert(r[i] == v[v.len() - 1]);
            } else {
                let k = choose|k: int| 0 <= k < st.len() && r[i] == st[k];
                let j = choose|j: int| 0 <= j < t.len() && st[k] == t[j];
                assert(v[j] == t[j]);
            }
        }
    }
}

proof fn lemma_insert_view(s: Seq<ShowSet>, x: ShowSet)
    ensures
        sets_view(insert_ranked(s, x)) == insert_by_start(sets_view(s), set_view(x)),
    decreases s.len(),
{
    let sv = sets_view(s);
    if s.len() == 0 {
        assert(sets_view(seq![x]) =~= seq![set_view(x)]);
    } else {
        assert(sv.last() == set_view(s.last()));
        assert(sv.drop_last() =~= sets_view(s.drop_last()));
        if s.last().rank_le(x) {
            assert(sets_view(s.push(x)) =~= sv.push(set_view(x)));
        } else {
            lemma_insert_view(s.drop_last(), x);
            let t = insert_ranked(s.drop_last(), x);
            assert(sets_view(t.push(s.last())) =~= sets_view(t).push(set_view(s.last())));
        }
    }
}

/// Sorting sets and then viewing them is viewing them and then sorting.
pub proof fn lemma_sorted_view(v: Seq<ShowSet>)
    ensures
        sets_view(stable_sorted(v)) == sorted_by_start(sets_view(v)),
    decreases v.len(),
{
    if v.len() == 0 {
        assert(sets_view(stable_sorted(v)) =~= Seq::<SetView>::empty());
    } else {
        lemma_sorted_view(v.drop_last());
        lemma_insert_view(stable_sorted(v.drop_last()), v.last());
        assert(sets_view(v).drop_last() =~= sets_view(v.drop_last()));
        assert(sets_view(v).last() == set_view(v.last()));
    }
}

// ---------------------------------------------------------------------
// the plan
// ---------------------------------------------------------------------

/// What an import would write: the shows in date order, the performer
/// table, the sheets (or rows) skipped with the reason, and the display
/// names merged into an existing slug as aliases.
#[derive(Debug)]
pub struct ImportPlan {
    pub shows: Vec<PlannedShow>,
    pub performers: Performers,
    pub skipped: Vec<(String, String)>,
    pub merges: Vec<(Slug, String)>,
}

/// Why no plan could be made.
#[derive(Debug)]
pub enum ImportError {
    /// A sheet's month and day make no date in the year it was given.
    InvalidDate { sheet: String },
}

pub open spec fn import_error_text(e: ImportError) -> Seq<char> {
    match e {
        ImportError::InvalidDate { sheet } => "sheet "@ + debug_text(sheet@) + ": invalid date"@,
    }
}

impl ImportError {
    /// The error's message.
    pub fn message(&self) -> (r: String)
        ensures
            r@ == import_error_text(*self),
    {
        match self {
            ImportError::InvalidDate { sheet } => {
                let q = debug_quoted(sheet.as_str());
                let a = concat_str("sheet ", q.as_str());
                concat_str(a.as_str(), ": invalid date")
            },
        }
    }
}

/// Each sheet's name with what `parse_sheet` makes of it.
pub open spec fn parsed_list(sv: Seq<(String, Sheet)>) -> Seq<(Seq<char>, Result<RawSheetView, Seq<char>>)> {
    sv.map_values(|e: (String, Sheet)| (e.0@, parsed_sheet(e.0@, e.1)))
}

/// The sheets that could not be read, with the reason, in order.
pub open spec fn parse_skips(ps: Seq<(Seq<char>, Result<RawSheetView, Seq<char>>)>) -> Seq<(Seq<char>, Seq<char>)>
    decreases ps.len(),
{
    if ps.len() == 0 {
        Seq::empty()
    } else {
        let rest = parse_skips(ps.drop_last());
        match ps.last().1 {
            Err(e) => rest.push((ps.last().0, e)),
            Ok(_) => rest,
        }
    }
}

/// The month and day of each sheet that could be read.
pub open spec fn sheet_month_days(ps: Seq<(Seq<char>, Result<RawSheetView, Seq<char>>)>) -> Seq<Option<(nat, nat)>> {
    ps.map_values(
        |e: (Seq<char>, Result<RawSheetView, Seq<char>>)|
            match e.1 {
                Ok(v) => Some((v.month, v.day)),
                Err(_) => None,
            },
    )
}

pub open spec fn opt_seq(o: Option<Seq<char>>) -> Seq<Seq<char>> {
    match o {
        Some(x) => seq![x],
        None => Seq::empty(),
    }
}

/// The DJ and VJ names of lineup rows, in order.
pub open spec fn row_names(rows: Seq<RawRowView>) -> Seq<Seq<char>>
    decreases rows.len(),
{
    if rows.len() == 0 {
        Seq::empty()
    } else {
        opt_seq(rows[0].dj) + opt_seq(rows[0].vj) + row_names(rows.drop_first())
    }
}

/// The DJ and VJ names of every sheet that could be read, in order.
pub open spec fn sheet_names(ps: Seq<(Seq<char>, Result<RawSheetView, Seq<char>>)>) -> Seq<Seq<char>>
    decreases ps.len(),
{
    if ps.len() == 0 {
        Seq::empty()
    } else {
        (match ps[0].1 {
            Ok(v) => row_names(v.rows),
            Err(_) => Seq::empty(),
        }) + sheet_names(ps.drop_first())
    }
}

/// Registering names one after another.
pub open spec fn register_all(r: Registry, names: Seq<Seq<char>>) -> Registry
    decreases names.len(),
{
    if names.len() == 0 {
        r
    } else {
        register_all(register(r, names[0]), names.drop_first())
    }
}

pub open spec fn empty_registry() -> Registry {
    Registry { performers: Map::empty(), merges: Seq::empty() }
}

/// The reason a row is skipped whose time runs past 47:59.
pub open spec fn overflow_text(t: (u8, u8)) -> Seq<char> {
    "time "@ + clock_text(t.0 as nat, t.1 as nat) + " overflowed 47h"@
}

pub open spec fn overflow_skips(name: Seq<char>, ovs: Seq<(u8, u8)>) -> Seq<(Seq<char>, Seq<char>)> {
    ovs.map_values(|t: (u8, u8)| (name, overflow_text(t)))
}

/// The shows gathered so far and everything skipped so far.
pub struct Collect {
    pub shows: Seq<PlannedView>,
    pub skipped: Seq<(Seq<char>, Seq<char>)>,
}

/// One dated sheet's contribution: its overflowing rows are skipped, and
/// its sets make a show for its date (or the sheet is skipped when it has
/// none).
pub open spec fn collect_sheet(c: Collect, name: Seq<char>, raw: RawSheetView, date: (int, int, int)) -> Collect {
    let w = walk_rows(raw.rows);
    let skipped = c.skipped + overflow_skips(name, w.overflows);
    if w.sets.len() == 0 {
        Collect { shows: c.shows, skipped: skipped.push((name, "no valid sets"@)) }
    } else {
        Collect {
            shows: merge_in(c.shows, PlannedView { date, source_sheet: name, sets: w.sets }),
            skipped,
        }
    }
}

/// The sheets from `i` on, in order.
pub open spec fn collect_from(
    c: Collect,
    ps: Seq<(Seq<char>, Result<RawSheetView, Seq<char>>)>,
    dates: Seq<Option<(int, int, int)>>,
    i: int,
) -> Collect
    decreases ps.len() - i,
{
    if i < 0 || i >= ps.len() {
        c
    } else {
        let next = match (ps[i].1, dates[i]) {
            (Ok(v), Some(d)) => collect_sheet(c, ps[i].0, v, d),
            _ => c,
        };
        collect_from(next, ps, dates, i + 1)
    }
}

/// A show with its sets in start order.
pub open spec fn sorted_show(p: PlannedView) -> PlannedView {
    PlannedView { date: p.date, source_sheet: p.source_sheet, sets: sorted_by_start(p.sets) }
}

pub struct PlanView {
    pub shows: Seq<PlannedView>,
    pub performers: Map<Seq<char>, PerformerView>,
    pub skipped: Seq<(Seq<char>, Seq<char>)>,
    pub merges: Seq<(Seq<char>, Seq<char>)>,
}

/// The plan for a workbook (its sheets in order) and the anchor date, or
/// the index of the sheet whose date is invalid.
pub open spec fn plan_of(sv: Seq<(String, Sheet)>, anchor: (int, int, int)) -> Result<PlanView, int> {
    let ps = parsed_list(sv);
    match year_plan(sheet_month_days(ps), anchor.0) {
        Err(k) => Err(k),
        Ok(dates) => {
            let reg = register_all(empty_registry(), sheet_names(ps));
            let c = collect_from(Collect { shows: Seq::empty(), skipped: parse_skips(ps) }, ps, dates, 0);
            Ok(
                PlanView {
                    shows: c.shows.map_values(|p: PlannedView| sorted_show(p)),
                    performers: reg.performers,
                    skipped: c.skipped,
                    merges: reg.merges,
                },
            )
        },
    }
}

/// A read sheet as kept while planning.
pub open spec fn raw_kept(r: Result<RawSheetView, Seq<char>>, o: Option<RawSheet>) -> bool {
    match r {
        Ok(v) => o matches Some(x) && x@ == v && forall|k: int|
            0 <= k < x.rows@.len() ==> time_in_range(#[trigger] x.rows@[k].parsed_time),
        Err(_) => o is None,
    }
}

fn overflow_message(t: (u8, u8)) -> (r: String)
    ensures
        r@ == overflow_text(t),
{
    let c = clock_string(t.0 as u32, t.1 as u32);
    let a = concat_str("time ", c.as_str());
    concat_str(a.as_str(), " overflowed 47h")
}

/// Reads every sheet; those that cannot be read are skipped with the reason.
fn parse_all(sheets: &Vec<(String, Sheet)>) -> (r: (Vec<Option<RawSheet>>, Vec<Option<(u32, u32)>>, Vec<(String, String)>))
    requires
        forall|i: int| 0 <= i < sheets@.len() ==> (#[trigger] sheets@[i]).1.wf(),
    ensures
        r.0@.len() == sheets@.len(),
        forall|i: int| 0 <= i < sheets@.len() ==> raw_kept(#[trigger] parsed_list(sheets@)[i].1, r.0@[i]),
        md_view(r.1@) == sheet_month_days(parsed_list(sheets@)),
        pair_texts(r.2@) == parse_skips(parsed_list(sheets@)),
{
    let ghost ps = parsed_list(sheets@);
    let mut raws: Vec<Option<RawSheet>> = Vec::new();
    let mut md: Vec<Option<(u32, u32)>> = Vec::new();
    let mut skipped: Vec<(String, String)> = Vec::new();
    let mut i: usize = 0;
    assert(ps.take(0) =~= Seq::<(Seq<char>, Result<RawSheetView, Seq<char>>)>::empty());
    assert(md_view(md@) =~= sheet_month_days(ps).take(0));
    assert(pair_texts(skipped@) =~= Seq::<(Seq<char>, Seq<char>)>::empty());
    while i < sheets.len()
        invariant
            i <= sheets@.len(),
            ps == parsed_list(sheets@),
            forall|k: int| 0 <= k < sheets@.len() ==> (#[trigger] sheets@[k]).1.wf(),
            raws@.len() == i,
            md@.len() == i,
            ps.len() == sheets@.len(),
            forall|k: int| 0 <= k < i ==> raw_kept(#[trigger] ps[k].1, raws@[k]),
            md_view(md@) == sheet_month_days(ps).take(i as int),
            pair_texts(skipped@) == parse_skips(ps.take(i as int)),
        decreases sheets@.len() - i,
    {
        let name = &sheets[i].0;
        let sheet = &sheets[i].1;
        assert(ps[i as int] == (name@, parsed_sheet(name@, *sheet)));
        let ghost md0 = md@;
        let ghost sk0 = skipped@;
        assert(ps.take(i + 1).drop_last() =~= ps.take(i as int));
        match parse_sheet(name.as_str(), sheet) {
            Ok(raw) => {
                assert(parsed_sheet(name@, *sheet) == Ok::<RawSheetView, Seq<char>>(raw@));
                md.push(Some((raw.month, raw.day)));
                assert(md_view(md@)[i as int] == sheet_month_days(ps)[i as int]);
                assert(md_view(md@).drop_last() =~= md_view(md0));
                raws.push(Some(raw));
                assert(md_view(md@) =~= sheet_month_days(ps).take(i + 1));
            },
            Err(reason) => {
                skipped.push((name.clone(), reason));
                raws.push(None);
                md.push(None);
                assert(md_view(md@)[i as int] == sheet_month_days(ps)[i as int]);
                assert(md_view(md@).drop_last() =~= md_view(md0));
                assert(md_view(md@) =~= sheet_month_days(ps).take(i + 1));
                assert(pair_texts(skipped@) =~= pair_texts(sk0).push((name@, reason@)));
            },
        }
        i = i + 1;
    }
    assert(ps.take(i as int) =~= ps);
    assert(sheet_month_days(ps).take(i as int) =~= sheet_month_days(ps));
    (raws, md, skipped)
}

/// Registers the DJ and VJ of every lineup row of every read sheet.
fn register_sheets(raws: &Vec<Option<RawSheet>>, Ghost(ps): Ghost<Seq<(Seq<char>, Result<RawSheetView, Seq<char>>)>>) -> (r: (Performers, Vec<(Slug, String)>))
    requires
        raws@.len() == ps.len(),
        forall|i: int| 0 <= i < ps.len() ==> raw_kept(#[trigger] ps[i].1, raws@[i]),
    ensures
        r.0.wf(),
        entries_map(r.0.0@) == register_all(empty_registry(), sheet_names(ps)).performers,
        pair_texts(r.1@) == register_all(empty_registry(), sheet_names(ps)).merges,
{
    let ghost target = register_all(empty_registry(), sheet_names(ps));
    let mut performers = Performers::new();
    let mut merges: Vec<(Slug, String)> = Vec::new();
    assert(entries_map(performers.0@) =~= Map::<Seq<char>, PerformerView>::empty());
    assert(pair_texts(merges@) =~= Seq::<(Seq<char>, Seq<char>)>::empty());
    assert(ps.skip(0) =~= ps);
    let mut i: usize = 0;
    while i < raws.len()
        invariant
            i <= raws@.len(),
            raws@.len() == ps.len(),
            forall|k: int| 0 <= k < ps.len() ==> raw_kept(#[trigger] ps[k].1, raws@[k]),
            performers.wf(),
            register_all(
                Registry { performers: entries_map(performers.0@), merges: pair_texts(merges@) },
                sheet_names(ps.skip(i as int)),
            ) == target,
        decreases raws@.len() - i,
    {
        let ghost tail = sheet_names(ps.skip(i + 1));
        assert(ps.skip(i as int)[0] == ps[i as int]);
        assert(ps.skip(i as int).drop_first() =~= ps.skip(i + 1));
        assert(raw_kept(ps[i as int].1, raws@[i as int]));
        match &raws[i] {
            None => {
                assert(sheet_names(ps.skip(i as int)) =~= tail);
            },
            Some(raw) => {
                let ghost rows = raw_rows_view(raw.rows@);
                assert(sheet_names(ps.skip(i as int)) =~= row_names(rows) + tail);
                assert(rows.skip(0) =~= rows);
                let mut j: usize = 0;
                while j < raw.rows.len()
                    invariant
                        j <= raw.rows@.len(),
                        rows == raw_rows_view(raw.rows@),
                        performers.wf(),
                        register_all(
                            Registry { performers: entries_map(performers.0@), merges: pair_texts(merges@) },
                            row_names(rows.skip(j as int)) + tail,
                        ) == target,
                    decreases raw.rows@.len() - j,
                {
                    let row = &raw.rows[j];
                    let ghost rs = rows.skip(j as int);
                    assert(rs[0] == row@);
                    assert(rs.drop_first() =~= rows.skip(j + 1));
                    let ghost mut rest = row_names(rs) + tail;
                    assert(rest =~= opt_seq(row@.dj) + opt_seq(row@.vj) + (row_names(rows.skip(j + 1)) + tail));
                    if let Some(n) = &row.dj {
                        let ghost cur = Registry { performers: entries_map(performers.0@), merges: pair_texts(merges@) };
                        assert(rest[0] == n@);
                        register_performer(n.as_str(), &mut performers, &mut merges);
                        proof {
                            assert(register_all(cur, rest) == register_all(register(cur, rest[0]), rest.drop_first()));
                            rest = rest.drop_first();
                        }
                    }
                    assert(rest =~= opt_seq(row@.vj) + (row_names(rows.skip(j + 1)) + tail));
                    if let Some(n) = &row.vj {
                        let ghost cur = Registry { performers: entries_map(performers.0@), merges: pair_texts(merges@) };
                        assert(rest[0] == n@);
                        register_performer(n.as_str(), &mut performers, &mut merges);
                        proof {
                            assert(register_all(cur, rest) == register_all(register(cur, rest[0]), rest.drop_first()));
                            rest = rest.drop_first();
                        }
                    }
                    assert(rest =~= row_names(rows.skip(j + 1)) + tail);
                    j = j + 1;
                }
                assert(rows.skip(j as int) =~= Seq::<RawRowView>::empty());
                assert(row_names(rows.skip(j as int)) + tail =~= tail);
            },
        }
        i = i + 1;
    }
    assert(ps.skip(i as int) =~= Seq::<(Seq<char>, Result<RawSheetView, Seq<char>>)>::empty());
    (performers, merges)
}

/// The shows of every dated sheet, merged by date, and what was skipped.
fn collect_shows(
    raws: &Vec<Option<RawSheet>>,
    dates: &Vec<Option<Date>>,
    skipped: Vec<(String, String)>,
    Ghost(ps): Ghost<Seq<(Seq<char>, Result<RawSheetView, Seq<char>>)>>,
) -> (r: (Vec<PlannedShow>, Vec<(String, String)>))
    requires
        raws@.len() == ps.len(),
        dates@.len() == ps.len(),
        forall|i: int| 0 <= i < ps.len() ==> raw_kept(#[trigger] ps[i].1, raws@[i]),
        forall|i: int| 0 <= i < ps.len() ==> (#[trigger] ps[i]).0 == match ps[i].1 {
            Ok(v) => v.sheet_name,
            Err(_) => ps[i].0,
        },
    ensures
        planned_views(r.0@) == collect_from(
            Collect { shows: Seq::empty(), skipped: pair_texts(skipped@) },
            ps,
            dates_view(dates@),
            0,
        ).shows,
        pair_texts(r.1@) == collect_from(
            Collect { shows: Seq::empty(), skipped: pair_texts(skipped@) },
            ps,
            dates_view(dates@),
            0,
        ).skipped,
        dates_agree(r.0@),
        by_date(planned_views(r.0@)),
{
    let ghost ds = dates_view(dates@);
    let ghost target = collect_from(Collect { shows: Seq::empty(), skipped: pair_texts(skipped@) }, ps, ds, 0);
    let mut shows: Vec<PlannedShow> = Vec::new();
    let mut sk = skipped;
    assert(planned_views(shows@) =~= Seq::<PlannedView>::empty());
    let mut i: usize = 0;
    while i < raws.len()
        invariant
            i <= raws@.len(),
            raws@.len() == ps.len(),
            dates@.len() == ps.len(),
            ds == dates_view(dates@),
            forall|k: int| 0 <= k < ps.len() ==> raw_kept(#[trigger] ps[k].1, raws@[k]),
            forall|k: int| 0 <= k < ps.len() ==> (#[trigger] ps[k]).0 == match ps[k].1 {
                Ok(v) => v.sheet_name,
                Err(_) => ps[k].0,
            },
            dates_agree(shows@),
            by_date(planned_views(shows@)),
            collect_from(
                Collect { shows: planned_views(shows@), skipped: pair_texts(sk@) },
                ps,
                ds,
                i as int,
            ) == target,
        decreases raws@.len() - i,
    {
        let ghost c = Collect { shows: planned_views(shows@), skipped: pair_texts(sk@) };
        assert(raw_kept(ps[i as int].1, raws@[i as int]));
        assert(ps[i as int].0 == match ps[i as int].1 {
            Ok(v) => v.sheet_name,
            Err(_) => ps[i as int].0,
        });
        match &raws[i] {
            None => {},
            Some(raw) => {
                match dates[i] {
                    None => {
                        assert(ds[i as int] is None);
                    },
                    Some(date) => {
                        assert(ds[i as int] == Some(date@));
                        let (sets, ovs) = sheet_sets(&raw.rows);
                        let ghost base = pair_texts(sk@);
                        let mut q: usize = 0;
                        assert(overflow_skips(raw@.sheet_name, ovs@.take(0)) =~= Seq::<(Seq<char>, Seq<char>)>::empty());
                        assert(base + Seq::<(Seq<char>, Seq<char>)>::empty() =~= base);
                        while q < ovs.len()
                            invariant
                                q <= ovs@.len(),
                                pair_texts(sk@) == base + overflow_skips(raw@.sheet_name, ovs@.take(q as int)),
                            decreases ovs@.len() - q,
                        {
                            let ghost before = sk@;
                            sk.push((raw.sheet_name.clone(), overflow_message(ovs[q])));
                            assert(ovs@.take(q + 1) =~= ovs@.take(q as int).push(ovs@[q as int]));
                            assert(pair_texts(sk@) =~= pair_texts(before).push((raw@.sheet_name, overflow_text(ovs@[q as int]))));
                            assert(overflow_skips(raw@.sheet_name, ovs@.take(q + 1)) =~= overflow_skips(
                                raw@.sheet_name,
                                ovs@.take(q as int),
                            ).push((raw@.sheet_name, overflow_text(ovs@[q as int]))));
                            q = q + 1;
                        }
                        assert(ovs@.take(q as int) =~= ovs@);
                        if sets.len() == 0 {
                            let ghost before = sk@;
                            sk.push((raw.sheet_name.clone(), owned("no valid sets")));
                            assert(pair_texts(sk@) =~= pair_texts(before).push((raw@.sheet_name, "no valid sets"@)));
                        } else {
                            let planned = PlannedShow {
                                date,
                                source_sheet: raw.sheet_name.clone(),
                                show: Show { date, sets },
                            };
                            merge_planned(&mut shows, planned);
                        }
                    },
                }
            },
        }
        i = i + 1;
    }
    (shows, sk)
}

/// Every show's sets put in start order (a stable sort).
fn sort_show_sets(shows: Vec<PlannedShow>) -> (r: Vec<PlannedShow>)
    requires
        dates_agree(shows@),
    ensures
        dates_agree(r@),
        planned_views(r@) == planned_views(shows@).map_values(|p: PlannedView| sorted_show(p)),
{
    let ghost orig = shows@;
    let n = shows.len();
    let mut rest = reverse(shows);
    let mut out: Vec<PlannedShow> = Vec::new();
    let mut i: usize = 0;
    while i < n
        invariant
            i <= n,
            n == orig.len(),
            dates_agree(orig),
            rest@.len() == n - i,
            forall|k: int| 0 <= k < n - i ==> #[trigger] rest@[k] == orig[n - 1 - k],
            out@.len() == i,
            dates_agree(out@),
            forall|k: int| 0 <= k < i ==> (#[trigger] out@[k])@ == sorted_show(orig[k]@),
        decreases n - i,
    {
        let e = rest.pop().unwrap();
        assert(e == orig[i as int]);
        let sorted = sort_ranked(e.show.sets);
        proof {
            lemma_sorted_view(e.show.sets@);
        }
        let p = PlannedShow {
            date: e.date,
            source_sheet: e.source_sheet,
            show: Show { date: e.show.date, sets: sorted },
        };
        out.push(p);
        i = i + 1;
    }
    assert(planned_views(out@) =~= planned_views(orig).map_values(|p: PlannedView| sorted_show(p)));
    out
}

/// Plans an import of a workbook, given its sheets in workbook order and
/// the date of the last sheet (`anchor`): which sheets are read (the rest
/// are skipped with the reason), the date of each (years inferred walking
/// backward), the performers of their lineups, and one show per date with
/// its sets in start order. `Err` when a sheet's month-day is no date in
/// the year it gets.
pub fn build_plan(sheets: &Vec<(String, Sheet)>, anchor: Date) -> (r: Result<ImportPlan, ImportError>)
    requires
        forall|i: int| 0 <= i < sheets@.len() ==> (#[trigger] sheets@[i]).1.wf(),
    ensures
        match plan_of(sheets@, anchor@) {
            Err(k) => r matches Err(ImportError::InvalidDate { sheet }) && 0 <= k < sheets@.len() && sheet@ == sheets@[k].0@,
            Ok(pv) => r matches Ok(plan) && {
                &&& plan.performers.wf()
                &&& entries_map(plan.performers.0@) == pv.performers
                &&& pair_texts(plan.skipped@) == pv.skipped
                &&& pair_texts(plan.merges@) == pv.merges
                &&& planned_views(plan.shows@) == pv.shows
                &&& dates_agree(plan.shows@)
            },
        },
        r matches Ok(plan) ==> by_date(planned_views(plan.shows@)),
        r matches Ok(plan) ==> first_entry_error(plan.performers.0@) is None,
{
    let ghost ps = parsed_list(sheets@);
    let (raws, md, skipped) = parse_all(sheets);
    let dates = match assign_years(&md, anchor.year()) {
        Ok(d) => d,
        Err(k) => {
            return Err(ImportError::InvalidDate { sheet: sheets[k].0.clone() });
        },
    };
    assert(md@.len() == md_view(md@).len());
    let (performers, merges) = register_sheets(&raws, Ghost(ps));
    proof {
        assert forall|i: int| 0 <= i < ps.len() implies (#[trigger] ps[i]).0 == match ps[i].1 {
            Ok(v) => v.sheet_name,
            Err(_) => ps[i].0,
        } by {
            assert(ps[i] == (sheets@[i].0@, parsed_sheet(sheets@[i].0@, sheets@[i].1)));
        }
    }
    let (shows, skipped) = collect_shows(&raws, &dates, skipped, Ghost(ps));
    let shows = sort_show_sets(shows);
    proof {
        let c = collect_from(Collect { shows: Seq::empty(), skipped: parse_skips(ps) }, ps, dates_view(dates@), 0);
        assert(planned_views(shows@) =~= c.shows.map_values(|p: PlannedView| sorted_show(p)));
        // start order within a show keeps the date order of the shows
        assert forall|i: int, j: int| 0 <= i < j < planned_views(shows@).len() implies ymd_lt(
            #[trigger] planned_views(shows@)[i].date,
            #[trigger] planned_views(shows@)[j].date,
        ) by {
            assert(planned_views(shows@)[i].date == c.shows[i].date);
            assert(planned_views(shows@)[j].date == c.shows[j].date);
        }
    }
    proof {
        assert(registry_valid(empty_registry()));
        lemma_register_all_valid(empty_registry(), sheet_names(ps));
        lemma_valid_table(performers.0@);
    }
    Ok(ImportPlan { shows, performers, skipped, merges })
}

// ---------------------------------------------------------------------
// laws of the plan
// ---------------------------------------------------------------------

/// The performers a plan creates all pass `Performers::validate`: each
/// slug is valid and each display name has a non-whitespace character.
pub proof fn lemma_plan_performers_valid(sv: Seq<(String, Sheet)>, anchor: (int, int, int))
    ensures
        plan_of(sv, anchor) matches Ok(pv) ==> forall|k: Seq<char>|
            #[trigger] pv.performers.contains_key(k) ==> valid_slug(k) && !is_blank(pv.performers[k].display_name),
{
    let ps = parsed_list(sv);
    assert(registry_valid(empty_registry()));
    lemma_register_all_valid(empty_registry(), sheet_names(ps));
}

/// A performer table with sorted keys whose map has only valid slugs and
/// non-blank names passes `validate`.
pub proof fn lemma_valid_table(s: Seq<(String, Performer)>)
    requires
        keys_sorted(s),
        forall|k: Seq<char>|
            #[trigger] entries_map(s).contains_key(k) ==> valid_slug(k) && !is_blank(entries_map(s)[k].display_name),
    ensures
        first_entry_error(s) is None,
    decreases s.len(),
{
    if s.len() > 0 {
        lemma_entries_map_at(s, 0);
        let t = s.drop_first();
        assert forall|a: int, b: int| 0 <= a < b < t.len() implies crate::text::text_lt(
            #[trigger] t[a].0@,
            #[trigger] t[b].0@,
        ) by {
            assert(t[a] == s[a + 1] && t[b] == s[b + 1]);
        }
        assert forall|k: Seq<char>| #[trigger] entries_map(t).contains_key(k) implies valid_slug(k) && !is_blank(
            entries_map(t)[k].display_name,
        ) by {
            let j = choose|j: int| 0 <= j < t.len() && (#[trigger] t[j]).0@ == k;
            lemma_entries_map_at(t, j);
            assert(t[j] == s[j + 1]);
            lemma_entries_map_at(s, j + 1);
        }
        lemma_valid_table(t);
    }
}

/// Every show holds at least one set.
pub open spec fn shows_filled(s: Seq<PlannedView>) -> bool {
    forall|i: int| 0 <= i < s.len() ==> (#[trigger] s[i]).sets.len() > 0
}

proof fn lemma_collect_filled(
    c: Collect,
    ps: Seq<(Seq<char>, Result<RawSheetView, Seq<char>>)>,
    dates: Seq<Option<(int, int, int)>>,
    i: int,
)
    requires
        shows_filled(c.shows),
    ensures
        shows_filled(collect_from(c, ps, dates, i).shows),
    decreases ps.len() - i,
{
    if 0 <= i < ps.len() {
        let next = match (ps[i].1, dates[i]) {
            (Ok(v), Some(d)) => collect_sheet(c, ps[i].0, v, d),
            _ => c,
        };
        if let (Ok(v), Some(d)) = (ps[i].1, dates[i]) {
            let w = walk_rows(v.rows);
            if w.sets.len() > 0 {
                let p = PlannedView { date: d, source_sheet: ps[i].0, sets: w.sets };
                let m = merge_in(c.shows, p);
                crate::seqs::lemma_first_where(c.shows, not_before(p.date));
                assert forall|k: int| 0 <= k < m.len() implies (#[trigger] m[k]).sets.len() > 0 by {
                    match first_where(c.shows, not_before(p.date)) {
                        Some(q) => {
                            if c.shows[q].date == p.date {
                                if k != q {
                                    assert(m[k] == c.shows[k]);
                                }
                            } else if k < q {
                                assert(m[k] == c.shows[k]);
                            } else if k > q {
                                assert(m[k] == c.shows[k - 1]);
                            }
                        },
                        None => {
                            if k < c.shows.len() {
                                assert(m[k] == c.shows[k]);
                            }
                        },
                    }
                }
            }
        }
        lemma_collect_filled(next, ps, dates, i + 1);
    }
}

/// Every show of a plan holds at least one set, and its sets are in
/// start order.
pub proof fn lemma_plan_shows_filled(sv: Seq<(String, Sheet)>, anchor: (int, int, int))
    ensures
        plan_of(sv, anchor) matches Ok(pv) ==> forall|i: int|
            0 <= i < pv.shows.len() ==> (#[trigger] pv.shows[i]).sets.len() > 0 && in_start_order(pv.shows[i].sets),
{
    let ps = parsed_list(sv);
    if let Ok(dates) = year_plan(sheet_month_days(ps), anchor.0) {
        let c0 = Collect { shows: Seq::empty(), skipped: parse_skips(ps) };
        lemma_collect_filled(c0, ps, dates, 0);
        let c = collect_from(c0, ps, dates, 0);
        let shows = c.shows.map_values(|p: PlannedView| sorted_show(p));
        assert forall|i: int| 0 <= i < shows.len() implies (#[trigger] shows[i]).sets.len() > 0 && in_start_order(
            shows[i].sets,
        ) by {
            lemma_sorted_by_start_members(c.shows[i].sets);
            lemma_sorted_by_start_sorted(c.shows[i].sets);
        }
    }
}

/// A set an import makes: a start before 48:00 (the show's day and the
/// next), minutes up to 59, and the default hour-long duration.
pub open spec fn set_in_day_range(x: SetView) -> bool {
    &&& x.start.hour <= 47
    &&& x.start.minute <= 59
    &&& x.duration_min == 60
}

pub open spec fn shows_in_range(s: Seq<PlannedView>) -> bool {
    forall|i: int, j: int| 0 <= i < s.len() && 0 <= j < s[i].sets.len() ==> set_in_day_range(#[trigger] s[i].sets[j])
}

proof fn lemma_walk_in_range(w: Walk, rows: Seq<RawRowView>)
    requires
        w.rollover >= 0,
        forall|j: int| 0 <= j < w.sets.len() ==> set_in_day_range(#[trigger] w.sets[j]),
    ensures
        forall|j: int| 0 <= j < walk_from(w, rows).sets.len() ==> set_in_day_range(#[trigger] walk_from(w, rows).sets[j]),
    decreases rows.len(),
{
    if rows.len() > 0 {
        let n = walk_step(w, rows[0]);
        if let Some((h, m)) = rows[0].parsed_time {
            let eff0 = h * 60 + m + w.rollover;
            let add = catch_up(eff0, w.prev);
            if eff0 < w.prev {
                assert(add >= 0) by (nonlinear_arith)
                    requires
                        add == 1440 * ((w.prev - eff0 + 1439) / 1440),
                        w.prev - eff0 > 0,
                ;
            }
            let eff = eff0 + add;
            assert(eff >= 0);
            if eff < 2880 {
                let hr = eff / 60;
                let mn = eff % 60;
                assert(0 <= hr <= 47 && 0 <= mn <= 59);
                assert(hr as u8 == hr);
                assert(mn as u8 == mn);
            }
        }
        assert(n.rollover >= 0);
        assert forall|j: int| 0 <= j < n.sets.len() implies set_in_day_range(#[trigger] n.sets[j]) by {
            if j < w.sets.len() {
                assert(n.sets[j] == w.sets[j]);
            }
        }
        lemma_walk_in_range(n, rows.drop_first());
        assert(walk_from(w, rows) == walk_from(n, rows.drop_first()));
    }
}

/// A set of a show after `merge_in` is a set of one of the shows before,
/// or of the show added.
proof fn lemma_merge_in_member(acc: Seq<PlannedView>, p: PlannedView, k: int, j: int) -> (r: (int, int))
    requires
        0 <= k < merge_in(acc, p).len(),
        0 <= j < merge_in(acc, p)[k].sets.len(),
    ensures
        r.0 == -1 ==> 0 <= r.1 < p.sets.len() && merge_in(acc, p)[k].sets[j] == p.sets[r.1],
        r.0 != -1 ==> 0 <= r.0 < acc.len() && 0 <= r.1 < acc[r.0].sets.len() && merge_in(acc, p)[k].sets[j]
            == acc[r.0].sets[r.1],
{
    let m = merge_in(acc, p);
    crate::seqs::lemma_first_where(acc, not_before(p.date));
    match first_where(acc, not_before(p.date)) {
        Some(q) => {
            if acc[q].date == p.date {
                if k != q {
                    assert(m[k] == acc[k]);
                    (k, j)
                } else {
                    let a = acc[q].sets;
                    assert(m[k].sets == a + p.sets);
                    if j < a.len() {
                        (q, j)
                    } else {
                        (-1, j - a.len())
                    }
                }
            } else if k < q {
                assert(m[k] == acc[k]);
                (k, j)
            } else if k > q {
                assert(m[k] == acc[k - 1]);
                (k - 1, j)
            } else {
                (-1, j)
            }
        },
        None => {
            if k < acc.len() {
                assert(m[k] == acc[k]);
                (k, j)
            } else {
                (-1, j)
            }
        },
    }
}

proof fn lemma_collect_in_range(
    c: Collect,
    ps: Seq<(Seq<char>, Result<RawSheetView, Seq<char>>)>,
    dates: Seq<Option<(int, int, int)>>,
    i: int,
)
    requires
        shows_in_range(c.shows),
    ensures
        shows_in_range(collect_from(c, ps, dates, i).shows),
    decreases ps.len() - i,
{
    if 0 <= i < ps.len() {
        let next = match (ps[i].1, dates[i]) {
            (Ok(v), Some(d)) => collect_sheet(c, ps[i].0, v, d),
            _ => c,
        };
        if let (Ok(v), Some(d)) = (ps[i].1, dates[i]) {
            let w = walk_rows(v.rows);
            lemma_walk_in_range(walk_start(), v.rows);
            if w.sets.len() > 0 {
                let p = PlannedView { date: d, source_sheet: ps[i].0, sets: w.sets };
                let m = merge_in(c.shows, p);
                assert forall|k: int, j: int| 0 <= k < m.len() && 0 <= j < m[k].sets.len() implies set_in_day_range(#[trigger] m[k].sets[j]) by {
                    let (a, b) = lemma_merge_in_member(c.shows, p, k, j);
                    if a != -1 {
                        assert(set_in_day_range(c.shows[a].sets[b]));
                    }
                }
                assert(shows_in_range(m));
                assert(next.shows == m);
            }
        }
        lemma_collect_in_range(next, ps, dates, i + 1);
    }
}

/// Every set of a plan starts before 48:00 (the show's day and the next),
/// at a minute up to 59, and lasts the default 60 minutes.
pub proof fn lemma_plan_sets_in_range(sv: Seq<(String, Sheet)>, anchor: (int, int, int))
    ensures
        plan_of(sv, anchor) matches Ok(pv) ==> forall|i: int, j: int|
            0 <= i < pv.shows.len() && 0 <= j < pv.shows[i].sets.len() ==> set_in_day_range(#[trigger] pv.shows[i].sets[j]),
{
    let ps = parsed_list(sv);
    if let Ok(dates) = year_plan(sheet_month_days(ps), anchor.0) {
        let c0 = Collect { shows: Seq::empty(), skipped: parse_skips(ps) };
        lemma_collect_in_range(c0, ps, dates, 0);
        let c = collect_from(c0, ps, dates, 0);
        let shows = c.shows.map_values(|p: PlannedView| sorted_show(p));
        assert forall|i: int, j: int| 0 <= i < shows.len() && 0 <= j < shows[i].sets.len() implies set_in_day_range(
            #[trigger] shows[i].sets[j],
        ) by {
            lemma_sorted_by_start_members(c.shows[i].sets);
            let q = choose|q: int| 0 <= q < c.shows[i].sets.len() && #[trigger] sorted_by_start(c.shows[i].sets)[j]
                == c.shows[i].sets[q];
            assert(set_in_day_range(c.shows[i].sets[q]));
        }
    }
}

// ---------------------------------------------------------------------
// every slug of a plan is a performer of it
// ---------------------------------------------------------------------

proof fn lemma_register_keeps(r: Registry, n: Seq<char>, k: Seq<char>)
    requires
        r.performers.contains_key(k),
    ensures
        register(r, n).performers.contains_key(k),
{
}

proof fn lemma_register_all_keeps(r: Registry, names: Seq<Seq<char>>, k: Seq<char>)
    requires
        r.performers.contains_key(k),
    ensures
        register_all(r, names).performers.contains_key(k),
    decreases names.len(),
{
    if names.len() > 0 {
        lemma_register_keeps(r, names[0], k);
        lemma_register_all_keeps(register(r, names[0]), names.drop_first(), k);
    }
}

/// Registering names registers the slug of each one that has a slug.
proof fn lemma_register_all_has(r: Registry, names: Seq<Seq<char>>, n: Seq<char>)
    requires
        names.contains(n),
        trim(n).len() > 0,
        slug_of(trim(n)) is Some,
    ensures
        register_all(r, names).performers.contains_key(slug_of(trim(n))->0),
    decreases names.len(),
{
    let k = slug_of(trim(n))->0;
    if names[0] == n {
        assert(register(r, n).performers.contains_key(k));
        lemma_register_all_keeps(register(r, n), names.drop_first(), k);
    } else {
        let j = choose|j: int| 0 <= j < names.len() && names[j] == n;
        assert(names.drop_first()[j - 1] == n);
        lemma_register_all_has(register(r, names[0]), names.drop_first(), n);
    }
}

/// The DJ and VJ names of each row are among the rows' names.
proof fn lemma_row_names_has(rows: Seq<RawRowView>, j: int)
    requires
        0 <= j < rows.len(),
    ensures
        rows[j].dj matches Some(n) ==> row_names(rows).contains(n),
        rows[j].vj matches Some(n) ==> row_names(rows).contains(n),
    decreases rows.len(),
{
    let head = opt_seq(rows[0].dj) + opt_seq(rows[0].vj);
    let all = head + row_names(rows.drop_first());
    assert(row_names(rows) == all);
    if j == 0 {
        if let Some(n) = rows[0].dj {
            assert(all[0] == n);
        }
        if let Some(n) = rows[0].vj {
            assert(all[head.len() - 1] == n);
        }
    } else {
        lemma_row_names_has(rows.drop_first(), j - 1);
        assert(rows.drop_first()[j - 1] == rows[j]);
        if let Some(n) = rows[j].dj {
            let q = choose|q: int| 0 <= q < row_names(rows.drop_first()).len() && row_names(rows.drop_first())[q] == n;
            assert(all[head.len() + q] == n);
        }
        if let Some(n) = rows[j].vj {
            let q = choose|q: int| 0 <= q < row_names(rows.drop_first()).len() && row_names(rows.drop_first())[q] == n;
            assert(all[head.len() + q] == n);
        }
    }
}

/// The names of a readable sheet are among all the sheets' names.
proof fn lemma_sheet_names_has(ps: Seq<(Seq<char>, Result<RawSheetView, Seq<char>>)>, q: int, n: Seq<char>)
    requires
        0 <= q < ps.len(),
        ps[q].1 matches Ok(v) && row_names(v.rows).contains(n),
    ensures
        sheet_names(ps).contains(n),
    decreases ps.len(),
{
    let head = match ps[0].1 {
        Ok(v) => row_names(v.rows),
        Err(_) => Seq::empty(),
    };
    let all = head + sheet_names(ps.drop_first());
    assert(sheet_names(ps) == all);
    if q == 0 {
        let j = choose|j: int| 0 <= j < head.len() && head[j] == n;
        assert(all[j] == n);
    } else {
        assert(ps.drop_first()[q - 1] == ps[q]);
        lemma_sheet_names_has(ps.drop_first(), q - 1, n);
        let j = choose|j: int| 0 <= j < sheet_names(ps.drop_first()).len() && sheet_names(ps.drop_first())[j] == n;
        assert(all[head.len() + j] == n);
    }
}

/// A set whose slugs are all keys of `keys`.
pub open spec fn set_known(x: SetView, keys: Map<Seq<char>, PerformerView>) -> bool {
    &&& x.dj matches Some(k) ==> keys.contains_key(k)
    &&& x.vj matches Some(k) ==> keys.contains_key(k)
}

/// Every name of the rows that makes a slug gives a key of `keys`.
pub open spec fn rows_registered(rows: Seq<RawRowView>, keys: Map<Seq<char>, PerformerView>) -> bool {
    forall|j: int|
        0 <= j < rows.len() ==> (slug_opt((#[trigger] rows[j]).dj) matches Some(k) ==> keys.contains_key(k)) && (
        slug_opt(rows[j].vj) matches Some(k) ==> keys.contains_key(k))
}

proof fn lemma_walk_known(w: Walk, rows: Seq<RawRowView>, keys: Map<Seq<char>, PerformerView>)
    requires
        rows_registered(rows, keys),
        forall|j: int| 0 <= j < w.sets.len() ==> set_known(#[trigger] w.sets[j], keys),
    ensures
        forall|j: int| 0 <= j < walk_from(w, rows).sets.len() ==> set_known(#[trigger] walk_from(w, rows).sets[j], keys),
    decreases rows.len(),
{
    if rows.len() > 0 {
        let n = walk_step(w, rows[0]);
        assert forall|j: int| 0 <= j < n.sets.len() implies set_known(#[trigger] n.sets[j], keys) by {
            if j < w.sets.len() {
                assert(n.sets[j] == w.sets[j]);
            }
        }
        assert(rows_registered(rows.drop_first(), keys)) by {
            assert forall|j: int| 0 <= j < rows.drop_first().len() implies #[trigger] rows.drop_first()[j] == rows[j + 1] by {}
        }
        lemma_walk_known(n, rows.drop_first(), keys);
        assert(walk_from(w, rows) == walk_from(n, rows.drop_first()));
    }
}

pub open spec fn sheet_registered(r: Result<RawSheetView, Seq<char>>, keys: Map<Seq<char>, PerformerView>) -> bool {
    match r {
        Ok(v) => rows_registered(v.rows, keys),
        Err(_) => true,
    }
}

pub open spec fn shows_known(s: Seq<PlannedView>, keys: Map<Seq<char>, PerformerView>) -> bool {
    forall|i: int, j: int| 0 <= i < s.len() && 0 <= j < s[i].sets.len() ==> set_known(#[trigger] s[i].sets[j], keys)
}

proof fn lemma_collect_known(
    c: Collect,
    ps: Seq<(Seq<char>, Result<RawSheetView, Seq<char>>)>,
    dates: Seq<Option<(int, int, int)>>,
    i: int,
    keys: Map<Seq<char>, PerformerView>,
)
    requires
        shows_known(c.shows, keys),
        forall|q: int| 0 <= q < ps.len() ==> sheet_registered((#[trigger] ps[q]).1, keys),
    ensures
        shows_known(collect_from(c, ps, dates, i).shows, keys),
    decreases ps.len() - i,
{
    if 0 <= i < ps.len() {
        let next = match (ps[i].1, dates[i]) {
            (Ok(v), Some(d)) => collect_sheet(c, ps[i].0, v, d),
            _ => c,
        };
        if let (Ok(v), Some(d)) = (ps[i].1, dates[i]) {
            let w = walk_rows(v.rows);
            assert(sheet_registered(ps[i].1, keys));
            lemma_walk_known(walk_start(), v.rows, keys);
            if w.sets.len() > 0 {
                let p = PlannedView { date: d, source_sheet: ps[i].0, sets: w.sets };
                let m = merge_in(c.shows, p);
                assert forall|k: int, j: int| 0 <= k < m.len() && 0 <= j < m[k].sets.len() implies set_known(#[trigger] m[k].sets[j], keys) by {
                    let (a, b) = lemma_merge_in_member(c.shows, p, k, j);
                    if a != -1 {
                        assert(set_known(c.shows[a].sets[b], keys));
                    }
                }
                assert(shows_known(m, keys));
                assert(next.shows == m);
            }
        }
        lemma_collect_known(next, ps, dates, i + 1, keys);
    }
}

/// Every slug a set of a plan names is a performer of the plan.
pub proof fn lemma_plan_slugs_known(sv: Seq<(String, Sheet)>, anchor: (int, int, int))
    ensures
        plan_of(sv, anchor) matches Ok(pv) ==> forall|i: int, j: int|
            0 <= i < pv.shows.len() && 0 <= j < pv.shows[i].sets.len() ==> set_known(
                #[trigger] pv.shows[i].sets[j],
                pv.performers,
            ),
{
    let ps = parsed_list(sv);
    let names = sheet_names(ps);
    let keys = register_all(empty_registry(), names).performers;
    assert forall|q: int| 0 <= q < ps.len() implies sheet_registered((#[trigger] ps[q]).1, keys) by {
        if let Ok(v) = ps[q].1 {
            assert forall|j: int| 0 <= j < v.rows.len() implies (slug_opt((#[trigger] v.rows[j]).dj) matches Some(k)
                ==> keys.contains_key(k)) && (slug_opt(v.rows[j].vj) matches Some(k) ==> keys.contains_key(k)) by {
                lemma_row_names_has(v.rows, j);
                if let Some(n) = v.rows[j].dj {
                    lemma_sheet_names_has(ps, q, n);
                    if trim(n).len() > 0 && slug_of(trim(n)) is Some {
                        lemma_register_all_has(empty_registry(), names, n);
                    }
                }
                if let Some(n) = v.rows[j].vj {
                    lemma_sheet_names_has(ps, q, n);
                    if trim(n).len() > 0 && slug_of(trim(n)) is Some {
                        lemma_register_all_has(empty_registry(), names, n);
                    }
                }
            }
        }
    }
    if let Ok(dates) = year_plan(sheet_month_days(ps), anchor.0) {
        let c0 = Collect { shows: Seq::empty(), skipped: parse_skips(ps) };
        lemma_collect_known(c0, ps, dates, 0, keys);
        let c = collect_from(c0, ps, dates, 0);
        let shows = c.shows.map_values(|p: PlannedView| sorted_show(p));
        assert forall|i: int, j: int| 0 <= i < shows.len() && 0 <= j < shows[i].sets.len() implies set_known(
            #[trigger] shows[i].sets[j],
            keys,
        ) by {
            lemma_sorted_by_start_members(c.shows[i].sets);
            let q = choose|q: int| 0 <= q < c.shows[i].sets.len() && #[trigger] sorted_by_start(c.shows[i].sets)[j]
                == c.shows[i].sets[q];
            assert(set_known(c.shows[i].sets[q], keys));
        }
    }
}

} // verus!
