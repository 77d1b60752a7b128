//! The editing commands and the queries over a dataset. Each command works
//! on data already loaded and says what to write back; reading and writing
//! the files is the caller's.
use vstd::prelude::*;

use crate::data::Dataset;
use crate::date::{date_lt, date_text, Date};
use crate::performer::{
    contains_text, entry_error, find_key, first_entry_error, has_key, is_valid_slug, keys_sorted,
    lemma_find_key, lemma_find_key_push, lemma_first_entry_error_none,
    lemma_find_key_update, position_of, texts, valid_slug,
    Performer, PerformerView, Performers, Slug,
};
use crate::data::{all_known, dates_increasing, unknown_in_set};
use crate::show::{first_empty_set, lemma_first_empty_set, shape_ok, Show, ShowSet, WallTime};
use crate::sorting::{lemma_stable_sorted, lemma_stable_sorted_member, reverse, sort_ranked, stable_sorted, Ranked};
use crate::text::{
    concat_str, debug_quoted, debug_text, is_blank, is_blank_str, lemma_trim_blank, lemma_trim_not_blank, owned,
    str_eq, text_lt, trim, trimmed,
    two_digits, push_two_digits, };

verus! {

/// Why a command refused to run.
#[derive(Debug)]
pub enum CommandError {
    MissingPerformer,
    UnknownSlug { slug: String },
    TimeCollision { date: Date, start: WallTime },
    InvalidSlug { slug: String },
    EmptyName,
    AlreadyExists { slug: String },
    InvalidNewSlug { slug: String },
    NotFound { slug: String },
    TargetExists { slug: String },
}

/// The text a `CommandError` displays.
pub open spec fn command_error_text(e: CommandError) -> Seq<char> {
    match e {
        CommandError::MissingPerformer => "add-set requires at least one of --dj or --vj"@,
        CommandError::UnknownSlug { slug } => "unknown performer slug "@ + debug_text(slug@)
            + " (create it first with `djdb new-performer`)"@,
        CommandError::TimeCollision { date, start } => date_text(date@)
            + " already has a set starting at "@ + two_digits(start.hour as nat) + ":"@
            + two_digits(start.minute as nat),
        CommandError::InvalidSlug { slug } => "invalid slug "@ + debug_text(slug@)
            + ": use a-z, 0-9, and underscore only"@,
        CommandError::EmptyName => "--name is required and must not be empty"@,
        CommandError::AlreadyExists { slug } => "performer "@ + debug_text(slug@)
            + " already exists"@,
        CommandError::InvalidNewSlug { slug } => "invalid new slug "@ + debug_text(slug@),
        CommandError::NotFound { slug } => "performer "@ + debug_text(slug@) + " not found"@,
        CommandError::TargetExists { slug } => "target slug "@ + debug_text(slug@)
            + " already exists (use `merge-performer` instead)"@,
    }
}

impl CommandError {
    /// The error's text (its `Display`).
    pub fn message(&self) -> (r: String)
        ensures
            r@ == command_error_text(*self),
    {
        match self {
            CommandError::MissingPerformer => owned("add-set requires at least one of --dj or --vj"),
            CommandError::UnknownSlug { slug } => {
                let q = debug_quoted(slug.as_str());
                let mut r = concat_str("unknown performer slug ", q.as_str());
                r.append(" (create it first with `djdb new-performer`)");
                r
            },
            CommandError::TimeCollision { date, start } => {
                let mut r = date.to_text();
                r.append(" already has a set starting at ");
                push_two_digits(&mut r, start.hour as u32);
                r.append(":");
                push_two_digits(&mut r, start.minute as u32);
                r
            },
            CommandError::InvalidSlug { slug } => {
                let q = debug_quoted(slug.as_str());
                let mut r = concat_str("invalid slug ", q.as_str());
                r.append(": use a-z, 0-9, and underscore only");
                r
            },
            CommandError::EmptyName => owned("--name is required and must not be empty"),
            CommandError::AlreadyExists { slug } => {
                let q = debug_quoted(slug.as_str());
                let mut r = concat_str("performer ", q.as_str());
                r.append(" already exists");
                r
            },
            CommandError::InvalidNewSlug { slug } => {
                let q = debug_quoted(slug.as_str());
                concat_str("invalid new slug ", q.as_str())
            },
            CommandError::NotFound { slug } => {
                let q = debug_quoted(slug.as_str());
                let mut r = concat_str("performer ", q.as_str());
                r.append(" not found");
                r
            },
            CommandError::TargetExists { slug } => {
                let q = debug_quoted(slug.as_str());
                let mut r = concat_str("target slug ", q.as_str());
                r.append(" already exists (use `merge-performer` instead)");
                r
            },
        }
    }
}

// ---------------------------------------------------------------------
// add-set
// ---------------------------------------------------------------------

/// What `add-set` is asked to add.
pub struct AddSetArgs<'a> {
    pub date: Date,
    pub start: WallTime,
    pub dj: Option<&'a str>,
    pub vj: Option<&'a str>,
    pub duration_min: u32,
    pub notes: &'a str,
}

/// An optional owned string and an optional slice hold the same text.
pub open spec fn same_opt_text(a: Option<String>, b: Option<&str>) -> bool {
    match (a, b) {
        (Some(x), Some(y)) => x@ == y@,
        (None, None) => true,
        _ => false,
    }
}

/// The set `add-set` builds from its arguments.
pub open spec fn set_from_args(s: ShowSet, args: AddSetArgs) -> bool {
    &&& s.start == args.start
    &&& s.duration_min == args.duration_min
    &&& same_opt_text(s.dj, args.dj)
    &&& same_opt_text(s.vj, args.vj)
    &&& s.notes@ == args.notes@
}

/// The first of `dj`, `vj` that names no performer.
pub open spec fn unknown_arg(ps: Seq<(String, Performer)>, dj: Option<&str>, vj: Option<&str>) -> Option<Seq<char>> {
    if dj is Some && !has_key(ps, dj->0@) {
        Some(dj->0@)
    } else if vj is Some && !has_key(ps, vj->0@) {
        Some(vj->0@)
    } else {
        None
    }
}

/// A set needs a DJ or a VJ.
pub fn check_set_roles(dj: Option<&str>, vj: Option<&str>) -> (r: Result<(), CommandError>)
    ensures
        (dj is None && vj is None) ==> (r matches Err(CommandError::MissingPerformer)),
        (dj is Some || vj is Some) ==> r is Ok,
{
    if dj.is_none() && vj.is_none() {
        Err(CommandError::MissingPerformer)
    } else {
        Ok(())
    }
}

/// Every slug given names a performer; else the first that does not.
pub fn check_known(performers: &Performers, dj: Option<&str>, vj: Option<&str>) -> (r: Result<(), CommandError>)
    ensures
        match unknown_arg(performers.0@, dj, vj) {
            Some(s) => r matches Err(CommandError::UnknownSlug { slug }) && slug@ == s,
            None => r is Ok,
        },
{
    if let Some(s) = dj {
        if !performers.contains(s) {
            return Err(CommandError::UnknownSlug { slug: owned(s) });
        }
    }
    if let Some(s) = vj {
        if !performers.contains(s) {
            return Err(CommandError::UnknownSlug { slug: owned(s) });
        }
    }
    Ok(())
}

fn opt_owned(o: Option<&str>) -> (r: Option<String>)
    ensures
        same_opt_text(r, o),
{
    match o {
        Some(s) => Some(owned(s)),
        None => None,
    }
}

/// Whether some set starts at `start`.
pub open spec fn starts_at(sets: Seq<ShowSet>, start: WallTime) -> bool {
    exists|i: int| 0 <= i < sets.len() && (#[trigger] sets[i]).start == start
}

fn has_start(sets: &Vec<ShowSet>, start: WallTime) -> (r: bool)
    ensures
        r == starts_at(sets@, start),
{
    let mut i: usize = 0;
    while i < sets.len()
        invariant
            i <= sets@.len(),
            forall|j: int| 0 <= j < i ==> (#[trigger] sets@[j]).start != start,
        decreases sets@.len() - i,
    {
        if sets[i].start.hour == start.hour && sets[i].start.minute == start.minute {
            return true;
        }
        i = i + 1;
    }
    false
}

/// `add-set`: adds a set to the show on `args.date` (`existing` is that
/// show when its file exists). Refuses a set with no DJ and no VJ, a slug no
/// performer has, and a start time another set of the show already has; the
/// new lineup is ordered by start time (stably). Returns the show to write,
/// dated `args.date` when `existing` is (as a show loaded from that date's
/// file is).
pub fn add_set(performers: &Performers, existing: Option<Show>, args: AddSetArgs) -> (r: Result<Show, CommandError>)
    ensures
        (args.dj is None && args.vj is None) ==> (r matches Err(CommandError::MissingPerformer)),
        (args.dj is Some || args.vj is Some) ==> match unknown_arg(performers.0@, args.dj, args.vj) {
            Some(s) => r matches Err(CommandError::UnknownSlug { slug }) && slug@ == s,
            None => {
                let base_date = match existing {
                    Some(s) => s.date,
                    None => args.date,
                };
                let base_sets = match existing {
                    Some(s) => s.sets@,
                    None => Seq::<ShowSet>::empty(),
                };
                if starts_at(base_sets, args.start) {
                    r matches Err(CommandError::TimeCollision { date, start }) && date == args.date
                        && start == args.start
                } else {
                    r matches Ok(show) && show.date == base_date && exists|ns: ShowSet|
                        set_from_args(ns, args) && show.sets@ == stable_sorted(base_sets.push(ns))
                }
            },
        },
        (existing matches Some(e) ==> e.date == args.date) ==> (r matches Ok(show) ==> show.date == args.date),
{
    check_set_roles(args.dj, args.vj)?;
    check_known(performers, args.dj, args.vj)?;
    let new_set = ShowSet {
        start: args.start,
        duration_min: args.duration_min,
        dj: opt_owned(args.dj),
        vj: opt_owned(args.vj),
        notes: owned(args.notes),
    };
    let show = match existing {
        Some(s) => s,
        None => Show { date: args.date, sets: Vec::new() },
    };
    if has_start(&show.sets, args.start) {
        return Err(CommandError::TimeCollision { date: args.date, start: args.start });
    }
    let ghost ns = new_set;
    let Show { date, sets } = show;
    let mut sets = sets;
    sets.push(new_set);
    let sorted = sort_ranked(sets);
    assert(set_from_args(ns, args));
    Ok(Show { date, sets: sorted })
}

/// Every set names a DJ or a VJ, and every slug it names is a performer's.
pub open spec fn sets_sound(sets: Seq<ShowSet>, ps: Seq<(String, Performer)>) -> bool {
    forall|j: int|
        0 <= j < sets.len() ==> ((#[trigger] sets[j]).dj is Some || sets[j].vj is Some) && unknown_in_set(sets[j], ps)
            is None
}

/// A show `add-set` makes passes the checks when the show it adds to did:
/// it has sets, each names a DJ or a VJ, and every slug is a performer's.
pub proof fn lemma_add_set_sound(ps: Seq<(String, Performer)>, existing: Option<Show>, args: AddSetArgs, show: Show)
    requires
        existing matches Some(e) ==> sets_sound(e.sets@, ps),
        args.dj is Some || args.vj is Some,
        unknown_arg(ps, args.dj, args.vj) is None,
        exists|ns: ShowSet|
            set_from_args(ns, args) && show.sets@ == stable_sorted(
                match existing {
                    Some(s) => s.sets@,
                    None => Seq::<ShowSet>::empty(),
                }.push(ns),
            ),
    ensures
        shape_ok(show),
        sets_sound(show.sets@, ps),
{
    let base = match existing {
        Some(s) => s.sets@,
        None => Seq::<ShowSet>::empty(),
    };
    let ns = choose|ns: ShowSet| set_from_args(ns, args) && show.sets@ == stable_sorted(base.push(ns));
    let v = base.push(ns);
    lemma_stable_sorted(v);
    assert forall|j: int| 0 <= j < show.sets@.len() implies ((#[trigger] show.sets@[j]).dj is Some
        || show.sets@[j].vj is Some) && unknown_in_set(show.sets@[j], ps) is None by {
        lemma_stable_sorted_member(v, j);
        let k = choose|k: int| 0 <= k < v.len() && v[k] == stable_sorted(v)[j];
        if k < base.len() {
            assert(v[k] == base[k]);
        }
    }
    lemma_first_empty_set(show.sets@);
}

// ---------------------------------------------------------------------
// new-performer
// ---------------------------------------------------------------------

/// What `new-performer` is asked to add.
pub struct NewPerformerArgs<'a> {
    pub slug: &'a str,
    pub display_name: &'a str,
    pub twitch: &'a str,
    pub cdn: &'a str,
    pub notes: &'a str,
    pub aliases: Vec<String>,
}

/// The checks on the arguments alone: a valid slug, a display name with a
/// non-whitespace character.
pub fn check_new_performer(args: &NewPerformerArgs) -> (r: Result<(), CommandError>)
    ensures
        !valid_slug(args.slug@) ==> (r matches Err(CommandError::InvalidSlug { slug }) && slug@
            == args.slug@),
        valid_slug(args.slug@) && is_blank(args.display_name@) ==> (r matches Err(
            CommandError::EmptyName,
        )),
        valid_slug(args.slug@) && !is_blank(args.display_name@) ==> r is Ok,
{
    if !is_valid_slug(args.slug) {
        return Err(CommandError::InvalidSlug { slug: owned(args.slug) });
    }
    if is_blank_str(args.display_name) {
        return Err(CommandError::EmptyName);
    }
    Ok(())
}

/// The performer `new-performer` creates.
pub open spec fn new_performer_view(args: NewPerformerArgs) -> PerformerView {
    PerformerView {
        display_name: trim(args.display_name@),
        aliases: texts(args.aliases@),
        notes: args.notes@,
        twitch: args.twitch@,
        cdn: args.cdn@,
    }
}

/// `s` is `before` with one entry added, at `p`, with key `k` and
/// performer `v`.
pub open spec fn adds_entry(s: Seq<(String, Performer)>, before: Seq<(String, Performer)>, k: Seq<char>, v: PerformerView) -> bool {
    exists|p: int|
        0 <= p < s.len() && (#[trigger] s[p]).0@ == k && s[p].1@ == v && s.remove(p) == before
}

/// `new-performer`: adds a performer under a new, valid slug, with the
/// display name trimmed. Leaves `performers` unchanged when it refuses.
pub fn new_performer(performers: &mut Performers, args: NewPerformerArgs) -> (r: Result<(), CommandError>)
    requires
        old(performers).wf(),
    ensures
        final(performers).wf(),
        r is Err ==> *final(performers) == *old(performers),
        !valid_slug(args.slug@) ==> (r matches Err(CommandError::InvalidSlug { slug }) && slug@
            == args.slug@),
        valid_slug(args.slug@) && is_blank(args.display_name@) ==> (r matches Err(
            CommandError::EmptyName,
        )),
        valid_slug(args.slug@) && !is_blank(args.display_name@) && has_key(
            old(performers).0@,
            args.slug@,
        ) ==> (r matches Err(CommandError::AlreadyExists { slug }) && slug@ == args.slug@),
        valid_slug(args.slug@) && !is_blank(args.display_name@) && !has_key(
            old(performers).0@,
            args.slug@,
        ) ==> r is Ok && adds_entry(
            final(performers).0@,
            old(performers).0@,
            args.slug@,
            new_performer_view(args),
        ),
{
    check_new_performer(&args)?;
    if performers.contains(args.slug) {
        return Err(CommandError::AlreadyExists { slug: owned(args.slug) });
    }
    let ghost before = performers.0@;
    let key = owned(args.slug);
    let p = Performer {
        display_name: trimmed(args.display_name),
        aliases: args.aliases,
        notes: owned(args.notes),
        twitch: owned(args.twitch),
        cdn: owned(args.cdn),
    };
    proof {
        lemma_find_key(before, args.slug@);
    }
    performers.insert(key, p);
    proof {
        let s = performers.0@;
        let pos = choose|pos: int| 0 <= pos <= before.len() && s == before.insert(pos, (key, p));
        assert(s[pos] == (key, p));
        assert(s.remove(pos) =~= before);
    }
    Ok(())
}

/// Adding a performer with `new-performer` keeps a table that passes
/// `validate` passing it.
pub proof fn lemma_new_performer_keeps_valid(before: Seq<(String, Performer)>, after: Seq<(String, Performer)>, args: NewPerformerArgs)
    requires
        first_entry_error(before) is None,
        valid_slug(args.slug@),
        !is_blank(args.display_name@),
        adds_entry(after, before, args.slug@, new_performer_view(args)),
    ensures
        first_entry_error(after) is None,
{
    lemma_first_entry_error_none(before);
    let p = choose|p: int|
        0 <= p < after.len() && (#[trigger] after[p]).0@ == args.slug@ && after[p].1@ == new_performer_view(args)
            && after.remove(p) == before;
    lemma_trim_blank(args.display_name@);
    lemma_trim_not_blank(args.display_name@);
    assert forall|i: int| 0 <= i < after.len() implies entry_error(#[trigger] after[i].0, after[i].1) is None by {
        if i < p {
            assert(after[i] == before[i]);
        } else if i > p {
            assert(after[i] == before[i - 1]);
        }
    }
    lemma_first_entry_error_none(after);
}

// ---------------------------------------------------------------------
// rename-performer and merge-performer
// ---------------------------------------------------------------------

/// What a rename or merge writes back: the new performer table and every
/// show it changed, in date order.
#[derive(Debug)]
pub struct Rewrite {
    pub performers: Performers,
    pub rewritten: Vec<Show>,
}

/// A set's slug after `from` is replaced by `to`.
pub open spec fn slot_renamed(after: Option<String>, before: Option<String>, from: Seq<char>, to: Seq<char>) -> bool {
    match before {
        Some(s) => if s@ == from {
            after is Some && after->0@ == to
        } else {
            after == before
        },
        None => after is None,
    }
}

/// A set with its DJ and VJ renamed, all else kept.
pub open spec fn set_renamed(after: ShowSet, before: ShowSet, from: Seq<char>, to: Seq<char>) -> bool {
    &&& after.start == before.start
    &&& after.duration_min == before.duration_min
    &&& after.notes == before.notes
    &&& slot_renamed(after.dj, before.dj, from, to)
    &&& slot_renamed(after.vj, before.vj, from, to)
}

pub open spec fn set_names(set: ShowSet, k: Seq<char>) -> bool {
    (set.dj is Some && set.dj->0@ == k) || (set.vj is Some && set.vj->0@ == k)
}

/// Some set of the show has `k` as DJ or VJ.
pub open spec fn show_names(show: Show, k: Seq<char>) -> bool {
    exists|j: int| 0 <= j < show.sets@.len() && set_names(#[trigger] show.sets@[j], k)
}

/// A show with every set renamed.
pub open spec fn show_renamed(after: Show, before: Show, from: Seq<char>, to: Seq<char>) -> bool {
    &&& after.date == before.date
    &&& after.sets@.len() == before.sets@.len()
    &&& forall|j: int|
        0 <= j < before.sets@.len() ==> set_renamed(
            #[trigger] after.sets@[j],
            before.sets@[j],
            from,
            to,
        )
}

/// `out` is, in order, each show of `shows` that names `from`, renamed.
pub open spec fn rewrites(shows: Seq<Show>, out: Seq<Show>, from: Seq<char>, to: Seq<char>) -> bool
    decreases shows.len(),
{
    if shows.len() == 0 {
        out.len() == 0
    } else if show_names(shows.last(), from) {
        &&& out.len() > 0
        &&& show_renamed(out.last(), shows.last(), from, to)
        &&& rewrites(shows.drop_last(), out.drop_last(), from, to)
    } else {
        rewrites(shows.drop_last(), out, from, to)
    }
}

fn rename_slot(slot: Option<String>, from: &str, to: &str) -> (r: (Option<String>, bool))
    ensures
        slot_renamed(r.0, slot, from@, to@),
        r.1 == (slot is Some && slot->0@ == from@),
{
    match slot {
        Some(s) => {
            if str_eq(s.as_str(), from) {
                (Some(owned(to)), true)
            } else {
                (Some(s), false)
            }
        },
        None => (None, false),
    }
}

fn rename_in_show(show: Show, from: &str, to: &str) -> (r: (Show, bool))
    ensures
        show_renamed(r.0, show, from@, to@),
        r.1 == show_names(show, from@),
{
    let Show { date, sets } = show;
    let ghost orig = sets@;
    let mut rest = reverse(sets);
    let mut out: Vec<ShowSet> = Vec::new();
    let mut touched = false;
    let n = rest.len();
    while rest.len() > 0
        invariant
            rest@.len() + out@.len() == n,
            n == orig.len(),
            forall|a: int| 0 <= a < rest@.len() ==> #[trigger] rest@[a] == orig[n - 1 - a],
            forall|j: int| 0 <= j < out@.len() ==> set_renamed(#[trigger] out@[j], orig[j], from@, to@),
            touched == exists|j: int| 0 <= j < out@.len() && set_names(#[trigger] orig[j], from@),
        decreases rest@.len(),
    {
        let set = rest.pop().unwrap();
        let ghost k = out@.len() as int;
        assert(set == orig[k]);
        let ShowSet { start, duration_min, dj, vj, notes } = set;
        let (dj2, t1) = rename_slot(dj, from, to);
        let (vj2, t2) = rename_slot(vj, from, to);
        out.push(ShowSet { start, duration_min, dj: dj2, vj: vj2, notes });
        proof {
            if t1 || t2 {
                assert(set_names(orig[k], from@));
            }
            if touched {
                let j = choose|j: int| 0 <= j < k && set_names(#[trigger] orig[j], from@);
                assert(0 <= j < out@.len() && set_names(orig[j], from@));
            }
            if exists|j: int| 0 <= j < out@.len() && set_names(#[trigger] orig[j], from@) {
                let j = choose|j: int| 0 <= j < out@.len() && set_names(#[trigger] orig[j], from@);
                if j < k {
                    assert(touched);
                }
            }
        }
        touched = touched || t1 || t2;
    }
    (Show { date, sets: out }, touched)
}

/// Renames `from` to `to` in every show, keeping the changed ones.
fn rewrite_shows(shows: Vec<Show>, from: &str, to: &str) -> (r: Vec<Show>)
    ensures
        rewrites(shows@, r@, from@, to@),
{
    let ghost orig = shows@;
    let n = shows.len();
    let mut rest = reverse(shows);
    let mut out: Vec<Show> = Vec::new();
    let mut i: usize = 0;
    while i < n
        invariant
            i <= n,
            n == orig.len(),
            rest@.len() == n - i,
            forall|a: int| 0 <= a < rest@.len() ==> #[trigger] rest@[a] == orig[n - 1 - a],
            rewrites(orig.subrange(0, i as int), out@, from@, to@),
        decreases n - i,
    {
        let show = rest.pop().unwrap();
        assert(show == orig[i as int]);
        let ghost pre = orig.subrange(0, i + 1);
        assert(pre.drop_last() =~= orig.subrange(0, i as int));
        assert(pre.last() == show);
        let ghost before_out = out@;
        let (renamed, touched) = rename_in_show(show, from, to);
        if touched {
            out.push(renamed);
            assert(out@.drop_last() =~= before_out);
        }
        i = i + 1;
    }
    assert(orig.subrange(0, n as int) =~= orig);
    out
}

/// The performer table after renaming `from` to `to`: the entry moves to
/// its new key, unchanged.
pub open spec fn renamed_entries(after: Seq<(String, Performer)>, before: Seq<(String, Performer)>, from: Seq<char>, to: Seq<char>) -> bool {
    let i = find_key(before, from).unwrap();
    exists|p: int|
        0 <= p < after.len() && (#[trigger] after[p]).0@ == to && after[p].1 == before[i].1
            && after.remove(p) == before.remove(i)
}

/// `rename-performer`: moves performer `old` to slug `new` and renames it
/// in every set. Refuses an invalid new slug, an unknown `old`, and a `new`
/// that is taken. Renaming to the same slug changes nothing.
pub fn rename_performer(ds: Dataset, old: &str, new: &str) -> (r: Result<Rewrite, CommandError>)
    requires
        ds.performers.wf(),
    ensures
        old@ == new@ ==> (r matches Ok(w) && w.performers == ds.performers && w.rewritten@.len()
            == 0),
        old@ != new@ && !valid_slug(new@) ==> (r matches Err(CommandError::InvalidNewSlug { slug })
            && slug@ == new@),
        old@ != new@ && valid_slug(new@) && !has_key(ds.performers.0@, old@) ==> (r matches Err(
            CommandError::NotFound { slug },
        ) && slug@ == old@),
        old@ != new@ && valid_slug(new@) && has_key(ds.performers.0@, old@) && has_key(
            ds.performers.0@,
            new@,
        ) ==> (r matches Err(CommandError::TargetExists { slug }) && slug@ == new@),
        old@ != new@ && valid_slug(new@) && has_key(ds.performers.0@, old@) && !has_key(
            ds.performers.0@,
            new@,
        ) ==> (r matches Ok(w) && w.performers.wf() && renamed_entries(
            w.performers.0@,
            ds.performers.0@,
            old@,
            new@,
        ) && rewrites(ds.shows@, w.rewritten@, old@, new@)),
{
    let Dataset { performers, shows } = ds;
    if str_eq(old, new) {
        return Ok(Rewrite { performers, rewritten: Vec::new() });
    }
    if !is_valid_slug(new) {
        return Err(CommandError::InvalidNewSlug { slug: owned(new) });
    }
    let ghost before = performers.0@;
    let mut performers = performers;
    proof {
        lemma_find_key(before, old@);
        lemma_find_key(before, new@);
    }
    let performer = match performers.remove(old) {
        Some(p) => p,
        None => {
            return Err(CommandError::NotFound { slug: owned(old) });
        },
    };
    let ghost removed = performers.0@;
    let ghost i = find_key(before, old@).unwrap();
    proof {
        lemma_find_key(removed, new@);
        if has_key(before, new@) {
            let f = choose|f: int| 0 <= f < before.len() && (#[trigger] before[f]).0@ == new@;
            let g = if f < i {
                f
            } else {
                f - 1
            };
            assert(removed[g] == before[f]);
        }
        if has_key(removed, new@) {
            let g = choose|g: int| 0 <= g < removed.len() && (#[trigger] removed[g]).0@ == new@;
            let f = if g < i {
                g
            } else {
                g + 1
            };
            assert(removed[g] == before[f]);
        }
    }
    if performers.contains(new) {
        return Err(CommandError::TargetExists { slug: owned(new) });
    }
    let key = owned(new);
    performers.insert(key, performer);
    proof {
        let s = performers.0@;
        let pos = choose|pos: int|
            0 <= pos <= removed.len() && s == removed.insert(pos, (key, performer));
        assert(s[pos] == (key, performer));
        assert(s.remove(pos) =~= removed);
    }
    let rewritten = rewrite_shows(shows, old, new);
    Ok(Rewrite { performers, rewritten })
}

/// `acc` with each of `items` appended that is neither `name` nor already
/// present, in order.
pub open spec fn fold_aliases(acc: Seq<Seq<char>>, name: Seq<char>, items: Seq<Seq<char>>) -> Seq<Seq<char>>
    decreases items.len(),
{
    if items.len() == 0 {
        acc
    } else {
        let a = items[0];
        let next = if a != name && !acc.contains(a) {
            acc.push(a)
        } else {
            acc
        };
        fold_aliases(next, name, items.drop_first())
    }
}

/// The performer `merge-performer` leaves under `into`: `from`'s display
/// name and aliases folded into the aliases, `from`'s notes appended when
/// they differ, and `from`'s links where `into` has none.
pub open spec fn merged_view(into: PerformerView, from: PerformerView) -> PerformerView {
    let first = if from.display_name != into.display_name && !into.aliases.contains(
        from.display_name,
    ) {
        into.aliases.push(from.display_name)
    } else {
        into.aliases
    };
    PerformerView {
        display_name: into.display_name,
        aliases: fold_aliases(first, into.display_name, from.aliases),
        notes: if from.notes.len() > 0 && from.notes != into.notes {
            if into.notes.len() == 0 {
                from.notes
            } else {
                into.notes + "\n---\n"@ + from.notes
            }
        } else {
            into.notes
        },
        twitch: if into.twitch.len() == 0 && from.twitch.len() > 0 {
            from.twitch
        } else {
            into.twitch
        },
        cdn: if into.cdn.len() == 0 && from.cdn.len() > 0 {
            from.cdn
        } else {
            into.cdn
        },
    }
}

/// The performer table after merging `from` into `into`: `from`'s entry
/// gone, `into`'s performer replaced by the merge, all else unchanged.
pub open spec fn merged_entries(after: Seq<(String, Performer)>, before: Seq<(String, Performer)>, from: Seq<char>, into: Seq<char>) -> bool {
    let i = find_key(before, from).unwrap();
    let removed = before.remove(i);
    let j = find_key(removed, into).unwrap();
    &&& after.len() == removed.len()
    &&& after[j].0 == removed[j].0
    &&& after[j].1@ == merged_view(removed[j].1@, before[i].1@)
    &&& forall|k: int| 0 <= k < after.len() && k != j ==> #[trigger] after[k] == removed[k]
}

fn merge_fields(into: Performer, from: Performer) -> (r: Performer)
    ensures
        r@ == merged_view(into@, from@),
{
    let Performer { display_name, aliases, notes, twitch, cdn } = into;
    let Performer {
        display_name: from_name,
        aliases: from_aliases,
        notes: from_notes,
        twitch: from_twitch,
        cdn: from_cdn,
    } = from;
    let mut aliases = aliases;
    if from_name != display_name && !contains_text(&aliases, &from_name) {
        let ghost prev = aliases@;
        aliases.push(from_name.clone());
        assert(texts(aliases@) =~= texts(prev).push(from_name@));
    }
    let ghost first = texts(aliases@);
    let ghost items = texts(from_aliases@);
    let mut rest = reverse(from_aliases);
    let n = rest.len();
    let mut i: usize = 0;
    assert(items.subrange(0, n as int) =~= items);
    while i < n
        invariant
            i <= n,
            n == items.len(),
            rest@.len() == n - i,
            forall|a: int| 0 <= a < rest@.len() ==> (#[trigger] rest@[a])@ == items[n - 1 - a],
            fold_aliases(first, display_name@, items) == fold_aliases(
                texts(aliases@),
                display_name@,
                items.subrange(i as int, n as int),
            ),
        decreases n - i,
    {
        let alias = rest.pop().unwrap();
        assert(alias@ == items[i as int]);
        let ghost tail = items.subrange(i as int, n as int);
        assert(tail[0] == alias@);
        assert(tail.drop_first() =~= items.subrange(i + 1, n as int));
        if alias != display_name && !contains_text(&aliases, &alias) {
            let ghost prev = aliases@;
            aliases.push(alias);
            assert(texts(aliases@) =~= texts(prev).push(alias@));
        }
        i = i + 1;
    }
    assert(items.subrange(n as int, n as int).len() == 0);
    let notes = if !from_notes.as_str().is_empty() && from_notes != notes {
        if notes.as_str().is_empty() {
            from_notes
        } else {
            let mut n2 = notes;
            n2.append("\n---\n");
            n2.append(from_notes.as_str());
            n2
        }
    } else {
        notes
    };
    let twitch = if twitch.as_str().is_empty() && !from_twitch.as_str().is_empty() {
        from_twitch
    } else {
        twitch
    };
    let cdn = if cdn.as_str().is_empty() && !from_cdn.as_str().is_empty() {
        from_cdn
    } else {
        cdn
    };
    Performer { display_name, aliases, notes, twitch, cdn }
}

/// `merge-performer`: folds performer `from` into performer `into` (see
/// `merged_view`) and renames `from` to `into` in every set. Refuses an
/// unknown `from` or `into`. Merging a performer into itself changes
/// nothing.
pub fn merge_performer(ds: Dataset, from: &str, into: &str) -> (r: Result<Rewrite, CommandError>)
    requires
        ds.performers.wf(),
    ensures
        from@ == into@ ==> (r matches Ok(w) && w.performers == ds.performers
            && w.rewritten@.len() == 0),
        from@ != into@ && !has_key(ds.performers.0@, from@) ==> (r matches Err(
            CommandError::NotFound { slug },
        ) && slug@ == from@),
        from@ != into@ && has_key(ds.performers.0@, from@) && !has_key(ds.performers.0@, into@)
            ==> (r matches Err(CommandError::NotFound { slug }) && slug@ == into@),
        from@ != into@ && has_key(ds.performers.0@, from@) && has_key(ds.performers.0@, into@)
            ==> (r matches Ok(w) && w.performers.wf() && merged_entries(
            w.performers.0@,
            ds.performers.0@,
            from@,
            into@,
        ) && rewrites(ds.shows@, w.rewritten@, from@, into@)),
{
    let Dataset { performers, shows } = ds;
    if str_eq(from, into) {
        return Ok(Rewrite { performers, rewritten: Vec::new() });
    }
    let ghost before = performers.0@;
    let mut performers = performers;
    proof {
        lemma_find_key(before, from@);
        lemma_find_key(before, into@);
    }
    let from_p = match performers.remove(from) {
        Some(p) => p,
        None => {
            return Err(CommandError::NotFound { slug: owned(from) });
        },
    };
    let ghost removed = performers.0@;
    let ghost i = find_key(before, from@).unwrap();
    proof {
        lemma_find_key(removed, into@);
        if has_key(before, into@) {
            let f = choose|f: int| 0 <= f < before.len() && (#[trigger] before[f]).0@ == into@;
            let g = if f < i {
                f
            } else {
                f - 1
            };
            assert(removed[g] == before[f]);
        }
        if has_key(removed, into@) {
            let g = choose|g: int| 0 <= g < removed.len() && (#[trigger] removed[g]).0@ == into@;
            let f = if g < i {
                g
            } else {
                g + 1
            };
            assert(removed[g] == before[f]);
        }
    }
    let j = match position_of(&performers.0, into) {
        Some(j) => j,
        None => {
            return Err(CommandError::NotFound { slug: owned(into) });
        },
    };
    let (key, into_p) = performers.0.remove(j);
    let merged = merge_fields(into_p, from_p);
    performers.0.insert(j, (key, merged));
    proof {
        let s = performers.0@;
        assert(s.len() == removed.len());
        assert forall|k: int| 0 <= k < s.len() && k != j implies #[trigger] s[k] == removed[k] by {
        }
        assert forall|a: int, b: int| 0 <= a < b < s.len() implies crate::text::text_lt(
            #[trigger] s[a].0@,
            #[trigger] s[b].0@,
        ) by {
            assert(s[a].0 == removed[a].0);
            assert(s[b].0 == removed[b].0);
        }
    }
    let rewritten = rewrite_shows(shows, from, into);
    Ok(Rewrite { performers, rewritten })
}

/// The shows once a rename or merge is written back: each show naming
/// `from`, in order, replaced by the next rewritten show.
pub open spec fn written_back(shows: Seq<Show>, out: Seq<Show>, from: Seq<char>) -> Seq<Show>
    decreases shows.len(),
{
    if shows.len() == 0 {
        Seq::empty()
    } else if show_names(shows.last(), from) {
        written_back(shows.drop_last(), out.drop_last(), from).push(out.last())
    } else {
        written_back(shows.drop_last(), out, from).push(shows.last())
    }
}

proof fn lemma_written_back(shows: Seq<Show>, out: Seq<Show>, from: Seq<char>, to: Seq<char>)
    requires
        rewrites(shows, out, from, to),
    ensures
        written_back(shows, out, from).len() == shows.len(),
        forall|i: int|
            0 <= i < shows.len() ==> if show_names(#[trigger] shows[i], from) {
                show_renamed(written_back(shows, out, from)[i], shows[i], from, to)
            } else {
                written_back(shows, out, from)[i] == shows[i]
            },
    decreases shows.len(),
{
    if shows.len() > 0 {
        let t = shows.drop_last();
        let o = if show_names(shows.last(), from) { out.drop_last() } else { out };
        lemma_written_back(t, o, from, to);
        let wb = written_back(shows, out, from);
        assert forall|i: int| 0 <= i < shows.len() implies if show_names(#[trigger] shows[i], from) {
            show_renamed(wb[i], shows[i], from, to)
        } else {
            wb[i] == shows[i]
        } by {
            if i < t.len() {
                assert(shows[i] == t[i]);
                assert(wb[i] == written_back(t, o, from)[i]);
            }
        }
    }
}

/// A slot renamed from `from` to `to` names a performer of `after`, and
/// not `from`, when the slot did name a performer of `before`.
proof fn lemma_slot_known(a: Option<String>, b: Option<String>, from: Seq<char>, to: Seq<char>, before: Seq<(String, Performer)>, after: Seq<(String, Performer)>)
    requires
        slot_renamed(a, b, from, to),
        b matches Some(x) ==> has_key(before, x@),
        forall|x: Seq<char>| has_key(before, x) && x != from ==> has_key(after, x),
        has_key(after, to),
        from != to,
    ensures
        a matches Some(x) ==> has_key(after, x@) && x@ != from,
        a is Some <==> b is Some,
{
}

/// Renaming `from` to `to` in every show that names it keeps the shows
/// passing the checks against the new table: the dates (so the order)
/// stay, every slug named is a performer's, no show names `from`, and a
/// show with sets each naming someone still has them.
proof fn lemma_rewrite_sound(
    shows: Seq<Show>,
    out: Seq<Show>,
    from: Seq<char>,
    to: Seq<char>,
    before: Seq<(String, Performer)>,
    after: Seq<(String, Performer)>,
)
    requires
        rewrites(shows, out, from, to),
        dates_increasing(shows),
        all_known(shows, before),
        forall|x: Seq<char>| has_key(before, x) && x != from ==> has_key(after, x),
        has_key(after, to),
        from != to,
    ensures
        dates_increasing(written_back(shows, out, from)),
        all_known(written_back(shows, out, from), after),
        forall|i: int| 0 <= i < shows.len() ==> !show_names(#[trigger] written_back(shows, out, from)[i], from),
        forall|i: int| 0 <= i < shows.len() && shape_ok(#[trigger] shows[i]) ==> shape_ok(written_back(shows, out, from)[i]),
{
    lemma_written_back(shows, out, from, to);
    let wb = written_back(shows, out, from);
    assert forall|i: int| 0 <= i < wb.len() implies (#[trigger] wb[i]).date == shows[i].date && wb[i].sets@.len()
        == shows[i].sets@.len() && forall|j: int|
        0 <= j < wb[i].sets@.len() ==> {
            &&& unknown_in_set(#[trigger] wb[i].sets@[j], after) is None
            &&& !set_names(wb[i].sets@[j], from)
            &&& (wb[i].sets@[j].dj is Some || wb[i].sets@[j].vj is Some) <==> (shows[i].sets@[j].dj is Some
                || shows[i].sets@[j].vj is Some)
        } by {
        let old_show = shows[i];
        assert forall|j: int| 0 <= j < wb[i].sets@.len() implies {
            &&& unknown_in_set(#[trigger] wb[i].sets@[j], after) is None
            &&& !set_names(wb[i].sets@[j], from)
            &&& (wb[i].sets@[j].dj is Some || wb[i].sets@[j].vj is Some) <==> (shows[i].sets@[j].dj is Some
                || shows[i].sets@[j].vj is Some)
        } by {
            let b = old_show.sets@[j];
            assert(unknown_in_set(b, before) is None);
            if show_names(old_show, from) {
                let a = wb[i].sets@[j];
                assert(set_renamed(a, b, from, to));
                lemma_slot_known(a.dj, b.dj, from, to, before, after);
                lemma_slot_known(a.vj, b.vj, from, to, before, after);
            } else {
                assert(wb[i] == old_show);
                assert(!set_names(b, from));
            }
        }
    }
    assert forall|i: int, j: int| 0 <= i < wb.len() && 0 <= j < wb[i].sets@.len() implies unknown_in_set(
        #[trigger] wb[i].sets@[j],
        after,
    ) is None by {}
    assert forall|i: int, k: int| 0 <= i < k < wb.len() implies date_lt(#[trigger] wb[i].date, #[trigger] wb[k].date) by {
        assert(date_lt(shows[i].date, shows[k].date));
    }
    assert forall|i: int| 0 <= i < shows.len() implies !show_names(#[trigger] wb[i], from) by {
        if show_names(wb[i], from) {
            let j = choose|j: int| 0 <= j < wb[i].sets@.len() && set_names(#[trigger] wb[i].sets@[j], from);
        }
    }
    assert forall|i: int| 0 <= i < shows.len() && shape_ok(#[trigger] shows[i]) implies shape_ok(wb[i]) by {
        lemma_first_empty_set(shows[i].sets@);
        lemma_first_empty_set(wb[i].sets@);
        if let Some(j) = first_empty_set(wb[i].sets@) {
            assert(shows[i].sets@[j].dj is Some || shows[i].sets@[j].vj is Some);
        }
    }
}

/// With distinct sorted keys, every key but the renamed one survives a
/// rename, and the new key is present.
proof fn lemma_renamed_keys(after: Seq<(String, Performer)>, before: Seq<(String, Performer)>, from: Seq<char>, to: Seq<char>)
    requires
        keys_sorted(before),
        has_key(before, from),
        renamed_entries(after, before, from, to),
    ensures
        forall|x: Seq<char>| has_key(before, x) && x != from ==> has_key(after, x),
        has_key(after, to),
{
    lemma_find_key(before, from);
    let i = find_key(before, from).unwrap();
    let p = choose|p: int|
        0 <= p < after.len() && (#[trigger] after[p]).0@ == to && after[p].1 == before[i].1 && after.remove(p)
            == before.remove(i);
    assert(has_key(after, to)) by {
        assert(after[p].0@ == to);
    }
    assert forall|x: Seq<char>| has_key(before, x) && x != from implies has_key(after, x) by {
        let k = choose|k: int| 0 <= k < before.len() && (#[trigger] before[k]).0@ == x;
        assert(before[i].0@ == from);
        assert(k != i);
        let k1 = if k < i { k } else { k - 1 };
        assert(0 <= k1 < before.len() - 1);
        assert(before.remove(i)[k1] == before[k]);
        assert(after.remove(p).len() == before.remove(i).len());
        assert(after.len() == before.len());
        let k2 = if k1 < p { k1 } else { k1 + 1 };
        assert(after.remove(p)[k1] == after[k2]);
        assert(after[k2].0@ == x);
    }
}

/// Every key but the merged-away one survives a merge, and the target key
/// is present.
proof fn lemma_merged_keys(after: Seq<(String, Performer)>, before: Seq<(String, Performer)>, from: Seq<char>, into: Seq<char>)
    requires
        keys_sorted(before),
        has_key(before, from),
        has_key(before, into),
        from != into,
        merged_entries(after, before, from, into),
    ensures
        forall|x: Seq<char>| has_key(before, x) && x != from ==> has_key(after, x),
        has_key(after, into),
{
    lemma_find_key(before, from);
    let i = find_key(before, from).unwrap();
    let removed = before.remove(i);
    assert(has_key(removed, into)) by {
        let k = choose|k: int| 0 <= k < before.len() && (#[trigger] before[k]).0@ == into;
        assert(k != i);
        let k1 = if k < i { k } else { k - 1 };
        assert(removed[k1] == before[k]);
    }
    lemma_find_key(removed, into);
    let j = find_key(removed, into).unwrap();
    assert(has_key(after, into)) by {
        assert(after[j].0 == removed[j].0);
    }
    assert forall|x: Seq<char>| has_key(before, x) && x != from implies has_key(after, x) by {
        let k = choose|k: int| 0 <= k < before.len() && (#[trigger] before[k]).0@ == x;
        let k1 = if k < i { k } else { k - 1 };
        assert(removed[k1] == before[k]);
        if k1 == j {
            assert(after[j].0 == removed[j].0);
        } else {
            assert(after[k1] == removed[k1]);
        }
    }
}

/// Written back, a rename leaves data that passes the checks: shows in
/// date order, every slug named a performer's (the renamed one under its
/// new slug), no show naming the old slug, and sets that each name
/// someone still do.
pub proof fn lemma_rename_sound(ds: Dataset, old: Seq<char>, new: Seq<char>, after: Seq<(String, Performer)>, out: Seq<Show>)
    requires
        ds.wf(),
        old != new,
        has_key(ds.performers.0@, old),
        renamed_entries(after, ds.performers.0@, old, new),
        rewrites(ds.shows@, out, old, new),
    ensures
        dates_increasing(written_back(ds.shows@, out, old)),
        all_known(written_back(ds.shows@, out, old), after),
        forall|i: int| 0 <= i < ds.shows@.len() ==> !show_names(#[trigger] written_back(ds.shows@, out, old)[i], old),
        forall|i: int|
            0 <= i < ds.shows@.len() && shape_ok(#[trigger] ds.shows@[i]) ==> shape_ok(written_back(ds.shows@, out, old)[i]),
{
    lemma_renamed_keys(after, ds.performers.0@, old, new);
    lemma_rewrite_sound(ds.shows@, out, old, new, ds.performers.0@, after);
}

/// Written back, a merge leaves data that passes the checks: shows in
/// date order, every slug named a performer's, no show naming the merged
/// slug, and sets that each name someone still do.
pub proof fn lemma_merge_sound(ds: Dataset, from: Seq<char>, into: Seq<char>, after: Seq<(String, Performer)>, out: Seq<Show>)
    requires
        ds.wf(),
        from != into,
        has_key(ds.performers.0@, from),
        has_key(ds.performers.0@, into),
        merged_entries(after, ds.performers.0@, from, into),
        rewrites(ds.shows@, out, from, into),
    ensures
        dates_increasing(written_back(ds.shows@, out, from)),
        all_known(written_back(ds.shows@, out, from), after),
        forall|i: int| 0 <= i < ds.shows@.len() ==> !show_names(#[trigger] written_back(ds.shows@, out, from)[i], from),
        forall|i: int|
            0 <= i < ds.shows@.len() && shape_ok(#[trigger] ds.shows@[i]) ==> shape_ok(written_back(ds.shows@, out, from)[i]),
{
    lemma_merged_keys(after, ds.performers.0@, from, into);
    lemma_rewrite_sound(ds.shows@, out, from, into, ds.performers.0@, after);
}

// ---------------------------------------------------------------------
// queries
// ---------------------------------------------------------------------

/// Combines two optional dates, keeping the later.
pub open spec fn later_of(a: Option<Date>, b: Option<Date>) -> Option<Date> {
    match (a, b) {
        (Some(x), Some(y)) => Some(crate::date::date_max(x, y)),
        (Some(x), None) => Some(x),
        (None, y) => y,
    }
}

/// The latest date among the shows in which `k` plays (as DJ or VJ).
pub open spec fn last_date(shows: Seq<Show>, k: Seq<char>) -> Option<Date>
    decreases shows.len(),
{
    if shows.len() == 0 {
        None
    } else {
        later_of(
            last_date(shows.drop_last(), k),
            if show_names(shows.last(), k) {
                Some(shows.last().date)
            } else {
                None
            },
        )
    }
}

/// `last_date` is the latest date of a show naming `k`: it is the date of
/// such a show and no show naming `k` is later; `None` when no show names
/// `k`.
pub proof fn lemma_last_date(shows: Seq<Show>, k: Seq<char>)
    ensures
        match last_date(shows, k) {
            Some(d) => (exists|i: int| 0 <= i < shows.len() && show_names(#[trigger] shows[i], k) && shows[i].date == d)
                && forall|j: int| 0 <= j < shows.len() && show_names(#[trigger] shows[j], k) ==> !date_lt(d, shows[j].date),
            None => forall|j: int| 0 <= j < shows.len() ==> !show_names(#[trigger] shows[j], k),
        },
    decreases shows.len(),
{
    if shows.len() > 0 {
        let t = shows.drop_last();
        lemma_last_date(t, k);
        let n = shows.len() - 1;
        assert forall|j: int| 0 <= j < n implies #[trigger] shows[j] == t[j] by {}
        match last_date(t, k) {
            Some(d0) => {
                let i0 = choose|i: int| 0 <= i < t.len() && show_names(#[trigger] t[i], k) && t[i].date == d0;
                assert(shows[i0] == t[i0]);
                if show_names(shows.last(), k) {
                    crate::date::lemma_date_lt_total(d0, shows.last().date);
                    assert forall|j: int| 0 <= j < shows.len() && show_names(#[trigger] shows[j], k) implies !date_lt(
                        crate::date::date_max(d0, shows.last().date),
                        shows[j].date,
                    ) by {
                        if j < n {
                            assert(shows[j] == t[j]);
                            if date_lt(d0, shows.last().date) {
                                if date_lt(shows.last().date, shows[j].date) {
                                    crate::date::lemma_date_lt_transitive(d0, shows.last().date, shows[j].date);
                                }
                            }
                        }
                    }
                    assert(show_names(shows[n], k));
                }
            },
            None => {
                if show_names(shows.last(), k) {
                    assert(show_names(shows[n], k));
                }
            },
        }
    }
}

/// The date stored under key `k`, if any (the first entry with that key).
pub open spec fn lookup_date(s: Seq<(String, Date)>, k: Seq<char>) -> Option<Date> {
    match find_key(s, k) {
        Some(i) => Some(s[i].1),
        None => None,
    }
}

pub open spec fn keys_distinct<V>(s: Seq<(String, V)>) -> bool {
    forall|i: int, j: int| 0 <= i < j < s.len() ==> (#[trigger] s[i]).0@ != (#[trigger] s[j]).0@
}

/// Records that `slug` played on `date`.
fn note_played(out: &mut Vec<(String, Date)>, slug: &str, date: Date)
    requires
        keys_distinct(old(out)@),
    ensures
        keys_distinct(final(out)@),
        forall|k: Seq<char>|
            #![trigger lookup_date(final(out)@, k)]
            lookup_date(final(out)@, k) == if k == slug@ {
                later_of(lookup_date(old(out)@, k), Some(date))
            } else {
                lookup_date(old(out)@, k)
            },
{
    let ghost before = out@;
    proof {
        lemma_find_key(before, slug@);
    }
    match position_of(out, slug) {
        Some(p) => {
            if out[p].1.before(&date) {
                let (k, _) = out.remove(p);
                out.insert(p, (k, date));
                proof {
                    assert(out@ =~= before.update(p as int, (k, date)));
                }
            } else {
                proof {
                    crate::date::lemma_date_lt_total(before[p as int].1, date);
                }
            }
            proof {
                assert forall|k: Seq<char>| #![trigger lookup_date(out@, k)] lookup_date(out@, k) == if k == slug@ {
                    later_of(lookup_date(before, k), Some(date))
                } else {
                    lookup_date(before, k)
                } by {
                    if out@ != before {
                        lemma_find_key_update(before, p as int, out@[p as int], k);
                    }
                    if k != slug@ {
                        lemma_find_key(before, k);
                    }
                }
                assert forall|i: int, j: int| 0 <= i < j < out@.len() implies (#[trigger] out@[i]).0@
                    != (#[trigger] out@[j]).0@ by {
                    assert(out@[i].0@ == before[i].0@);
                    assert(out@[j].0@ == before[j].0@);
                }
            }
        },
        None => {
            let key = owned(slug);
            let ghost xk = (key, date);
            out.push((key, date));
            proof {
                assert forall|k: Seq<char>| #![trigger lookup_date(out@, k)] lookup_date(out@, k) == if k == slug@ {
                    later_of(lookup_date(before, k), Some(date))
                } else {
                    lookup_date(before, k)
                } by {
                    lemma_find_key_push(before, xk, k);
                    lemma_find_key(before, k);
                    assert(out@ == before.push(xk));
                }
                assert forall|i: int, j: int| 0 <= i < j < out@.len() implies (#[trigger] out@[i]).0@
                    != (#[trigger] out@[j]).0@ by {
                    if j == before.len() {
                        assert(out@[i] == before[i]);
                    } else {
                        assert(out@[i] == before[i] && out@[j] == before[j]);
                    }
                }
            }
        },
    }
}

/// Some set among the first `m` has `k` as DJ or VJ.
pub open spec fn names_within(sets: Seq<ShowSet>, m: int, k: Seq<char>) -> bool {
    exists|j: int| 0 <= j < m && set_names(#[trigger] sets[j], k)
}

/// Most recent show date on which each slug played (DJ or VJ). Slugs that
/// never played have no entry; each slug has one entry at most.
pub fn last_played_map(ds: &Dataset) -> (r: Vec<(Slug, Date)>)
    ensures
        keys_distinct(r@),
        forall|k: Seq<char>| #[trigger] lookup_date(r@, k) == last_date(ds.shows@, k),
        forall|i: int| 0 <= i < r@.len() ==> Some((#[trigger] r@[i]).1) == last_date(ds.shows@, r@[i].0@),
{
    let mut out: Vec<(String, Date)> = Vec::new();
    let mut i: usize = 0;
    while i < ds.shows.len()
        invariant
            i <= ds.shows@.len(),
            keys_distinct(out@),
            forall|k: Seq<char>| #[trigger] lookup_date(out@, k) == last_date(ds.shows@.subrange(0, i as int), k),
        decreases ds.shows@.len() - i,
    {
        let show = &ds.shows[i];
        let ghost pre = ds.shows@.subrange(0, i as int);
        let mut j: usize = 0;
        while j < show.sets.len()
            invariant
                j <= show.sets@.len(),
                keys_distinct(out@),
                forall|k: Seq<char>| #[trigger] lookup_date(out@, k) == later_of(
                    last_date(pre, k),
                    if names_within(show.sets@, j as int, k) {
                        Some(show.date)
                    } else {
                        None
                    },
                ),
            decreases show.sets@.len() - j,
        {
            let set = &show.sets[j];
            let ghost mid0 = out@;
            if let Some(dj) = &set.dj {
                note_played(&mut out, dj.as_str(), show.date);
            }
            let ghost mid1 = out@;
            if let Some(vj) = &set.vj {
                note_played(&mut out, vj.as_str(), show.date);
            }
            proof {
                assert forall|k: Seq<char>| #[trigger] lookup_date(out@, k) == later_of(
                    last_date(pre, k),
                    if names_within(show.sets@, j + 1, k) {
                        Some(show.date)
                    } else {
                        None
                    },
                ) by {
                    assert(lookup_date(mid0, k) == later_of(
                        last_date(pre, k),
                        if names_within(show.sets@, j as int, k) {
                            Some(show.date)
                        } else {
                            None
                        },
                    ));
                    assert(lookup_date(out@, k) == lookup_date(mid1, k) || (set.vj is Some));
                    if names_within(show.sets@, j + 1, k) && !names_within(show.sets@, j as int, k) {
                        let w = choose|w: int| 0 <= w < j + 1 && set_names(#[trigger] show.sets@[w], k);
                        assert(w == j);
                    }
                    if names_within(show.sets@, j as int, k) {
                        let w = choose|w: int| 0 <= w < j && set_names(#[trigger] show.sets@[w], k);
                        assert(names_within(show.sets@, j + 1, k));
                    }
                    if set_names(show.sets@[j as int], k) {
                        assert(names_within(show.sets@, j + 1, k));
                    }
                    crate::date::lemma_date_lt_total(show.date, show.date);
                    if let Some(d) = last_date(pre, k) {
                        crate::date::lemma_date_lt_total(d, show.date);
                    }
                }
            }
            j = j + 1;
        }
        proof {
            let next = ds.shows@.subrange(0, i + 1);
            assert(next.drop_last() =~= pre);
            assert(next.last() == *show);
            assert forall|k: Seq<char>| #[trigger] lookup_date(out@, k) == last_date(next, k) by {
                if show_names(*show, k) {
                    let w = choose|w: int| 0 <= w < show.sets@.len() && set_names(#[trigger] show.sets@[w], k);
                    assert(names_within(show.sets@, show.sets@.len() as int, k));
                }
                if names_within(show.sets@, show.sets@.len() as int, k) {
                    let w = choose|w: int| 0 <= w < show.sets@.len() && set_names(#[trigger] show.sets@[w], k);
                    assert(show_names(*show, k));
                }
            }
        }
        i = i + 1;
    }
    assert(ds.shows@.subrange(0, i as int) =~= ds.shows@);
    proof {
        assert forall|a: int| 0 <= a < out@.len() implies Some((#[trigger] out@[a]).1) == last_date(ds.shows@, out@[a].0@) by {
            lemma_find_key(out@, out@[a].0@);
            let f = find_key(out@, out@[a].0@).unwrap();
            if f != a {
                if f < a {
                    assert(out@[f].0@ != out@[a].0@);
                } else {
                    assert(out@[a].0@ != out@[f].0@);
                }
            }
            assert(lookup_date(out@, out@[a].0@) == Some(out@[a].1));
        }
    }
    out
}

pub(crate) fn lookup_in(map: &Vec<(String, Date)>, slug: &str) -> (r: Option<Date>)
    ensures
        r == lookup_date(map@, slug@),
{
    match position_of(map, slug) {
        Some(p) => Some(map[p].1),
        None => None,
    }
}

/// `last-played`: the most recent date `slug` played; refuses a slug no
/// performer has.
pub fn last_played(ds: &Dataset, slug: &str) -> (r: Result<Option<Date>, CommandError>)
    ensures
        !has_key(ds.performers.0@, slug@) ==> (r matches Err(CommandError::NotFound { slug: s }) && s@
            == slug@),
        has_key(ds.performers.0@, slug@) ==> r == Ok::<Option<Date>, CommandError>(last_date(ds.shows@, slug@)),
{
    if !ds.performers.contains(slug) {
        return Err(CommandError::NotFound { slug: owned(slug) });
    }
    let map = last_played_map(ds);
    Ok(lookup_in(&map, slug))
}

/// The order of `stale` rows: never-played rows first, then by the date
/// of the last show, oldest first.
impl crate::sorting::Ranked for (String, Option<Date>) {
    open spec fn rank_le(self, other: Self) -> bool {
        match (self.1, other.1) {
            (None, _) => true,
            (Some(_), None) => false,
            (Some(a), Some(b)) => !date_lt(b, a),
        }
    }

    proof fn lemma_rank_total(a: Self, b: Self) {
    }

    proof fn lemma_rank_transitive(a: Self, b: Self, c: Self) {
    }

    fn rank_le_exec(&self, other: &Self) -> (r: bool) {
        match (&self.1, &other.1) {
            (None, _) => true,
            (Some(_), None) => false,
            (Some(a), Some(b)) => !b.before(a),
        }
    }
}

/// The rows `stale` reports before ordering them: in slug order, each
/// performer who never played or whose last show is before `cutoff`.
pub open spec fn stale_candidates(ps: Seq<(String, Performer)>, shows: Seq<Show>, cutoff: Date) -> Seq<(String, Option<Date>)>
    decreases ps.len(),
{
    if ps.len() == 0 {
        Seq::empty()
    } else {
        let rest = stale_candidates(ps.drop_last(), shows, cutoff);
        let k = ps.last().0;
        match last_date(shows, k@) {
            None => rest.push((k, None)),
            Some(d) => if date_lt(d, cutoff) {
                rest.push((k, Some(d)))
            } else {
                rest
            },
        }
    }
}

/// The performers who have not played since before `cutoff` (or never),
/// never-played first, then oldest last show first; ties keep slug order.
pub fn stale_since(ds: &Dataset, cutoff: Date) -> (r: Vec<(Slug, Option<Date>)>)
    ensures
        r@ == stable_sorted(stale_candidates(ds.performers.0@, ds.shows@, cutoff)),
{
    let map = last_played_map(ds);
    let ps = &ds.performers.0;
    let mut rows: Vec<(String, Option<Date>)> = Vec::new();
    let mut i: usize = 0;
    while i < ps.len()
        invariant
            i <= ps@.len(),
            forall|k: Seq<char>| #[trigger] lookup_date(map@, k) == last_date(ds.shows@, k),
            rows@ == stale_candidates(ps@.subrange(0, i as int), ds.shows@, cutoff),
        decreases ps@.len() - i,
    {
        let ghost pre = ps@.subrange(0, i + 1);
        assert(pre.drop_last() =~= ps@.subrange(0, i as int));
        assert(pre.last() == ps@[i as int]);
        let slug = &ps[i].0;
        match lookup_in(&map, slug.as_str()) {
            Some(d) => {
                if d.before(&cutoff) {
                    rows.push((slug.clone(), Some(d)));
                }
            },
            None => {
                rows.push((slug.clone(), None));
            },
        }
        i = i + 1;
    }
    assert(ps@.subrange(0, i as int) =~= ps@);
    sort_ranked(rows)
}

/// `stale`: `stale_since` with the cutoff `days` days before `today`;
/// `None` when that date is out of range.
pub fn stale(ds: &Dataset, days: i64, today: Date) -> (r: Option<Vec<(Slug, Option<Date>)>>)
    ensures
        match crate::date::shifted(today@, -days) {
            None => r is None,
            Some(c) => r matches Some(rows) && exists|cutoff: Date|
                cutoff@ == c && rows@ == stable_sorted(
                    stale_candidates(ds.performers.0@, ds.shows@, cutoff),
                ),
        },
{
    match today.minus_days(days) {
        Some(cutoff) => Some(stale_since(ds, cutoff)),
        None => None,
    }
}

/// The rows of performers who never played come in increasing slug order.
pub open spec fn never_rows_by_slug(rows: Seq<(String, Option<Date>)>) -> bool {
    forall|i: int, j: int|
        0 <= i < j < rows.len() && (#[trigger] rows[i]).1 is None && (#[trigger] rows[j]).1 is None ==> text_lt(
            rows[i].0@,
            rows[j].0@,
        )
}

proof fn lemma_insert_keeps_never_order(s: Seq<(String, Option<Date>)>, x: (String, Option<Date>))
    requires
        never_rows_by_slug(s),
        x.1 is None ==> forall|i: int| 0 <= i < s.len() && (#[trigger] s[i]).1 is None ==> text_lt(s[i].0@, x.0@),
    ensures
        never_rows_by_slug(crate::sorting::insert_ranked(s, x)),
    decreases s.len(),
{
    let r = crate::sorting::insert_ranked(s, x);
    if s.len() == 0 {
    } else if s.last().rank_le(x) {
        assert forall|i: int, j: int|
            0 <= i < j < r.len() && (#[trigger] r[i]).1 is None && (#[trigger] r[j]).1 is None implies text_lt(
            r[i].0@,
            r[j].0@,
        ) by {
            assert(r[i] == s[i]);
            if j < s.len() {
                assert(r[j] == s[j]);
            }
        }
    } else {
        let t = s.drop_last();
        assert forall|i: int, j: int|
            0 <= i < j < t.len() && (#[trigger] t[i]).1 is None && (#[trigger] t[j]).1 is None implies text_lt(
            t[i].0@,
            t[j].0@,
        ) by {
            assert(t[i] == s[i] && t[j] == s[j]);
        }
        assert forall|i: int| 0 <= i < t.len() && (#[trigger] t[i]).1 is None && x.1 is None implies text_lt(t[i].0@, x.0@) by {
            assert(t[i] == s[i]);
        }
        lemma_insert_keeps_never_order(t, x);
        let u = crate::sorting::insert_ranked(t, x);
        assert(s.last().1 is Some);
        assert(r == u.push(s.last()));
        assert forall|i: int, j: int|
            0 <= i < j < r.len() && (#[trigger] r[i]).1 is None && (#[trigger] r[j]).1 is None implies text_lt(
            r[i].0@,
            r[j].0@,
        ) by {
            assert(r[i] == u[i]);
            assert(j < u.len());
            assert(r[j] == u[j]);
        }
    }
}

proof fn lemma_sorted_keeps_never_order(v: Seq<(String, Option<Date>)>)
    requires
        forall|i: int, j: int| 0 <= i < j < v.len() ==> text_lt((#[trigger] v[i]).0@, (#[trigger] v[j]).0@),
    ensures
        never_rows_by_slug(stable_sorted(v)),
    decreases v.len(),
{
    if v.len() > 0 {
        let t = v.drop_last();
        assert forall|i: int, j: int| 0 <= i < j < t.len() implies text_lt((#[trigger] t[i]).0@, (#[trigger] t[j]).0@) by {
            assert(t[i] == v[i] && t[j] == v[j]);
        }
        lemma_sorted_keeps_never_order(t);
        let st = stable_sorted(t);
        assert forall|i: int| 0 <= i < st.len() && (#[trigger] st[i]).1 is None implies text_lt(st[i].0@, v.last().0@) by {
            lemma_stable_sorted_member(t, i);
            let m = choose|m: int| 0 <= m < t.len() && t[m] == st[i];
            assert(t[m] == v[m]);
            assert(v.last() == v[v.len() - 1]);
        }
        lemma_insert_keeps_never_order(st, v.last());
    }
}

/// The candidates come in increasing slug order, each the slug of an
/// entry of the table.
proof fn lemma_candidates_by_slug(ps: Seq<(String, Performer)>, shows: Seq<Show>, cutoff: Date)
    requires
        keys_sorted(ps),
    ensures
        ({
            let c = stale_candidates(ps, shows, cutoff);
            &&& forall|i: int, j: int| 0 <= i < j < c.len() ==> text_lt((#[trigger] c[i]).0@, (#[trigger] c[j]).0@)
            &&& forall|i: int| 0 <= i < c.len() ==> exists|m: int| 0 <= m < ps.len() && (#[trigger] c[i]).0 == ps[m].0
        }),
    decreases ps.len(),
{
    if ps.len() > 0 {
        let t = ps.drop_last();
        assert(keys_sorted(t)) by {
            assert forall|a: int, b: int| 0 <= a < b < t.len() implies text_lt(#[trigger] t[a].0@, #[trigger] t[b].0@) by {
                assert(t[a] == ps[a] && t[b] == ps[b]);
            }
        }
        lemma_candidates_by_slug(t, shows, cutoff);
        let rest = stale_candidates(t, shows, cutoff);
        let c = stale_candidates(ps, shows, cutoff);
        let k = ps.last().0;
        assert forall|i: int| 0 <= i < rest.len() implies text_lt((#[trigger] rest[i]).0@, k@) by {
            let m = choose|m: int| 0 <= m < t.len() && rest[i].0 == t[m].0;
            assert(t[m] == ps[m]);
            assert(ps.last() == ps[ps.len() - 1]);
        }
        assert forall|i: int| 0 <= i < c.len() implies exists|m: int| 0 <= m < ps.len() && (#[trigger] c[i]).0 == ps[m].0 by {
            if i < rest.len() {
                assert(c[i] == rest[i]);
                let m = choose|m: int| 0 <= m < t.len() && rest[i].0 == t[m].0;
                assert(t[m] == ps[m]);
            } else {
                assert(c[i].0 == ps[ps.len() - 1].0);
            }
        }
        assert forall|i: int, j: int| 0 <= i < j < c.len() implies text_lt((#[trigger] c[i]).0@, (#[trigger] c[j]).0@) by {
            assert(c[i] == rest[i]);
            if j < rest.len() {
                assert(c[j] == rest[j]);
            }
        }
    }
}

/// The order `stale` reports: rows of performers who never played come
/// before all others, in slug order, and among the rest a row never has a
/// later date than the row after it.
pub proof fn lemma_stale_order(ps: Seq<(String, Performer)>, shows: Seq<Show>, cutoff: Date)
    requires
        keys_sorted(ps),
    ensures
        ({
            let rows = stable_sorted(stale_candidates(ps, shows, cutoff));
            &&& forall|i: int, j: int|
                0 <= i < j < rows.len() && (#[trigger] rows[i]).1 is Some ==> (#[trigger] rows[j]).1 is Some
            &&& forall|i: int, j: int|
                0 <= i < j < rows.len() && (#[trigger] rows[i]).1 is Some && (#[trigger] rows[j]).1 is Some
                    ==> !date_lt(rows[j].1->0, rows[i].1->0)
            &&& never_rows_by_slug(rows)
        }),
{
    let rows = stable_sorted(stale_candidates(ps, shows, cutoff));
    lemma_stable_sorted(stale_candidates(ps, shows, cutoff));
    assert forall|i: int, j: int|
        0 <= i < j < rows.len() && (#[trigger] rows[i]).1 is Some implies (#[trigger] rows[j]).1 is Some by {
        assert(rows[i].rank_le(rows[j]));
    }
    assert forall|i: int, j: int|
        0 <= i < j < rows.len() && (#[trigger] rows[i]).1 is Some && (#[trigger] rows[j]).1 is Some implies !date_lt(
            rows[j].1->0,
            rows[i].1->0,
        ) by {
        assert(rows[i].rank_le(rows[j]));
    }
    lemma_candidates_by_slug(ps, shows, cutoff);
    lemma_sorted_keeps_never_order(stale_candidates(ps, shows, cutoff));
}

/// Each candidate row is a performer of the table with its last show
/// date, which is before the cutoff when there is one; and every performer
/// who never played or last played before the cutoff has a row.
proof fn lemma_candidates_rows(ps: Seq<(String, Performer)>, shows: Seq<Show>, cutoff: Date)
    ensures
        ({
            let c = stale_candidates(ps, shows, cutoff);
            &&& forall|i: int|
                0 <= i < c.len() ==> (#[trigger] c[i]).1 == last_date(shows, c[i].0@) && (c[i].1 is Some ==> date_lt(
                    c[i].1->0,
                    cutoff,
                )) && exists|m: int| 0 <= m < ps.len() && c[i].0 == #[trigger] ps[m].0
            &&& forall|m: int|
                0 <= m < ps.len() && (last_date(shows, (#[trigger] ps[m]).0@) is None || date_lt(
                    last_date(shows, ps[m].0@)->0,
                    cutoff,
                )) ==> exists|i: int| 0 <= i < c.len() && #[trigger] c[i].0 == ps[m].0
        }),
    decreases ps.len(),
{
    if ps.len() > 0 {
        let t = ps.drop_last();
        lemma_candidates_rows(t, shows, cutoff);
        let rest = stale_candidates(t, shows, cutoff);
        let c = stale_candidates(ps, shows, cutoff);
        let k = ps.last().0;
        assert(ps.last() == ps[ps.len() - 1]);
        assert forall|i: int| 0 <= i < rest.len() implies #[trigger] c[i] == rest[i] by {}
        assert forall|i: int|
            0 <= i < c.len() implies (#[trigger] c[i]).1 == last_date(shows, c[i].0@) && (c[i].1 is Some ==> date_lt(
            c[i].1->0,
            cutoff,
        )) && exists|m: int| 0 <= m < ps.len() && c[i].0 == #[trigger] ps[m].0 by {
            if i < rest.len() {
                let m = choose|m: int| 0 <= m < t.len() && rest[i].0 == #[trigger] t[m].0;
                assert(t[m] == ps[m]);
            } else {
                assert(c[i].0 == ps[ps.len() - 1].0);
            }
        }
        assert forall|m: int|
            0 <= m < ps.len() && (last_date(shows, (#[trigger] ps[m]).0@) is None || date_lt(
                last_date(shows, ps[m].0@)->0,
                cutoff,
            )) implies exists|i: int| 0 <= i < c.len() && #[trigger] c[i].0 == ps[m].0 by {
            if m < t.len() {
                assert(t[m] == ps[m]);
                let i = choose|i: int| 0 <= i < rest.len() && #[trigger] rest[i].0 == t[m].0;
                assert(c[i] == rest[i]);
            } else {
                assert(c[rest.len() as int].0 == k);
            }
        }
    }
}

/// Who `stale` lists: each row is a performer of the table with the date
/// of its last show, and that date, when there is one, is strictly before
/// the cutoff (so a performer who played on or after the cutoff is not
/// listed); and every performer who never played, or last played before
/// the cutoff, is listed.
pub proof fn lemma_stale_rows(ps: Seq<(String, Performer)>, shows: Seq<Show>, cutoff: Date)
    ensures
        ({
            let rows = stable_sorted(stale_candidates(ps, shows, cutoff));
            &&& forall|i: int|
                0 <= i < rows.len() ==> (#[trigger] rows[i]).1 == last_date(shows, rows[i].0@) && (rows[i].1 is Some
                    ==> date_lt(rows[i].1->0, cutoff)) && has_key(ps, rows[i].0@)
            &&& forall|m: int|
                0 <= m < ps.len() && (last_date(shows, (#[trigger] ps[m]).0@) is None || date_lt(
                    last_date(shows, ps[m].0@)->0,
                    cutoff,
                )) ==> exists|i: int| 0 <= i < rows.len() && #[trigger] rows[i].0 == ps[m].0
        }),
{
    let c = stale_candidates(ps, shows, cutoff);
    let rows = stable_sorted(c);
    lemma_candidates_rows(ps, shows, cutoff);
    assert forall|i: int| 0 <= i < rows.len() implies (#[trigger] rows[i]).1 == last_date(shows, rows[i].0@) && (
    rows[i].1 is Some ==> date_lt(rows[i].1->0, cutoff)) && has_key(ps, rows[i].0@) by {
        crate::sorting::lemma_stable_sorted_member(c, i);
        let j = choose|j: int| 0 <= j < c.len() && c[j] == rows[i];
        assert(c[j] == rows[i]);
        let m = choose|m: int| 0 <= m < ps.len() && c[j].0 == #[trigger] ps[m].0;
        assert(ps[m].0@ == rows[i].0@);
    }
    assert forall|m: int|
        0 <= m < ps.len() && (last_date(shows, (#[trigger] ps[m]).0@) is None || date_lt(
            last_date(shows, ps[m].0@)->0,
            cutoff,
        )) implies exists|i: int| 0 <= i < rows.len() && #[trigger] rows[i].0 == ps[m].0 by {
        let i = choose|i: int| 0 <= i < c.len() && #[trigger] c[i].0 == ps[m].0;
        crate::sorting::lemma_stable_sorted_has(c, i);
        let j = choose|j: int| 0 <= j < rows.len() && rows[j] == c[i];
        assert(rows[j].0 == ps[m].0);
    }
}

/// What a merge keeps of each performer: the surviving performer keeps its
/// display name; it keeps its own Twitch and CDN links whenever they are
/// not empty, and takes the merged performer's only when its own are
/// empty; its notes are its own when the merged performer has none, and
/// the merged performer's when it has none itself.
pub proof fn lemma_merge_keeps_own(into: PerformerView, from: PerformerView)
    ensures
        merged_view(into, from).display_name == into.display_name,
        into.twitch.len() > 0 ==> merged_view(into, from).twitch == into.twitch,
        into.twitch.len() == 0 ==> merged_view(into, from).twitch == from.twitch,
        into.cdn.len() > 0 ==> merged_view(into, from).cdn == into.cdn,
        into.cdn.len() == 0 ==> merged_view(into, from).cdn == from.cdn,
        from.notes.len() == 0 ==> merged_view(into, from).notes == into.notes,
        into.notes.len() == 0 ==> merged_view(into, from).notes == from.notes,
        into.notes.len() > 0 && from.notes.len() > 0 && from.notes != into.notes ==> into.notes.is_prefix_of(
            merged_view(into, from).notes,
        ) && from.notes.is_suffix_of(merged_view(into, from).notes),
{
    let m = merged_view(into, from);
    if into.twitch.len() == 0 && from.twitch.len() == 0 {
        assert(into.twitch =~= from.twitch);
    }
    if into.cdn.len() == 0 && from.cdn.len() == 0 {
        assert(into.cdn =~= from.cdn);
    }
    if into.notes.len() == 0 && from.notes.len() == 0 {
        assert(into.notes =~= from.notes);
    }
    if into.notes.len() > 0 && from.notes.len() > 0 && from.notes != into.notes {
        let n = into.notes + "\n---\n"@ + from.notes;
        assert(m.notes == n);
        assert(n.subrange(0, into.notes.len() as int) =~= into.notes);
        assert(n.subrange(n.len() - from.notes.len(), n.len() as int) =~= from.notes);
    }
}

} // verus!
