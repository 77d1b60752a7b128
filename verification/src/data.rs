//! A loaded and cross-validated dataset: the performers and every show.
use vstd::prelude::*;

use crate::date::{date_lt, date_text, Date};
use crate::performer::{first_entry_error, has_key, performer_error_text, Performer, PerformerError, Performers};
use crate::seqs::{first_where, lemma_first_where, lemma_first_where_at, lemma_first_where_none};
use crate::show::{first_empty_set, shape_ok, show_error_text, Show, ShowError, ShowSet};
use crate::sorting::{reverse, sort_ranked, stable_sorted, Ranked};
use crate::text::{clock_text, concat_str, debug_quoted, debug_text};

verus! {

/// A loaded and fully cross-validated dataset.
#[derive(Debug)]
pub struct Dataset {
    pub performers: Performers,
    pub shows: Vec<Show>,
}

/// Why a dataset was rejected.
#[derive(Debug)]
pub enum DatasetError {
    Performer(PerformerError),
    Show(ShowError),
    ListShows { path: String, message: String },
    UnknownPerformer { date: Date, time: String, slug: String },
    DuplicateShow { date: Date, a: String, b: String },
}

/// A show file's path and the show in it, ordered by the show's date.
impl Ranked for (String, Show) {
    open spec fn rank_le(self, other: Self) -> bool {
        !date_lt(other.1.date, self.1.date)
    }

    proof fn lemma_rank_total(a: Self, b: Self) {
    }

    proof fn lemma_rank_transitive(a: Self, b: Self, c: Self) {
    }

    fn rank_le_exec(&self, other: &Self) -> (r: bool) {
        !other.1.date.before(&self.1.date)
    }
}

/// The slug a set names that no performer has: its DJ first, then its VJ.
pub open spec fn unknown_in_set(set: ShowSet, ps: Seq<(String, Performer)>) -> Option<String> {
    if set.dj is Some && !has_key(ps, set.dj->0@) {
        Some(set.dj->0)
    } else if set.vj is Some && !has_key(ps, set.vj->0@) {
        Some(set.vj->0)
    } else {
        None
    }
}

pub open spec fn set_has_unknown(ps: Seq<(String, Performer)>) -> spec_fn(ShowSet) -> bool {
    |set: ShowSet| unknown_in_set(set, ps) is Some
}

pub open spec fn show_has_unknown(ps: Seq<(String, Performer)>) -> spec_fn(Show) -> bool {
    |show: Show| first_where(show.sets@, set_has_unknown(ps)) is Some
}

/// Every slug every set names belongs to a performer.
pub open spec fn all_known(shows: Seq<Show>, ps: Seq<(String, Performer)>) -> bool {
    forall|i: int, j: int|
        0 <= i < shows.len() && 0 <= j < shows[i].sets@.len() ==> unknown_in_set(
            #[trigger] shows[i].sets@[j],
            ps,
        ) is None
}

/// `0, 1, .., n - 2`: the positions of adjacent pairs among `n` entries.
pub open spec fn pair_positions(n: nat) -> Seq<int> {
    Seq::new(if n > 0 { (n - 1) as nat } else { 0 }, |k: int| k)
}

/// Entry `k` and entry `k + 1` have the same date.
pub open spec fn same_date_at(s: Seq<(String, Show)>) -> spec_fn(int) -> bool {
    |k: int| s[k].1.date == s[k + 1].1.date
}

/// The first position `k` where entries `k` and `k + 1` share a date.
pub open spec fn first_duplicate(s: Seq<(String, Show)>) -> Option<int> {
    first_where(pair_positions(s.len()), same_date_at(s))
}

/// Strictly increasing dates.
pub open spec fn dates_increasing(shows: Seq<Show>) -> bool {
    forall|i: int, j: int| 0 <= i < j < shows.len() ==> date_lt(#[trigger] shows[i].date, #[trigger] shows[j].date)
}

/// A show file entry whose show fails `validate_shape`.
pub open spec fn bad_shape() -> spec_fn((String, Show)) -> bool {
    |e: (String, Show)| !shape_ok(e.1)
}

/// The error `validate_shape` gives for a show that fails it.
pub open spec fn is_shape_error(show: Show, e: ShowError) -> bool {
    if show.sets@.len() == 0 {
        e matches ShowError::EmptyLineup { date } && date == show.date
    } else {
        match first_empty_set(show.sets@) {
            Some(i) => e matches ShowError::EmptySet { date, time } && date == show.date && time@ == clock_text(
                show.sets@[i].start.hour as nat,
                show.sets@[i].start.minute as nat,
            ),
            None => false,
        }
    }
}

impl Dataset {
    /// Performers in slug order that pass `Performers::validate`, shows
    /// that pass `Show::validate_shape`, in strictly increasing date order,
    /// and every slug a set names is a performer's.
    pub open spec fn wf(&self) -> bool {
        &&& self.performers.wf()
        &&& first_entry_error(self.performers.0@) is None
        &&& forall|i: int| 0 <= i < self.shows@.len() ==> shape_ok(#[trigger] self.shows@[i])
        &&& dates_increasing(self.shows@)
        &&& all_known(self.shows@, self.performers.0@)
    }

    /// What `load` does once the files are read: `validate`s the
    /// performers, checks each show's shape (`validate_shape`, in the order
    /// given), orders the shows by date
    /// (stably), rejects two shows on one date (the first such pair in that
    /// order), then rejects the first slug, in date, set, DJ-then-VJ order,
    /// that no performer has.
    pub fn from_parts(performers: Performers, shows: Vec<(String, Show)>) -> (r: Result<
        Dataset,
        DatasetError,
    >)
        requires
            performers.wf(),
        ensures
            first_entry_error(performers.0@) matches Some(e) ==> r == Err::<Dataset, DatasetError>(
                DatasetError::Performer(e),
            ),
            first_entry_error(performers.0@) is None ==> match first_where(shows@, bad_shape()) {
                Some(i) => r matches Err(DatasetError::Show(e)) && is_shape_error(shows@[i].1, e),
                None => true,
            },
            first_entry_error(performers.0@) is None && first_where(shows@, bad_shape()) is None ==> ({
                let sorted = stable_sorted(shows@);
                match first_duplicate(sorted) {
                    Some(k) => r matches Err(DatasetError::DuplicateShow { date, a, b }) && date
                        == sorted[k].1.date && a == sorted[k].0 && b == sorted[k + 1].0,
                    None => match first_where(
                        sorted.map_values(|e: (String, Show)| e.1),
                        show_has_unknown(performers.0@),
                    ) {
                        Some(i) => {
                            let show = sorted[i].1;
                            let j = first_where(show.sets@, set_has_unknown(performers.0@)).unwrap();
                            let set = show.sets@[j];
                            r matches Err(DatasetError::UnknownPerformer { date, time, slug })
                                && date == show.date && time@ == clock_text(
                                set.start.hour as nat,
                                set.start.minute as nat,
                            ) && slug == unknown_in_set(set, performers.0@).unwrap()
                        },
                        None => r matches Ok(ds) && ds.performers == performers && ds.shows@
                            == sorted.map_values(|e: (String, Show)| e.1) && ds.wf(),
                    },
                }
            }),
    {
        match performers.validate() {
            Err(e) => {
                return Err(DatasetError::Performer(e));
            },
            Ok(()) => {},
        }
        let ghost bad = bad_shape();
        let mut q: usize = 0;
        while q < shows.len()
            invariant
                q <= shows@.len(),
                bad == bad_shape(),
                first_entry_error(performers.0@) is None,
                forall|a: int| 0 <= a < q ==> !bad(#[trigger] shows@[a]),
            decreases shows@.len() - q,
        {
            match shows[q].1.validate_shape() {
                Err(e) => {
                    proof {
                        lemma_first_where_at(shows@, bad, q as int);
                    }
                    return Err(DatasetError::Show(e));
                },
                Ok(()) => {},
            }
            q = q + 1;
        }
        proof {
            lemma_first_where_none(shows@, bad);
        }
        let sorted = sort_ranked(shows);
        proof {
            crate::sorting::lemma_stable_sorted(shows@);
        }
        let ghost s = sorted@;
        let n = sorted.len();
        let ghost idx = pair_positions(s.len());
        let ghost dup = same_date_at(s);
        let mut k: usize = 0;
        while k + 1 < n
            invariant
                n == s.len(),
                s == sorted@,
                s == stable_sorted(shows@),
                first_entry_error(performers.0@) is None,
                first_where(shows@, bad_shape()) is None,
                k <= n,
                idx == pair_positions(s.len()),
                dup == same_date_at(s),
                n > 0 ==> k < n,
                forall|j: int| 0 <= j < k ==> !dup(#[trigger] idx[j]),
            decreases n - k,
        {
            if sorted[k].1.date.same(&sorted[k + 1].1.date) {
                proof {
                    assert(idx[k as int] == k);
                    lemma_first_where_at(idx, dup, k as int);
                }
                return Err(
                    DatasetError::DuplicateShow {
                        date: sorted[k].1.date,
                        a: sorted[k].0.clone(),
                        b: sorted[k + 1].0.clone(),
                    },
                );
            }
            proof {
                assert(idx[k as int] == k);
            }
            k = k + 1;
        }
        proof {
            lemma_first_where_none(idx, dup);
            // consecutive dates differ, and the order is by date: increasing
            assert forall|i: int, j: int| 0 <= i < j < s.len() implies date_lt(
                #[trigger] s[i].1.date,
                #[trigger] s[j].1.date,
            ) by {
                assert(s[i].rank_le(s[j]));
                crate::date::lemma_date_lt_total(s[i].1.date, s[j].1.date);
                if s[i].1.date == s[j].1.date {
                    // then every entry between has that date too, in particular i + 1
                    assert(s[i].rank_le(s[i + 1]));
                    assert(s[i + 1].rank_le(s[j]) || i + 1 == j);
                    crate::date::lemma_date_lt_total(s[i].1.date, s[i + 1].1.date);
                    crate::date::lemma_date_lt_total(s[i + 1].1.date, s[j].1.date);
                    assert(idx[i] == i);
                    assert(!dup(idx[i]));
                }
            }
        }
        let ghost shows_only = s.map_values(|e: (String, Show)| e.1);
        let ghost pred = show_has_unknown(performers.0@);
        let ghost spred = set_has_unknown(performers.0@);
        let mut i: usize = 0;
        while i < n
            invariant
                n == s.len(),
                s == sorted@,
                s == stable_sorted(shows@),
                first_entry_error(performers.0@) is None,
                first_where(shows@, bad_shape()) is None,
                first_duplicate(s) is None,
                i <= n,
                shows_only == s.map_values(|e: (String, Show)| e.1),
                pred == show_has_unknown(performers.0@),
                spred == set_has_unknown(performers.0@),
                forall|a: int| 0 <= a < i ==> !pred(#[trigger] shows_only[a]),
            decreases n - i,
        {
            let show = &sorted[i].1;
            assert(shows_only[i as int] == *show);
            let mut j: usize = 0;
            while j < show.sets.len()
                invariant
                    j <= show.sets@.len(),
                    show == sorted@[i as int].1,
                    n == s.len(),
                    s == sorted@,
                    s == stable_sorted(shows@),
                    first_entry_error(performers.0@) is None,
                    first_where(shows@, bad_shape()) is None,
                first_entry_error(performers.0@) is None,
                first_where(shows@, bad_shape()) is None,
                    first_duplicate(s) is None,
                    i < n,
                    shows_only == s.map_values(|e: (String, Show)| e.1),
                    shows_only[i as int] == *show,
                    pred == show_has_unknown(performers.0@),
                    forall|a: int| 0 <= a < i ==> !pred(#[trigger] shows_only[a]),
                    spred == set_has_unknown(performers.0@),
                    forall|b: int| 0 <= b < j ==> !spred(#[trigger] show.sets@[b]),
                decreases show.sets@.len() - j,
            {
                let set = &show.sets[j];
                let mut bad: Option<&String> = None;
                if let Some(dj) = &set.dj {
                    if !performers.contains(dj.as_str()) {
                        bad = Some(dj);
                    }
                }
                if bad.is_none() {
                    if let Some(vj) = &set.vj {
                        if !performers.contains(vj.as_str()) {
                            bad = Some(vj);
                        }
                    }
                }
                if let Some(slug) = bad {
                    proof {
                        lemma_first_where_at(show.sets@, spred, j as int);
                        lemma_first_where_at(shows_only, pred, i as int);
                    }
                    return Err(
                        DatasetError::UnknownPerformer {
                            date: show.date,
                            time: set.start.to_text(),
                            slug: slug.clone(),
                        },
                    );
                }
                j = j + 1;
            }
            proof {
                lemma_first_where_none(show.sets@, spred);
            }
            i = i + 1;
        }
        proof {
            lemma_first_where_none(shows_only, pred);
            assert forall|a: int, b: int|
                0 <= a < shows_only.len() && 0 <= b < shows_only[a].sets@.len() implies unknown_in_set(
                #[trigger] shows_only[a].sets@[b],
                performers.0@,
            ) is None by {
                assert(!pred(shows_only[a]));
                lemma_first_where(shows_only[a].sets@, spred);
                assert(!spred(shows_only[a].sets@[b]));
            }
        }
        let mut rest = reverse(sorted);
        let mut out: Vec<Show> = Vec::new();
        while rest.len() > 0
            invariant
                rest@.len() + out@.len() == n,
                n == s.len(),
                forall|a: int| 0 <= a < rest@.len() ==> #[trigger] rest@[a] == s[n - 1 - a],
                out@ == shows_only.subrange(0, out@.len() as int),
                shows_only == s.map_values(|e: (String, Show)| e.1),
            decreases rest@.len(),
        {
            let (_, show) = rest.pop().unwrap();
            out.push(show);
            assert(out@ =~= shows_only.subrange(0, out@.len() as int));
        }
        assert(out@ =~= shows_only);
        proof {
            assert forall|a: int| 0 <= a < out@.len() implies shape_ok(#[trigger] out@[a]) by {
                crate::sorting::lemma_stable_sorted_member(shows@, a);
                let b = choose|b: int| 0 <= b < shows@.len() && shows@[b] == stable_sorted(shows@)[a];
                assert(!bad_shape()(shows@[b]));
            }
        }
        Ok(Dataset { performers, shows: out })
    }
}

/// The text a `DatasetError` displays.
pub open spec fn dataset_error_text(e: DatasetError) -> Seq<char> {
    match e {
        DatasetError::Performer(p) => performer_error_text(p),
        DatasetError::Show(s) => show_error_text(s),
        DatasetError::ListShows { path, message } => "listing shows directory "@ + path@ + ": "@
            + message@,
        DatasetError::UnknownPerformer { date, time, slug } => "show "@ + date_text(date@)
            + " references unknown performer slug "@ + debug_text(slug@) + " (set at "@ + time@
            + ")"@,
        DatasetError::DuplicateShow { date, a, b } => "duplicate show for date "@ + date_text(
            date@,
        ) + " ("@ + a@ + " and "@ + b@ + ")"@,
    }
}

impl DatasetError {
    /// The error's text (its `Display`).
    pub fn message(&self) -> (r: String)
        ensures
            r@ == dataset_error_text(*self),
    {
        match self {
            DatasetError::Performer(p) => p.message(),
            DatasetError::Show(s) => s.message(),
            DatasetError::ListShows { path, message } => {
                let mut r = concat_str("listing shows directory ", path.as_str());
                r.append(": ");
                r.append(message.as_str());
                r
            },
            DatasetError::UnknownPerformer { date, time, slug } => {
                let d = date.to_text();
                let mut r = concat_str("show ", d.as_str());
                r.append(" references unknown performer slug ");
                let q = debug_quoted(slug.as_str());
                r.append(q.as_str());
                r.append(" (set at ");
                r.append(time.as_str());
                r.append(")");
                r
            },
            DatasetError::DuplicateShow { date, a, b } => {
                let d = date.to_text();
                let mut r = concat_str("duplicate show for date ", d.as_str());
                r.append(" (");
                r.append(a.as_str());
                r.append(" and ");
                r.append(b.as_str());
                r.append(")");
                r
            },
        }
    }
}

} // verus!
