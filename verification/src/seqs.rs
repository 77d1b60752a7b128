//! "First element such that" on sequences.
use vstd::prelude::*;

verus! {

/// `0, 1, .., n - 1`.
pub open spec fn indices(n: nat) -> Seq<int> {
    Seq::new(n, |k: int| k)
}

/// Index of the first element of `s` that satisfies `p`.
pub open spec fn first_where<T>(s: Seq<T>, p: spec_fn(T) -> bool) -> Option<int>
    decreases s.len(),
{
    if s.len() == 0 {
        None
    } else if p(s[0]) {
        Some(0)
    } else {
        match first_where(s.drop_first(), p) {
            Some(i) => Some(i + 1),
            None => None,
        }
    }
}

pub proof fn lemma_first_where<T>(s: Seq<T>, p: spec_fn(T) -> bool)
    ensures
        match first_where(s, p) {
            Some(i) => 0 <= i < s.len() && p(s[i]) && forall|j: int| 0 <= j < i ==> !p(#[trigger] s[j]),
            None => forall|j: int| 0 <= j < s.len() ==> !p(#[trigger] s[j]),
        },
    decreases s.len(),
{
    if s.len() > 0 {
        let t = s.drop_first();
        lemma_first_where(t, p);
        if !p(s[0]) {
            assert forall|j: int| 0 < j < s.len() implies #[trigger] s[j] == t[j - 1] by {}
        }
    }
}

/// The first satisfying element is at `i`.
pub proof fn lemma_first_where_at<T>(s: Seq<T>, p: spec_fn(T) -> bool, i: int)
    requires
        0 <= i < s.len(),
        p(s[i]),
        forall|j: int| 0 <= j < i ==> !p(#[trigger] s[j]),
    ensures
        first_where(s, p) == Some(i),
{
    lemma_first_where(s, p);
    match first_where(s, p) {
        Some(f) => {
            if f < i {
                assert(!p(s[f]));
            }
            if f > i {
                assert(!p(s[i]));
            }
        },
        None => {
            assert(!p(s[i]));
        },
    }
}

/// No element satisfies `p`.
pub proof fn lemma_first_where_none<T>(s: Seq<T>, p: spec_fn(T) -> bool)
    requires
        forall|j: int| 0 <= j < s.len() ==> !p(#[trigger] s[j]),
    ensures
        first_where(s, p) is None,
{
    lemma_first_where(s, p);
    if let Some(f) = first_where(s, p) {
        assert(!p(s[f]));
    }
}

} // verus!
