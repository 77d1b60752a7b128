//! Stable sorting by a total preorder.
use vstd::prelude::*;

verus! {

/// A type with a total preorder (`rank_le`), which is what `sort_by_key`
/// sorts by: its key order.
pub trait Ranked: Sized {
    spec fn rank_le(self, other: Self) -> bool;

    proof fn lemma_rank_total(a: Self, b: Self)
        ensures
            a.rank_le(b) || b.rank_le(a),
    ;

    proof fn lemma_rank_transitive(a: Self, b: Self, c: Self)
        requires
            a.rank_le(b),
            b.rank_le(c),
        ensures
            a.rank_le(c),
    ;

    fn rank_le_exec(&self, other: &Self) -> (r: bool)
        ensures
            r == self.rank_le(*other),
    ;
}

/// `x` placed into `s` after every element that ranks at or below it,
/// scanning from the back (so it follows elements of equal rank).
pub open spec fn insert_ranked<T: Ranked>(s: Seq<T>, x: T) -> Seq<T>
    decreases s.len(),
{
    if s.len() == 0 {
        seq![x]
    } else if s.last().rank_le(x) {
        s.push(x)
    } else {
        insert_ranked(s.drop_last(), x).push(s.last())
    }
}

/// The stable sort of `v` by rank: what `sort_by_key` (a stable sort)
/// leaves, defined by inserting the elements one after another.
pub open spec fn stable_sorted<T: Ranked>(v: Seq<T>) -> Seq<T>
    decreases v.len(),
{
    if v.len() == 0 {
        Seq::empty()
    } else {
        insert_ranked(stable_sorted(v.drop_last()), v.last())
    }
}

pub open spec fn is_rank_sorted<T: Ranked>(s: Seq<T>) -> bool {
    forall|i: int, j: int| 0 <= i < j < s.len() ==> #[trigger] s[i].rank_le(s[j])
}

proof fn lemma_insert_at<T: Ranked>(s: Seq<T>, x: T, p: int)
    requires
        0 <= p <= s.len(),
        p == 0 || s[p - 1].rank_le(x),
        forall|q: int| p <= q < s.len() ==> !(#[trigger] s[q]).rank_le(x),
    ensures
        insert_ranked(s, x) == s.insert(p, x),
    decreases s.len(),
{
    if s.len() == 0 {
        assert(s.insert(p, x) =~= seq![x]);
    } else if p == s.len() {
        assert(s.insert(p, x) =~= s.push(x));
    } else {
        let t = s.drop_last();
        assert(!s.last().rank_le(x));
        assert forall|q: int| p <= q < t.len() implies !(#[trigger] t[q]).rank_le(x) by {
            assert(t[q] == s[q]);
        }
        if p > 0 {
            assert(t[p - 1] == s[p - 1]);
        }
        lemma_insert_at(t, x, p);
        assert(t.insert(p, x).push(s.last()) =~= s.insert(p, x));
    }
}

/// The insertion that `stable_sorted` performs.
fn insert_into<T: Ranked>(out: &mut Vec<T>, x: T)
    ensures
        final(out)@ == insert_ranked(old(out)@, x),
{
    let mut p = out.len();
    while p > 0 && !out[p - 1].rank_le_exec(&x)
        invariant
            p <= out@.len(),
            forall|q: int| p <= q < out@.len() ==> !(#[trigger] out@[q]).rank_le(x),
        decreases p,
    {
        p = p - 1;
    }
    proof {
        lemma_insert_at(out@, x, p as int);
    }
    out.insert(p, x);
}

/// Stable sort by rank (`sort_by_key`).
pub fn sort_ranked<T: Ranked>(v: Vec<T>) -> (r: Vec<T>)
    ensures
        r@ == stable_sorted(v@),
{
    let mut rest = v;
    let ghost orig = rest@;
    let mut out: Vec<T> = Vec::new();
    let mut i: usize = 0;
    let n = rest.len();
    // take elements from the front, in order
    rest = reverse(rest);
    while i < n
        invariant
            i <= n,
            n == orig.len(),
            rest@.len() == n - i,
            forall|k: int| 0 <= k < n - i ==> #[trigger] rest@[k] == orig[n - 1 - k],
            out@ == stable_sorted(orig.subrange(0, i as int)),
        decreases n - i,
    {
        let x = rest.pop().unwrap();
        assert(x == orig[i as int]);
        let ghost pre = orig.subrange(0, i + 1);
        assert(pre.drop_last() =~= orig.subrange(0, i as int));
        insert_into(&mut out, x);
        i = i + 1;
    }
    assert(orig.subrange(0, n as int) =~= orig);
    out
}

/// The elements of `v` in reverse order.
pub fn reverse<T>(v: Vec<T>) -> (r: Vec<T>)
    ensures
        r@.len() == v@.len(),
        forall|k: int| 0 <= k < v@.len() ==> #[trigger] r@[k] == v@[v@.len() - 1 - k],
{
    let mut v = v;
    let ghost orig = v@;
    let mut r: Vec<T> = Vec::new();
    while v.len() > 0
        invariant
            v@.len() + r@.len() == orig.len(),
            forall|k: int| 0 <= k < v@.len() ==> #[trigger] v@[k] == orig[k],
            forall|k: int| 0 <= k < r@.len() ==> #[trigger] r@[k] == orig[orig.len() - 1 - k],
        decreases v@.len(),
    {
        let x = v.pop().unwrap();
        r.push(x);
    }
    r
}

// ---------------------------------------------------------------------
// laws of stable_sorted
// ---------------------------------------------------------------------

proof fn lemma_insert_sorted<T: Ranked>(s: Seq<T>, x: T)
    requires
        is_rank_sorted(s),
    ensures
        is_rank_sorted(insert_ranked(s, x)),
        insert_ranked(s, x).to_multiset() == s.to_multiset().insert(x),
    decreases s.len(),
{
    broadcast use vstd::seq_lib::group_to_multiset_ensures;

    if s.len() == 0 {
        assert(seq![x] =~= Seq::<T>::empty().push(x));
    } else if s.last().rank_le(x) {
        let r = s.push(x);
        assert forall|i: int, j: int| 0 <= i < j < r.len() implies #[trigger] r[i].rank_le(r[j]) by {
            if j == s.len() {
                if i < s.len() - 1 {
                    T::lemma_rank_transitive(s[i], s.last(), x);
                }
            }
        }
    } else {
        let t = s.drop_last();
        assert forall|i: int, j: int| 0 <= i < j < t.len() implies #[trigger] t[i].rank_le(t[j]) by {
            assert(s[i].rank_le(s[j]));
        }
        lemma_insert_sorted(t, x);
        let u = insert_ranked(t, x);
        let r = u.push(s.last());
        T::lemma_rank_total(s.last(), x);
        // every element of u ranks at or below s.last()
        assert forall|k: int| 0 <= k < u.len() implies (#[trigger] u[k]).rank_le(s.last()) by {
            lemma_insert_members(t, x, k);
            if u[k] != x {
                let m = choose|m: int| 0 <= m < t.len() && t[m] == u[k];
                assert(s[m] == t[m]);
            }
        }
        assert forall|i: int, j: int| 0 <= i < j < r.len() implies #[trigger] r[i].rank_le(r[j]) by {
            if j == u.len() {
                assert(r[i] == u[i]);
            } else {
                assert(r[i] == u[i] && r[j] == u[j]);
            }
        }
        assert(s =~= t.push(s.last()));
    }
}

proof fn lemma_insert_members<T: Ranked>(s: Seq<T>, x: T, k: int)
    requires
        0 <= k < insert_ranked(s, x).len(),
    ensures
        insert_ranked(s, x).len() == s.len() + 1,
        insert_ranked(s, x)[k] == x || exists|m: int|
            0 <= m < s.len() && s[m] == #[trigger] insert_ranked(s, x)[k],
    decreases s.len(),
{
    if s.len() == 0 {
    } else if s.last().rank_le(x) {
        if k < s.len() {
            assert(s[k] == insert_ranked(s, x)[k]);
        }
    } else {
        let t = s.drop_last();
        let u = insert_ranked(t, x);
        lemma_insert_len(t, x);
        if k < u.len() {
            lemma_insert_members(t, x, k);
            if u[k] != x {
                let m = choose|m: int| 0 <= m < t.len() && t[m] == u[k];
                assert(s[m] == t[m]);
            }
        } else {
            assert(s[s.len() - 1] == insert_ranked(s, x)[k]);
        }
    }
}

proof fn lemma_insert_len<T: Ranked>(s: Seq<T>, x: T)
    ensures
        insert_ranked(s, x).len() == s.len() + 1,
    decreases s.len(),
{
    if s.len() > 0 && !s.last().rank_le(x) {
        lemma_insert_len(s.drop_last(), x);
    }
}

/// A stable sort is sorted by rank and holds the same elements as its input.
pub proof fn lemma_stable_sorted<T: Ranked>(v: Seq<T>)
    ensures
        is_rank_sorted(stable_sorted(v)),
        stable_sorted(v).to_multiset() == v.to_multiset(),
        stable_sorted(v).len() == v.len(),
    decreases v.len(),
{
    broadcast use vstd::seq_lib::group_to_multiset_ensures;

    if v.len() > 0 {
        lemma_stable_sorted(v.drop_last());
        lemma_insert_sorted(stable_sorted(v.drop_last()), v.last());
        lemma_insert_len(stable_sorted(v.drop_last()), v.last());
        assert(v =~= v.drop_last().push(v.last()));
    }
}

/// Every element of a stable sort is an element of its input.
pub proof fn lemma_stable_sorted_member<T: Ranked>(v: Seq<T>, i: int)
    requires
        0 <= i < stable_sorted(v).len(),
    ensures
        exists|j: int| 0 <= j < v.len() && v[j] == stable_sorted(v)[i],
{
    broadcast use vstd::seq_lib::to_multiset_contains;

    lemma_stable_sorted(v);
    let x = stable_sorted(v)[i];
    assert(stable_sorted(v).contains(x));
    assert(stable_sorted(v).to_multiset().count(x) > 0);
    assert(v.to_multiset().count(x) > 0);
    assert(v.contains(x));
}

/// Every element of the input is an element of its stable sort.
pub proof fn lemma_stable_sorted_has<T: Ranked>(v: Seq<T>, i: int)
    requires
        0 <= i < v.len(),
    ensures
        exists|j: int| 0 <= j < stable_sorted(v).len() && stable_sorted(v)[j] == v[i],
{
    broadcast use vstd::seq_lib::to_multiset_contains;

    lemma_stable_sorted(v);
    let x = v[i];
    assert(v.contains(x));
    assert(v.to_multiset().count(x) > 0);
    assert(stable_sorted(v).to_multiset().count(x) > 0);
    assert(stable_sorted(v).contains(x));
}

} // verus!
