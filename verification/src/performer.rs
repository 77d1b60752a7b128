//! Performers (DJs and VJs), keyed by slug and kept in slug order.
use vstd::prelude::*;

use crate::text::{
    chars_of, concat_str, debug_quoted, debug_text, is_blank, is_blank_str, lemma_text_lt_asymmetric,
    lemma_text_lt_irreflexive, lemma_text_lt_total, lemma_text_lt_transitive, str_eq, str_lt,
    text_lt,
};

verus! {

/// A performer (DJ or VJ).
#[derive(Debug, Clone)]
pub struct Performer {
    pub display_name: String,
    pub aliases: Vec<String>,
    pub notes: String,
    pub twitch: String,
    pub cdn: String,
}

pub type Slug = String;

/// A performer's fields as character sequences.
pub struct PerformerView {
    pub display_name: Seq<char>,
    pub aliases: Seq<Seq<char>>,
    pub notes: Seq<char>,
    pub twitch: Seq<char>,
    pub cdn: Seq<char>,
}

/// The characters of each string, in order.
pub open spec fn texts(v: Seq<String>) -> Seq<Seq<char>> {
    v.map_values(|s: String| s@)
}

impl View for Performer {
    type V = PerformerView;

    open spec fn view(&self) -> PerformerView {
        PerformerView {
            display_name: self.display_name@,
            aliases: texts(self.aliases@),
            notes: self.notes@,
            twitch: self.twitch@,
            cdn: self.cdn@,
        }
    }
}

/// Whether one of the strings equals `s`.
pub fn contains_text(v: &Vec<String>, s: &String) -> (r: bool)
    ensures
        r == texts(v@).contains(s@),
{
    let mut i: usize = 0;
    while i < v.len()
        invariant
            i <= v@.len(),
            forall|j: int| 0 <= j < i ==> (#[trigger] v@[j])@ != s@,
        decreases v@.len() - i,
    {
        if v[i] == *s {
            assert(texts(v@)[i as int] == s@);
            return true;
        }
        i = i + 1;
    }
    assert forall|j: int| 0 <= j < texts(v@).len() implies texts(v@)[j] != s@ by {
        assert(texts(v@)[j] == v@[j]@);
    }
    false
}

/// The performers as a map from slug to performer.
pub open spec fn entries_map(s: Seq<(String, Performer)>) -> Map<Seq<char>, PerformerView> {
    Map::new(|k: Seq<char>| has_key(s, k), |k: Seq<char>| s[find_key(s, k)->0].1@)
}

/// All performers as `(slug, performer)` entries. `wf` holds when the slugs
/// are in strictly increasing code-point order, the order a `BTreeMap`
/// keyed by slug iterates in; every operation here keeps it.
#[derive(Debug, Clone)]
pub struct Performers(pub Vec<(Slug, Performer)>);

/// Why a performer file or entry was rejected.
#[derive(Debug)]
pub enum PerformerError {
    Io { path: String, message: String },
    Parse { path: String, message: String },
    InvalidSlug { slug: String },
    EmptyDisplayName { slug: String },
}

/// A slug: non-empty, only `a-z`, `0-9` and `_`.
pub open spec fn valid_slug(s: Seq<char>) -> bool {
    &&& s.len() > 0
    &&& forall|i: int| 0 <= i < s.len() ==> slug_char(#[trigger] s[i])
}

pub open spec fn slug_char(c: char) -> bool {
    ('a' <= c <= 'z') || ('0' <= c <= '9') || c == '_'
}

/// Keys in strictly increasing order (so also distinct).
pub open spec fn keys_sorted<V>(s: Seq<(String, V)>) -> bool {
    forall|i: int, j: int| 0 <= i < j < s.len() ==> text_lt(#[trigger] s[i].0@, #[trigger] s[j].0@)
}

/// Index of the first entry whose key is `k`.
pub open spec fn find_key<V>(s: Seq<(String, V)>, k: Seq<char>) -> Option<int>
    decreases s.len(),
{
    if s.len() == 0 {
        None
    } else if s[0].0@ == k {
        Some(0)
    } else {
        match find_key(s.drop_first(), k) {
            Some(i) => Some(i + 1),
            None => None,
        }
    }
}

pub open spec fn has_key<V>(s: Seq<(String, V)>, k: Seq<char>) -> bool {
    exists|i: int| 0 <= i < s.len() && (#[trigger] s[i]).0@ == k
}

pub proof fn lemma_find_key<V>(s: Seq<(String, V)>, k: Seq<char>)
    ensures
        match find_key(s, k) {
            Some(i) => 0 <= i < s.len() && s[i].0@ == k && forall|j: int|
                0 <= j < i ==> (#[trigger] s[j]).0@ != k,
            None => !has_key(s, k),
        },
        find_key(s, k) is Some <==> has_key(s, k),
    decreases s.len(),
{
    if s.len() > 0 {
        let t = s.drop_first();
        lemma_find_key(t, k);
        if s[0].0@ != k {
            match find_key(t, k) {
                Some(i) => {
                    assert forall|j: int| 0 <= j < i + 1 implies (#[trigger] s[j]).0@ != k by {
                        if j > 0 {
                            assert(s[j] == t[j - 1]);
                        }
                    }
                    assert(s[i + 1] == t[i]);
                },
                None => {
                    assert forall|j: int| 0 <= j < s.len() implies (#[trigger] s[j]).0@ != k by {
                        if j > 0 {
                            assert(s[j] == t[j - 1]);
                        }
                    }
                },
            }
        }
    }
}

/// With sorted keys, the entry with key `k` is the only one.
pub proof fn lemma_sorted_key_unique<V>(s: Seq<(String, V)>, k: Seq<char>, i: int)
    requires
        keys_sorted(s),
        0 <= i < s.len(),
        s[i].0@ == k,
    ensures
        find_key(s, k) == Some(i),
{
    lemma_find_key(s, k);
    let f = find_key(s, k).unwrap();
    if f < i {
        assert(text_lt(s[f].0@, s[i].0@));
        lemma_text_lt_irreflexive(k);
    }
    if f > i {
        assert(text_lt(s[i].0@, s[f].0@));
        lemma_text_lt_irreflexive(k);
    }
}

/// With sorted keys, the entry with key `k` is at `j` exactly when its key is `k`.
pub proof fn lemma_entries_map_at(s: Seq<(String, Performer)>, j: int)
    requires
        keys_sorted(s),
        0 <= j < s.len(),
    ensures
        entries_map(s).contains_key(s[j].0@),
        entries_map(s)[s[j].0@] == s[j].1@,
{
    lemma_sorted_key_unique(s, s[j].0@, j);
}

/// Replacing the performer of an existing entry, key kept, replaces it in
/// the map.
pub proof fn lemma_entries_map_update(s: Seq<(String, Performer)>, i: int, p: Performer)
    requires
        keys_sorted(s),
        0 <= i < s.len(),
    ensures
        keys_sorted(s.update(i, (s[i].0, p))),
        entries_map(s.update(i, (s[i].0, p))) == entries_map(s).insert(s[i].0@, p@),
{
    let t = s.update(i, (s[i].0, p));
    assert forall|a: int, b: int| 0 <= a < b < t.len() implies text_lt(#[trigger] t[a].0@, #[trigger] t[b].0@) by {
        assert(t[a].0@ == s[a].0@);
        assert(t[b].0@ == s[b].0@);
    }
    let k = s[i].0@;
    assert forall|q: Seq<char>| #[trigger] entries_map(t).contains_key(q) <==> entries_map(s).insert(k, p@).contains_key(q) by {
        if has_key(t, q) {
            let j = choose|j: int| 0 <= j < t.len() && (#[trigger] t[j]).0@ == q;
            assert(s[j].0@ == q);
        }
        if has_key(s, q) {
            let j = choose|j: int| 0 <= j < s.len() && (#[trigger] s[j]).0@ == q;
            assert(t[j].0@ == q);
        }
        if q == k {
            assert(t[i].0@ == q);
        }
    }
    assert forall|q: Seq<char>| #[trigger] entries_map(t).contains_key(q) implies entries_map(t)[q] == entries_map(s).insert(k, p@)[q] by {
        let j = choose|j: int| 0 <= j < t.len() && (#[trigger] t[j]).0@ == q;
        lemma_entries_map_at(t, j);
        lemma_entries_map_at(s, j);
        if j != i {
            lemma_text_lt_irreflexive(k);
            if j < i {
                assert(text_lt(s[j].0@, s[i].0@));
            } else {
                assert(text_lt(s[i].0@, s[j].0@));
            }
            assert(q != k);
        }
    }
    assert(entries_map(t) =~= entries_map(s).insert(k, p@));
}

/// Adding an entry under a new key adds it to the map.
pub proof fn lemma_entries_map_insert(s: Seq<(String, Performer)>, pos: int, key: String, p: Performer)
    requires
        keys_sorted(s),
        keys_sorted(s.insert(pos, (key, p))),
        0 <= pos <= s.len(),
        !has_key(s, key@),
    ensures
        entries_map(s.insert(pos, (key, p))) == entries_map(s).insert(key@, p@),
{
    let t = s.insert(pos, (key, p));
    let k = key@;
    assert forall|q: Seq<char>| #[trigger] entries_map(t).contains_key(q) <==> entries_map(s).insert(k, p@).contains_key(q) by {
        if has_key(t, q) {
            let j = choose|j: int| 0 <= j < t.len() && (#[trigger] t[j]).0@ == q;
            if j < pos {
                assert(s[j] == t[j]);
            } else if j > pos {
                assert(s[j - 1] == t[j]);
            }
        }
        if has_key(s, q) {
            let j = choose|j: int| 0 <= j < s.len() && (#[trigger] s[j]).0@ == q;
            if j < pos {
                assert(t[j] == s[j]);
            } else {
                assert(t[j + 1] == s[j]);
            }
        }
        if q == k {
            assert(t[pos].0@ == q);
        }
    }
    assert forall|q: Seq<char>| #[trigger] entries_map(t).contains_key(q) implies entries_map(t)[q] == entries_map(s).insert(k, p@)[q] by {
        let j = choose|j: int| 0 <= j < t.len() && (#[trigger] t[j]).0@ == q;
        lemma_entries_map_at(t, j);
        if j < pos {
            assert(s[j] == t[j]);
            assert(has_key(s, s[j].0@));
            lemma_entries_map_at(s, j);
        } else if j > pos {
            assert(s[j - 1] == t[j]);
            assert(has_key(s, s[j - 1].0@));
            lemma_entries_map_at(s, j - 1);
        } else {
            assert(t[j] == (key, p));
        }
    }
    assert(entries_map(t) =~= entries_map(s).insert(k, p@));
}

/// Removing the entry with key `k` removes `k` from the map.
pub proof fn lemma_entries_map_remove(s: Seq<(String, Performer)>, i: int)
    requires
        keys_sorted(s),
        0 <= i < s.len(),
    ensures
        keys_sorted(s.remove(i)),
        entries_map(s.remove(i)) == entries_map(s).remove(s[i].0@),
{
    let t = s.remove(i);
    let k = s[i].0@;
    assert forall|a: int, b: int| 0 <= a < b < t.len() implies text_lt(#[trigger] t[a].0@, #[trigger] t[b].0@) by {
        let sa = if a < i { a } else { a + 1 };
        let sb = if b < i { b } else { b + 1 };
        assert(t[a] == s[sa] && t[b] == s[sb]);
    }
    assert forall|q: Seq<char>| #[trigger] entries_map(t).contains_key(q) <==> entries_map(s).remove(k).contains_key(q) by {
        if has_key(t, q) {
            let j = choose|j: int| 0 <= j < t.len() && (#[trigger] t[j]).0@ == q;
            let sj = if j < i { j } else { j + 1 };
            assert(t[j] == s[sj]);
            lemma_text_lt_irreflexive(k);
            if sj < i {
                assert(text_lt(s[sj].0@, s[i].0@));
            } else {
                assert(text_lt(s[i].0@, s[sj].0@));
            }
        }
        if has_key(s, q) && q != k {
            let j = choose|j: int| 0 <= j < s.len() && (#[trigger] s[j]).0@ == q;
            if j < i {
                assert(t[j] == s[j]);
            } else {
                assert(j != i);
                assert(t[j - 1] == s[j]);
            }
        }
    }
    assert forall|q: Seq<char>| #[trigger] entries_map(t).contains_key(q) implies entries_map(t)[q] == entries_map(s).remove(k)[q] by {
        let j = choose|j: int| 0 <= j < t.len() && (#[trigger] t[j]).0@ == q;
        let sj = if j < i { j } else { j + 1 };
        assert(t[j] == s[sj]);
        lemma_entries_map_at(t, j);
        lemma_entries_map_at(s, sj);
    }
    assert(entries_map(t) =~= entries_map(s).remove(k));
}

/// Finding a key after an entry is added at the end.
pub proof fn lemma_find_key_push<V>(s: Seq<(String, V)>, x: (String, V), k: Seq<char>)
    ensures
        find_key(s.push(x), k) == match find_key(s, k) {
            Some(i) => Some(i),
            None => if x.0@ == k {
                Some(s.len() as int)
            } else {
                None
            },
        },
{
    let t = s.push(x);
    lemma_find_key(s, k);
    lemma_find_key(t, k);
    match find_key(s, k) {
        Some(i) => {
            assert(t[i] == s[i]);
            if let Some(f) = find_key(t, k) {
                if f < i {
                    assert(t[f] == s[f]);
                }
                if f > i {
                    assert(t[i].0@ != k);
                }
            }
        },
        None => {
            if let Some(f) = find_key(t, k) {
                if f < s.len() {
                    assert(t[f] == s[f]);
                }
            }
            if x.0@ == k {
                assert(t[s.len() as int] == x);
                assert forall|j: int| 0 <= j < s.len() as int implies (#[trigger] t[j]).0@ != k by {
                    assert(t[j] == s[j]);
                }
            }
        },
    }
}

/// Finding a key after an entry is replaced by one with the same key.
pub proof fn lemma_find_key_update<V>(s: Seq<(String, V)>, p: int, x: (String, V), k: Seq<char>)
    requires
        0 <= p < s.len(),
        x.0@ == s[p].0@,
    ensures
        find_key(s.update(p, x), k) == find_key(s, k),
{
    let t = s.update(p, x);
    lemma_find_key(s, k);
    lemma_find_key(t, k);
    assert forall|j: int| 0 <= j < s.len() implies (#[trigger] t[j]).0@ == s[j].0@ by {}
    match (find_key(s, k), find_key(t, k)) {
        (Some(a), Some(b)) => {
            if a < b {
                assert(t[a].0@ == s[a].0@);
            }
            if b < a {
                assert(t[b].0@ == s[b].0@);
            }
        },
        (Some(a), None) => {
            assert(t[a].0@ == s[a].0@);
        },
        (None, Some(b)) => {
            assert(t[b].0@ == s[b].0@);
        },
        (None, None) => {},
    }
}

/// Position of the first entry with key `k`.
pub fn position_of<V>(entries: &Vec<(String, V)>, k: &str) -> (r: Option<usize>)
    ensures
        match find_key(entries@, k@) {
            Some(i) => r == Some(i as usize),
            None => r is None,
        },
        r matches Some(i) ==> i < entries@.len() && entries@[i as int].0@ == k@ && find_key(
            entries@,
            k@,
        ) == Some(i as int),
{
    proof {
        lemma_find_key(entries@, k@);
    }
    let mut i: usize = 0;
    while i < entries.len()
        invariant
            i <= entries@.len(),
            forall|j: int| 0 <= j < i ==> (#[trigger] entries@[j]).0@ != k@,
            match find_key(entries@, k@) {
                Some(f) => 0 <= f < entries@.len() && entries@[f].0@ == k@ && forall|j: int|
                    0 <= j < f ==> (#[trigger] entries@[j]).0@ != k@,
                None => !has_key(entries@, k@),
            },
        decreases entries@.len() - i,
    {
        if str_eq(entries[i].0.as_str(), k) {
            proof {
                let f = find_key(entries@, k@);
                if let Some(fi) = f {
                    if fi < i as int {
                        assert(entries@[fi].0@ != k@);
                    }
                    if fi > i as int {
                        assert(entries@[i as int].0@ != k@);
                    }
                }
            }
            return Some(i);
        }
        i = i + 1;
    }
    proof {
        if let Some(fi) = find_key(entries@, k@) {
            assert(entries@[fi].0@ != k@);
        }
    }
    None
}

/// Index at which key `k` belongs in sorted entries: the number of keys
/// that come before it.
fn insertion_point<V>(entries: &Vec<(String, V)>, k: &str) -> (r: usize)
    requires
        keys_sorted(entries@),
    ensures
        r <= entries@.len(),
        forall|j: int| 0 <= j < r ==> text_lt((#[trigger] entries@[j]).0@, k@),
        forall|j: int| r <= j < entries@.len() ==> !text_lt((#[trigger] entries@[j]).0@, k@),
{
    let mut i: usize = 0;
    while i < entries.len() && str_lt(entries[i].0.as_str(), k)
        invariant
            i <= entries@.len(),
            keys_sorted(entries@),
            forall|j: int| 0 <= j < i ==> text_lt((#[trigger] entries@[j]).0@, k@),
        decreases entries@.len() - i,
    {
        i = i + 1;
    }
    proof {
        if i < entries.len() {
            assert forall|j: int| i <= j < entries@.len() implies !text_lt(
                (#[trigger] entries@[j]).0@,
                k@,
            ) by {
                if j > i as int {
                    assert(text_lt(entries@[i as int].0@, entries@[j].0@));
                    if text_lt(entries@[j].0@, k@) {
                        lemma_text_lt_transitive(entries@[i as int].0@, entries@[j].0@, k@);
                    }
                }
            }
        }
    }
    i
}

/// `BTreeMap::insert` on sorted entries: replaces the value of an existing
/// key (keeping the stored key), or adds the entry at its place in order.
pub fn insert_sorted<V>(entries: &mut Vec<(String, V)>, key: String, value: V) -> (r: Option<V>)
    requires
        keys_sorted(old(entries)@),
    ensures
        keys_sorted(final(entries)@),
        match find_key(old(entries)@, key@) {
            Some(i) => {
                &&& final(entries)@ == old(entries)@.update(i, (old(entries)@[i].0, value))
                &&& r == Some(old(entries)@[i].1)
            },
            None => {
                &&& r is None
                &&& exists|p: int|
                    0 <= p <= old(entries)@.len() && final(entries)@ == old(entries)@.insert(
                        p,
                        (key, value),
                    )
            },
        },
{
    proof {
        lemma_find_key(entries@, key@);
    }
    let p = insertion_point(entries, key.as_str());
    if p < entries.len() && str_eq(entries[p].0.as_str(), key.as_str()) {
        proof {
            lemma_sorted_key_unique(entries@, key@, p as int);
        }
        let ghost before = entries@;
        let (k, old_value) = entries.remove(p);
        entries.insert(p, (k, value));
        proof {
            assert(entries@ =~= before.update(p as int, (before[p as int].0, value)));
            assert forall|i: int, j: int| 0 <= i < j < entries@.len() implies text_lt(
                #[trigger] entries@[i].0@,
                #[trigger] entries@[j].0@,
            ) by {
                assert(entries@[i].0@ == before[i].0@);
                assert(entries@[j].0@ == before[j].0@);
            }
        }
        Some(old_value)
    } else {
        let ghost before = entries@;
        proof {
            if p < before.len() {
                lemma_text_lt_total(before[p as int].0@, key@);
            }
            if has_key(before, key@) {
                let f = choose|f: int| 0 <= f < before.len() && (#[trigger] before[f]).0@ == key@;
                if f < p {
                    lemma_text_lt_irreflexive(key@);
                } else if f > p {
                    assert(text_lt(before[p as int].0@, before[f].0@));
                    lemma_text_lt_asymmetric(before[p as int].0@, key@);
                }
            }
        }
        entries.insert(p, (key, value));
        proof {
            let a = entries@;
            assert forall|i: int, j: int| 0 <= i < j < a.len() implies text_lt(
                #[trigger] a[i].0@,
                #[trigger] a[j].0@,
            ) by {
                if i < p && j == p {
                } else if i == p && j > p {
                    assert(a[j] == before[j - 1]);
                    lemma_text_lt_total(before[p as int].0@, a[p as int].0@);
                    if j - 1 > p {
                        assert(text_lt(before[p as int].0@, before[j - 1].0@));
                        if text_lt(a[p as int].0@, before[p as int].0@) {
                            lemma_text_lt_transitive(a[p as int].0@, before[p as int].0@, before[j - 1].0@);
                        }
                    }
                } else if i < p && j > p {
                    assert(a[j] == before[j - 1]);
                    assert(a[i] == before[i]);
                } else if j < p {
                    assert(a[j] == before[j] && a[i] == before[i]);
                } else {
                    assert(a[j] == before[j - 1] && a[i] == before[i - 1]);
                }
            }
        }
        None
    }
}

/// `BTreeMap::remove` on sorted entries.
pub fn remove_key<V>(entries: &mut Vec<(String, V)>, key: &str) -> (r: Option<V>)
    requires
        keys_sorted(old(entries)@),
    ensures
        keys_sorted(final(entries)@),
        match find_key(old(entries)@, key@) {
            Some(i) => final(entries)@ == old(entries)@.remove(i) && r == Some(old(entries)@[i].1),
            None => final(entries)@ == old(entries)@ && r is None,
        },
{
    proof {
        lemma_find_key(entries@, key@);
    }
    match position_of(entries, key) {
        Some(i) => {
            let ghost before = entries@;
            let (_, v) = entries.remove(i);
            proof {
                assert(entries@ =~= before.remove(i as int));
                assert forall|a: int, b: int| 0 <= a < b < entries@.len() implies text_lt(
                    #[trigger] entries@[a].0@,
                    #[trigger] entries@[b].0@,
                ) by {
                    let a2 = if a < i {
                        a
                    } else {
                        a + 1
                    };
                    let b2 = if b < i {
                        b
                    } else {
                        b + 1
                    };
                    assert(entries@[a] == before[a2]);
                    assert(entries@[b] == before[b2]);
                }
            }
            Some(v)
        },
        None => None,
    }
}

/// `is_valid_slug`.
pub fn is_valid_slug(s: &str) -> (r: bool)
    ensures
        r == valid_slug(s@),
{
    let v = chars_of(s);
    if v.len() == 0 {
        return false;
    }
    let mut i: usize = 0;
    while i < v.len()
        invariant
            i <= v@.len(),
            v@ == s@,
            forall|j: int| 0 <= j < i ==> slug_char(#[trigger] v@[j]),
        decreases v@.len() - i,
    {
        let c = v[i];
        if !(('a' <= c && c <= 'z') || ('0' <= c && c <= '9') || c == '_') {
            assert(!slug_char(v@[i as int]));
            return false;
        }
        i = i + 1;
    }
    true
}

/// The error `validate` reports for one entry, if any.
pub open spec fn entry_error(slug: String, p: Performer) -> Option<PerformerError> {
    if !valid_slug(slug@) {
        Some(PerformerError::InvalidSlug { slug })
    } else if is_blank(p.display_name@) {
        Some(PerformerError::EmptyDisplayName { slug })
    } else {
        None
    }
}

/// The first entry error in order, if any.
pub open spec fn first_entry_error(s: Seq<(String, Performer)>) -> Option<PerformerError>
    decreases s.len(),
{
    if s.len() == 0 {
        None
    } else {
        match entry_error(s[0].0, s[0].1) {
            Some(e) => Some(e),
            None => first_entry_error(s.drop_first()),
        }
    }
}

/// `validate` finds nothing exactly when no entry is invalid.
pub proof fn lemma_first_entry_error_none(s: Seq<(String, Performer)>)
    ensures
        first_entry_error(s) is None <==> forall|i: int| 0 <= i < s.len() ==> entry_error(#[trigger] s[i].0, s[i].1) is None,
    decreases s.len(),
{
    if s.len() > 0 {
        let t = s.drop_first();
        lemma_first_entry_error_none(t);
        assert forall|i: int| 0 <= i < t.len() implies #[trigger] t[i] == s[i + 1] by {}
        if first_entry_error(s) is None {
            assert forall|i: int| 0 <= i < s.len() implies entry_error(#[trigger] s[i].0, s[i].1) is None by {
                if i > 0 {
                    assert(s[i] == t[i - 1]);
                }
            }
        }
    }
}

impl Performers {
    pub open spec fn wf(&self) -> bool {
        keys_sorted(self.0@)
    }

    /// Whether the slugs are in strictly increasing order, as in a table
    /// keyed by slug (`wf`).
    pub fn in_slug_order(&self) -> (r: bool)
        ensures
            r == self.wf(),
    {
        let n = self.0.len();
        let mut i: usize = 1;
        while i < n
            invariant
                n == self.0@.len(),
                1 <= i,
                forall|a: int, b: int| 0 <= a < b < i && b < n ==> text_lt(#[trigger] self.0@[a].0@, #[trigger] self.0@[b].0@),
            decreases n - i,
        {
            if !crate::text::str_lt(self.0[i - 1].0.as_str(), self.0[i].0.as_str()) {
                return false;
            }
            proof {
                assert forall|a: int, b: int| 0 <= a < b < i + 1 && b < n implies text_lt(
                    #[trigger] self.0@[a].0@,
                    #[trigger] self.0@[b].0@,
                ) by {
                    if b == i && a < i - 1 {
                        crate::text::lemma_text_lt_transitive(self.0@[a].0@, self.0@[i - 1].0@, self.0@[b].0@);
                    }
                }
            }
            i = i + 1;
        }
        true
    }

    /// No performers.
    pub fn new() -> (r: Performers)
        ensures
            r.0@ == Seq::<(String, Performer)>::empty(),
            r.wf(),
    {
        Performers(Vec::new())
    }

    /// Every slug is valid and every display name has a non-whitespace
    /// character; otherwise the first offending entry in slug order.
    pub fn validate(&self) -> (r: Result<(), PerformerError>)
        ensures
            match first_entry_error(self.0@) {
                Some(e) => r == Err::<(), PerformerError>(e),
                None => r is Ok,
            },
    {
        let mut i: usize = 0;
        assert(self.0@.skip(0) =~= self.0@);
        while i < self.0.len()
            invariant
                i <= self.0@.len(),
                first_entry_error(self.0@) == first_entry_error(self.0@.skip(i as int)),
            decreases self.0@.len() - i,
        {
            let ghost rest = self.0@.skip(i as int);
            assert(rest.drop_first() =~= self.0@.skip(i + 1));
            assert(rest[0] == self.0@[i as int]);
            let slug = &self.0[i].0;
            let p = &self.0[i].1;
            if !is_valid_slug(slug.as_str()) {
                return Err(PerformerError::InvalidSlug { slug: slug.clone() });
            }
            if is_blank_str(p.display_name.as_str()) {
                return Err(PerformerError::EmptyDisplayName { slug: slug.clone() });
            }
            i = i + 1;
        }
        assert(self.0@.skip(i as int).len() == 0);
        Ok(())
    }

    /// Whether a performer has this slug.
    pub fn contains(&self, slug: &str) -> (r: bool)
        ensures
            r == has_key(self.0@, slug@),
    {
        proof {
            lemma_find_key(self.0@, slug@);
        }
        position_of(&self.0, slug).is_some()
    }

    /// The performer with this slug (the first such entry).
    pub fn get(&self, slug: &str) -> (r: Option<&Performer>)
        ensures
            match find_key(self.0@, slug@) {
                Some(i) => r == Some(&self.0@[i].1),
                None => r is None,
            },
    {
        proof {
            lemma_find_key(self.0@, slug@);
        }
        match position_of(&self.0, slug) {
            Some(i) => Some(&self.0[i].1),
            None => None,
        }
    }

    /// `BTreeMap::insert`.
    pub fn insert(&mut self, slug: String, performer: Performer) -> (r: Option<Performer>)
        requires
            old(self).wf(),
        ensures
            final(self).wf(),
            match find_key(old(self).0@, slug@) {
                Some(i) => {
                    &&& final(self).0@ == old(self).0@.update(i, (old(self).0@[i].0, performer))
                    &&& r == Some(old(self).0@[i].1)
                },
                None => {
                    &&& r is None
                    &&& exists|p: int|
                        0 <= p <= old(self).0@.len() && final(self).0@ == old(self).0@.insert(
                            p,
                            (slug, performer),
                        )
                },
            },
            entries_map(final(self).0@) == entries_map(old(self).0@).insert(slug@, performer@),
    {
        proof {
            lemma_find_key(self.0@, slug@);
        }
        let ghost before = self.0@;
        let ghost entry = (slug, performer);
        let r = insert_sorted(&mut self.0, slug, performer);
        proof {
            match find_key(before, entry.0@) {
                Some(i) => {
                    lemma_entries_map_update(before, i, entry.1);
                },
                None => {
                    let pos = choose|pos: int| 0 <= pos <= before.len() && self.0@ == before.insert(pos, entry);
                    lemma_entries_map_insert(before, pos, entry.0, entry.1);
                },
            }
        }
        r
    }

    /// `BTreeMap::remove`.
    pub fn remove(&mut self, slug: &str) -> (r: Option<Performer>)
        requires
            old(self).wf(),
        ensures
            final(self).wf(),
            match find_key(old(self).0@, slug@) {
                Some(i) => final(self).0@ == old(self).0@.remove(i) && r == Some(
                    old(self).0@[i].1,
                ),
                None => final(self).0@ == old(self).0@ && r is None,
            },
            entries_map(final(self).0@) == entries_map(old(self).0@).remove(slug@),
    {
        proof {
            lemma_find_key(self.0@, slug@);
        }
        let ghost before = self.0@;
        let r = remove_key(&mut self.0, slug);
        proof {
            match find_key(before, slug@) {
                Some(i) => {
                    lemma_entries_map_remove(before, i);
                },
                None => {
                    assert(entries_map(before).remove(slug@) =~= entries_map(before));
                },
            }
        }
        r
    }

    /// Number of performers.
    pub fn len(&self) -> (r: usize)
        ensures
            r == self.0@.len(),
    {
        self.0.len()
    }
}

/// The text a `PerformerError` displays.
pub open spec fn performer_error_text(e: PerformerError) -> Seq<char> {
    match e {
        PerformerError::Io { path, message } => "reading "@ + path@ + ": "@ + message@,
        PerformerError::Parse { path, message } => "parsing "@ + path@ + ": "@ + message@,
        PerformerError::InvalidSlug { slug } => "performer slug "@ + debug_text(slug@)
            + " is empty or contains invalid characters (use a-z, 0-9, underscore)"@,
        PerformerError::EmptyDisplayName { slug } => "performer "@ + debug_text(slug@)
            + " has empty display_name"@,
    }
}

impl PerformerError {
    /// The error's text (its `Display`).
    pub fn message(&self) -> (r: String)
        ensures
            r@ == performer_error_text(*self),
    {
        match self {
            PerformerError::Io { path, message } => {
                let mut r = concat_str("reading ", path.as_str());
                r.append(": ");
                r.append(message.as_str());
                r
            },
            PerformerError::Parse { path, message } => {
                let mut r = concat_str("parsing ", path.as_str());
                r.append(": ");
                r.append(message.as_str());
                r
            },
            PerformerError::InvalidSlug { slug } => {
                let q = debug_quoted(slug.as_str());
                let mut r = concat_str("performer slug ", q.as_str());
                r.append(" is empty or contains invalid characters (use a-z, 0-9, underscore)");
                r
            },
            PerformerError::EmptyDisplayName { slug } => {
                let q = debug_quoted(slug.as_str());
                let mut r = concat_str("performer ", q.as_str());
                r.append(" has empty display_name");
                r
            },
        }
    }
}

} // verus!
