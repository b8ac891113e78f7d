//! Small tables keyed by text: lists of key/value pairs in which a key is
//! looked up from the end, and a put replaces the entry found or appends.
use vstd::prelude::*;
use crate::text::str_eq;

verus! {

/// The position of the last entry with key `k`; -1 when there is none.
pub open spec fn assoc_find<V>(l: Seq<(Seq<char>, V)>, k: Seq<char>) -> int
    decreases l.len(),
{
    if l.len() == 0 {
        -1
    } else if l.last().0 == k {
        l.len() - 1
    } else {
        assoc_find(l.drop_last(), k)
    }
}

/// The table with `k` mapped to `v`: an existing entry is replaced, else
/// one is added at the end.
pub open spec fn assoc_put<V>(l: Seq<(Seq<char>, V)>, k: Seq<char>, v: V) -> Seq<(Seq<char>, V)> {
    let i = assoc_find(l, k);
    if i >= 0 {
        l.update(i, (k, v))
    } else {
        l.push((k, v))
    }
}

/// `assoc_find` is the last position with the key.
pub proof fn lemma_assoc_find_last<W>(l: Seq<(Seq<char>, W)>, k: Seq<char>, i: int)
    requires
        -1 <= i < l.len(),
        i >= 0 ==> l[i].0 == k,
        forall|j: int| i < j < l.len() ==> (#[trigger] l[j]).0 != k,
    ensures
        assoc_find(l, k) == i,
    decreases l.len(),
{
    if l.len() > 0 && l.last().0 != k {
        assert forall|j: int| i < j < l.drop_last().len() implies (#[trigger] l.drop_last()[j]).0 != k by {
            assert(l.drop_last()[j] == l[j]);
        }
        lemma_assoc_find_last(l.drop_last(), k, i);
    }
}

/// The position of the last entry with key `k`, if any.
pub fn find_key<V>(l: &Vec<(String, V)>, k: &str) -> (res: Option<usize>)
    ensures
        match res {
            Some(i) => i < l@.len() && l@[i as int].0@ == k@ && forall|j: int|
                i < j < l@.len() ==> (#[trigger] l@[j]).0@ != k@,
            None => forall|j: int| 0 <= j < l@.len() ==> (#[trigger] l@[j]).0@ != k@,
        },
{
    let mut i: usize = l.len();
    while i > 0
        invariant
            i <= l@.len(),
            forall|j: int| i <= j < l@.len() ==> (#[trigger] l@[j]).0@ != k@,
        decreases i,
    {
        if str_eq(l[i - 1].0.as_str(), k) {
            return Some(i - 1);
        }
        i = i - 1;
    }
    None
}

/// Maps `k` to `v`: the last entry with key `k` is replaced, or one is added.
pub fn put_key<V>(l: &mut Vec<(String, V)>, k: String, v: V) -> (idx: Option<usize>)
    ensures
        match idx {
            Some(i) => i < old(l)@.len() && old(l)@[i as int].0@ == k@ && (forall|j: int|
                i < j < old(l)@.len() ==> (#[trigger] old(l)@[j]).0@ != k@) && final(l)@ == old(
                l,
            )@.update(i as int, (k, v)),
            None => (forall|j: int| 0 <= j < old(l)@.len() ==> (#[trigger] old(l)@[j]).0@ != k@)
                && final(l)@ == old(l)@.push((k, v)),
        },
{
    let found = find_key(l, k.as_str());
    match found {
        Some(i) => {
            l.set(i, (k, v));
        },
        None => {
            l.push((k, v));
        },
    }
    found
}


/// The value stored under `k`, if any.
pub open spec fn assoc_get<V>(l: Seq<(Seq<char>, V)>, k: Seq<char>) -> Option<V> {
    let i = assoc_find(l, k);
    if i >= 0 {
        Some(l[i].1)
    } else {
        None
    }
}

/// `assoc_find` finds the last entry with the key, or -1 when none has it.
pub proof fn lemma_assoc_find_props<V>(l: Seq<(Seq<char>, V)>, k: Seq<char>)
    ensures
        -1 <= assoc_find(l, k) < l.len(),
        assoc_find(l, k) >= 0 ==> l[assoc_find(l, k)].0 == k,
        forall|j: int| assoc_find(l, k) < j < l.len() ==> (#[trigger] l[j]).0 != k,
    decreases l.len(),
{
    if l.len() > 0 {
        lemma_assoc_find_props(l.drop_last(), k);
        if l.last().0 != k {
            assert forall|j: int| assoc_find(l, k) < j < l.len() implies (#[trigger] l[j]).0 != k by {
                if j < l.len() - 1 {
                    assert(l[j] == l.drop_last()[j]);
                }
            }
        }
    }
}

/// After a put, the key holds the new value and every other key its old
/// one.
pub proof fn lemma_get_put<V>(l: Seq<(Seq<char>, V)>, k: Seq<char>, v: V, x: Seq<char>)
    ensures
        assoc_get(assoc_put(l, k, v), x) == if x == k {
            Some(v)
        } else {
            assoc_get(l, x)
        },
{
    lemma_assoc_find_props(l, k);
    lemma_assoc_find_props(l, x);
    let i = assoc_find(l, k);
    let r = assoc_find(l, x);
    let t = assoc_put(l, k, v);
    if i >= 0 {
        assert forall|j: int| r < j < t.len() implies (#[trigger] t[j]).0 != x by {
            assert(t[j].0 == l[j].0);
        }
        if r >= 0 {
            assert(t[r].0 == l[r].0);
        }
        lemma_assoc_find_last(t, x, r);
        if x != k && r >= 0 {
            assert(r != i);
            assert(t[r] == l[r]);
        }
    } else {
        assert(t.drop_last() == l);
        if x == k {
            assert(t.last().0 == k);
        }
    }
}


/// Each entry of a table after a put is an entry from before or the new one.
pub proof fn lemma_put_entries<V>(l: Seq<(Seq<char>, V)>, k: Seq<char>, v: V)
    ensures
        forall|j: int|
            0 <= j < assoc_put(l, k, v).len() ==> (j < l.len() && #[trigger] assoc_put(l, k, v)[j] == l[j])
                || assoc_put(l, k, v)[j] == (k, v),
{
    lemma_assoc_find_props(l, k);
}

} // verus!
