//! Stable insertion sort, as a specification and its basic facts.
use vstd::prelude::*;

verus! {

/// Inserts `x` into `s` after the last element whose key is at most `x`'s key.
pub open spec fn insert_by_key<T>(s: Seq<T>, x: T, key: spec_fn(T) -> int) -> Seq<T>
    decreases s.len(),
{
    if s.len() == 0 {
        seq![x]
    } else if key(s.last()) <= key(x) {
        s.push(x)
    } else {
        insert_by_key(s.drop_last(), x, key).push(s.last())
    }
}

/// The stable sort of `s` by `key`: elements with equal keys keep their order.
pub open spec fn sort_by_key<T>(s: Seq<T>, key: spec_fn(T) -> int) -> Seq<T>
    decreases s.len(),
{
    if s.len() == 0 {
        s
    } else {
        insert_by_key(sort_by_key(s.drop_last(), key), s.last(), key)
    }
}

/// `s` is ordered by `key`.
pub open spec fn sorted_by_key<T>(s: Seq<T>, key: spec_fn(T) -> int) -> bool {
    forall|i: int, j: int| 0 <= i <= j < s.len() ==> key(s[i]) <= key(s[j])
}

/// The position where [`insert_by_key`] puts `x`: after the longest prefix
/// whose last element has key at most `x`'s key, searched from the end.
pub open spec fn insert_pos<T>(s: Seq<T>, x: T, key: spec_fn(T) -> int) -> int
    decreases s.len(),
{
    if s.len() == 0 {
        0
    } else if key(s.last()) <= key(x) {
        s.len() as int
    } else {
        insert_pos(s.drop_last(), x, key)
    }
}

pub proof fn lemma_insert_is_insert_at<T>(s: Seq<T>, x: T, key: spec_fn(T) -> int)
    ensures
        0 <= insert_pos(s, x, key) <= s.len(),
        insert_by_key(s, x, key) == s.insert(insert_pos(s, x, key), x),
        forall|k: int| insert_pos(s, x, key) <= k < s.len() ==> key(x) < #[trigger] key(s[k]),
        insert_pos(s, x, key) > 0 ==> key(s[insert_pos(s, x, key) - 1]) <= key(x),
    decreases s.len(),
{
    if s.len() == 0 {
        assert(insert_by_key(s, x, key) == s.insert(0, x));
    } else if key(s.last()) <= key(x) {
        assert(insert_by_key(s, x, key) == s.insert(s.len() as int, x));
    } else {
        lemma_insert_is_insert_at(s.drop_last(), x, key);
        let p = insert_pos(s, x, key);
        assert(insert_by_key(s, x, key) == s.insert(p, x));
        assert forall|k: int| p <= k < s.len() implies key(x) < #[trigger] key(s[k]) by {
            if k < s.len() - 1 {
                assert(s.drop_last()[k] == s[k]);
            }
        }
    }
}

pub proof fn lemma_sort_len_and_elems<T>(s: Seq<T>, key: spec_fn(T) -> int)
    ensures
        sort_by_key(s, key).len() == s.len(),
        forall|y: T| sort_by_key(s, key).contains(y) <==> s.contains(y),
    decreases s.len(),
{
    if s.len() > 0 {
        let t = s.drop_last();
        lemma_sort_len_and_elems(t, key);
        let st = sort_by_key(t, key);
        lemma_insert_is_insert_at(st, s.last(), key);
        let p = insert_pos(st, s.last(), key);
        let r = st.insert(p, s.last());
        assert forall|y: T| r.contains(y) <==> s.contains(y) by {
            if r.contains(y) {
                let k = choose|k: int| 0 <= k < r.len() && r[k] == y;
                if k < p {
                    assert(st[k] == y);
                    assert(st.contains(y));
                    assert(t.contains(y));
                    let m = choose|m: int| 0 <= m < t.len() && t[m] == y;
                    assert(s[m] == y);
                } else if k == p {
                    assert(s[s.len() - 1] == y);
                } else {
                    assert(st[k - 1] == y);
                    assert(st.contains(y));
                    assert(t.contains(y));
                    let m = choose|m: int| 0 <= m < t.len() && t[m] == y;
                    assert(s[m] == y);
                }
            }
            if s.contains(y) {
                let m = choose|m: int| 0 <= m < s.len() && s[m] == y;
                if m == s.len() - 1 {
                    assert(r[p] == y);
                } else {
                    assert(t[m] == y);
                    assert(t.contains(y));
                    assert(st.contains(y));
                    let k = choose|k: int| 0 <= k < st.len() && st[k] == y;
                    if k < p {
                        assert(r[k] == y);
                    } else {
                        assert(r[k + 1] == y);
                    }
                }
            }
        }
    }
}

pub proof fn lemma_sort_sorted<T>(s: Seq<T>, key: spec_fn(T) -> int)
    ensures
        sorted_by_key(sort_by_key(s, key), key),
    decreases s.len(),
{
    if s.len() > 0 {
        let t = s.drop_last();
        lemma_sort_sorted(t, key);
        let st = sort_by_key(t, key);
        let x = s.last();
        lemma_insert_is_insert_at(st, x, key);
        let p = insert_pos(st, x, key);
        let r = st.insert(p, x);
        assert forall|i: int, j: int| 0 <= i <= j < r.len() implies key(r[i]) <= key(r[j]) by {
            if i < p && j < p {
                assert(r[i] == st[i] && r[j] == st[j]);
            } else if i < p && j == p {
                assert(key(st[p - 1]) <= key(x));
                assert(key(st[i]) <= key(st[p - 1]));
            } else if i < p {
                assert(r[j] == st[j - 1]);
            } else if i == p && j > p {
                assert(r[j] == st[j - 1]);
            } else if i > p {
                assert(r[i] == st[i - 1] && r[j] == st[j - 1]);
            }
        }
    }
}

/// A relation that holds between every two elements at distinct positions
/// of `s` (in both orders) still holds after stable sorting.
pub proof fn lemma_sort_pairwise<T>(s: Seq<T>, key: spec_fn(T) -> int, rel: spec_fn(T, T) -> bool)
    requires
        forall|i: int, j: int| 0 <= i < s.len() && 0 <= j < s.len() && i != j ==> rel(s[i], s[j]),
    ensures
        forall|i: int, j: int|
            0 <= i < s.len() && 0 <= j < s.len() && i != j ==> rel(
                #[trigger] sort_by_key(s, key)[i],
                #[trigger] sort_by_key(s, key)[j],
            ),
    decreases s.len(),
{
    if s.len() > 0 {
        let t = s.drop_last();
        let x = s.last();
        assert forall|i: int, j: int| 0 <= i < t.len() && 0 <= j < t.len() && i != j implies rel(
            t[i],
            t[j],
        ) by {
            assert(t[i] == s[i] && t[j] == s[j]);
        }
        lemma_sort_pairwise(t, key, rel);
        lemma_sort_len_and_elems(t, key);
        let st = sort_by_key(t, key);
        lemma_insert_is_insert_at(st, x, key);
        let p = insert_pos(st, x, key);
        let r = st.insert(p, x);
        assert forall|k: int| 0 <= k < st.len() implies rel(x, st[k]) && rel(st[k], x) by {
            assert(st.contains(st[k]));
            assert(t.contains(st[k]));
            let m = choose|m: int| 0 <= m < t.len() && t[m] == st[k];
            assert(s[m] == st[k]);
            assert(s[s.len() - 1] == x);
        }
        assert forall|i: int, j: int| 0 <= i < r.len() && 0 <= j < r.len() && i != j implies rel(
            r[i],
            r[j],
        ) by {
            if i < p && j < p {
                assert(r[i] == st[i] && r[j] == st[j]);
            } else if i == p {
                if j < p {
                    assert(r[j] == st[j]);
                } else {
                    assert(r[j] == st[j - 1]);
                }
            } else if j == p {
                if i < p {
                    assert(r[i] == st[i]);
                } else {
                    assert(r[i] == st[i - 1]);
                }
            } else {
                let ii = if i < p { i } else { i - 1 };
                let jj = if j < p { j } else { j - 1 };
                assert(r[i] == st[ii] && r[j] == st[jj]);
            }
        }
    }
}

} // verus!
