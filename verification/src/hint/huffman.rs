//! Huffman-coded hints: `n` distinct, prefix-free letter sequences over an
//! alphabet, shortest first.
use vstd::prelude::*;
use vstd::utf8::encode_utf8;
use vstd::wrapping::i32_specs;
use crate::text::string_views;
use crate::sort::{sort_by_key, sorted_by_key, insert_pos, lemma_insert_is_insert_at, lemma_sort_len_and_elems, lemma_sort_sorted, lemma_sort_pairwise};

verus! {

/// A priority-queue entry: (weight, serial, arena index).  The entry with the
/// greatest weight leaves first; among equal weights the later serial does.
pub type HeapEntry = (i32, usize, usize);

struct HuffmanNode {
    weight: i32,
    children: Vec<usize>,
}

/// `a` leaves the queue before `b`.
pub open spec fn entry_above(a: HeapEntry, b: HeapEntry) -> bool {
    a.0 > b.0 || (a.0 == b.0 && a.1 > b.1)
}

/// Position of the entry that leaves the queue next (the first maximal one).
pub open spec fn top_index(h: Seq<HeapEntry>) -> int
    decreases h.len(),
{
    if h.len() <= 1 {
        0
    } else {
        let m = top_index(h.drop_last());
        if entry_above(h.last(), h[m]) {
            h.len() - 1
        } else {
            m
        }
    }
}

/// Takes `k` entries off the queue: their arena indices, in the order taken,
/// are appended to `children` and their weights added (wrapping) to `total`.
pub open spec fn pop_many(h: Seq<HeapEntry>, k: nat, children: Seq<usize>, total: i32) -> (
    Seq<usize>,
    i32,
    Seq<HeapEntry>,
)
    decreases k,
{
    if k == 0 || h.len() == 0 {
        (children, total, h)
    } else {
        let m = top_index(h);
        pop_many(
            h.remove(m),
            (k - 1) as nat,
            children.push(h[m].2),
            i32_specs::wrapping_add(total, h[m].0),
        )
    }
}

pub proof fn lemma_top_index(h: Seq<HeapEntry>)
    requires
        h.len() > 0,
    ensures
        0 <= top_index(h) < h.len(),
    decreases h.len(),
{
    if h.len() > 1 {
        lemma_top_index(h.drop_last());
    }
}

pub proof fn lemma_pop_many_len(h: Seq<HeapEntry>, k: nat, children: Seq<usize>, total: i32)
    requires
        k <= h.len(),
    ensures
        pop_many(h, k, children, total).2.len() == h.len() - k,
        pop_many(h, k, children, total).0.len() == children.len() + k,
    decreases k,
{
    if k > 0 {
        lemma_top_index(h);
        let m = top_index(h);
        lemma_pop_many_len(
            h.remove(m),
            (k - 1) as nat,
            children.push(h[m].2),
            i32_specs::wrapping_add(total, h[m].0),
        );
    }
}

/// Merges queue entries into new arena nodes until at most one is left: the
/// first round merges `branches` entries, every later round `arity` entries.
pub open spec fn grow(
    arena: Seq<Seq<usize>>,
    h: Seq<HeapEntry>,
    serial: int,
    branches: int,
    arity: int,
) -> (Seq<Seq<usize>>, Seq<HeapEntry>)
    decreases h.len(),
{
    if h.len() <= 1 || branches < 2 {
        (arena, h)
    } else {
        let take: int = if branches < h.len() {
            branches
        } else {
            h.len() as int
        };
        let r = pop_many(h, take as nat, seq![], 0i32);
        proof {
            lemma_pop_many_len(h, take as nat, seq![], 0i32);
        }
        grow(
            arena.push(r.0),
            r.2.push((r.1, serial as usize, arena.len() as usize)),
            serial + 1,
            arity,
            arity,
        )
    }
}

/// The search for the size of the first merge: with `acc == t * (arity - 1)`,
/// the first `t` up to `last` whose `n - acc` lies in `2..=arity`.
pub open spec fn branch_search(n: int, arity: int, t: int, acc: int, last: int) -> int
    decreases last + 1 - t,
{
    if t > last {
        arity
    } else if 2 <= n - acc && n - acc <= arity {
        n - acc
    } else {
        branch_search(n, arity, t + 1, acc + (arity - 1), last)
    }
}

/// The number of entries merged in the first round.
pub open spec fn initial_branches(n: int, arity: int) -> int {
    branch_search(n, arity, 1, arity - 1, n / arity + 1)
}

/// The initial queue: one leaf per hint, leaf `i` with weight `-i`.
pub open spec fn leaf_heap(n: nat) -> Seq<HeapEntry> {
    Seq::new(n, |i: int| (i32_specs::wrapping_sub(0i32, i as i32), i as usize, i as usize))
}

/// The arena (children of each node) and the final queue of the Huffman tree
/// over `n` leaves with the given arity.
pub open spec fn huffman_arena(n: nat, arity: nat) -> (Seq<Seq<usize>>, Seq<HeapEntry>) {
    grow(
        Seq::new(n, |i: int| Seq::<usize>::empty()),
        leaf_heap(n),
        n as int,
        initial_branches(n as int, arity as int),
        arity as int,
    )
}

/// The paths from node `idx` to the leaves below it, in depth-first order;
/// a path lists the child position taken at each level.
pub open spec fn tree_paths(arena: Seq<Seq<usize>>, idx: int) -> Seq<Seq<usize>>
    decreases idx, (if 0 <= idx < arena.len() { arena[idx].len() + 1 } else { 0 }),
{
    if 0 <= idx < arena.len() && arena[idx].len() > 0 {
        child_paths(arena, idx, arena[idx].len() as int)
    } else {
        seq![Seq::<usize>::empty()]
    }
}

/// The paths through the first `k` children of node `idx`.
pub open spec fn child_paths(arena: Seq<Seq<usize>>, idx: int, k: int) -> Seq<Seq<usize>>
    decreases idx, k,
{
    if k <= 0 || !(0 <= idx < arena.len()) || k > arena[idx].len() {
        seq![]
    } else {
        let c = arena[idx][k - 1] as int;
        let below = if c < idx {
            tree_paths(arena, c)
        } else {
            seq![]
        };
        child_paths(arena, idx, k - 1) + below.map_values(
            |p: Seq<usize>| seq![(k - 1) as usize] + p,
        )
    }
}

/// The leaf paths of the Huffman tree for `n` hints over `arity` letters.
pub open spec fn huffman_paths(n: nat, arity: nat) -> Seq<Seq<usize>> {
    let (arena, h) = huffman_arena(n, arity);
    tree_paths(arena, h[0].2 as int)
}

/// The text of a hint: the alphabet entries that its path names, joined.
pub open spec fn hint_text(alphabet: Seq<Seq<char>>, p: Seq<usize>) -> Seq<char>
    decreases p.len(),
{
    if p.len() == 0 {
        seq![]
    } else {
        hint_text(alphabet, p.drop_last()) + alphabet[p.last() as int]
    }
}

/// The sort key of a hint: its length in UTF-8 bytes.
pub open spec fn byte_len(s: Seq<char>) -> int {
    encode_utf8(s).len() as usize as int
}

/// The hints for `n` matches over `alphabet`: none when either is empty, the
/// first `n` letters when they suffice, else the leaf paths of the Huffman
/// tree spelled over the alphabet and stably sorted by byte length.
pub open spec fn huffman_hints(alphabet: Seq<Seq<char>>, n: nat) -> Seq<Seq<char>> {
    if n == 0 || alphabet.len() == 0 {
        seq![]
    } else if n <= alphabet.len() {
        alphabet.take(n as int)
    } else {
        sort_by_key(
            huffman_paths(n, alphabet.len()).map_values(|p: Seq<usize>| hint_text(alphabet, p)),
            |s: Seq<char>| byte_len(s),
        )
    }
}



/// The children lists of an arena, which is what the tree shape depends on.
spec fn arena_shape(arena: Seq<HuffmanNode>) -> Seq<Seq<usize>> {
    arena.map_values(|nd: HuffmanNode| nd.children@)
}

/// Every child index is smaller than its parent's, and no node has more
/// children than there are letters.
pub open spec fn tree_wf(arena: Seq<Seq<usize>>, arity: int) -> bool {
    forall|k: int, j: int|
        #![trigger arena[k][j]]
        0 <= k < arena.len() && 0 <= j < arena[k].len() ==> (arena[k][j] as int) < k && arena[k].len()
            <= arity
}

proof fn lemma_branch_search_past(n: int, arity: int, t: int, acc: int, last: int)
    requires
        acc > n,
        arity >= 1,
    ensures
        branch_search(n, arity, t, acc, last) == arity,
    decreases last + 1 - t,
{
    if t <= last {
        lemma_branch_search_past(n, arity, t + 1, acc + (arity - 1), last);
    }
}

proof fn lemma_branch_search_range(n: int, arity: int, t: int, acc: int, last: int)
    requires
        arity >= 2,
    ensures
        2 <= branch_search(n, arity, t, acc, last) <= arity,
    decreases last + 1 - t,
{
    if t <= last && !(2 <= n - acc && n - acc <= arity) {
        lemma_branch_search_range(n, arity, t + 1, acc + (arity - 1), last);
    }
}

/// The number of queue entries that the first merge takes: the first
/// `n - t * (arity - 1)` in `2..=arity` for `t` from 1 to `n / arity + 1`,
/// or `arity` when there is none.
fn initial_number_of_branches(n: usize, arity: usize) -> (r: usize)
    requires
        1 <= arity < n,
        n <= usize::MAX / 4,
    ensures
        r == initial_branches(n as int, arity as int),
{
    let last = n / arity + 1;
    let a1 = arity - 1;
    let mut t: usize = 1;
    let mut acc: usize = a1;
    while t <= last
        invariant
            1 <= arity < n,
            n <= usize::MAX / 4,
            a1 == arity - 1,
            last == n / arity + 1,
            1 <= t <= last + 1,
            acc <= n + a1,
            branch_search(n as int, arity as int, t as int, acc as int, last as int)
                == initial_branches(n as int, arity as int),
        decreases last + 1 - t,
    {
        if acc > n {
            proof {
                lemma_branch_search_past(n as int, arity as int, t as int, acc as int, last as int);
            }
            return arity;
        }
        let candidate = n - acc;
        if candidate >= 2 && candidate <= arity {
            return candidate;
        }
        acc = acc + a1;
        t = t + 1;
    }
    arity
}

/// The position of the entry that leaves the queue next.
fn top_of(h: &Vec<HeapEntry>) -> (m: usize)
    requires
        h.len() > 0,
    ensures
        m == top_index(h@),
        m < h.len(),
{
    let mut best: usize = 0;
    let mut i: usize = 1;
    while i < h.len()
        invariant
            1 <= i <= h.len(),
            best < i,
            best == top_index(h@.take(i as int)),
        decreases h.len() - i,
    {
        proof {
            assert(h@.take(i + 1).drop_last() == h@.take(i as int));
            assert(h@.take(i + 1)[best as int] == h@[best as int]);
        }
        if h[i].0 > h[best].0 || (h[i].0 == h[best].0 && h[i].1 > h[best].1) {
            best = i;
        }
        i = i + 1;
    }
    proof {
        assert(h@.take(i as int) == h@);
    }
    best
}

/// Appends to `out` the hint of every leaf below node `idx`, spelled as
/// `path` followed by the path from `idx` to the leaf.
fn traverse(
    arena: &Vec<HuffmanNode>,
    idx: usize,
    path: &mut Vec<usize>,
    alphabet: &[String],
    out: &mut Vec<String>,
)
    requires
        idx < arena.len(),
        tree_wf(arena_shape(arena@), alphabet@.len() as int),
        forall|k: int| 0 <= k < old(path)@.len() ==> old(path)@[k] < alphabet@.len(),
    ensures
        final(path)@ == old(path)@,
        string_views(final(out)@) == string_views(old(out)@) + tree_paths(arena_shape(arena@), idx as int).map_values(
            |p: Seq<usize>| hint_text(string_views(alphabet@), old(path)@ + p),
        ),
    decreases idx,
{
    let ghost shape = arena_shape(arena@);
    let ghost alph = string_views(alphabet@);
    let ghost path0 = path@;
    let ghost out0 = string_views(out@);
    let node = &arena[idx];
    assert(shape[idx as int] == node.children@);
    if node.children.len() == 0 {
        let mut hint = String::new();
        let mut k: usize = 0;
        while k < path.len()
            invariant
                path@ == path0,
                alph == string_views(alphabet@),
                k <= path@.len(),
                forall|m: int| 0 <= m < path0.len() ==> path0[m] < alphabet@.len(),
                hint@ == hint_text(alph, path0.take(k as int)),
            decreases path.len() - k,
        {
            let i = path[k];
            hint.append(alphabet[i].as_str());
            proof {
                assert(path0.take(k + 1).drop_last() == path0.take(k as int));
            }
            k = k + 1;
        }
        proof {
            assert(path0.take(k as int) == path0);
            assert(path0 + Seq::<usize>::empty() == path0);
        }
        out.push(hint);
        proof {
            assert(string_views(out@) == out0.push(hint@));
            assert(tree_paths(shape, idx as int) == seq![Seq::<usize>::empty()]);
        }
    } else {
        let mut j: usize = 0;
        while j < node.children.len()
            invariant
                shape == arena_shape(arena@),
                alph == string_views(alphabet@),
                node == &arena@[idx as int],
                shape[idx as int] == node.children@,
                node.children@.len() > 0,
                idx < arena.len(),
                tree_wf(shape, alphabet@.len() as int),
                forall|m: int| 0 <= m < path0.len() ==> path0[m] < alphabet@.len(),
                j <= node.children@.len(),
                path@ == path0,
                string_views(out@) == out0 + child_paths(shape, idx as int, j as int).map_values(
                    |p: Seq<usize>| hint_text(alph, path0 + p),
                ),
            decreases node.children.len() - j,
        {
            let child = node.children[j];
            proof {
                assert(shape[idx as int][j as int] == child);
                assert((child as int) < idx);
                assert(shape[idx as int].len() <= alphabet@.len());
            }
            path.push(j);
            traverse(arena, child, path, alphabet, out);
            path.pop();
            proof {
                let f = |p: Seq<usize>| hint_text(alph, path0 + p);
                let below = tree_paths(shape, child as int);
                let prev = child_paths(shape, idx as int, j as int);
                let g = |p: Seq<usize>| seq![j as usize] + p;
                assert(child_paths(shape, idx as int, j + 1) == prev + below.map_values(g));
                assert forall|q: Seq<usize>| #[trigger] f(g(q)) == hint_text(alph, path0.push(j) + q) by {
                    assert(path0 + (seq![j as usize] + q) == path0.push(j) + q);
                }
                assert((prev + below.map_values(g)).map_values(f) == prev.map_values(f)
                    + below.map_values(|q: Seq<usize>| hint_text(alph, path0.push(j) + q)));
            }
            j = j + 1;
        }
        proof {
            assert(tree_paths(shape, idx as int) == child_paths(shape, idx as int, j as int));
        }
    }
}

proof fn lemma_insert_pos_is(s: Seq<Seq<char>>, x: Seq<char>, j: int)
    requires
        0 <= j <= s.len(),
        forall|k: int| j <= k < s.len() ==> byte_len(x) < #[trigger] byte_len(s[k]),
        j == 0 || byte_len(s[j - 1]) <= byte_len(x),
    ensures
        insert_pos(s, x, |t: Seq<char>| byte_len(t)) == j,
    decreases s.len(),
{
    if s.len() > 0 {
        if byte_len(s.last()) <= byte_len(x) {
            assert(j == s.len());
        } else {
            lemma_insert_pos_is(s.drop_last(), x, j);
        }
    }
}

/// Stable sort of hints by their length in bytes.
fn sort_by_byte_len(v: Vec<String>) -> (r: Vec<String>)
    ensures
        string_views(r@) == sort_by_key(string_views(v@), |s: Seq<char>| byte_len(s)),
{
    let ghost key = |s: Seq<char>| byte_len(s);
    let mut r: Vec<String> = Vec::new();
    let mut i: usize = 0;
    while i < v.len()
        invariant
            i <= v.len(),
            key == (|s: Seq<char>| byte_len(s)),
            string_views(r@) == sort_by_key(string_views(v@).take(i as int), key),
        decreases v.len() - i,
    {
        let x = v[i].clone();
        let kx = x.as_str().len();
        let mut j: usize = r.len();
        while j > 0 && r[j - 1].as_str().len() > kx
            invariant
                j <= r.len(),
                kx == byte_len(x@),
                forall|k: int| j <= k < r.len() ==> kx < #[trigger] byte_len(r@[k]@),
            decreases j,
        {
            j = j - 1;
        }
        proof {
            let s = string_views(r@);
            assert forall|k: int| j <= k < s.len() implies byte_len(x@) < #[trigger] byte_len(s[k]) by {
                assert(s[k] == r@[k]@);
            }
            if j > 0 {
                assert(s[j - 1] == r@[j - 1]@);
            }
            lemma_insert_pos_is(s, x@, j as int);
            lemma_insert_is_insert_at(s, x@, key);
            let t = string_views(v@).take(i + 1);
            assert(t.drop_last() == string_views(v@).take(i as int));
            assert(t.last() == x@);
        }
        let ghost before = string_views(r@);
        r.insert(j, x);
        proof {
            assert(string_views(r@) == before.insert(j as int, x@));
        }
        i = i + 1;
    }
    proof {
        assert(string_views(v@).take(i as int) == string_views(v@));
    }
    r
}


/// Every queue entry names a node of the arena.
spec fn heap_ok(h: Seq<HeapEntry>, len: int) -> bool {
    forall|k: int| 0 <= k < h.len() ==> (#[trigger] h[k]).2 < len
}

/// Generate `n` unique hints from `alphabet` using a Huffman coding scheme.
/// Returns hints sorted by length (shortest first), all unique.
///
/// An alphabet of one letter cannot spell more than one hint: that input is
/// excluded, as is an `n` beyond a quarter of the address space.
pub fn generate_hints(alphabet: &[String], n: usize) -> (res: Vec<String>)
    requires
        n <= usize::MAX / 4,
        !(alphabet@.len() == 1 && n > 1),
    ensures
        string_views(res@) == huffman_hints(string_views(alphabet@), n as nat),
{
    let ghost alph = string_views(alphabet@);
    if n == 0 || alphabet.len() == 0 {
        return Vec::new();
    }
    if n <= alphabet.len() {
        let mut out: Vec<String> = Vec::new();
        let mut i: usize = 0;
        while i < n
            invariant
                n <= alphabet@.len(),
                i <= n,
                alph == string_views(alphabet@),
                string_views(out@) == alph.take(i as int),
            decreases n - i,
        {
            out.push(alphabet[i].clone());
            proof {
                assert(alph.take(i + 1) == alph.take(i as int).push(alph[i as int]));
            }
            i = i + 1;
        }
        return out;
    }
    let arity = alphabet.len();
    let mut arena: Vec<HuffmanNode> = Vec::new();
    let mut heap: Vec<HeapEntry> = Vec::new();
    let mut i: usize = 0;
    while i < n
        invariant
            i <= n,
            arena.len() == i,
            heap.len() == i,
            forall|k: int| 0 <= k < i ==> (#[trigger] arena@[k]).children@.len() == 0,
            forall|k: int| 0 <= k < i ==> #[trigger] heap@[k] == leaf_heap(n as nat)[k],
        decreases n - i,
    {
        let w = 0i32.wrapping_sub(#[verifier::truncate] (i as i32));
        arena.push(HuffmanNode { weight: w, children: Vec::new() });
        heap.push((w, i, i));
        i = i + 1;
    }
    let mut serial: usize = n;
    let initial = initial_number_of_branches(n, arity);
    let ghost target = huffman_arena(n as nat, arity as nat);
    proof {
        assert forall|k: int| 0 <= k < n implies #[trigger] arena_shape(arena@)[k] == Seq::<usize>::empty() by {
            assert(arena_shape(arena@)[k] =~= Seq::<usize>::empty());
        }
        assert(arena_shape(arena@) =~= Seq::new(n as nat, |k: int| Seq::<usize>::empty()));
        assert(heap@ == leaf_heap(n as nat));
        lemma_branch_search_range(n as int, arity as int, 1, arity - 1, n / arity + 1);
    }
    let mut first = true;
    while heap.len() > 1
        invariant
            2 <= arity < n <= usize::MAX / 4,
            arity == alphabet@.len(),
            2 <= initial <= arity,
            1 <= heap.len(),
            heap.len() + arena.len() <= 2 * n,
            serial == arena.len(),
            n <= arena.len(),
            heap_ok(heap@, arena.len() as int),
            tree_wf(arena_shape(arena@), arity as int),
            grow(
                arena_shape(arena@),
                heap@,
                serial as int,
                if first { initial as int } else { arity as int },
                arity as int,
            ) == target,
        decreases heap.len(),
    {
        let n_branches = if first {
            first = false;
            initial
        } else {
            arity
        };
        let take = if n_branches < heap.len() {
            n_branches
        } else {
            heap.len()
        };
        let ghost h0 = heap@;
        let mut children: Vec<usize> = Vec::new();
        let mut total: i32 = 0;
        let mut k: usize = 0;
        while k < take
            invariant
                take <= h0.len(),
                k <= take,
                heap.len() == h0.len() - k,
                children.len() == k,
                heap_ok(heap@, arena.len() as int),
                forall|m: int| 0 <= m < children.len() ==> #[trigger] children@[m] < arena.len(),
                pop_many(heap@, (take - k) as nat, children@, total) == pop_many(
                    h0,
                    take as nat,
                    seq![],
                    0i32,
                ),
            decreases take - k,
        {
            let m = top_of(&heap);
            proof {
                assert(heap_ok(heap@.remove(m as int), arena.len() as int));
            }
            let e = heap.remove(m);
            children.push(e.2);
            total = total.wrapping_add(e.0);
            k = k + 1;
        }
        proof {
            lemma_pop_many_len(h0, take as nat, seq![], 0i32);
        }
        let new_idx = arena.len();
        let ghost shape0 = arena_shape(arena@);
        let ghost kids = children@;
        arena.push(HuffmanNode { weight: total, children });
        heap.push((total, serial, new_idx));
        proof {
            assert(arena_shape(arena@) == shape0.push(kids));
            assert forall|a: int, b: int|
                #![trigger arena_shape(arena@)[a][b]]
                0 <= a < arena_shape(arena@).len() && 0 <= b < arena_shape(arena@)[a].len() implies (
                arena_shape(arena@)[a][b] as int) < a && arena_shape(arena@)[a].len() <= arity by {
                if a < shape0.len() {
                    assert(arena_shape(arena@)[a] == shape0[a]);
                } else {
                    assert(a == shape0.len());
                    assert(arena_shape(arena@)[a] == kids);
                    assert(kids[b] < shape0.len());
                    assert(kids.len() == take);
                }
            }
        }
        serial = serial + 1;
    }
    let root = heap[0].2;
    proof {
        assert(huffman_paths(n as nat, arity as nat) == tree_paths(arena_shape(arena@), root as int));
    }
    let mut path: Vec<usize> = Vec::new();
    let mut result: Vec<String> = Vec::new();
    traverse(&arena, root, &mut path, alphabet, &mut result);
    proof {
        let ps = tree_paths(arena_shape(arena@), root as int);
        assert(string_views(result@) == ps.map_values(|p: Seq<usize>| hint_text(alph, p))) by {
            assert forall|p: Seq<usize>| Seq::<usize>::empty() + p == p by {
                assert(Seq::<usize>::empty() + p =~= p);
            }
            assert(string_views(result@) =~= ps.map_values(|p: Seq<usize>| hint_text(alph, p)));
        }
    }
    sort_by_byte_len(result)
}


/// The number of leaves below the nodes that the queue entries name.
pub open spec fn queue_leaves(arena: Seq<Seq<usize>>, h: Seq<HeapEntry>) -> int
    decreases h.len(),
{
    if h.len() == 0 {
        0
    } else {
        queue_leaves(arena, h.drop_last()) + tree_paths(arena, h.last().2 as int).len()
    }
}

/// The number of leaves below a list of nodes.
pub open spec fn nodes_leaves(arena: Seq<Seq<usize>>, ks: Seq<usize>) -> int
    decreases ks.len(),
{
    if ks.len() == 0 {
        0
    } else {
        nodes_leaves(arena, ks.drop_last()) + tree_paths(arena, ks.last() as int).len()
    }
}

proof fn lemma_paths_extend(arena: Seq<Seq<usize>>, x: Seq<usize>, idx: int)
    requires
        0 <= idx < arena.len(),
    ensures
        tree_paths(arena.push(x), idx) == tree_paths(arena, idx),
    decreases idx, arena[idx].len() + 1,
{
    assert(arena.push(x)[idx] == arena[idx]);
    if arena[idx].len() > 0 {
        lemma_child_paths_extend(arena, x, idx, arena[idx].len() as int);
    }
}

proof fn lemma_child_paths_extend(arena: Seq<Seq<usize>>, x: Seq<usize>, idx: int, k: int)
    requires
        0 <= idx < arena.len(),
    ensures
        child_paths(arena.push(x), idx, k) == child_paths(arena, idx, k),
    decreases idx, k,
{
    assert(arena.push(x)[idx] == arena[idx]);
    if 0 < k <= arena[idx].len() {
        lemma_child_paths_extend(arena, x, idx, k - 1);
        let c = arena[idx][k - 1] as int;
        if c < idx {
            lemma_paths_extend(arena, x, c);
        }
    }
}

proof fn lemma_queue_extend(arena: Seq<Seq<usize>>, x: Seq<usize>, h: Seq<HeapEntry>)
    requires
        heap_ok(h, arena.len() as int),
    ensures
        queue_leaves(arena.push(x), h) == queue_leaves(arena, h),
    decreases h.len(),
{
    if h.len() > 0 {
        assert(heap_ok(h.drop_last(), arena.len() as int)) by {
            assert forall|k: int| 0 <= k < h.drop_last().len() implies (#[trigger] h.drop_last()[k]).2
                < arena.len() by {
                assert(h.drop_last()[k] == h[k]);
            }
        }
        lemma_queue_extend(arena, x, h.drop_last());
        lemma_paths_extend(arena, x, h.last().2 as int);
    }
}

proof fn lemma_nodes_extend(arena: Seq<Seq<usize>>, x: Seq<usize>, ks: Seq<usize>)
    requires
        forall|k: int| 0 <= k < ks.len() ==> (#[trigger] ks[k] as int) < arena.len(),
    ensures
        nodes_leaves(arena.push(x), ks) == nodes_leaves(arena, ks),
    decreases ks.len(),
{
    if ks.len() > 0 {
        assert forall|k: int| 0 <= k < ks.drop_last().len() implies (#[trigger] ks.drop_last()[k] as int)
            < arena.len() by {
            assert(ks.drop_last()[k] == ks[k]);
        }
        lemma_nodes_extend(arena, x, ks.drop_last());
        lemma_paths_extend(arena, x, ks.last() as int);
    }
}

proof fn lemma_queue_remove(arena: Seq<Seq<usize>>, h: Seq<HeapEntry>, m: int)
    requires
        0 <= m < h.len(),
    ensures
        queue_leaves(arena, h) == queue_leaves(arena, h.remove(m)) + tree_paths(
            arena,
            h[m].2 as int,
        ).len(),
    decreases h.len(),
{
    if m == h.len() - 1 {
        assert(h.remove(m) == h.drop_last());
    } else {
        lemma_queue_remove(arena, h.drop_last(), m);
        assert(h.remove(m).drop_last() == h.drop_last().remove(m));
        assert(h.remove(m).last() == h.last());
    }
}

proof fn lemma_pop_many_leaves(
    arena: Seq<Seq<usize>>,
    h: Seq<HeapEntry>,
    k: nat,
    ch: Seq<usize>,
    tot: i32,
)
    requires
        k <= h.len(),
        heap_ok(h, arena.len() as int),
        forall|j: int| 0 <= j < ch.len() ==> (#[trigger] ch[j] as int) < arena.len(),
    ensures
        nodes_leaves(arena, pop_many(h, k, ch, tot).0) + queue_leaves(arena, pop_many(h, k, ch, tot).2)
            == nodes_leaves(arena, ch) + queue_leaves(arena, h),
        heap_ok(pop_many(h, k, ch, tot).2, arena.len() as int),
        forall|j: int|
            0 <= j < pop_many(h, k, ch, tot).0.len() ==> (#[trigger] pop_many(h, k, ch, tot).0[j] as int)
                < arena.len(),
    decreases k,
{
    if k > 0 {
        lemma_top_index(h);
        let m = top_index(h);
        let ch2 = ch.push(h[m].2);
        lemma_queue_remove(arena, h, m);
        assert(ch2.drop_last() == ch);
        assert(heap_ok(h.remove(m), arena.len() as int)) by {
            assert forall|j: int| 0 <= j < h.remove(m).len() implies (#[trigger] h.remove(m)[j]).2
                < arena.len() by {
                if j < m {
                    assert(h.remove(m)[j] == h[j]);
                } else {
                    assert(h.remove(m)[j] == h[j + 1]);
                }
            }
        }
        assert forall|j: int| 0 <= j < ch2.len() implies (#[trigger] ch2[j] as int) < arena.len() by {
            if j < ch.len() {
                assert(ch2[j] == ch[j]);
            }
        }
        lemma_pop_many_leaves(
            arena,
            h.remove(m),
            (k - 1) as nat,
            ch2,
            i32_specs::wrapping_add(tot, h[m].0),
        );
    }
}

proof fn lemma_new_node_leaves(arena: Seq<Seq<usize>>, kids: Seq<usize>, k: int)
    requires
        0 <= k <= kids.len(),
        forall|j: int| 0 <= j < kids.len() ==> (#[trigger] kids[j] as int) < arena.len(),
    ensures
        child_paths(arena.push(kids), arena.len() as int, k).len() == nodes_leaves(
            arena.push(kids),
            kids.take(k),
        ),
    decreases k,
{
    let a2 = arena.push(kids);
    assert(a2[arena.len() as int] == kids);
    if k > 0 {
        lemma_new_node_leaves(arena, kids, k - 1);
        assert(kids.take(k).drop_last() == kids.take(k - 1));
        assert(kids.take(k).last() == kids[k - 1]);
    } else {
        assert(kids.take(0).len() == 0);
    }
}

proof fn lemma_grow(
    arena: Seq<Seq<usize>>,
    h: Seq<HeapEntry>,
    serial: int,
    branches: int,
    arity: int,
    total: int,
)
    requires
        h.len() >= 1,
        arena.len() + h.len() <= usize::MAX,
        2 <= branches <= arity,
        heap_ok(h, arena.len() as int),
        queue_leaves(arena, h) == total,
        tree_wf(arena, arity),
    ensures
        grow(arena, h, serial, branches, arity).1.len() == 1,
        heap_ok(grow(arena, h, serial, branches, arity).1, grow(arena, h, serial, branches, arity).0.len() as int),
        queue_leaves(grow(arena, h, serial, branches, arity).0, grow(arena, h, serial, branches, arity).1)
            == total,
        tree_wf(grow(arena, h, serial, branches, arity).0, arity),
    decreases h.len(),
{
    if h.len() > 1 {
        let take: int = if branches < h.len() {
            branches
        } else {
            h.len() as int
        };
        let r = pop_many(h, take as nat, seq![], 0i32);
        lemma_pop_many_len(h, take as nat, seq![], 0i32);
        lemma_pop_many_leaves(arena, h, take as nat, seq![], 0i32);
        let kids = r.0;
        let a2 = arena.push(kids);
        let e = (r.1, serial as usize, arena.len() as usize);
        let h2 = r.2.push(e);
        lemma_new_node_leaves(arena, kids, kids.len() as int);
        assert(kids.take(kids.len() as int) == kids);
        lemma_nodes_extend(arena, kids, kids);
        lemma_queue_extend(arena, kids, r.2);
        assert(a2[arena.len() as int] == kids);
        assert(tree_paths(a2, arena.len() as int) == child_paths(a2, arena.len() as int, kids.len() as int));
        assert(h2.drop_last() == r.2);
        assert(queue_leaves(a2, h2) == total);
        assert(heap_ok(h2, a2.len() as int)) by {
            assert forall|j: int| 0 <= j < h2.len() implies (#[trigger] h2[j]).2 < a2.len() by {
                if j < r.2.len() {
                    assert(h2[j] == r.2[j]);
                }
            }
        }
        assert(tree_wf(a2, arity)) by {
            assert forall|a: int, b: int|
                #![trigger a2[a][b]]
                0 <= a < a2.len() && 0 <= b < a2[a].len() implies (a2[a][b] as int) < a && a2[a].len()
                    <= arity by {
                if a < arena.len() {
                    assert(a2[a] == arena[a]);
                }
            }
        }
        lemma_grow(a2, h2, serial + 1, arity, arity, total);
    }
}

proof fn lemma_leaf_queue(n: nat, k: int)
    requires
        0 <= k <= n,
    ensures
        queue_leaves(Seq::new(n, |i: int| Seq::<usize>::empty()), leaf_heap(n).take(k)) == k,
    decreases k,
{
    let a = Seq::new(n, |i: int| Seq::<usize>::empty());
    if k > 0 {
        lemma_leaf_queue(n, k - 1);
        assert(leaf_heap(n).take(k).drop_last() == leaf_heap(n).take(k - 1));
        assert(leaf_heap(n).take(k).last().2 == (k - 1) as usize);
        assert(a[k - 1].len() == 0);
        assert(tree_paths(a, k - 1).len() == 1);
    }
}

/// The Huffman tree over `n > arity >= 2` leaves is well formed and has
/// exactly `n` leaf paths.
proof fn lemma_huffman_tree(n: nat, arity: nat)
    requires
        2 <= arity < n <= usize::MAX / 4,
    ensures
        huffman_paths(n, arity).len() == n,
        tree_wf(huffman_arena(n, arity).0, arity as int),
        huffman_arena(n, arity).1.len() == 1,
        huffman_arena(n, arity).1[0].2 < huffman_arena(n, arity).0.len(),
{
    let a = Seq::new(n, |i: int| Seq::<usize>::empty());
    let h = leaf_heap(n);
    lemma_leaf_queue(n, n as int);
    assert(h.take(n as int) == h);
    lemma_branch_search_range(n as int, arity as int, 1, arity - 1, (n / arity + 1) as int);
    assert(heap_ok(h, a.len() as int));
    assert(tree_wf(a, arity as int));
    lemma_grow(a, h, n as int, initial_branches(n as int, arity as int), arity as int, n as int);
    let (a2, h2) = huffman_arena(n, arity);
    assert(h2.drop_last().len() == 0);
    assert(h2.last() == h2[0]);
    assert(queue_leaves(a2, h2) == queue_leaves(a2, h2.drop_last()) + tree_paths(a2, h2[0].2 as int).len());
}

/// No element of `s` is a prefix of another one (so none is repeated).
pub open spec fn prefix_free<T>(s: Seq<Seq<T>>) -> bool {
    forall|i: int, j: int|
        0 <= i < s.len() && 0 <= j < s.len() && i != j ==> !(#[trigger] s[i]).is_prefix_of(
            #[trigger] s[j],
        )
}

proof fn lemma_paths_shape(arena: Seq<Seq<usize>>, idx: int, arity: int)
    requires
        tree_wf(arena, arity),
        arity <= usize::MAX,
    ensures
        prefix_free(tree_paths(arena, idx)),
        forall|p: Seq<usize>, t: int|
            tree_paths(arena, idx).contains(p) && 0 <= t < p.len() ==> (#[trigger] p[t] as int) < arity,
    decreases idx, (if 0 <= idx < arena.len() { arena[idx].len() + 1 } else { 0 }),
{
    if 0 <= idx < arena.len() && arena[idx].len() > 0 {
        lemma_child_shape(arena, idx, arena[idx].len() as int, arity);
    } else {
        let s = tree_paths(arena, idx);
        assert(s.len() == 1);
        assert forall|p: Seq<usize>, t: int| s.contains(p) && 0 <= t < p.len() implies (
        #[trigger] p[t] as int) < arity by {
            let i = choose|i: int| 0 <= i < s.len() && s[i] == p;
            assert(p.len() == 0);
        }
    }
}

proof fn lemma_child_shape(arena: Seq<Seq<usize>>, idx: int, k: int, arity: int)
    requires
        tree_wf(arena, arity),
        arity <= usize::MAX,
    ensures
        prefix_free(child_paths(arena, idx, k)),
        forall|p: Seq<usize>|
            child_paths(arena, idx, k).contains(p) ==> p.len() >= 1 && (p[0] as int) < k,
        forall|p: Seq<usize>, t: int|
            child_paths(arena, idx, k).contains(p) && 0 <= t < p.len() ==> (#[trigger] p[t] as int)
                < arity,
    decreases idx, k,
{
    let s = child_paths(arena, idx, k);
    if k <= 0 || !(0 <= idx < arena.len()) || k > arena[idx].len() {
        assert(s.len() == 0);
    } else {
        lemma_child_shape(arena, idx, k - 1, arity);
        let c = arena[idx][k - 1] as int;
        assert(c < idx);
        lemma_paths_shape(arena, c, arity);
        let prev = child_paths(arena, idx, k - 1);
        let below = tree_paths(arena, c);
        let g = |p: Seq<usize>| seq![(k - 1) as usize] + p;
        let mb = below.map_values(g);
        assert(s == prev + mb);
        assert(arena[idx].len() <= arity);
        assert forall|i: int| 0 <= i < mb.len() implies (#[trigger] mb[i]).len() >= 1 && mb[i][0] == (k
            - 1) as usize && (forall|t: int| 0 <= t < mb[i].len() ==> (#[trigger] mb[i][t] as int) < arity) by {
            assert(below.contains(below[i]));
            assert forall|t: int| 0 <= t < mb[i].len() implies (#[trigger] mb[i][t] as int) < arity by {
                if t > 0 {
                    assert(mb[i][t] == below[i][t - 1]);
                }
            }
        }
        assert forall|p: Seq<usize>| s.contains(p) implies p.len() >= 1 && (p[0] as int) < k by {
            let i = choose|i: int| 0 <= i < s.len() && s[i] == p;
            if i < prev.len() {
                assert(prev.contains(prev[i]));
            } else {
                assert(p == mb[i - prev.len()]);
            }
        }
        assert forall|p: Seq<usize>, t: int| s.contains(p) && 0 <= t < p.len() implies (
        #[trigger] p[t] as int) < arity by {
            let i = choose|i: int| 0 <= i < s.len() && s[i] == p;
            if i < prev.len() {
                assert(prev.contains(prev[i]));
            } else {
                assert(p == mb[i - prev.len()]);
            }
        }
        assert forall|i: int, j: int|
            0 <= i < s.len() && 0 <= j < s.len() && i != j implies !(#[trigger] s[i]).is_prefix_of(
            #[trigger] s[j],
        ) by {
            let pl = prev.len();
            if i < pl && j < pl {
                assert(s[i] == prev[i] && s[j] == prev[j]);
            } else if i >= pl && j >= pl {
                let bi = below[i - pl];
                let bj = below[j - pl];
                assert(s[i] == g(bi) && s[j] == g(bj));
                lemma_cons_prefix((k - 1) as usize, bi, bj);
            } else if i < pl {
                assert(prev.contains(prev[i]));
                assert(s[i] == prev[i]);
                assert(s[j] == mb[j - pl]);
                if s[i].is_prefix_of(s[j]) {
                    lemma_prefix_head(s[i], s[j]);
                }
            } else {
                assert(prev.contains(prev[j]));
                assert(s[j] == prev[j]);
                assert(s[i] == mb[i - pl]);
                if s[i].is_prefix_of(s[j]) {
                    lemma_prefix_head(s[i], s[j]);
                }
            }
        }
    }
}

proof fn lemma_cons_prefix(a: usize, x: Seq<usize>, y: Seq<usize>)
    ensures
        (seq![a] + x).is_prefix_of(seq![a] + y) ==> x.is_prefix_of(y),
{
    let ax = seq![a] + x;
    let ay = seq![a] + y;
    if ax.is_prefix_of(ay) {
        assert forall|t: int| 0 <= t < x.len() implies x[t] == y[t] by {
            assert(ax[t + 1] == x[t]);
            assert(ay.subrange(0, ax.len() as int)[t + 1] == ay[t + 1]);
            assert(ay[t + 1] == y[t]);
        }
        assert(x =~= y.subrange(0, x.len() as int));
    }
}

proof fn lemma_prefix_head(x: Seq<usize>, y: Seq<usize>)
    requires
        x.len() >= 1,
        x.is_prefix_of(y),
    ensures
        x[0] == y[0],
{
    assert(x[0] == y.subrange(0, x.len() as int)[0]);
}

/// Every letter of the alphabet is one character, and no two are equal.
pub open spec fn distinct_letters(alphabet: Seq<Seq<char>>) -> bool {
    &&& forall|i: int| 0 <= i < alphabet.len() ==> (#[trigger] alphabet[i]).len() == 1
    &&& forall|i: int, j: int|
        0 <= i < alphabet.len() && 0 <= j < alphabet.len() && i != j ==> (#[trigger] alphabet[i])[0]
            != (#[trigger] alphabet[j])[0]
}

proof fn lemma_hint_text_letters(alphabet: Seq<Seq<char>>, p: Seq<usize>)
    requires
        distinct_letters(alphabet),
        forall|t: int| 0 <= t < p.len() ==> (#[trigger] p[t] as int) < alphabet.len(),
    ensures
        hint_text(alphabet, p).len() == p.len(),
        forall|t: int| 0 <= t < p.len() ==> #[trigger] hint_text(alphabet, p)[t] == alphabet[p[t] as int][0],
    decreases p.len(),
{
    if p.len() > 0 {
        let q = p.drop_last();
        assert forall|t: int| 0 <= t < q.len() implies (#[trigger] q[t] as int) < alphabet.len() by {
            assert(q[t] == p[t]);
        }
        lemma_hint_text_letters(alphabet, q);
        assert(alphabet[p.last() as int].len() == 1);
    }
}

proof fn lemma_hint_prefix(alphabet: Seq<Seq<char>>, p: Seq<usize>, q: Seq<usize>)
    requires
        distinct_letters(alphabet),
        forall|t: int| 0 <= t < p.len() ==> (#[trigger] p[t] as int) < alphabet.len(),
        forall|t: int| 0 <= t < q.len() ==> (#[trigger] q[t] as int) < alphabet.len(),
        hint_text(alphabet, p).is_prefix_of(hint_text(alphabet, q)),
    ensures
        p.is_prefix_of(q),
{
    lemma_hint_text_letters(alphabet, p);
    lemma_hint_text_letters(alphabet, q);
    let hp = hint_text(alphabet, p);
    let hq = hint_text(alphabet, q);
    assert forall|t: int| 0 <= t < p.len() implies p[t] == q[t] by {
        assert(hp[t] == hq.subrange(0, hp.len() as int)[t]);
        assert(hp[t] == hq[t]);
        if p[t] != q[t] {
            assert(alphabet[p[t] as int][0] != alphabet[q[t] as int][0]);
        }
    }
    assert(p =~= q.subrange(0, p.len() as int));
}

/// Law: with a non-empty alphabet that can spell them (two or more letters,
/// or no more hints than letters), there are exactly `n` hints.
pub proof fn law_hint_count(alphabet: Seq<Seq<char>>, n: nat)
    requires
        alphabet.len() > 0,
        !(alphabet.len() == 1 && n > 1),
        n <= usize::MAX / 4,
    ensures
        huffman_hints(alphabet, n).len() == n,
{
    if n > alphabet.len() {
        lemma_huffman_tree(n, alphabet.len());
        let m = huffman_paths(n, alphabet.len()).map_values(|p: Seq<usize>| hint_text(alphabet, p));
        lemma_sort_len_and_elems(m, |s: Seq<char>| byte_len(s));
    }
}

/// Law: when more hints are asked than there are letters, they come
/// shortest first (by length in bytes).
pub proof fn law_hints_sorted(alphabet: Seq<Seq<char>>, n: nat)
    requires
        0 < alphabet.len() < n,
    ensures
        sorted_by_key(huffman_hints(alphabet, n), |s: Seq<char>| byte_len(s)),
{
    let m = huffman_paths(n, alphabet.len()).map_values(|p: Seq<usize>| hint_text(alphabet, p));
    lemma_sort_sorted(m, |s: Seq<char>| byte_len(s));
}

/// Law: over letters that are single, distinct characters, no hint is a
/// prefix of another, so every hint is unique and typing one never stops
/// at another.
pub proof fn law_hints_prefix_free(alphabet: Seq<Seq<char>>, n: nat)
    requires
        distinct_letters(alphabet),
        !(alphabet.len() == 1 && n > 1),
        n <= usize::MAX / 4,
    ensures
        prefix_free(huffman_hints(alphabet, n)),
{
    let res = huffman_hints(alphabet, n);
    if n == 0 || alphabet.len() == 0 {
    } else if n <= alphabet.len() {
        assert forall|i: int, j: int|
            0 <= i < res.len() && 0 <= j < res.len() && i != j implies !(#[trigger] res[i]).is_prefix_of(
            #[trigger] res[j],
        ) by {
            assert(res[i] == alphabet[i] && res[j] == alphabet[j]);
            if res[i].is_prefix_of(res[j]) {
                assert(res[i][0] == res[j].subrange(0, 1)[0]);
            }
        }
    } else {
        let arity = alphabet.len();
        lemma_huffman_tree(n, arity);
        let (arena, h) = huffman_arena(n, arity);
        let ps = huffman_paths(n, arity);
        lemma_paths_shape(arena, h[0].2 as int, arity as int);
        let f = |p: Seq<usize>| hint_text(alphabet, p);
        let m = ps.map_values(f);
        assert forall|i: int, j: int|
            0 <= i < m.len() && 0 <= j < m.len() && i != j implies !(#[trigger] m[i]).is_prefix_of(
            #[trigger] m[j],
        ) by {
            assert(ps.contains(ps[i]) && ps.contains(ps[j]));
            if m[i].is_prefix_of(m[j]) {
                assert forall|t: int| 0 <= t < ps[i].len() implies (#[trigger] ps[i][t] as int)
                    < alphabet.len() by {}
                assert forall|t: int| 0 <= t < ps[j].len() implies (#[trigger] ps[j][t] as int)
                    < alphabet.len() by {}
                lemma_hint_prefix(alphabet, ps[i], ps[j]);
            }
        }
        lemma_sort_pairwise(
            m,
            |s: Seq<char>| byte_len(s),
            |a: Seq<char>, b: Seq<char>| !a.is_prefix_of(b),
        );
        lemma_sort_len_and_elems(m, |s: Seq<char>| byte_len(s));
    }
}


/// A character that is one of the alphabet's letters.
pub open spec fn is_letter(alphabet: Seq<Seq<char>>, c: char) -> bool {
    exists|k: int| 0 <= k < alphabet.len() && (#[trigger] alphabet[k])[0] == c
}

/// Law: over letters that are single, distinct characters, every hint is
/// non-empty and spelt with the alphabet's letters only.
pub proof fn law_hints_spelt_with_letters(alphabet: Seq<Seq<char>>, n: nat)
    requires
        distinct_letters(alphabet),
        !(alphabet.len() == 1 && n > 1),
        n <= usize::MAX / 4,
    ensures
        forall|i: int| 0 <= i < huffman_hints(alphabet, n).len() ==> (#[trigger] huffman_hints(alphabet, n)[i]).len() > 0,
        forall|i: int, t: int|
            0 <= i < huffman_hints(alphabet, n).len() && 0 <= t < huffman_hints(alphabet, n)[i].len() ==> is_letter(
                alphabet,
                #[trigger] huffman_hints(alphabet, n)[i][t],
            ),
{
    let res = huffman_hints(alphabet, n);
    if n == 0 || alphabet.len() == 0 {
    } else if n <= alphabet.len() {
        assert forall|i: int, t: int| 0 <= i < res.len() && 0 <= t < res[i].len() implies is_letter(
            alphabet,
            #[trigger] res[i][t],
        ) by {
            assert(res[i] == alphabet[i]);
            assert(alphabet[i].len() == 1);
            assert(t == 0);
        }
        assert forall|i: int| 0 <= i < res.len() implies (#[trigger] res[i]).len() > 0 by {
            assert(res[i] == alphabet[i]);
        }
    } else {
        let arity = alphabet.len();
        lemma_huffman_tree(n, arity);
        let (arena, h) = huffman_arena(n, arity);
        let ps = huffman_paths(n, arity);
        lemma_paths_shape(arena, h[0].2 as int, arity as int);
        let m = ps.map_values(|p: Seq<usize>| hint_text(alphabet, p));
        lemma_sort_len_and_elems(m, |s: Seq<char>| byte_len(s));
        assert forall|i: int, t: int| 0 <= i < res.len() && 0 <= t < res[i].len() implies is_letter(
            alphabet,
            #[trigger] res[i][t],
        ) by {
            assert(res.contains(res[i]));
            assert(m.contains(res[i]));
            let j = choose|j: int| 0 <= j < m.len() && m[j] == res[i];
            assert(ps.contains(ps[j]));
            assert forall|u: int| 0 <= u < ps[j].len() implies (#[trigger] ps[j][u] as int) < alphabet.len() by {}
            lemma_hint_text_letters(alphabet, ps[j]);
            let k = ps[j][t] as int;
            assert(alphabet[k][0] == res[i][t]);
        }
        law_hint_count(alphabet, n);
        law_hints_prefix_free(alphabet, n);
        assert forall|i: int| 0 <= i < res.len() implies (#[trigger] res[i]).len() > 0 by {
            let other = if i == 0 { 1int } else { 0int };
            if res[i].len() == 0 {
                assert(res[i].is_prefix_of(res[other]));
            }
        }
    }
}

/// The name of the cache file of `n` hints over an alphabet: the letters
/// run together, a dash, and `n`.
pub open spec fn cache_name(alphabet: Seq<Seq<char>>, n: nat) -> Seq<char> {
    crate::text::join(alphabet, seq![]) + seq!['-'] + crate::text::decimal(n)
}

/// The name of the cache file of `n` hints over an alphabet.
pub fn cache_file_name(alphabet: &[String], n: usize) -> (res: String)
    ensures
        res@ == cache_name(string_views(alphabet@), n as nat),
{
    let ghost av = string_views(alphabet@);
    let mut out = String::new();
    let mut i: usize = 0;
    while i < alphabet.len()
        invariant
            av == string_views(alphabet@),
            i <= alphabet@.len(),
            out@ == crate::text::join(av.take(i as int), seq![]),
        decreases alphabet@.len() - i,
    {
        proof {
            assert(av.take(i + 1).drop_last() == av.take(i as int));
            assert(av.take(i + 1).last() == alphabet@[i as int]@);
            if i == 0 {
                assert(av.take(1) =~= seq![alphabet@[0]@]);
            }
        }
        out.append(alphabet[i].as_str());
        proof {
            if i > 0 {
                assert(out@ =~= crate::text::join(av.take(i as int), seq![]) + Seq::<char>::empty()
                    + alphabet@[i as int]@);
            }
        }
        i = i + 1;
    }
    proof {
        assert(av.take(i as int) == av);
    }
    crate::outside::push_char(&mut out, '-');
    let digits = crate::text::decimal_string(n);
    out.append(digits.as_str());
    out
}

/// Where the hints for `n` matches over an alphabet are cached: a file
/// named after them in the cache directory.
pub fn cache_key(alphabet: &[String], n: usize) -> (res: String)
    ensures
        exists|b: Option<Seq<char>>|
            crate::config::path_join(
                #[trigger] crate::config::cache_dir_at(b),
                cache_name(string_views(alphabet@), n as nat),
            ) == res@,
{
    let dir = crate::config::cache_dir();
    let ghost b = choose|b: Option<Seq<char>>| #[trigger] crate::config::cache_dir_at(b) == dir@;
    let name = cache_file_name(alphabet, n);
    let res = crate::config::join_path(dir.as_str(), name.as_str());
    assert(crate::config::path_join(crate::config::cache_dir_at(b), cache_name(string_views(alphabet@), n as nat))
        == res@);
    res
}

/// The hints in a cache file's text: the trimmed text split at colons;
/// none when the trimmed text is empty.
pub open spec fn cached_hints(data: Seq<char>) -> Option<Seq<Seq<char>>> {
    let t = crate::text::trim(data);
    if t.len() == 0 {
        None
    } else {
        Some(crate::text::split_by(t, |d: char| d == ':'))
    }
}

/// The hints in a cache file's text, if it holds any.
pub fn parse_cache(data: &str) -> (res: Option<Vec<String>>)
    ensures
        match res {
            Some(v) => cached_hints(data@) == Some(string_views(v@)),
            None => cached_hints(data@) is None,
        },
{
    let t = crate::text::trim_str(data);
    if t.as_str().unicode_len() == 0 {
        None
    } else {
        Some(crate::text::split_char(t.as_str(), ':'))
    }
}

/// The text of a cache file: the hints joined with colons.
pub fn cache_text(hints: &Vec<String>) -> (res: String)
    ensures
        res@ == crate::text::join(string_views(hints@), seq![':']),
{
    proof {
        reveal_strlit(":");
        assert(":"@ =~= seq![':']);
    }
    crate::text::join_strings(hints, ":")
}


/// Whether generated hints go to the cache: only those built from a
/// Huffman tree, that is more hints than letters over two letters or more.
pub fn saves_to_cache(alphabet: &[String], n: usize) -> (res: bool)
    ensures
        res == (alphabet@.len() > 1 && n > alphabet@.len() && n <= usize::MAX / 4),
{
    alphabet.len() > 1 && n > alphabet.len() && n <= usize::MAX / 4
}

/// Law: the hint cache reads back what was written.  Hints that are not
/// empty and hold no colon and no white space, saved as the cache file's
/// text, are read back as the same hints.
pub proof fn law_cache_round_trip(hints: Seq<Seq<char>>)
    requires
        hints.len() > 0,
        forall|i: int| 0 <= i < hints.len() ==> (#[trigger] hints[i]).len() > 0,
        forall|i: int, j: int|
            0 <= i < hints.len() && 0 <= j < hints[i].len() ==> (#[trigger] hints[i][j]) != ':' && !crate::text::is_space(
                hints[i][j],
            ),
    ensures
        cached_hints(crate::text::join(hints, seq![':'])) == Some(hints),
{
    let text = crate::text::join(hints, seq![':']);
    crate::text::lemma_join_ends(hints, seq![':']);
    assert(!crate::text::is_space(hints[0][0]));
    let last = hints.len() - 1;
    assert(!crate::text::is_space(hints[last][hints[last].len() - 1]));
    crate::text::lemma_trim_unchanged(text);
    crate::text::lemma_split_join(hints, ':');
}

} // verus!
