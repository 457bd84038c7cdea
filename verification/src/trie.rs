//! Prefix tree over sequences of any element type: each element is mapped
//! to a child slot in `[0, sigma_size)`, and values sit on the nodes that end
//! keys.
use vstd::prelude::*;
use core::ops::Range;
use core::marker::PhantomData;
use crate::error::TrieError;
use crate::collection::{Collection, Disposable};

verus! {

/// Largest node index a child slot can hold.
pub const MAX_NODE_INDEX: usize = 0xffff_ffff;

/// Largest number of nodes (one more than the largest index, where `usize` holds it).
pub open spec fn max_node_count() -> usize {
    if MAX_NODE_INDEX < usize::MAX {
        (MAX_NODE_INDEX + 1) as usize
    } else {
        usize::MAX
    }
}

fn exec_max_node_count() -> (r: usize)
    ensures
        r == max_node_count(),
{
    if MAX_NODE_INDEX < usize::MAX {
        MAX_NODE_INDEX + 1
    } else {
        usize::MAX
    }
}

/// Options for creating a trie.
pub struct TrieOptions<Idx, Merge> {
    /// Number of child slots of each node.
    pub sigma_size: usize,
    /// Maps an element to a child slot in `[0, sigma_size)`.
    pub idx: Idx,
    /// Merges the stored value with a value inserted again under the same key.
    pub merge_node_value: Merge,
}

/// A match of a stored key: the exclusive end position in the input and the value.
#[derive(Debug, Clone, PartialEq, Eq)]
pub struct TrieNodeData<T> {
    pub end: usize,
    pub val: T,
}

/// Outcome of following a key from the root.
pub enum Walk {
    /// Every element maps to a slot and the key's node exists.
    Found,
    /// The prefix of this length has no node (the elements before it map fine).
    Missing(int),
    /// The element at this position maps outside `[0, sigma)`.
    Bad(int),
}

/// Following the slots `ks` from position `j` among the node paths `nodes`.
pub open spec fn walk_from(ks: Seq<usize>, j: int, sigma: nat, nodes: Set<Seq<usize>>) -> Walk
    decreases ks.len() - j,
{
    if j < 0 || j >= ks.len() {
        Walk::Found
    } else if ks[j] >= sigma {
        Walk::Bad(j)
    } else if !nodes.contains(ks.subrange(0, j + 1)) {
        Walk::Missing(j + 1)
    } else {
        walk_from(ks, j + 1, sigma, nodes)
    }
}

/// The error, if any, of creating a node when `count` nodes exist.
pub open spec fn creation_error(count: int) -> Option<TrieError> {
    if count > MAX_NODE_INDEX {
        Some(TrieError::NodeOverflow { max_nodes: max_node_count() })
    } else {
        None
    }
}

/// Inserting the path `ks` from position `j`: the result, the node paths and
/// the node count after creating the missing nodes.
pub open spec fn insert_walk(
    ks: Seq<usize>,
    j: int,
    sigma: nat,
    nodes: Set<Seq<usize>>,
    count: int,
) -> (Result<(), TrieError>, Set<Seq<usize>>, int)
    decreases ks.len() - j,
{
    if j < 0 || j >= ks.len() {
        (Ok(()), nodes, count)
    } else if ks[j] >= sigma {
        (Err(TrieError::IndexOutOfRange { index: ks[j], sigma_size: sigma as usize }), nodes, count)
    } else if nodes.contains(ks.subrange(0, j + 1)) {
        insert_walk(ks, j + 1, sigma, nodes, count)
    } else {
        match creation_error(count) {
            Some(e) => (Err(e), nodes, count),
            None => insert_walk(ks, j + 1, sigma, nodes.insert(ks.subrange(0, j + 1)), count + 1),
        }
    }
}

/// `f` maps each element to exactly one slot.
pub open spec fn functional<E, Idx: Fn(&E) -> usize>(f: Idx) -> bool {
    forall|e: &E, a: usize, b: usize| #[trigger] call_ensures(f, (e,), a) && #[trigger] call_ensures(f, (e,), b) ==> a == b
}

/// `f` accepts every element of `elements[start..end]`.
pub open spec fn mappable<E, Idx: Fn(&E) -> usize>(f: Idx, elements: Seq<E>, start: int, end: int) -> bool {
    forall|i: int| start <= i < end ==> #[trigger] call_requires(f, (&elements[i],))
}

/// `m` can merge every pair of values.
pub open spec fn merge_total<V, Merge: Fn(V, V) -> V>(m: Merge) -> bool {
    forall|a: V, b: V| #[trigger] call_requires(m, (a, b))
}

/// The slots of `elements[start..end]`.
pub open spec fn slots<E, Idx: Fn(&E) -> usize>(f: Idx, elements: Seq<E>, start: int, end: int) -> Seq<usize> {
    Seq::new((end - start) as nat, |i: int| slot_of(f, elements[start + i]))
}

/// `a` is a prefix of `b`.
pub open spec fn prefix_of(a: Seq<usize>, b: Seq<usize>) -> bool {
    a.len() <= b.len() && b.subrange(0, a.len() as int) == a
}

/// The keys stored among the nodes: the paths of the nodes that hold a value.
pub open spec fn key_set<V>(p: Seq<Seq<usize>>, vals: Seq<Option<V>>) -> Set<Seq<usize>> {
    Set::new(|k: Seq<usize>| exists|u: int| 0 <= u < p.len() && p[u] == k && vals[u] is Some)
}

/// The node whose path is `k`.
pub open spec fn node_of(p: Seq<Seq<usize>>, k: Seq<usize>) -> int {
    choose|u: int| 0 <= u < p.len() && p[u] == k
}

/// The map from stored keys to their values.
pub open spec fn key_map<V>(p: Seq<Seq<usize>>, vals: Seq<Option<V>>) -> Map<Seq<usize>, V> {
    Map::new(|k: Seq<usize>| key_set(p, vals).contains(k), |k: Seq<usize>| vals[node_of(p, k)]->Some_0)
}

/// The stored keys in node order.
pub open spec fn keys_upto<V>(p: Seq<Seq<usize>>, vals: Seq<Option<V>>, k: int) -> Seq<Seq<usize>>
    decreases k,
{
    if k <= 0 {
        Seq::empty()
    } else if vals[k - 1] is Some {
        keys_upto(p, vals, k - 1).push(p[k - 1])
    } else {
        keys_upto(p, vals, k - 1)
    }
}

/// Number of stored keys among the first `k` nodes that have `pre` as a prefix.
pub open spec fn count_below<V>(p: Seq<Seq<usize>>, vals: Seq<Option<V>>, pre: Seq<usize>, k: int) -> int
    decreases k,
{
    if k <= 0 {
        0
    } else {
        count_below(p, vals, pre, k - 1) + if vals[k - 1] is Some && prefix_of(pre, p[k - 1]) { 1int } else { 0 }
    }
}

/// The slot that `f` gives `e`.
pub open spec fn slot_of<E, Idx: Fn(&E) -> usize>(f: Idx, e: E) -> usize {
    choose|r: usize| call_ensures(f, (&e,), r)
}

/// The range `[start, end)` lies within a sequence of length `len`.
pub open spec fn range_ok(start: int, end: int, len: int) -> bool {
    0 <= start <= end <= len
}

/// The edge from node `u` by slot `c` is either absent or leads to the node
/// whose path extends `u`'s by `c`.
pub open spec fn edge_ok(next: Seq<u32>, p: Seq<Seq<usize>>, n: int, sg: int, u: int, c: int) -> bool {
    let v = next[u * sg + c] as int;
    v != 0 ==> 0 < v < n && p[v] == p[u].push(c as usize)
}

/// Node `w` hangs below its recorded parent, an older node, by the last slot of its path.
pub open spec fn parent_ok(next: Seq<u32>, parent: Seq<usize>, p: Seq<Seq<usize>>, sg: int, w: int) -> bool {
    let u = parent[w] as int;
    &&& 0 <= u < w
    &&& p[w].len() >= 1
    &&& p[u] == p[w].drop_last()
    &&& p[w].last() < sg
    &&& next[u * sg + p[w].last() as int] as int == w
}

/// The shape of the node arrays: paths, edges, parents and subtree counts agree.
pub open spec fn shape_ok<V>(
    next: Seq<u32>,
    parent: Seq<usize>,
    below: Seq<usize>,
    vals: Seq<Option<V>>,
    p: Seq<Seq<usize>>,
    n: int,
    sg: int,
) -> bool {
    &&& sg > 0
    &&& 1 <= n <= max_node_count()
    &&& n * sg <= next.len()
    &&& vals.len() >= n
    &&& parent.len() >= n
    &&& below.len() >= n
    &&& p.len() == n
    &&& p[0] == Seq::<usize>::empty()
    &&& forall|u: int, c: int| 0 <= u < n && 0 <= c < sg ==> #[trigger] edge_ok(next, p, n, sg, u, c)
    &&& forall|w: int| 1 <= w < n ==> #[trigger] parent_ok(next, parent, p, sg, w)
    &&& forall|a: int, b: int| 0 <= a < n && 0 <= b < n && #[trigger] p[a] == #[trigger] p[b] ==> a == b
    &&& forall|w: int| 0 <= w < n ==> #[trigger] below[w] == count_below(p, vals, p[w], n)
}

/// The set of node paths.
pub open spec fn node_set(p: Seq<Seq<usize>>) -> Set<Seq<usize>> {
    Set::new(|k: Seq<usize>| exists|u: int| 0 <= u < p.len() && p[u] == k)
}

proof fn lemma_count_bounds<V>(p: Seq<Seq<usize>>, vals: Seq<Option<V>>, pre: Seq<usize>, k: int)
    requires
        0 <= k,
    ensures
        0 <= count_below(p, vals, pre, k) <= k,
    decreases k,
{
    if k > 0 {
        lemma_count_bounds(p, vals, pre, k - 1);
    }
}

proof fn lemma_count_update<V>(p: Seq<Seq<usize>>, vals: Seq<Option<V>>, pre: Seq<usize>, x: int, nv: Option<V>, k: int)
    requires
        0 <= x < vals.len(),
        0 <= k <= vals.len(),
    ensures
        count_below(p, vals.update(x, nv), pre, k) == count_below(p, vals, pre, k)
            - (if x < k && vals[x] is Some && prefix_of(pre, p[x]) { 1int } else { 0 })
            + (if x < k && nv is Some && prefix_of(pre, p[x]) { 1int } else { 0 }),
    decreases k,
{
    if k > 0 {
        lemma_count_update(p, vals, pre, x, nv, k - 1);
    }
}

/// Node `u` has the same path and value in both arrays.
spec fn agree<V>(p: Seq<Seq<usize>>, vals: Seq<Option<V>>, p2: Seq<Seq<usize>>, vals2: Seq<Option<V>>, u: int) -> bool {
    p[u] == p2[u] && vals[u] == vals2[u]
}

proof fn lemma_count_same<V>(p: Seq<Seq<usize>>, vals: Seq<Option<V>>, p2: Seq<Seq<usize>>, vals2: Seq<Option<V>>, pre: Seq<usize>, k: int)
    requires
        0 <= k,
        forall|u: int| 0 <= u < k ==> #[trigger] agree(p, vals, p2, vals2, u),
    ensures
        count_below(p, vals, pre, k) == count_below(p2, vals2, pre, k),
    decreases k,
{
    if k > 0 {
        lemma_count_same(p, vals, p2, vals2, pre, k - 1);
        assert(agree(p, vals, p2, vals2, k - 1));
    }
}

proof fn lemma_count_zero<V>(p: Seq<Seq<usize>>, vals: Seq<Option<V>>, pre: Seq<usize>, k: int)
    requires
        0 <= k,
        forall|u: int| 0 <= u < k ==> !prefix_of(pre, #[trigger] p[u]),
    ensures
        count_below(p, vals, pre, k) == 0,
    decreases k,
{
    if k > 0 {
        lemma_count_zero(p, vals, pre, k - 1);
    }
}

proof fn lemma_count_witness<V>(p: Seq<Seq<usize>>, vals: Seq<Option<V>>, pre: Seq<usize>, k: int)
    requires
        0 <= k,
    ensures
        count_below(p, vals, pre, k) > 0 <==> exists|u: int| 0 <= u < k && #[trigger] vals[u] is Some && prefix_of(pre, p[u]),
    decreases k,
{
    if k > 0 {
        lemma_count_witness(p, vals, pre, k - 1);
        lemma_count_bounds(p, vals, pre, k - 1);
        if count_below(p, vals, pre, k - 1) > 0 {
            let u = choose|u: int| 0 <= u < k - 1 && #[trigger] vals[u] is Some && prefix_of(pre, p[u]);
            assert(0 <= u < k && vals[u] is Some && prefix_of(pre, p[u]));
        }
        if vals[k - 1] is Some && prefix_of(pre, p[k - 1]) {
            assert(vals[k - 1] is Some);
        }
    }
}

/// Every prefix of a node's path is the path of a node.
proof fn lemma_prefix_node(next: Seq<u32>, parent: Seq<usize>, p: Seq<Seq<usize>>, n: int, sg: int, w: int, m: int)
    requires
        forall|x: int| 1 <= x < n ==> #[trigger] parent_ok(next, parent, p, sg, x),
        p[0] == Seq::<usize>::empty(),
        0 <= w < n,
        0 <= m <= p[w].len(),
    ensures
        exists|u: int| 0 <= u < n && #[trigger] p[u] == p[w].subrange(0, m),
    decreases w,
{
    if m == p[w].len() {
        assert(p[w] == p[w].subrange(0, m));
    } else {
        assert(w != 0);
        assert(parent_ok(next, parent, p, sg, w));
        let u = parent[w] as int;
        assert(p[u].subrange(0, m) =~= p[w].subrange(0, m));
        lemma_prefix_node(next, parent, p, n, sg, u, m);
    }
}

/// A walk that stops at a missing node stops inside the key, at a prefix
/// with no node.
proof fn lemma_walk_missing(ks: Seq<usize>, j: int, sigma: nat, nodes: Set<Seq<usize>>, m: int)
    requires
        0 <= j,
        walk_from(ks, j, sigma, nodes) == Walk::Missing(m),
    ensures
        j < m <= ks.len(),
        !nodes.contains(ks.subrange(0, m)),
    decreases ks.len() - j,
{
    if j < ks.len() && ks[j] < sigma && nodes.contains(ks.subrange(0, j + 1)) {
        lemma_walk_missing(ks, j + 1, sigma, nodes, m);
    }
}

/// Prefixes longer than `lo` that are not stored add no match.
proof fn lemma_matches_beyond<V>(mp: Map<Seq<usize>, V>, ks: Seq<usize>, start: int, lo: int, len: int)
    requires
        0 <= lo <= len,
        forall|l: int| lo < l <= len ==> !#[trigger] mp.contains_key(ks.subrange(0, l)),
    ensures
        matches_upto(mp, ks, start, len) == matches_upto(mp, ks, start, lo),
    decreases len,
{
    if len > lo {
        lemma_matches_beyond(mp, ks, start, lo, len - 1);
    }
}

/// With no node at `p[u].push(c)`, the edge is absent.
proof fn lemma_edge_absent(next: Seq<u32>, parent: Seq<usize>, p: Seq<Seq<usize>>, n: int, sg: int, u: int, c: int, w: int)
    requires
        forall|x: int| 1 <= x < n ==> #[trigger] parent_ok(next, parent, p, sg, x),
        forall|a: int, b: int| 0 <= a < n && 0 <= b < n && #[trigger] p[a] == #[trigger] p[b] ==> a == b,
        p[0] == Seq::<usize>::empty(),
        0 <= u < n,
        0 <= c < sg,
        sg <= usize::MAX,
        next[u * sg + c] == 0,
        0 <= w < n,
    ensures
        p[w] != p[u].push(c as usize),
{
    if p[w] == p[u].push(c as usize) {
        assert(w != 0) by {
            assert(p[w].len() >= 1);
        }
        assert(parent_ok(next, parent, p, sg, w));
        let pw = parent[w] as int;
        assert(p[pw] =~= p[u]);
        assert(pw == u);
        assert(p[w].last() == c);
    }
}

/// Distinct nodes have distinct paths.
pub open spec fn injective(p: Seq<Seq<usize>>) -> bool {
    forall|a: int, b: int| 0 <= a < p.len() && 0 <= b < p.len() && #[trigger] p[a] == #[trigger] p[b] ==> a == b
}

proof fn lemma_node_of<V>(p: Seq<Seq<usize>>, x: int)
    requires
        injective(p),
        0 <= x < p.len(),
    ensures
        node_of(p, p[x]) == x,
{
    let u = node_of(p, p[x]);
    assert(0 <= u < p.len() && p[u] == p[x]);
}

proof fn lemma_keys_upto<V>(p: Seq<Seq<usize>>, vals: Seq<Option<V>>, k: int)
    requires
        injective(p),
        0 <= k <= p.len(),
    ensures
        keys_upto(p, vals, k).no_duplicates(),
        keys_upto(p, vals, k).len() == count_below(p, vals, Seq::<usize>::empty(), k),
        forall|x: Seq<usize>| keys_upto(p, vals, k).contains(x) <==> exists|u: int| 0 <= u < k && #[trigger] p[u] == x && vals[u] is Some,
    decreases k,
{
    if k > 0 {
        lemma_keys_upto(p, vals, k - 1);
        let ks = keys_upto(p, vals, k - 1);
        assert(prefix_of(Seq::<usize>::empty(), p[k - 1])) by {
            assert(p[k - 1].subrange(0, 0) =~= Seq::<usize>::empty());
        }
        if vals[k - 1] is Some {
            assert forall|x: Seq<usize>| keys_upto(p, vals, k).contains(x) <==> exists|u: int| 0 <= u < k && #[trigger] p[u] == x && vals[u] is Some by {
                if keys_upto(p, vals, k).contains(x) {
                    if x == p[k - 1] {
                        assert(0 <= k - 1 < k && p[k - 1] == x && vals[k - 1] is Some);
                    } else {
                        assert(ks.contains(x));
                        let u = choose|u: int| 0 <= u < k - 1 && #[trigger] p[u] == x && vals[u] is Some;
                        assert(0 <= u < k && p[u] == x && vals[u] is Some);
                    }
                }
                if exists|u: int| 0 <= u < k && #[trigger] p[u] == x && vals[u] is Some {
                    let u = choose|u: int| 0 <= u < k && #[trigger] p[u] == x && vals[u] is Some;
                    if u < k - 1 {
                        assert(ks.contains(x));
                        assert(keys_upto(p, vals, k) == ks.push(p[k - 1]));
                        assert(keys_upto(p, vals, k)[ks.index_of(x)] == x);
                    } else {
                        assert(keys_upto(p, vals, k)[ks.len() as int] == x);
                    }
                }
            }
            assert(!ks.contains(p[k - 1])) by {
                if ks.contains(p[k - 1]) {
                    let u = choose|u: int| 0 <= u < k - 1 && #[trigger] p[u] == p[k - 1] && vals[u] is Some;
                    assert(p[u] == p[k - 1]);
                }
            }
            let ks2 = ks.push(p[k - 1]);
            assert forall|i: int, j: int| 0 <= i < ks2.len() && 0 <= j < ks2.len() && i != j implies ks2[i] != ks2[j] by {
                if i < ks.len() && j < ks.len() {
                } else if i < ks.len() {
                    assert(ks.contains(ks2[i]));
                } else {
                    assert(ks.contains(ks2[j]));
                }
            }
        } else {
            assert forall|x: Seq<usize>| keys_upto(p, vals, k).contains(x) <==> exists|u: int| 0 <= u < k && #[trigger] p[u] == x && vals[u] is Some by {
                if exists|u: int| 0 <= u < k && #[trigger] p[u] == x && vals[u] is Some {
                    let u = choose|u: int| 0 <= u < k && #[trigger] p[u] == x && vals[u] is Some;
                    assert(u != k - 1);
                    assert(0 <= u < k - 1 && p[u] == x && vals[u] is Some);
                }
            }
        }
    }
}

/// The stored keys as a set, and how many there are.
proof fn lemma_key_count<V>(p: Seq<Seq<usize>>, vals: Seq<Option<V>>)
    requires
        injective(p),
    ensures
        keys_upto(p, vals, p.len() as int).to_set() == key_set(p, vals),
        key_set(p, vals).len() == count_below(p, vals, Seq::<usize>::empty(), p.len() as int),
        key_set(p, vals).finite(),
{
    let ks = keys_upto(p, vals, p.len() as int);
    lemma_keys_upto(p, vals, p.len() as int);
    assert(ks.to_set() =~= key_set(p, vals));
    ks.unique_seq_to_set();
}

proof fn lemma_map_set<V>(p: Seq<Seq<usize>>, vals: Seq<Option<V>>, x: int, v: V)
    requires
        injective(p),
        0 <= x < p.len(),
        p.len() <= vals.len(),
    ensures
        key_map(p, vals.update(x, Some(v))) == key_map(p, vals).insert(p[x], v),
{
    let m1 = key_map(p, vals.update(x, Some(v)));
    let m2 = key_map(p, vals).insert(p[x], v);
    lemma_node_of::<V>(p, x);
    assert forall|k: Seq<usize>| m1.dom().contains(k) <==> m2.dom().contains(k) by {
        if m2.dom().contains(k) && k != p[x] {
            let u = choose|u: int| 0 <= u < p.len() && p[u] == k && vals[u] is Some;
            assert(u != x);
            assert(0 <= u < p.len() && p[u] == k && vals.update(x, Some(v))[u] is Some);
        }
        if k == p[x] {
            assert(0 <= x < p.len() && p[x] == k && vals.update(x, Some(v))[x] is Some);
        }
    }
    assert forall|k: Seq<usize>| #[trigger] m1.dom().contains(k) implies m1[k] == m2[k] by {
        if k != p[x] {
            let u = node_of(p, k);
            let w = choose|u: int| 0 <= u < p.len() && p[u] == k && vals.update(x, Some(v))[u] is Some;
            assert(0 <= u < p.len() && p[u] == k);
            assert(u != x);
        }
    }
    assert(m1 =~= m2);
}

proof fn lemma_map_clear<V>(p: Seq<Seq<usize>>, vals: Seq<Option<V>>, x: int)
    requires
        injective(p),
        0 <= x < p.len(),
        p.len() <= vals.len(),
    ensures
        key_map(p, vals.update(x, None)) == key_map(p, vals).remove(p[x]),
{
    let m1 = key_map(p, vals.update(x, None));
    let m2 = key_map(p, vals).remove(p[x]);
    lemma_node_of::<V>(p, x);
    assert forall|k: Seq<usize>| m1.dom().contains(k) <==> m2.dom().contains(k) by {
        if m1.dom().contains(k) {
            let u = choose|u: int| 0 <= u < p.len() && p[u] == k && vals.update(x, None)[u] is Some;
            assert(u != x);
            assert(0 <= u < p.len() && p[u] == k && vals[u] is Some);
        }
        if m2.dom().contains(k) {
            let u = choose|u: int| 0 <= u < p.len() && p[u] == k && vals[u] is Some;
            assert(u != x);
            assert(0 <= u < p.len() && p[u] == k && vals.update(x, None)[u] is Some);
        }
    }
    assert forall|k: Seq<usize>| #[trigger] m1.dom().contains(k) implies m1[k] == m2[k] by {
        let u = node_of(p, k);
        let w = choose|u: int| 0 <= u < p.len() && p[u] == k && vals.update(x, None)[u] is Some;
        assert(0 <= u < p.len() && p[u] == k);
        assert(u != x);
    }
    assert(m1 =~= m2);
}

proof fn lemma_map_extend<V>(p: Seq<Seq<usize>>, vals: Seq<Option<V>>, p2: Seq<Seq<usize>>, vals2: Seq<Option<V>>)
    requires
        injective(p2),
        p2.len() == p.len() + 1,
        p.len() <= vals.len(),
        p2.len() <= vals2.len(),
        forall|u: int| #![trigger p[u]] #![trigger p2[u]] 0 <= u < p.len() ==> p2[u] == p[u] && vals2[u] == vals[u],
        vals2[p.len() as int] is None,
    ensures
        key_map(p2, vals2) == key_map(p, vals),
{
    let m1 = key_map(p2, vals2);
    let m2 = key_map(p, vals);
    assert forall|k: Seq<usize>| m1.dom().contains(k) <==> m2.dom().contains(k) by {
        if m1.dom().contains(k) {
            let u = choose|u: int| 0 <= u < p2.len() && p2[u] == k && vals2[u] is Some;
            assert(u < p.len());
            assert(0 <= u < p.len() && p[u] == k && vals[u] is Some);
        }
        if m2.dom().contains(k) {
            assert(key_set(p, vals).contains(k));
            let u = choose|u: int| 0 <= u < p.len() && p[u] == k && vals[u] is Some;
            assert(0 <= u < p.len());
            assert(p2[u] == p[u] && vals2[u] == vals[u]);
            assert(0 <= u < p2.len() && p2[u] == k && vals2[u] is Some);
        }
    }
    assert forall|k: Seq<usize>| #[trigger] m1.dom().contains(k) implies m1[k] == m2[k] by {
        let u = node_of(p2, k);
        let w = choose|u: int| 0 <= u < p2.len() && p2[u] == k && vals2[u] is Some;
        assert(0 <= u < p2.len() && p2[u] == k);
        assert(u == w);
        assert(u < p.len());
        let u2 = node_of(p, k);
        assert(0 <= u2 < p.len() && p[u2] == k);
        assert(p2[u2] == k);
    }
    assert(m1 =~= m2);
}

proof fn lemma_slot<E, Idx: Fn(&E) -> usize>(f: Idx, e: E, c: usize)
    requires
        functional::<E, Idx>(f),
        call_ensures(f, (&e,), c),
    ensures
        slot_of(f, e) == c,
{
    let r = slot_of(f, e);
    assert(call_ensures(f, (&e,), r));
}

/// The error that following `ks` from the root meets, if any.
pub open spec fn index_error(ks: Seq<usize>, sigma: usize, nodes: Set<Seq<usize>>) -> Option<TrieError> {
    match walk_from(ks, 0, sigma as nat, nodes) {
        Walk::Bad(j) => Some(TrieError::IndexOutOfRange { index: ks[j], sigma_size: sigma }),
        _ => None,
    }
}

/// Some stored key starts with `pre`.
pub open spec fn has_prefix<V>(m: Map<Seq<usize>, V>, pre: Seq<usize>) -> bool {
    exists|k: Seq<usize>| #[trigger] m.contains_key(k) && prefix_of(pre, k)
}

/// Checks that `range` lies within a sequence of length `len`.
fn check_range(len: usize, range: Range<usize>) -> (r: Result<Range<usize>, TrieError>)
    ensures
        range_ok(range.start as int, range.end as int, len as int) ==> r == Ok::<Range<usize>, TrieError>(range),
        !range_ok(range.start as int, range.end as int, len as int) ==> r == Err::<Range<usize>, TrieError>(
            TrieError::InvalidRange { start: range.start, end: range.end, len }),
{
    if range.start <= range.end && range.end <= len {
        return Ok(range);
    }
    Err(TrieError::InvalidRange { start: range.start, end: range.end, len })
}

/// A missing node on the way means the whole path is no node.
proof fn lemma_walk_missing_not_node(ks: Seq<usize>, sg: nat, nodes: Set<Seq<usize>>)
    ensures
        walk_from(ks, 0, sg, nodes) matches Walk::Missing(m) ==> 0 < m <= ks.len() && !nodes.contains(ks.subrange(0, m)),
{
    lemma_walk_missing_from(ks, 0, sg, nodes);
}

proof fn lemma_walk_missing_from(ks: Seq<usize>, j: int, sg: nat, nodes: Set<Seq<usize>>)
    requires
        0 <= j,
    ensures
        walk_from(ks, j, sg, nodes) matches Walk::Missing(m) ==> j < m <= ks.len() && !nodes.contains(ks.subrange(0, m)),
        walk_from(ks, j, sg, nodes) matches Walk::Bad(b) ==> j <= b < ks.len(),
    decreases ks.len() - j,
{
    if 0 <= j < ks.len() && ks[j] < sg && nodes.contains(ks.subrange(0, j + 1)) {
        lemma_walk_missing_from(ks, j + 1, sg, nodes);
    }
}

proof fn lemma_insert_walk_count(ks: Seq<usize>, j: int, sg: nat, nodes: Set<Seq<usize>>, count: int)
    ensures
        insert_walk(ks, j, sg, nodes, count).2 >= count,
    decreases ks.len() - j,
{
    if 0 <= j < ks.len() && ks[j] < sg {
        if nodes.contains(ks.subrange(0, j + 1)) {
            lemma_insert_walk_count(ks, j + 1, sg, nodes, count);
        } else if creation_error(count) is None {
            lemma_insert_walk_count(ks, j + 1, sg, nodes.insert(ks.subrange(0, j + 1)), count + 1);
        }
    }
}

/// What inserting `value` under `ks` leaves: the merged or new value under `ks`.
pub open spec fn inserted<V, Merge: Fn(V, V) -> V>(old_map: Map<Seq<usize>, V>, new_map: Map<Seq<usize>, V>, merge: Merge, ks: Seq<usize>, value: V) -> bool {
    &&& new_map.dom() == old_map.dom().insert(ks)
    &&& forall|k: Seq<usize>| k != ks && #[trigger] old_map.contains_key(k) ==> new_map[k] == old_map[k]
    &&& !old_map.contains_key(ks) ==> new_map[ks] == value
    &&& old_map.contains_key(ks) ==> call_ensures(merge, (old_map[ks], value), new_map[ks])
}

/// `kept` holds the keys of `m` on whose values `f` answered `true`.
pub open spec fn retain_answers<V, F: Fn(&V) -> bool>(f: F, m: Map<Seq<usize>, V>, kept: Set<Seq<usize>>) -> bool {
    forall|k: Seq<usize>| #[trigger] m.contains_key(k) ==> call_ensures(f, (&m[k],), kept.contains(k))
}

/// The stored keys among the prefixes of `ks` of lengths `1..=m`, shortest
/// first: each as its end position (`start` plus its length) and its value.
pub open spec fn matches_upto<V>(m: Map<Seq<usize>, V>, ks: Seq<usize>, start: int, len: int) -> Seq<(int, V)>
    decreases len,
{
    if len < 0 {
        Seq::empty()
    } else if len == 0 {
        if m.contains_key(ks.subrange(0, 0)) { seq![(start, m[ks.subrange(0, 0)])] } else { Seq::empty() }
    } else if m.contains_key(ks.subrange(0, len)) {
        matches_upto(m, ks, start, len - 1).push((start + len, m[ks.subrange(0, len)]))
    } else {
        matches_upto(m, ks, start, len - 1)
    }
}

/// How many elements of `ks` a walk from the root follows before a node is missing.
pub open spec fn walk_reach(ks: Seq<usize>, sigma: usize, nodes: Set<Seq<usize>>) -> int {
    match walk_from(ks, 0, sigma as nat, nodes) {
        Walk::Found => ks.len() as int,
        Walk::Missing(m) => m - 1,
        Walk::Bad(_) => 0,
    }
}

/// The matches reported for the key `ks` starting at `start`: the stored keys
/// among the prefixes of `ks` that the walk reaches, the empty one included,
/// shortest first.
pub open spec fn match_list<V>(m: Map<Seq<usize>, V>, ks: Seq<usize>, start: int, sigma: usize, nodes: Set<Seq<usize>>) -> Seq<(int, V)> {
    matches_upto(m, ks, start, walk_reach(ks, sigma, nodes))
}

/// After an insert, the key is stored: with the inserted value when it was
/// new, and every other key keeps its value.
pub proof fn lemma_insert_then_get<V, Merge: Fn(V, V) -> V>(
    m0: Map<Seq<usize>, V>,
    m1: Map<Seq<usize>, V>,
    merge: Merge,
    ks: Seq<usize>,
    value: V,
)
    requires
        inserted(m0, m1, merge, ks, value),
    ensures
        m1.contains_key(ks),
        !m0.contains_key(ks) ==> m1[ks] == value,
        forall|k: Seq<usize>| k != ks ==> (#[trigger] m1.contains_key(k) <==> m0.contains_key(k)),
        forall|k: Seq<usize>| k != ks && #[trigger] m0.contains_key(k) ==> m1[k] == m0[k],
{
    assert(m1.dom() == m0.dom().insert(ks));
}

/// Inserting a new key and removing it again gives back the stored keys and values.
pub proof fn lemma_insert_then_remove<V, Merge: Fn(V, V) -> V>(
    m0: Map<Seq<usize>, V>,
    m1: Map<Seq<usize>, V>,
    merge: Merge,
    ks: Seq<usize>,
    value: V,
)
    requires
        inserted(m0, m1, merge, ks, value),
        !m0.contains_key(ks),
    ensures
        m1.remove(ks) == m0,
{
    assert(m1.remove(ks) =~= m0);
}

/// An insert adds one key when the key is new and none otherwise.
pub proof fn lemma_insert_size<V, Merge: Fn(V, V) -> V>(
    m0: Map<Seq<usize>, V>,
    m1: Map<Seq<usize>, V>,
    merge: Merge,
    ks: Seq<usize>,
    value: V,
)
    requires
        inserted(m0, m1, merge, ks, value),
        m0.dom().finite(),
    ensures
        m1.len() == m0.len() + (if m0.contains_key(ks) { 0int } else { 1int }),
{
    assert(m1.dom() == m0.dom().insert(ks));
}

/// A stored key is a prefix of a stored key (itself).
pub proof fn lemma_key_has_prefix<V>(m: Map<Seq<usize>, V>, ks: Seq<usize>)
    requires
        m.contains_key(ks),
    ensures
        has_prefix(m, ks),
{
    assert(ks.subrange(0, ks.len() as int) =~= ks);
    assert(prefix_of(ks, ks));
}

/// Keys `a` and `b` agree before position `i`, where `a` has the smaller slot.
pub open spec fn differs_at(a: Seq<usize>, b: Seq<usize>, i: int) -> bool {
    &&& 0 <= i < a.len()
    &&& i < b.len()
    &&& a.subrange(0, i) == b.subrange(0, i)
    &&& a[i] < b[i]
}

/// `a` comes before `b` in slot order: a proper prefix of `b`, or smaller
/// at the first place where they differ.
pub open spec fn slot_less(a: Seq<usize>, b: Seq<usize>) -> bool {
    ||| (a.len() < b.len() && b.subrange(0, a.len() as int) == a)
    ||| exists|i: int| #[trigger] differs_at(a, b, i)
}

/// The keys are listed in slot order.
pub open spec fn slot_sorted(ks: Seq<Seq<usize>>) -> bool {
    forall|i: int, j: int| 0 <= i < j < ks.len() ==> slot_less(#[trigger] ks[i], #[trigger] ks[j])
}

/// The stored keys that start with `pre`.
pub open spec fn below_keys<V>(m: Map<Seq<usize>, V>, pre: Seq<usize>) -> Set<Seq<usize>> {
    Set::new(|k: Seq<usize>| m.contains_key(k) && prefix_of(pre, k))
}

/// `k` is a stored key that starts with `q` and is `q` itself or continues
/// with a slot below `c`.
pub open spec fn listed_before<V>(m: Map<Seq<usize>, V>, q: Seq<usize>, c: int, k: Seq<usize>) -> bool {
    below_keys(m, q).contains(k) && (k == q || k[q.len() as int] < c)
}

/// A listing in slot order names each key once.
pub proof fn lemma_slot_sorted_distinct(ks: Seq<Seq<usize>>)
    requires
        slot_sorted(ks),
    ensures
        ks.no_duplicates(),
{
    assert forall|i: int, j: int| 0 <= i < ks.len() && 0 <= j < ks.len() && i != j implies ks[i] != ks[j] by {
        if i < j {
            assert(slot_less(ks[i], ks[j]));
        } else {
            assert(slot_less(ks[j], ks[i]));
        }
        if ks[i] == ks[j] {
            let a = ks[i];
            if exists|t: int| #[trigger] differs_at(a, a, t) {
                let t = choose|t: int| #[trigger] differs_at(a, a, t);
                assert(a[t] < a[t]);
            }
        }
    }
}

/// Prefix tree storing values on the nodes that end keys; nodes are kept in
/// a flat table of `sigma_size` child slots each.
#[verifier::reject_recursive_types(E)]
#[verifier::reject_recursive_types(V)]
pub struct Trie<E, V, Idx, Merge> where Idx: Fn(&E) -> usize, Merge: Fn(V, V) -> V {
    sigma_size: usize,
    vals: Vec<Option<V>>,
    next: Vec<u32>,
    parent: Vec<usize>,
    below: Vec<usize>,
    map_fn: Idx,
    merge_fn: Merge,
    nodes: usize,
    words: usize,
    disposed: bool,
    paths: Ghost<Seq<Seq<usize>>>,
    marker: PhantomData<E>,
}

impl<E, V, Idx, Merge> Trie<E, V, Idx, Merge> where Idx: Fn(&E) -> usize, Merge: Fn(V, V) -> V {
    /// The slot path of every node, node 0 being the root.
    pub closed spec fn spec_paths(&self) -> Seq<Seq<usize>> {
        self.paths@
    }

    /// The stored keys (as slot paths) and their values.
    pub closed spec fn spec_map(&self) -> Map<Seq<usize>, V> {
        key_map(self.paths@, self.vals@)
    }

    /// The slot paths that exist as nodes.
    pub closed spec fn spec_nodes(&self) -> Set<Seq<usize>> {
        node_set(self.paths@)
    }

    pub closed spec fn spec_node_count(&self) -> nat {
        self.nodes as nat
    }

    pub closed spec fn spec_sigma(&self) -> usize {
        self.sigma_size
    }

    pub closed spec fn spec_idx(&self) -> Idx {
        self.map_fn
    }

    pub closed spec fn spec_merge(&self) -> Merge {
        self.merge_fn
    }

    pub closed spec fn spec_disposed(&self) -> bool {
        self.disposed
    }

    /// The trie's internal invariant.
    pub closed spec fn wf(&self) -> bool {
        &&& shape_ok(self.next@, self.parent@, self.below@, self.vals@, self.paths@, self.nodes as int, self.sigma_size as int)
        &&& functional::<E, Idx>(self.map_fn)
        &&& merge_total::<V, Merge>(self.merge_fn)
        &&& self.words == self.below@[0]
    }

    proof fn lemma_wf(&self)
        requires
            self.wf(),
        ensures
            injective(self.paths@),
            self.paths@.len() == self.nodes,
            self.paths@.len() <= self.vals@.len(),
            key_set(self.paths@, self.vals@).finite(),
            self.spec_map().len() == self.words,
            self.spec_map().dom() == key_set(self.paths@, self.vals@),
            self.sigma_size > 0,
            self.nodes >= 1,
    {
        lemma_key_count(self.paths@, self.vals@);
        assert(self.spec_map().dom() =~= key_set(self.paths@, self.vals@));
        assert(self.paths@[0] == Seq::<usize>::empty());
    }

    /// The matches up to the reach of the walk are all the stored prefixes of
    /// `ks`: a prefix beyond it has no node, so no stored key.
    proof fn lemma_match_list_complete(&self, ks: Seq<usize>, start: int)
        requires
            self.wf(),
            index_error(ks, self.spec_sigma(), self.spec_nodes()) is None,
        ensures
            match_list(self.spec_map(), ks, start, self.spec_sigma(), self.spec_nodes())
                == matches_upto(self.spec_map(), ks, start, ks.len() as int),
    {
        let sg = self.sigma_size as nat;
        let nodes = self.spec_nodes();
        let p = self.paths@;
        let n = self.nodes as int;
        self.lemma_wf();
        match walk_from(ks, 0, sg, nodes) {
            Walk::Missing(m) => {
                lemma_walk_missing(ks, 0, sg, nodes, m);
                assert forall|l: int| m - 1 < l <= ks.len() implies !#[trigger] self.spec_map().contains_key(ks.subrange(0, l)) by {
                    if self.spec_map().contains_key(ks.subrange(0, l)) {
                        assert(key_set(p, self.vals@).contains(ks.subrange(0, l)));
                        let u = choose|u: int| 0 <= u < p.len() && p[u] == ks.subrange(0, l) && self.vals@[u] is Some;
                        lemma_prefix_node(self.next@, self.parent@, p, n, self.sigma_size as int, u, m);
                        let w = choose|w: int| 0 <= w < n && #[trigger] p[w] == p[u].subrange(0, m);
                        assert(p[u].subrange(0, m) =~= ks.subrange(0, m));
                        assert(node_set(p).contains(ks.subrange(0, m)));
                    }
                }
                lemma_matches_beyond(self.spec_map(), ks, start, m - 1, ks.len() as int);
            },
            _ => {},
        }
    }

    /// A trie with no keys.
    pub fn new(options: TrieOptions<Idx, Merge>) -> (r: Result<Self, TrieError>)
        requires
            functional::<E, Idx>(options.idx),
            merge_total::<V, Merge>(options.merge_node_value),
        ensures
            options.sigma_size == 0 <==> r == Err::<Self, TrieError>(TrieError::InvalidSigmaSize { sigma_size: options.sigma_size }),
            r is Ok <==> options.sigma_size > 0,
            r matches Ok(t) ==> t.wf() && t.spec_map() == Map::<Seq<usize>, V>::empty()
                && t.spec_nodes() == set![Seq::<usize>::empty()] && t.spec_sigma() == options.sigma_size
                && t.spec_idx() == options.idx && t.spec_merge() == options.merge_node_value && !t.spec_disposed(),
    {
        let TrieOptions { sigma_size, idx, merge_node_value } = options;
        if sigma_size == 0 {
            return Err(TrieError::InvalidSigmaSize { sigma_size });
        }
        let mut vals: Vec<Option<V>> = Vec::new();
        vals.push(None);
        let mut next: Vec<u32> = Vec::new();
        let mut i: usize = 0;
        while i < sigma_size
            invariant
                i <= sigma_size,
                next.len() == i,
                forall|j: int| 0 <= j < i ==> #[trigger] next@[j] == 0,
            decreases sigma_size - i,
        {
            next.push(0);
            i += 1;
        }
        let mut parent: Vec<usize> = Vec::new();
        parent.push(0);
        let mut below: Vec<usize> = Vec::new();
        below.push(0);
        let ghost p0: Seq<Seq<usize>> = seq![Seq::<usize>::empty()];
        let t = Trie {
            sigma_size,
            vals,
            next,
            parent,
            below,
            map_fn: idx,
            merge_fn: merge_node_value,
            nodes: 1,
            words: 0,
            disposed: false,
            paths: Ghost(p0),
            marker: PhantomData,
        };
        proof {
            let p = t.paths@;
            assert forall|u: int, c: int| 0 <= u < 1 && 0 <= c < sigma_size implies #[trigger] edge_ok(t.next@, p, 1, sigma_size as int, u, c) by {
                assert(t.next@[u * sigma_size + c] == 0);
            }
            assert(t.vals@[0] is None);
            assert(count_below(p, t.vals@, p[0], 0) == 0);
            assert(count_below(p, t.vals@, p[0], 1) == 0);
            assert(t.spec_map() =~= Map::<Seq<usize>, V>::empty());
            assert(t.spec_nodes() =~= set![Seq::<usize>::empty()]);
        }
        Ok(t)
    }


    /// The slot path of `elements[start..end]`.
    pub open spec fn key_slots(&self, elements: Seq<E>, start: int, end: int) -> Seq<usize> {
        slots(self.spec_idx(), elements, start, end)
    }

    /// Follows `elements[start..end]` from the root: the node reached, `None`
    /// where a node is missing, or the error of an element mapped out of range.
    fn locate(&self, elements: &[E], start: usize, end: usize) -> (r: Result<Option<usize>, TrieError>)
        requires
            self.wf(),
            start <= end <= elements@.len(),
            mappable(self.spec_idx(), elements@, start as int, end as int),
        ensures
            ({
                let ks = self.key_slots(elements@, start as int, end as int);
                &&& (walk_from(ks, 0, self.spec_sigma() as nat, self.spec_nodes()) matches Walk::Found ==>
                    (r matches Ok(Some(u)) && u < self.spec_node_count() && self.spec_paths()[u as int] == ks))
                &&& (walk_from(ks, 0, self.spec_sigma() as nat, self.spec_nodes()) matches Walk::Missing(_) ==>
                    r == Ok::<Option<usize>, TrieError>(None))
                &&& (walk_from(ks, 0, self.spec_sigma() as nat, self.spec_nodes()) matches Walk::Bad(j) ==>
                    r == Err::<Option<usize>, TrieError>(TrieError::IndexOutOfRange { index: ks[j], sigma_size: self.spec_sigma() }))
            }),
    {
        let ghost ks = self.key_slots(elements@, start as int, end as int);
        let ghost p = self.paths@;
        let ghost nodes = self.spec_nodes();
        let ghost sg = self.sigma_size as nat;
        let mut node: usize = 0;
        let mut i: usize = start;
        proof {
            assert(ks.subrange(0, 0) =~= p[0]);
        }
        while i < end
            invariant
                self.wf(),
                start <= i <= end <= elements@.len(),
                ks == self.key_slots(elements@, start as int, end as int),
                ks.len() == end - start,
                mappable(self.spec_idx(), elements@, start as int, end as int),
                p == self.paths@,
                nodes == self.spec_nodes(),
                sg == self.sigma_size,
                node < self.nodes,
                p[node as int] == ks.subrange(0, i - start),
                walk_from(ks, 0, sg, nodes) == walk_from(ks, i - start, sg, nodes),
            decreases end - i,
        {
            let j = i - start;
            let c = (self.map_fn)(&elements[i]);
            proof {
                lemma_slot(self.map_fn, elements@[i as int], c);
                assert(ks[j as int] == c);
            }
            if c >= self.sigma_size {
                return Err(TrieError::IndexOutOfRange { index: c, sigma_size: self.sigma_size });
            }
            proof {
                lemma_edge_pos(node as int, c as int, self.sigma_size as int, self.nodes as int);
                assert(edge_ok(self.next@, p, self.nodes as int, self.sigma_size as int, node as int, c as int));
                assert(p[node as int].push(c) =~= ks.subrange(0, j + 1));
                assert(node * self.sigma_size + c < self.next.len());
            }
            let nx = self.next[node * self.sigma_size + c] as usize;
            if nx == 0 {
                proof {
                    assert forall|w: int| 0 <= w < self.nodes implies p[w] != ks.subrange(0, j + 1) by {
                        lemma_edge_absent(self.next@, self.parent@, p, self.nodes as int, self.sigma_size as int, node as int, c as int, w);
                    }
                    assert(!nodes.contains(ks.subrange(0, j + 1)));
                }
                return Ok(None);
            }
            proof {
                assert(p[nx as int] == ks.subrange(0, j + 1));
                assert(nodes.contains(ks.subrange(0, j + 1)));
            }
            node = nx;
            i += 1;
        }
        proof {
            assert(ks.subrange(0, ks.len() as int) =~= ks);
        }
        Ok(Some(node))
    }

    /// When the walk meets a missing node, no stored key has the path as a prefix.
    proof fn lemma_missing_no_key(&self, ks: Seq<usize>)
        requires
            self.wf(),
            walk_from(ks, 0, self.spec_sigma() as nat, self.spec_nodes()) is Missing,
        ensures
            !self.spec_map().contains_key(ks),
            !has_prefix(self.spec_map(), ks),
    {
        lemma_walk_missing_not_node(ks, self.sigma_size as nat, self.spec_nodes());
        let m = walk_from(ks, 0, self.sigma_size as nat, self.spec_nodes())->Missing_0;
        let p = self.paths@;
        assert forall|k: Seq<usize>| #[trigger] self.spec_map().contains_key(k) implies !prefix_of(ks, k) by {
            let u = choose|u: int| 0 <= u < p.len() && p[u] == k && self.vals@[u] is Some;
            if prefix_of(ks, k) {
                lemma_prefix_node(self.next@, self.parent@, p, self.nodes as int, self.sigma_size as int, u, m);
                let w = choose|w: int| 0 <= w < self.nodes && #[trigger] p[w] == p[u].subrange(0, m);
                assert(p[u].subrange(0, m) =~= ks.subrange(0, m));
                assert(self.spec_nodes().contains(ks.subrange(0, m)));
            }
        }
        assert(prefix_of(ks, ks)) by {
            assert(ks.subrange(0, ks.len() as int) =~= ks);
        }
    }

    /// The value stored under `elements[range]`.
    pub fn try_get_range(&self, elements: &[E], range: Range<usize>) -> (r: Result<Option<&V>, TrieError>)
        requires
            self.wf(),
            range_ok(range.start as int, range.end as int, elements@.len() as int) ==> mappable(self.spec_idx(), elements@, range.start as int, range.end as int),
        ensures
            !range_ok(range.start as int, range.end as int, elements@.len() as int) ==> r == Err::<Option<&V>, TrieError>(
                TrieError::InvalidRange { start: range.start, end: range.end, len: elements@.len() as usize }),
            range_ok(range.start as int, range.end as int, elements@.len() as int) ==> ({
                let ks = self.key_slots(elements@, range.start as int, range.end as int);
                match index_error(ks, self.spec_sigma(), self.spec_nodes()) {
                    Some(e) => r == Err::<Option<&V>, TrieError>(e),
                    None => r == Ok::<Option<&V>, TrieError>(
                        if self.spec_map().contains_key(ks) { Some(&self.spec_map()[ks]) } else { None }),
                }
            }),
    {
        let range = match check_range(elements.len(), range) {
            Ok(r) => r,
            Err(e) => return Err(e),
        };
        let ghost ks = self.key_slots(elements@, range.start as int, range.end as int);
        proof {
            self.lemma_wf();
        }
        match self.locate(elements, range.start, range.end) {
            Err(e) => Err(e),
            Ok(None) => {
                proof {
                    self.lemma_missing_no_key(ks);
                }
                Ok(None)
            },
            Ok(Some(u)) => {
                proof {
                    lemma_node_of::<V>(self.paths@, u as int);
                    if self.vals@[u as int] is Some {
                        assert(key_set(self.paths@, self.vals@).contains(ks));
                    } else {
                        assert(!self.spec_map().contains_key(ks)) by {
                            if self.spec_map().contains_key(ks) {
                                let w = choose|w: int| 0 <= w < self.paths@.len() && self.paths@[w] == ks && self.vals@[w] is Some;
                                assert(self.paths@[w] == self.paths@[u as int]);
                            }
                        }
                    }
                }
                Ok(self.vals[u].as_ref())
            },
        }
    }


    /// Adds `delta` (1 or -1) to the key count of `x` and of each of its ancestors,
    /// after the value of node `x` appeared or disappeared.
    fn adjust_below(&mut self, x: usize, grow: bool, Ghost(vals0): Ghost<Seq<Option<V>>>)
        requires
            shape_ok(old(self).next@, old(self).parent@, old(self).below@, vals0, old(self).paths@,
                old(self).nodes as int, old(self).sigma_size as int),
            x < old(self).nodes,
            vals0.len() == old(self).vals@.len(),
            grow ==> vals0[x as int] is None && old(self).vals@ == vals0.update(x as int, old(self).vals@[x as int])
                && old(self).vals@[x as int] is Some,
            !grow ==> vals0[x as int] is Some && old(self).vals@ == vals0.update(x as int, None),
        ensures
            shape_ok(final(self).next@, final(self).parent@, final(self).below@, final(self).vals@, final(self).paths@,
                final(self).nodes as int, final(self).sigma_size as int),
            final(self).below@[0] == if grow { old(self).below@[0] + 1 } else { old(self).below@[0] - 1 },
            final(self).next == old(self).next,
            final(self).parent == old(self).parent,
            final(self).vals == old(self).vals,
            final(self).paths == old(self).paths,
            final(self).nodes == old(self).nodes,
            final(self).words == old(self).words,
            final(self).sigma_size == old(self).sigma_size,
            final(self).map_fn == old(self).map_fn,
            final(self).merge_fn == old(self).merge_fn,
            final(self).disposed == old(self).disposed,
    {
        let ghost p = self.paths@;
        let ghost n = self.nodes as int;
        let ghost vals1 = self.vals@;
        let ghost below0 = self.below@;
        let ghost d: int = if grow { 1 } else { -1 };
        proof {
            assert forall|w: int| 0 <= w < n implies #[trigger] count_below(p, vals1, p[w], n)
                == count_below(p, vals0, p[w], n) + (if prefix_of(p[w], p[x as int]) { d } else { 0 }) by {
                lemma_count_update(p, vals0, p[w], x as int, vals1[x as int], n);
                assert(vals0.update(x as int, vals1[x as int]) == vals1);
            }
        }
        let mut y = x;
        proof {
            assert(p[x as int].subrange(0, p[x as int].len() as int) =~= p[x as int]);
            assert forall|w: int| 0 <= w < n && prefix_of(p[w], p[x as int]) && p[w].len() > p[x as int].len() implies false by {}
        }
        loop
            invariant_except_break
                forall|w: int| 0 <= w < n ==> #[trigger] self.below@[w] == below0[w]
                    + (if prefix_of(p[w], p[x as int]) && p[w].len() > p[y as int].len() { d } else { 0 }),
            invariant
                self.paths@ == p,
                self.nodes == n,
                self.vals@ == vals1,
                self.next == old(self).next,
                self.parent == old(self).parent,
                self.vals == old(self).vals,
                self.paths == old(self).paths,
                self.nodes == old(self).nodes,
                self.words == old(self).words,
                self.sigma_size == old(self).sigma_size,
                self.map_fn == old(self).map_fn,
                self.merge_fn == old(self).merge_fn,
                self.disposed == old(self).disposed,
                self.below.len() == below0.len(),
                shape_ok(self.next@, self.parent@, below0, vals0, p, n, self.sigma_size as int),
                y < n,
                prefix_of(p[y as int], p[x as int]),
                d == (if grow { 1int } else { -1int }),
                forall|w: int| 0 <= w < n ==> #[trigger] count_below(p, vals1, p[w], n)
                    == count_below(p, vals0, p[w], n) + (if prefix_of(p[w], p[x as int]) { d } else { 0 }),
            ensures
                forall|w: int| 0 <= w < n ==> #[trigger] self.below@[w] == below0[w]
                    + (if prefix_of(p[w], p[x as int]) { d } else { 0 }),
                self.below.len() == below0.len(),
            decreases y,
        {
            proof {
                lemma_count_bounds(p, vals1, p[y as int], n);
                assert(self.below@[y as int] == below0[y as int]);
                assert(count_below(p, vals1, p[y as int], n) == below0[y as int] + d);
            }
            let b = self.below[y];
            let nb = if grow { b + 1 } else { b - 1 };
            self.below.set(y, nb);
            proof {
                assert forall|w: int| 0 <= w < n && prefix_of(p[w], p[x as int]) && p[w].len() == p[y as int].len() implies w == y by {
                    assert(p[w] =~= p[y as int]);
                }
            }
            if y == 0 {
                proof {
                    assert forall|w: int| 0 <= w < n implies #[trigger] self.below@[w] == below0[w]
                        + (if prefix_of(p[w], p[x as int]) { d } else { 0 }) by {
                        if w != 0 && prefix_of(p[w], p[x as int]) {
                            assert(p[w].len() > 0) by {
                                assert(parent_ok(self.next@, self.parent@, p, self.sigma_size as int, w));
                            }
                        }
                    }
                }
                break;
            }
            proof {
                assert(parent_ok(self.next@, self.parent@, p, self.sigma_size as int, y as int));
            }
            let py = self.parent[y];
            proof {
                assert(p[py as int] =~= p[y as int].drop_last());
                assert(p[x as int].subrange(0, p[py as int].len() as int) =~= p[y as int].subrange(0, p[py as int].len() as int));
                assert forall|w: int| 0 <= w < n implies #[trigger] self.below@[w] == below0[w]
                    + (if prefix_of(p[w], p[x as int]) && p[w].len() > p[py as int].len() { d } else { 0 }) by {
                    if w != y && prefix_of(p[w], p[x as int]) && p[w].len() == p[y as int].len() {
                        assert(p[w] =~= p[y as int]);
                    }
                }
            }
            y = py;
        }
        proof {
            assert(p[x as int].subrange(0, 0) =~= p[0]);
            assert(prefix_of(p[0], p[x as int]));
        }
    }

    /// Adds node `id = nodes` as the child of `node` by slot `c`.
    fn add_child(&mut self, node: usize, c: usize) -> (r: Result<usize, TrieError>)
        requires
            old(self).wf(),
            node < old(self).nodes,
            c < old(self).sigma_size,
            old(self).next@[node * old(self).sigma_size + c] == 0,
            old(self).nodes <= MAX_NODE_INDEX ==> (old(self).nodes + 1) * old(self).sigma_size <= usize::MAX,
        ensures
            final(self).sigma_size == old(self).sigma_size,
            final(self).map_fn == old(self).map_fn,
            final(self).merge_fn == old(self).merge_fn,
            final(self).disposed == old(self).disposed,
            final(self).words == old(self).words,
            old(self).nodes > MAX_NODE_INDEX ==> r == Err::<usize, TrieError>(TrieError::NodeOverflow { max_nodes: max_node_count() })
                && *final(self) == *old(self),
            old(self).nodes <= MAX_NODE_INDEX ==> r == Ok::<usize, TrieError>(old(self).nodes) && final(self).wf()
                && final(self).nodes == old(self).nodes + 1
                && final(self).paths@ == old(self).paths@.push(old(self).paths@[node as int].push(c))
                && final(self).spec_map() == old(self).spec_map()
                && final(self).next@[node * old(self).sigma_size + c] == old(self).nodes,
    {
        let id = self.nodes;
        if id > MAX_NODE_INDEX {
            return Err(TrieError::NodeOverflow { max_nodes: exec_max_node_count() });
        }
        let ghost p = self.paths@;
        let ghost n = id as int;
        let ghost sg = self.sigma_size as int;
        let ghost vals0 = self.vals@;
        let ghost next0 = self.next@;
        let ghost q = p[node as int].push(c);
        proof {
            self.lemma_wf();
            assert forall|w: int| 0 <= w < n implies p[w] != q by {
                lemma_edge_absent(self.next@, self.parent@, p, n, sg, node as int, c as int, w);
            }
            assert forall|w: int| 0 <= w < n implies !prefix_of(q, #[trigger] p[w]) by {
                if prefix_of(q, p[w]) {
                    lemma_prefix_node(self.next@, self.parent@, p, n, sg, w, q.len() as int);
                    let z = choose|z: int| 0 <= z < n && #[trigger] p[z] == p[w].subrange(0, q.len() as int);
                    assert(p[z] =~= q);
                }
            }
        }
        if self.vals.len() <= id {
            self.vals.push(None);
        } else {
            self.vals.set(id, None);
        }
        if self.parent.len() <= id {
            self.parent.push(node);
        } else {
            self.parent.set(id, node);
        }
        if self.below.len() <= id {
            self.below.push(0);
        } else {
            self.below.set(id, 0);
        }
        proof {
            assert(id * sg <= (id + 1) * sg && id * sg + sg == (id + 1) * sg) by (nonlinear_arith)
                requires
                    sg > 0,
            ;
        }
        let start = id * self.sigma_size;
        let end = start + self.sigma_size;
        proof {
            assert(start == n * sg);
            assert(end == (n + 1) * sg) by (nonlinear_arith)
                requires
                    start == n * sg,
                    end == start + sg,
            ;
        }
        let mut k: usize = start;
        let ghost vals_l = self.vals@;
        let ghost parent_l = self.parent@;
        let ghost below_l = self.below@;
        while k < end
            invariant
                self.vals@ == vals_l,
                self.parent@ == parent_l,
                self.below@ == below_l,
                self.sigma_size == sg,
                self.nodes == old(self).nodes,
                self.words == old(self).words,
                self.paths == old(self).paths,
                self.map_fn == old(self).map_fn,
                self.merge_fn == old(self).merge_fn,
                self.disposed == old(self).disposed,
                start <= k <= end,
                start == n * sg,
                end == (n + 1) * sg,
                n * sg <= next0.len(),
                self.next.len() >= k,
                self.next.len() == if next0.len() >= k { next0.len() as int } else { k as int },
                forall|j: int| 0 <= j < start ==> #[trigger] self.next@[j] == next0[j],
                forall|j: int| start <= j < k ==> #[trigger] self.next@[j] == 0,
            decreases end - k,
        {
            if k < self.next.len() {
                self.next.set(k, 0);
            } else {
                self.next.push(0);
            }
            k += 1;
        }
        self.nodes = id + 1;
        proof {
            self.paths = Ghost(p.push(q));
            lemma_edge_pos(node as int, c as int, sg, n);
        }
        let pos = node * self.sigma_size + c;
        self.next.set(pos, id as u32);
        proof {
            let p2 = self.paths@;
            let n2 = n + 1;
            let vals2 = self.vals@;
            let next2 = self.next@;
            assert(p2[n] == q);
            assert forall|u: int| 0 <= u < n implies #[trigger] agree(p, vals0, p2, vals2, u) by {}
            assert forall|u: int, c2: int| 0 <= u < n2 && 0 <= c2 < sg implies #[trigger] edge_ok(next2, p2, n2, sg, u, c2) by {
                lemma_edge_pos(u, c2, sg, n2);
                if u < n {
                    lemma_edge_pos(u, c2, sg, n);
                    assert(edge_ok(next0, p, n, sg, u, c2));
                    if u * sg + c2 != pos {
                        assert(next2[u * sg + c2] == next0[u * sg + c2]);
                    } else {
                        assert(u == node && c2 == c) by (nonlinear_arith)
                            requires
                                u * sg + c2 == node * sg + c,
                                0 <= c2 < sg,
                                0 <= c < sg,
                                0 <= u,
                                0 <= node,
                        ;
                    }
                } else {
                    assert(u * sg + c2 >= start);
                    assert(next2[u * sg + c2] == 0);
                }
            }
            assert forall|w: int| 1 <= w < n2 implies #[trigger] parent_ok(next2, self.parent@, p2, sg, w) by {
                if w < n {
                    assert(parent_ok(next0, old(self).parent@, p, sg, w));
                    let pw = old(self).parent@[w] as int;
                    lemma_edge_pos(pw, p[w].last() as int, sg, n);
                    if pw * sg + p[w].last() == pos {
                        assert(pw == node && p[w].last() == c) by (nonlinear_arith)
                            requires
                                pw * sg + p[w].last() == node * sg + c,
                                0 <= p[w].last() < sg,
                                0 <= c < sg,
                                0 <= pw,
                                0 <= node,
                        ;
                        assert(next0[pos as int] == w);
                    }
                } else {
                    assert(q.drop_last() =~= p[node as int]);
                }
            }
            assert forall|a: int, b: int| 0 <= a < n2 && 0 <= b < n2 && #[trigger] p2[a] == #[trigger] p2[b] implies a == b by {
                if a < n && b < n {
                    assert(p[a] == p[b]);
                }
            }
            assert forall|w: int| 0 <= w < n2 implies #[trigger] self.below@[w] == count_below(p2, vals2, p2[w], n2) by {
                lemma_count_same(p, vals0, p2, vals2, p2[w], n);
                if w < n {
                    assert(self.below@[w] == old(self).below@[w]);
                } else {
                    lemma_count_zero(p, vals0, q, n);
                }
            }
            lemma_map_extend(p, vals0, p2, vals2);
        }
        Ok(id)
    }

    /// Some stored key runs through node `u` exactly when `u` counts a key below it.
    proof fn lemma_has_prefix(&self, u: int)
        requires
            self.wf(),
            0 <= u < self.nodes,
        ensures
            has_prefix(self.spec_map(), self.paths@[u]) <==> self.below@[u] > 0,
    {
        let p = self.paths@;
        let n = self.nodes as int;
        self.lemma_wf();
        lemma_count_witness(p, self.vals@, p[u], n);
        if self.below@[u] > 0 {
            let w = choose|w: int| 0 <= w < n && #[trigger] self.vals@[w] is Some && prefix_of(p[u], p[w]);
            assert(key_set(p, self.vals@).contains(p[w]));
            assert(self.spec_map().contains_key(p[w]));
        }
        if has_prefix(self.spec_map(), p[u]) {
            let k = choose|k: Seq<usize>| #[trigger] self.spec_map().contains_key(k) && prefix_of(p[u], k);
            assert(key_set(p, self.vals@).contains(k));
            let w = choose|w: int| 0 <= w < p.len() && p[w] == k && self.vals@[w] is Some;
            assert(self.vals@[w] is Some && prefix_of(p[u], p[w]));
        }
    }

    /// The value stored under `key`.
    pub fn try_get(&self, key: &[E]) -> (r: Result<Option<&V>, TrieError>)
        requires
            self.wf(),
            mappable(self.spec_idx(), key@, 0, key@.len() as int),
        ensures
            ({
                let ks = self.key_slots(key@, 0, key@.len() as int);
                match index_error(ks, self.spec_sigma(), self.spec_nodes()) {
                    Some(e) => r == Err::<Option<&V>, TrieError>(e),
                    None => r == Ok::<Option<&V>, TrieError>(
                        if self.spec_map().contains_key(ks) { Some(&self.spec_map()[ks]) } else { None }),
                }
            }),
    {
        self.try_get_range(key, 0..key.len())
    }

    /// Whether a value is stored under `elements[range]`.
    pub fn try_contains_range(&self, elements: &[E], range: Range<usize>) -> (r: Result<bool, TrieError>)
        requires
            self.wf(),
            range_ok(range.start as int, range.end as int, elements@.len() as int) ==> mappable(self.spec_idx(), elements@, range.start as int, range.end as int),
        ensures
            !range_ok(range.start as int, range.end as int, elements@.len() as int) ==> r == Err::<bool, TrieError>(
                TrieError::InvalidRange { start: range.start, end: range.end, len: elements@.len() as usize }),
            range_ok(range.start as int, range.end as int, elements@.len() as int) ==> ({
                let ks = self.key_slots(elements@, range.start as int, range.end as int);
                match index_error(ks, self.spec_sigma(), self.spec_nodes()) {
                    Some(e) => r == Err::<bool, TrieError>(e),
                    None => r == Ok::<bool, TrieError>(self.spec_map().contains_key(ks)),
                }
            }),
    {
        match self.try_get_range(elements, range) {
            Ok(v) => Ok(v.is_some()),
            Err(e) => Err(e),
        }
    }

    /// Whether a value is stored under `key`.
    pub fn try_contains(&self, key: &[E]) -> (r: Result<bool, TrieError>)
        requires
            self.wf(),
            mappable(self.spec_idx(), key@, 0, key@.len() as int),
        ensures
            ({
                let ks = self.key_slots(key@, 0, key@.len() as int);
                match index_error(ks, self.spec_sigma(), self.spec_nodes()) {
                    Some(e) => r == Err::<bool, TrieError>(e),
                    None => r == Ok::<bool, TrieError>(self.spec_map().contains_key(ks)),
                }
            }),
    {
        match self.try_get(key) {
            Ok(v) => Ok(v.is_some()),
            Err(e) => Err(e),
        }
    }

    /// Whether some stored key starts with `elements[range]`.
    pub fn try_contains_prefix_range(&self, elements: &[E], range: Range<usize>) -> (r: Result<bool, TrieError>)
        requires
            self.wf(),
            range_ok(range.start as int, range.end as int, elements@.len() as int) ==> mappable(self.spec_idx(), elements@, range.start as int, range.end as int),
        ensures
            !range_ok(range.start as int, range.end as int, elements@.len() as int) ==> r == Err::<bool, TrieError>(
                TrieError::InvalidRange { start: range.start, end: range.end, len: elements@.len() as usize }),
            range_ok(range.start as int, range.end as int, elements@.len() as int) ==> ({
                let ks = self.key_slots(elements@, range.start as int, range.end as int);
                match index_error(ks, self.spec_sigma(), self.spec_nodes()) {
                    Some(e) => r == Err::<bool, TrieError>(e),
                    None => r == Ok::<bool, TrieError>(has_prefix(self.spec_map(), ks)),
                }
            }),
    {
        let range = match check_range(elements.len(), range) {
            Ok(r) => r,
            Err(e) => return Err(e),
        };
        let ghost ks = self.key_slots(elements@, range.start as int, range.end as int);
        proof {
            self.lemma_wf();
        }
        if range.start == range.end {
            proof {
                assert(ks =~= self.paths@[0]);
                self.lemma_has_prefix(0);
            }
            return Ok(self.words > 0);
        }
        match self.locate(elements, range.start, range.end) {
            Err(e) => Err(e),
            Ok(None) => {
                proof {
                    self.lemma_missing_no_key(ks);
                }
                Ok(false)
            },
            Ok(Some(u)) => {
                proof {
                    self.lemma_has_prefix(u as int);
                }
                Ok(self.below[u] > 0)
            },
        }
    }

    /// Whether some stored key starts with `prefix`.
    pub fn try_contains_prefix(&self, prefix: &[E]) -> (r: Result<bool, TrieError>)
        requires
            self.wf(),
            mappable(self.spec_idx(), prefix@, 0, prefix@.len() as int),
        ensures
            ({
                let ks = self.key_slots(prefix@, 0, prefix@.len() as int);
                match index_error(ks, self.spec_sigma(), self.spec_nodes()) {
                    Some(e) => r == Err::<bool, TrieError>(e),
                    None => r == Ok::<bool, TrieError>(has_prefix(self.spec_map(), ks)),
                }
            }),
    {
        self.try_contains_prefix_range(prefix, 0..prefix.len())
    }

    /// Removes the value stored under `elements[range]`; answers whether there was one.
    pub fn try_remove_range(&mut self, elements: &[E], range: Range<usize>) -> (r: Result<bool, TrieError>)
        requires
            old(self).wf(),
            range_ok(range.start as int, range.end as int, elements@.len() as int) ==> mappable(old(self).spec_idx(), elements@, range.start as int, range.end as int),
        ensures
            final(self).wf(),
            final(self).spec_sigma() == old(self).spec_sigma(),
            final(self).spec_idx() == old(self).spec_idx(),
            final(self).spec_merge() == old(self).spec_merge(),
            final(self).spec_disposed() == old(self).spec_disposed(),
            final(self).spec_nodes() == old(self).spec_nodes(),
            !range_ok(range.start as int, range.end as int, elements@.len() as int) ==> r == Err::<bool, TrieError>(
                TrieError::InvalidRange { start: range.start, end: range.end, len: elements@.len() as usize })
                && final(self).spec_map() == old(self).spec_map(),
            range_ok(range.start as int, range.end as int, elements@.len() as int) ==> ({
                let ks = old(self).key_slots(elements@, range.start as int, range.end as int);
                match index_error(ks, old(self).spec_sigma(), old(self).spec_nodes()) {
                    Some(e) => r == Err::<bool, TrieError>(e) && final(self).spec_map() == old(self).spec_map(),
                    None => r == Ok::<bool, TrieError>(old(self).spec_map().contains_key(ks))
                        && final(self).spec_map() == old(self).spec_map().remove(ks),
                }
            }),
    {
        let range = match check_range(elements.len(), range) {
            Ok(r) => r,
            Err(e) => return Err(e),
        };
        let ghost ks = self.key_slots(elements@, range.start as int, range.end as int);
        proof {
            self.lemma_wf();
        }
        match self.locate(elements, range.start, range.end) {
            Err(e) => Err(e),
            Ok(None) => {
                proof {
                    self.lemma_missing_no_key(ks);
                    assert(self.spec_map().remove(ks) =~= self.spec_map());
                }
                Ok(false)
            },
            Ok(Some(u)) => {
                let ghost p = self.paths@;
                let ghost vals0 = self.vals@;
                proof {
                    lemma_node_of::<V>(p, u as int);
                }
                if self.vals[u].is_none() {
                    proof {
                        assert(!self.spec_map().contains_key(ks)) by {
                            if self.spec_map().contains_key(ks) {
                                let w = choose|w: int| 0 <= w < p.len() && p[w] == ks && vals0[w] is Some;
                                assert(p[w] == p[u as int]);
                            }
                        }
                        assert(self.spec_map().remove(ks) =~= self.spec_map());
                    }
                    return Ok(false);
                }
                proof {
                    assert(key_set(p, vals0).contains(ks));
                    lemma_map_clear(p, vals0, u as int);
                    lemma_count_update(p, vals0, Seq::<usize>::empty(), u as int, None, self.nodes as int);
                    assert(prefix_of(Seq::<usize>::empty(), p[u as int])) by {
                        assert(p[u as int].subrange(0, 0) =~= Seq::<usize>::empty());
                    }
                    assert(p[0] == Seq::<usize>::empty());
                    lemma_count_bounds(p, vals0.update(u as int, None), Seq::<usize>::empty(), self.nodes as int);
                }
                self.vals.set(u, None);
                self.words = self.words - 1;
                self.adjust_below(u, false, Ghost(vals0));
                Ok(true)
            },
        }
    }

    /// Removes the value stored under `key`; answers whether there was one.
    pub fn try_remove(&mut self, key: &[E]) -> (r: Result<bool, TrieError>)
        requires
            old(self).wf(),
            mappable(old(self).spec_idx(), key@, 0, key@.len() as int),
        ensures
            final(self).wf(),
            final(self).spec_sigma() == old(self).spec_sigma(),
            final(self).spec_idx() == old(self).spec_idx(),
            final(self).spec_merge() == old(self).spec_merge(),
            final(self).spec_disposed() == old(self).spec_disposed(),
            final(self).spec_nodes() == old(self).spec_nodes(),
            ({
                let ks = old(self).key_slots(key@, 0, key@.len() as int);
                match index_error(ks, old(self).spec_sigma(), old(self).spec_nodes()) {
                    Some(e) => r == Err::<bool, TrieError>(e) && final(self).spec_map() == old(self).spec_map(),
                    None => r == Ok::<bool, TrieError>(old(self).spec_map().contains_key(ks))
                        && final(self).spec_map() == old(self).spec_map().remove(ks),
                }
            }),
    {
        self.try_remove_range(key, 0..key.len())
    }

    /// Follows `elements[start..end]` from the root, creating the missing
    /// nodes, and stores `value` at the end (merged with a value already there).
    fn insert_path(&mut self, elements: &[E], start: usize, end: usize, value: V) -> (r: Result<(), TrieError>)
        requires
            old(self).wf(),
            start <= end <= elements@.len(),
            mappable(old(self).spec_idx(), elements@, start as int, end as int),
            insert_walk(old(self).key_slots(elements@, start as int, end as int), 0, old(self).sigma_size as nat,
                old(self).spec_nodes(), old(self).nodes as int).2 * old(self).sigma_size <= usize::MAX,
        ensures
            final(self).wf(),
            final(self).sigma_size == old(self).sigma_size,
            final(self).map_fn == old(self).map_fn,
            final(self).merge_fn == old(self).merge_fn,
            final(self).disposed == old(self).disposed,
            ({
                let ks = old(self).key_slots(elements@, start as int, end as int);
                let w = insert_walk(ks, 0, old(self).sigma_size as nat, old(self).spec_nodes(), old(self).nodes as int);
                &&& final(self).spec_nodes() == w.1
                &&& final(self).nodes == w.2
                &&& match w.0 {
                    Err(e) => r == Err::<(), TrieError>(e) && final(self).spec_map() == old(self).spec_map(),
                    Ok(_) => r is Ok && inserted(old(self).spec_map(), final(self).spec_map(), old(self).merge_fn, ks, value),
                }
            }),
    {
        let ghost ks = self.key_slots(elements@, start as int, end as int);
        let ghost sg = self.sigma_size as nat;
        let ghost w0 = insert_walk(ks, 0, sg, self.spec_nodes(), self.nodes as int);
        let ghost map0 = self.spec_map();
        let mut node: usize = 0;
        let mut i: usize = start;
        proof {
            self.lemma_wf();
            assert(ks.subrange(0, 0) =~= self.paths@[0]);
        }
        while i < end
            invariant
                self.wf(),
                self.sigma_size == sg,
                sg == old(self).sigma_size,
                ks == old(self).key_slots(elements@, start as int, end as int),
                w0 == insert_walk(ks, 0, sg, old(self).spec_nodes(), old(self).nodes as int),
                map0 == old(self).spec_map(),
                self.map_fn == old(self).map_fn,
                self.merge_fn == old(self).merge_fn,
                self.disposed == old(self).disposed,
                self.spec_map() == map0,
                start <= i <= end <= elements@.len(),
                ks == slots(self.map_fn, elements@, start as int, end as int),
                ks.len() == end - start,
                mappable(self.map_fn, elements@, start as int, end as int),
                node < self.nodes,
                self.paths@[node as int] == ks.subrange(0, i - start),
                w0 == insert_walk(ks, i - start, sg, self.spec_nodes(), self.nodes as int),
                w0.2 * sg <= usize::MAX,
            decreases end - i,
        {
            let j = i - start;
            let ghost p = self.paths@;
            let ghost n = self.nodes as int;
            let c = (self.map_fn)(&elements[i]);
            proof {
                lemma_slot(self.map_fn, elements@[i as int], c);
                assert(ks[j as int] == c);
            }
            if c >= self.sigma_size {
                return Err(TrieError::IndexOutOfRange { index: c, sigma_size: self.sigma_size });
            }
            proof {
                self.lemma_wf();
                lemma_edge_pos(node as int, c as int, sg as int, n);
                assert(edge_ok(self.next@, p, n, sg as int, node as int, c as int));
                assert(p[node as int].push(c) =~= ks.subrange(0, j + 1));
                assert(node * self.sigma_size + c < self.next.len());
            }
            let nx = self.next[node * self.sigma_size + c] as usize;
            if nx == 0 {
                proof {
                    assert forall|x: int| 0 <= x < n implies p[x] != ks.subrange(0, j + 1) by {
                        lemma_edge_absent(self.next@, self.parent@, p, n, sg as int, node as int, c as int, x);
                    }
                    assert(!self.spec_nodes().contains(ks.subrange(0, j + 1)));
                    if n <= MAX_NODE_INDEX {
                        lemma_insert_walk_count(ks, j + 1, sg, self.spec_nodes().insert(ks.subrange(0, j + 1)), n + 1);
                        assert((n + 1) * sg <= w0.2 * sg) by (nonlinear_arith)
                            requires
                                n + 1 <= w0.2,
                                sg > 0,
                        ;
                    }
                }
                let id = match self.add_child(node, c) {
                    Ok(id) => id,
                    Err(e) => return Err(e),
                };
                proof {
                    lemma_node_set_push(p, p[node as int].push(c));
                }
                node = id;
            } else {
                proof {
                    assert(self.spec_nodes().contains(ks.subrange(0, j + 1))) by {
                        assert(p[nx as int] == ks.subrange(0, j + 1));
                    }
                }
                node = nx;
            }
            i += 1;
        }
        proof {
            self.lemma_wf();
            assert(ks.subrange(0, ks.len() as int) =~= ks);
        }
        let ghost p = self.paths@;
        let ghost vals0 = self.vals@;
        let ghost n = self.nodes as int;
        proof {
            lemma_node_of::<V>(p, node as int);
        }
        if self.vals[node].is_some() {
            let prev = self.vals[node].take();
            let prev = prev.unwrap();
            let merged = (self.merge_fn)(prev, value);
            self.vals.set(node, Some(merged));
            proof {
                let vals1 = self.vals@;
                assert(vals1 == vals0.update(node as int, Some(merged)));
                lemma_map_set(p, vals0, node as int, merged);
                assert forall|w: int| 0 <= w < n implies #[trigger] self.below@[w] == count_below(p, vals1, p[w], n) by {
                    lemma_count_update(p, vals0, p[w], node as int, Some(merged), n);
                }
                assert(key_set(p, vals0).contains(ks));
            }
        } else {
            proof {
                lemma_count_update(p, vals0, Seq::<usize>::empty(), node as int, Some(value), n);
                assert(prefix_of(Seq::<usize>::empty(), p[node as int])) by {
                    assert(p[node as int].subrange(0, 0) =~= Seq::<usize>::empty());
                }
                lemma_count_bounds(p, vals0.update(node as int, Some(value)), Seq::<usize>::empty(), n);
                lemma_map_set(p, vals0, node as int, value);
                assert(!key_set(p, vals0).contains(ks)) by {
                    if key_set(p, vals0).contains(ks) {
                        let w = choose|w: int| 0 <= w < p.len() && p[w] == ks && vals0[w] is Some;
                        assert(p[w] == p[node as int]);
                    }
                }
            }
            self.vals.set(node, Some(value));
            self.words = self.words + 1;
            self.adjust_below(node, true, Ghost(vals0));
        }
        Ok(())
    }

    /// Both tries have the same slot count, slot map, merge and disposed flag.
    pub open spec fn same_settings(&self, other: &Self) -> bool {
        &&& self.spec_sigma() == other.spec_sigma()
        &&& self.spec_idx() == other.spec_idx()
        &&& self.spec_merge() == other.spec_merge()
        &&& self.spec_disposed() == other.spec_disposed()
    }

    /// Stores `value` under `elements[range]`, merged with the value already
    /// there; the nodes created on the way stay even when a later element fails.
    pub fn try_insert_range(&mut self, elements: &[E], range: Range<usize>, value: V) -> (r: Result<&mut Self, TrieError>)
        requires
            old(self).wf(),
            range_ok(range.start as int, range.end as int, elements@.len() as int) ==> mappable(old(self).spec_idx(), elements@, range.start as int, range.end as int),
            range_ok(range.start as int, range.end as int, elements@.len() as int) ==> insert_walk(
                old(self).key_slots(elements@, range.start as int, range.end as int), 0,
                old(self).spec_sigma() as nat, old(self).spec_nodes(), old(self).spec_node_count() as int,
            ).2 * old(self).spec_sigma() <= usize::MAX,
        ensures
            !range_ok(range.start as int, range.end as int, elements@.len() as int) ==> (r matches Err(e)
                && e == TrieError::InvalidRange { start: range.start, end: range.end, len: elements@.len() as usize })
                && *final(self) == *old(self),
            range_ok(range.start as int, range.end as int, elements@.len() as int) ==> ({
                let ks = old(self).key_slots(elements@, range.start as int, range.end as int);
                let w = insert_walk(ks, 0, old(self).spec_sigma() as nat, old(self).spec_nodes(), old(self).spec_node_count() as int);
                match w.0 {
                    Err(e) => (r matches Err(e2) && e2 == e) && final(self).wf() && final(self).same_settings(old(self))
                        && final(self).spec_map() == old(self).spec_map()
                        && final(self).spec_nodes() == w.1 && final(self).spec_node_count() == w.2,
                    Ok(_) => r matches Ok(t) && *final(self) == *final(t) && t.wf() && t.same_settings(old(self))
                        && inserted(old(self).spec_map(), t.spec_map(), old(self).spec_merge(), ks, value)
                        && t.spec_nodes() == w.1 && t.spec_node_count() == w.2,
                }
            }),
    {
        let range = match check_range(elements.len(), range) {
            Ok(r) => r,
            Err(e) => return Err(e),
        };
        match self.insert_path(elements, range.start, range.end, value) {
            Ok(()) => Ok(self),
            Err(e) => Err(e),
        }
    }

    /// Stores `value` under `key`, merged with the value already there.
    pub fn try_insert(&mut self, key: &[E], value: V) -> (r: Result<&mut Self, TrieError>)
        requires
            old(self).wf(),
            mappable(old(self).spec_idx(), key@, 0, key@.len() as int),
            insert_walk(old(self).key_slots(key@, 0, key@.len() as int), 0, old(self).spec_sigma() as nat,
                old(self).spec_nodes(), old(self).spec_node_count() as int).2 * old(self).spec_sigma() <= usize::MAX,
        ensures
            ({
                let ks = old(self).key_slots(key@, 0, key@.len() as int);
                let w = insert_walk(ks, 0, old(self).spec_sigma() as nat, old(self).spec_nodes(), old(self).spec_node_count() as int);
                match w.0 {
                    Err(e) => (r matches Err(e2) && e2 == e) && final(self).wf() && final(self).same_settings(old(self))
                        && final(self).spec_map() == old(self).spec_map()
                        && final(self).spec_nodes() == w.1 && final(self).spec_node_count() == w.2,
                    Ok(_) => r matches Ok(t) && *final(self) == *final(t) && t.wf() && t.same_settings(old(self))
                        && inserted(old(self).spec_map(), t.spec_map(), old(self).spec_merge(), ks, value)
                        && t.spec_nodes() == w.1 && t.spec_node_count() == w.2,
                }
            }),
    {
        self.try_insert_range(key, 0..key.len(), value)
    }

    /// Empties the trie, keeping its buffers for reuse.
    pub fn init(&mut self)
        requires
            old(self).wf(),
        ensures
            final(self).wf(),
            final(self).same_settings(old(self)),
            final(self).spec_map() == Map::<Seq<usize>, V>::empty(),
            final(self).spec_nodes() == set![Seq::<usize>::empty()],
            final(self).spec_node_count() == 1,
    {
        proof {
            self.lemma_wf();
        }
        self.nodes = 1;
        self.words = 0;
        self.vals.set(0, None);
        self.below.set(0, 0);
        proof {
            let n0 = old(self).nodes as int;
            let sg = self.sigma_size as int;
            assert(sg <= n0 * sg) by (nonlinear_arith)
                requires
                    n0 >= 1,
                    sg >= 0,
            ;
        }
        let mut k: usize = 0;
        while k < self.sigma_size
            invariant
                k <= self.sigma_size,
                self.sigma_size <= self.next.len(),
                self.sigma_size == old(self).sigma_size,
                self.sigma_size > 0,
                self.vals.len() >= 1,
                self.vals@[0] is None,
                self.parent.len() >= 1,
                self.below.len() >= 1,
                self.below@[0] == 0,
                self.nodes == 1,
                self.words == 0,
                self.map_fn == old(self).map_fn,
                self.merge_fn == old(self).merge_fn,
                self.disposed == old(self).disposed,
                functional::<E, Idx>(self.map_fn),
                merge_total::<V, Merge>(self.merge_fn),
                forall|j: int| 0 <= j < k ==> #[trigger] self.next@[j] == 0,
            decreases self.sigma_size - k,
        {
            self.next.set(k, 0);
            k += 1;
        }
        proof {
            self.paths = Ghost(seq![Seq::<usize>::empty()]);
            let p = self.paths@;
            let sg = self.sigma_size as int;
            assert forall|u: int, c: int| 0 <= u < 1 && 0 <= c < sg implies #[trigger] edge_ok(self.next@, p, 1, sg, u, c) by {
                assert(self.next@[u * sg + c] == 0);
            }
            assert(count_below(p, self.vals@, p[0], 0) == 0);
            assert(count_below(p, self.vals@, p[0], 1) == 0);
            assert(self.spec_map() =~= Map::<Seq<usize>, V>::empty());
            assert(self.spec_nodes() =~= set![Seq::<usize>::empty()]);
        }
    }

    /// Reserves room for `additional_nodes` more nodes, or reports why that
    /// many nodes cannot exist.
    pub fn reserve_nodes(&mut self, additional_nodes: usize) -> (r: Result<(), TrieError>)
        requires
            old(self).wf(),
        ensures
            final(self).wf(),
            final(self).same_settings(old(self)),
            final(self).spec_map() == old(self).spec_map(),
            final(self).spec_nodes() == old(self).spec_nodes(),
            final(self).spec_node_count() == old(self).spec_node_count(),
            r == if old(self).spec_node_count() + additional_nodes > max_node_count() {
                Err::<(), TrieError>(TrieError::NodeOverflow { max_nodes: max_node_count() })
            } else if (old(self).spec_node_count() + additional_nodes) * old(self).spec_sigma() > usize::MAX {
                Err::<(), TrieError>(TrieError::CapacityOverflow {
                    requested_nodes: (old(self).spec_node_count() + additional_nodes) as usize,
                    sigma_size: old(self).spec_sigma(),
                })
            } else {
                Ok::<(), TrieError>(())
            },
    {
        let target = match self.nodes.checked_add(additional_nodes) {
            Some(t) => t,
            None => return Err(TrieError::NodeOverflow { max_nodes: exec_max_node_count() }),
        };
        if target > exec_max_node_count() {
            return Err(TrieError::NodeOverflow { max_nodes: exec_max_node_count() });
        }
        let edges = match target.checked_mul(self.sigma_size) {
            Some(e) => e,
            None => return Err(TrieError::CapacityOverflow { requested_nodes: target, sigma_size: self.sigma_size }),
        };
        if self.vals.len() < target {
            self.vals.reserve(target - self.vals.len());
        }
        if self.next.len() < edges {
            self.next.reserve(edges - self.next.len());
        }
        Ok(())
    }

    /// Node `u` holds the value stored under its path.
    proof fn lemma_value_at(&self, u: int)
        requires
            self.wf(),
            0 <= u < self.nodes,
            self.vals@[u] is Some,
        ensures
            self.spec_map().contains_key(self.paths@[u]),
            self.spec_map()[self.paths@[u]] == self.vals@[u]->Some_0,
    {
        self.lemma_wf();
        lemma_node_of::<V>(self.paths@, u);
        assert(key_set(self.paths@, self.vals@).contains(self.paths@[u]));
    }

    /// Node `v` hangs below `u` by slot `c`, so it is a later node.
    proof fn lemma_child_later(&self, u: int, c: int, v: int)
        requires
            self.wf(),
            0 <= u < self.nodes,
            0 <= c < self.sigma_size,
            v == self.next@[u * self.sigma_size + c] as int,
            v != 0,
        ensures
            u < v < self.nodes,
            self.paths@[v] == self.paths@[u].push(c as usize),
    {
        let p = self.paths@;
        let n = self.nodes as int;
        let sg = self.sigma_size as int;
        self.lemma_wf();
        assert(edge_ok(self.next@, p, n, sg, u, c));
        assert(parent_ok(self.next@, self.parent@, p, sg, v));
        let w = self.parent@[v] as int;
        assert(p[v].drop_last() =~= p[u]);
        assert(p[w] == p[u]);
    }

    /// A stored key that extends `p[u]` by slot `c` has a node for `p[u].push(c)`,
    /// so the edge from `u` by `c` exists.
    proof fn lemma_key_needs_edge(&self, u: int, c: int, k: Seq<usize>)
        requires
            self.wf(),
            0 <= u < self.nodes,
            0 <= c < self.sigma_size,
            self.next@[u * self.sigma_size + c] == 0,
            self.spec_map().contains_key(k),
        ensures
            !prefix_of(self.paths@[u].push(c as usize), k),
    {
        let p = self.paths@;
        let n = self.nodes as int;
        let sg = self.sigma_size as int;
        self.lemma_wf();
        if prefix_of(p[u].push(c as usize), k) {
            let w = choose|w: int| 0 <= w < p.len() && p[w] == k && self.vals@[w] is Some;
            let m = (p[u].len() + 1) as int;
            lemma_prefix_node(self.next@, self.parent@, p, n, sg, w, m);
            let z = choose|z: int| 0 <= z < n && #[trigger] p[z] == p[w].subrange(0, m);
            assert(p[z] =~= p[u].push(c as usize));
            lemma_edge_absent(self.next@, self.parent@, p, n, sg, u, c, z);
        }
    }

    /// Every slot of a stored key that extends `p[u]` lies below `sigma_size`.
    proof fn lemma_key_slot(&self, u: int, k: Seq<usize>)
        requires
            self.wf(),
            0 <= u < self.nodes,
            self.spec_map().contains_key(k),
            prefix_of(self.paths@[u], k),
            k != self.paths@[u],
        ensures
            k.len() > self.paths@[u].len(),
            k[self.paths@[u].len() as int] < self.sigma_size,
    {
        let p = self.paths@;
        let n = self.nodes as int;
        let sg = self.sigma_size as int;
        self.lemma_wf();
        let q = p[u];
        if k.len() == q.len() {
            assert(k =~= k.subrange(0, q.len() as int));
        }
        let w = choose|w: int| 0 <= w < p.len() && p[w] == k && self.vals@[w] is Some;
        let m = (q.len() + 1) as int;
        lemma_prefix_node(self.next@, self.parent@, p, n, sg, w, m);
        let z = choose|z: int| 0 <= z < n && #[trigger] p[z] == p[w].subrange(0, m);
        assert(z != 0) by {
            assert(p[0] == Seq::<usize>::empty());
        }
        assert(parent_ok(self.next@, self.parent@, p, sg, z));
        assert(p[z].last() == k[q.len() as int]);
    }

    /// Appends references to the values stored at or below node `u`, their
    /// keys in slot order; answers those keys.
    fn collect_below<'a>(&'a self, u: usize, out: &mut Vec<&'a V>) -> (ks: Ghost<Seq<Seq<usize>>>)
        requires
            self.wf(),
            u < self.nodes,
        ensures
            slot_sorted(ks@),
            ks@.to_set() == below_keys(self.spec_map(), self.paths@[u as int]),
            final(out)@.len() == old(out)@.len() + ks@.len(),
            forall|i: int| 0 <= i < old(out)@.len() ==> #[trigger] final(out)@[i] == old(out)@[i],
            forall|i: int| 0 <= i < ks@.len() ==> *final(out)@[old(out)@.len() + i] == self.spec_map()[#[trigger] ks@[i]],
        decreases self.nodes - u,
    {
        let ghost p = self.paths@;
        let ghost q = p[u as int];
        let ghost m = self.spec_map();
        let ghost base = out@.len();
        let ghost out0 = out@;
        let ghost mut acc: Seq<Seq<usize>> = Seq::empty();
        proof {
            self.lemma_wf();
        }
        match &self.vals[u] {
            Some(v) => {
                proof {
                    self.lemma_value_at(u as int);
                    acc = seq![q];
                }
                out.push(v);
            },
            None => {
                proof {
                    assert(!m.contains_key(q)) by {
                        if m.contains_key(q) {
                            let w = choose|w: int| 0 <= w < p.len() && p[w] == q && self.vals@[w] is Some;
                            assert(p[w] == p[u as int]);
                        }
                    }
                }
            },
        }
        let mut c: usize = 0;
        proof {
            assert forall|k: Seq<usize>| #[trigger] acc.to_set().contains(k) <==> listed_before(m, q, c as int, k) by {
                if acc.to_set().contains(k) {
                    assert(acc.contains(k));
                    assert(q.subrange(0, q.len() as int) =~= q);
                }
                if below_keys(m, q).contains(k) && k == q {
                    assert(acc[0] == q);
                }
            }
        }
        while c < self.sigma_size
            invariant
                self.wf(),
                p == self.paths@,
                m == self.spec_map(),
                u < self.nodes,
                q == p[u as int],
                c <= self.sigma_size,
                slot_sorted(acc),
                forall|k: Seq<usize>| #![trigger acc.to_set().contains(k)] #![trigger listed_before(m, q, c as int, k)]
                    acc.to_set().contains(k) <==> listed_before(m, q, c as int, k),
                out@.len() == base + acc.len(),
                base == out0.len(),
                forall|i: int| 0 <= i < base ==> #[trigger] out@[i] == out0[i],
                forall|i: int| 0 <= i < acc.len() ==> *out@[base + i] == m[#[trigger] acc[i]],
            decreases self.sigma_size - c,
        {
            proof {
                self.lemma_wf();
                lemma_edge_pos(u as int, c as int, self.sigma_size as int, self.nodes as int);
                assert(u * self.sigma_size + c < self.next.len());
            }
            let v = self.next[u * self.sigma_size + c] as usize;
            if v != 0 {
                proof {
                    self.lemma_child_later(u as int, c as int, v as int);
                }
                let ghost before = out@;
                let ks_v = self.collect_below(v, out);
                proof {
                    let kv = ks_v@;
                    let acc2 = acc + kv;
                    let qc = q.push(c);
                    assert forall|k: Seq<usize>| #[trigger] kv.to_set().contains(k) implies
                        prefix_of(qc, k) && m.contains_key(k) by {
                        assert(below_keys(m, p[v as int]).contains(k));
                    }
                    assert forall|a: int, b: int| 0 <= a < b < acc2.len() implies slot_less(#[trigger] acc2[a], #[trigger] acc2[b]) by {
                        if b >= acc.len() && a < acc.len() {
                            let x = acc[a];
                            let y = kv[b - acc.len()];
                            assert(kv.to_set().contains(y));
                            assert(acc.to_set().contains(x));
                            assert(listed_before(m, q, c as int, x));
                            assert(y.subrange(0, q.len() as int) =~= qc.subrange(0, q.len() as int));
                            assert(qc.subrange(0, q.len() as int) =~= q);
                            if x == q {
                                assert(y.len() > q.len());
                            } else {
                                assert(x.subrange(0, q.len() as int) == q);
                                assert(x.len() > q.len()) by {
                                    if x.len() == q.len() {
                                        assert(x =~= x.subrange(0, q.len() as int));
                                    }
                                }
                                assert(prefix_of(qc, y));
                                assert(y.subrange(0, qc.len() as int)[q.len() as int] == y[q.len() as int]);
                                assert(qc[q.len() as int] == c);
                                assert(y[q.len() as int] == c);
                                assert(differs_at(x, y, q.len() as int));
                            }
                        } else if a >= acc.len() {
                            assert(acc2[a] == kv[a - acc.len()]);
                            assert(acc2[b] == kv[b - acc.len()]);
                        }
                    }
                    assert forall|k: Seq<usize>| #[trigger] acc2.to_set().contains(k) <==> listed_before(m, q, c + 1, k) by {
                        if acc2.to_set().contains(k) {
                            assert(acc2.contains(k));
                            let t = choose|t: int| 0 <= t < acc2.len() && acc2[t] == k;
                            if t < acc.len() {
                                assert(acc.to_set().contains(k));
                                assert(listed_before(m, q, c as int, k));
                            } else {
                                assert(kv.to_set().contains(k));
                                assert(k.subrange(0, q.len() as int) =~= qc.subrange(0, q.len() as int));
                                assert(qc.subrange(0, q.len() as int) =~= q);
                                assert(k[q.len() as int] == qc[q.len() as int]);
                            }
                        }
                        if listed_before(m, q, c + 1, k) {
                            if listed_before(m, q, c as int, k) {
                                assert(acc.to_set().contains(k));
                                let t = choose|t: int| 0 <= t < acc.len() && acc[t] == k;
                                assert(acc2[t] == k);
                            } else {
                                self.lemma_key_slot(u as int, k);
                                assert(k.subrange(0, qc.len() as int) =~= qc);
                                assert(below_keys(m, p[v as int]).contains(k));
                                assert(kv.to_set().contains(k));
                                let t = choose|t: int| 0 <= t < kv.len() && kv[t] == k;
                                assert(acc2[acc.len() + t] == k);
                            }
                        }
                    }
                    assert forall|i: int| 0 <= i < acc2.len() implies *out@[base + i] == m[#[trigger] acc2[i]] by {
                        if i < acc.len() {
                            assert(out@[base + i] == before[base + i]);
                        } else {
                            assert(acc2[i] == kv[i - acc.len()]);
                        }
                    }
                    acc = acc2;
                }
            } else {
                proof {
                    assert forall|k: Seq<usize>| #[trigger] acc.to_set().contains(k) <==> listed_before(m, q, c + 1, k) by {
                        assert(acc.to_set().contains(k) <==> listed_before(m, q, c as int, k));
                        if below_keys(m, q).contains(k) && k != q && k[q.len() as int] == c {
                            self.lemma_key_slot(u as int, k);
                            self.lemma_key_needs_edge(u as int, c as int, k);
                            assert(k.subrange(0, (q.len() + 1) as int) =~= q.push(c));
                        }
                    }
                }
            }
            c += 1;
        }
        proof {
            assert forall|k: Seq<usize>| acc.to_set().contains(k) <==> below_keys(m, q).contains(k) by {
                assert(acc.to_set().contains(k) <==> listed_before(m, q, c as int, k));
                if below_keys(m, q).contains(k) && k != q {
                    self.lemma_key_slot(u as int, k);
                }
            }
            assert(acc.to_set() =~= below_keys(m, q));
        }
        Ghost(acc)
    }

    /// References to the stored values, their keys in slot order (a key
    /// before its extensions, and by the first differing slot otherwise).
    pub fn iter(&self) -> (r: Vec<&V>)
        requires
            self.wf(),
        ensures
            exists|ks: Seq<Seq<usize>>|
                slot_sorted(ks) && ks.to_set() == self.spec_map().dom() && r@.len() == ks.len()
                && forall|i: int| 0 <= i < ks.len() ==> *r@[i] == self.spec_map()[#[trigger] ks[i]],
    {
        let mut out: Vec<&V> = Vec::new();
        let ks = self.collect_below(0, &mut out);
        proof {
            self.lemma_wf();
            assert forall|k: Seq<usize>| below_keys(self.spec_map(), self.paths@[0]).contains(k) <==> self.spec_map().dom().contains(k) by {
                assert(k.subrange(0, 0) =~= Seq::<usize>::empty());
            }
            assert(below_keys(self.spec_map(), self.paths@[0]) =~= self.spec_map().dom());
            assert forall|i: int| 0 <= i < ks@.len() implies *out@[i] == self.spec_map()[#[trigger] ks@[i]] by {
                assert(*out@[0 + i] == self.spec_map()[ks@[i]]);
            }
        }
        out
    }

    /// Clones of the stored values, in the order of `iter`.
    pub fn collect(&self) -> (r: Vec<V>) where V: Clone
        requires
            self.wf(),
        ensures
            exists|ks: Seq<Seq<usize>>|
                slot_sorted(ks) && ks.to_set() == self.spec_map().dom() && r@.len() == ks.len()
                && forall|i: int| 0 <= i < ks.len() ==> cloned::<V>(self.spec_map()[ks[i]], #[trigger] r@[i]),
            r@.len() == self.spec_map().len(),
    {
        let refs = self.iter();
        let ghost ks = choose|ks: Seq<Seq<usize>>|
            slot_sorted(ks) && ks.to_set() == self.spec_map().dom() && refs@.len() == ks.len()
            && forall|i: int| 0 <= i < ks.len() ==> *refs@[i] == self.spec_map()[#[trigger] ks[i]];
        let mut out: Vec<V> = Vec::new();
        let mut i: usize = 0;
        while i < refs.len()
            invariant
                i <= refs@.len(),
                refs@.len() == ks.len(),
                forall|j: int| 0 <= j < ks.len() ==> *refs@[j] == self.spec_map()[#[trigger] ks[j]],
                out@.len() == i,
                forall|j: int| 0 <= j < i ==> cloned::<V>(self.spec_map()[ks[j]], #[trigger] out@[j]),
            decreases refs@.len() - i,
        {
            let x = refs[i].clone();
            proof {
                assert(*refs@[i as int] == self.spec_map()[ks[i as int]]);
            }
            out.push(x);
            i += 1;
        }
        proof {
            lemma_slot_sorted_distinct(ks);
            ks.unique_seq_to_set();
        }
        out
    }

    /// Keeps the values on which `f` answers `true`; returns how many were removed.
    pub fn retain<F: Fn(&V) -> bool>(&mut self, f: F) -> (removed: usize)
        requires
            old(self).wf(),
            forall|v: &V| #[trigger] f.requires((v,)),
        ensures
            final(self).wf(),
            final(self).same_settings(old(self)),
            final(self).spec_nodes() == old(self).spec_nodes(),
            final(self).spec_node_count() == old(self).spec_node_count(),
            exists|kept: Set<Seq<usize>>|
                retain_answers(f, old(self).spec_map(), kept) && final(self).spec_map() == old(self).spec_map().restrict(kept),
            removed == old(self).spec_map().len() - final(self).spec_map().len(),
    {
        let ghost p = self.paths@;
        let ghost n = self.nodes as int;
        let ghost vals0 = self.vals@;
        let ghost ans: Seq<bool> = Seq::empty();
        let mut removed: usize = 0;
        let mut u: usize = 0;
        proof {
            self.lemma_wf();
        }
        while u < self.nodes
            invariant
                self.wf(),
                self.same_settings(old(self)),
                self.paths@ == p,
                self.nodes == n,
                p == old(self).paths@,
                n == old(self).nodes,
                vals0 == old(self).vals@,
                u <= n,
                ans.len() == u,
                self.vals@.len() == vals0.len(),
                forall|w: int| 0 <= w < vals0.len() ==> #[trigger] self.vals@[w]
                    == if w < u && vals0[w] is Some && !ans[w] { None } else { vals0[w] },
                forall|w: int| 0 <= w < u && vals0[w] is Some ==> call_ensures(f, (&vals0[w]->Some_0,), #[trigger] ans[w]),
                removed + self.words == old(self).words,
                forall|v: &V| #[trigger] f.requires((v,)),
            decreases n - u,
        {
            let keep = match &self.vals[u] {
                Some(v) => f(v),
                None => true,
            };
            if !keep {
                let ghost vb = self.vals@;
                proof {
                    self.lemma_wf();
                    lemma_count_update(p, vb, Seq::<usize>::empty(), u as int, None, n);
                    assert(prefix_of(Seq::<usize>::empty(), p[u as int])) by {
                        assert(p[u as int].subrange(0, 0) =~= Seq::<usize>::empty());
                    }
                    lemma_count_bounds(p, vb.update(u as int, None), Seq::<usize>::empty(), n);
                }
                self.vals.set(u, None);
                self.words = self.words - 1;
                removed = removed + 1;
                self.adjust_below(u, false, Ghost(vb));
            }
            proof {
                ans = ans.push(keep);
            }
            u += 1;
        }
        proof {
            let kept = Set::new(|k: Seq<usize>| exists|w: int| 0 <= w < n && p[w] == k && vals0[w] is Some && ans[w]);
            let m0 = old(self).spec_map();
            let m1 = self.spec_map();
            self.lemma_wf();
            old(self).lemma_wf();
            assert forall|k: Seq<usize>| #[trigger] m0.contains_key(k) implies call_ensures(f, (&m0[k],), kept.contains(k)) by {
                let w = choose|w: int| 0 <= w < p.len() && p[w] == k && vals0[w] is Some;
                old(self).lemma_value_at(w);
                if kept.contains(k) {
                    let w2 = choose|w2: int| 0 <= w2 < n && p[w2] == k && vals0[w2] is Some && ans[w2];
                    assert(p[w2] == p[w]);
                }
                assert(call_ensures(f, (&vals0[w]->Some_0,), ans[w]));
            }
            assert forall|k: Seq<usize>| m1.dom().contains(k) <==> m0.restrict(kept).dom().contains(k) by {
                if m1.dom().contains(k) {
                    let w = choose|w: int| 0 <= w < p.len() && p[w] == k && self.vals@[w] is Some;
                    assert(self.vals@[w] == if w < u && vals0[w] is Some && !ans[w] { None } else { vals0[w] });
                    assert(key_set(p, vals0).contains(k));
                    assert(kept.contains(k));
                }
                if m0.restrict(kept).dom().contains(k) {
                    let w = choose|w: int| 0 <= w < n && p[w] == k && vals0[w] is Some && ans[w];
                    assert(self.vals@[w] == if w < u && vals0[w] is Some && !ans[w] { None } else { vals0[w] });
                    assert(key_set(p, self.vals@).contains(k));
                }
            }
            assert forall|k: Seq<usize>| #[trigger] m1.dom().contains(k) implies m1[k] == m0.restrict(kept)[k] by {
                let w = choose|w: int| 0 <= w < p.len() && p[w] == k && self.vals@[w] is Some;
                self.lemma_value_at(w);
                assert(self.vals@[w] == if w < u && vals0[w] is Some && !ans[w] { None } else { vals0[w] });
                old(self).lemma_value_at(w);
            }
            assert(m1 =~= m0.restrict(kept));
            assert(retain_answers(f, m0, kept));
        }
        removed
    }

    /// Marks the trie disposed and empties it.
    pub fn dispose(&mut self)
        requires
            old(self).wf(),
        ensures
            final(self).wf(),
            final(self).spec_disposed(),
            final(self).spec_sigma() == old(self).spec_sigma(),
            final(self).spec_idx() == old(self).spec_idx(),
            final(self).spec_merge() == old(self).spec_merge(),
            final(self).spec_map() == Map::<Seq<usize>, V>::empty(),
            final(self).spec_nodes() == set![Seq::<usize>::empty()],
            final(self).spec_node_count() == 1,
    {
        self.disposed = true;
        self.init();
    }

    pub fn is_disposed(&self) -> (b: bool)
        ensures
            b == self.spec_disposed(),
    {
        self.disposed
    }

    /// The stored keys among the prefixes of `elements[range]`, shortest
    /// first, each with its end position in `elements` and its value; an empty
    /// range matches only the empty key.
    pub fn try_matches_range<'a>(&'a self, elements: &'a [E], range: Range<usize>) -> (r: Result<Vec<TrieNodeData<&'a V>>, TrieError>)
        requires
            self.wf(),
            range_ok(range.start as int, range.end as int, elements@.len() as int) ==> mappable(self.spec_idx(), elements@, range.start as int, range.end as int),
        ensures
            !range_ok(range.start as int, range.end as int, elements@.len() as int) ==> (r matches Err(e)
                && e == TrieError::InvalidRange { start: range.start, end: range.end, len: elements@.len() as usize }),
            range_ok(range.start as int, range.end as int, elements@.len() as int) ==> ({
                let ks = self.key_slots(elements@, range.start as int, range.end as int);
                match index_error(ks, self.spec_sigma(), self.spec_nodes()) {
                    Some(e) => r matches Err(e2) && e2 == e,
                    None => r matches Ok(out) && ({
                        let ms = match_list(self.spec_map(), ks, range.start as int, self.spec_sigma(), self.spec_nodes());
                        &&& ms == matches_upto(self.spec_map(), ks, range.start as int, ks.len() as int)
                        &&& out@.len() == ms.len()
                        &&& forall|i: int| 0 <= i < ms.len() ==> (#[trigger] out@[i]).end == ms[i].0 && *out@[i].val == ms[i].1
                    }),
                }
            }),
    {
        let rg = match check_range(elements.len(), range) {
            Ok(r) => r,
            Err(e) => return Err(e),
        };
        let ghost ks = self.key_slots(elements@, rg.start as int, rg.end as int);
        let ghost sg = self.sigma_size as nat;
        let ghost nodes = self.spec_nodes();
        let ghost p = self.paths@;
        let ghost map = self.spec_map();
        let mut out: Vec<TrieNodeData<&V>> = Vec::new();
        proof {
            if index_error(ks, self.sigma_size, nodes) is None {
                self.lemma_match_list_complete(ks, rg.start as int);
            }
            self.lemma_wf();
            lemma_node_of::<V>(p, 0);
        }
        if rg.start == rg.end {
            proof {
                assert(ks =~= p[0]);
                assert(ks.subrange(0, 0) =~= ks);
            }
            match &self.vals[0] {
                Some(v) => {
                    proof {
                        self.lemma_value_at(0);
                    }
                    out.push(TrieNodeData { end: rg.start, val: v });
                },
                None => {
                    proof {
                        assert(!map.contains_key(ks)) by {
                            if map.contains_key(ks) {
                                let w = choose|w: int| 0 <= w < p.len() && p[w] == ks && self.vals@[w] is Some;
                                assert(p[w] == p[0]);
                            }
                        }
                    }
                },
            }
            return Ok(out);
        }
        let start = rg.start;
        let end = rg.end;
        let mut node: usize = 0;
        let mut i: usize = start;
        proof {
            assert(ks.subrange(0, 0) =~= p[0]);
        }
        match &self.vals[0] {
            Some(v) => {
                proof {
                    self.lemma_value_at(0);
                }
                out.push(TrieNodeData { end: start, val: v });
            },
            None => {
                proof {
                    assert(!map.contains_key(ks.subrange(0, 0))) by {
                        if map.contains_key(ks.subrange(0, 0)) {
                            let w = choose|w: int| 0 <= w < p.len() && p[w] == ks.subrange(0, 0) && self.vals@[w] is Some;
                            assert(p[w] == p[0]);
                        }
                    }
                }
            },
        }
        while i < end
            invariant
                self.wf(),
                start < end <= elements@.len(),
                start == range.start,
                end == range.end,
                start <= i <= end,
                ks == self.key_slots(elements@, start as int, end as int),
                ks.len() == end - start,
                mappable(self.spec_idx(), elements@, start as int, end as int),
                p == self.paths@,
                nodes == self.spec_nodes(),
                map == self.spec_map(),
                sg == self.sigma_size,
                node < self.nodes,
                p[node as int] == ks.subrange(0, i - start),
                walk_from(ks, 0, sg, nodes) == walk_from(ks, i - start, sg, nodes),
                out@.len() == matches_upto(map, ks, start as int, i - start).len(),
                forall|t: int| 0 <= t < out@.len() ==> (#[trigger] out@[t]).end == matches_upto(map, ks, start as int, i - start)[t].0
                    && *out@[t].val == matches_upto(map, ks, start as int, i - start)[t].1,
            decreases end - i,
        {
            let j = i - start;
            let c = (self.map_fn)(&elements[i]);
            proof {
                lemma_slot(self.map_fn, elements@[i as int], c);
                assert(ks[j as int] == c);
            }
            if c >= self.sigma_size {
                return Err(TrieError::IndexOutOfRange { index: c, sigma_size: self.sigma_size });
            }
            proof {
                self.lemma_wf();
                lemma_edge_pos(node as int, c as int, self.sigma_size as int, self.nodes as int);
                assert(edge_ok(self.next@, p, self.nodes as int, self.sigma_size as int, node as int, c as int));
                assert(p[node as int].push(c) =~= ks.subrange(0, j + 1));
                assert(node * self.sigma_size + c < self.next.len());
            }
            let nx = self.next[node * self.sigma_size + c] as usize;
            if nx == 0 {
                proof {
                    assert forall|w: int| 0 <= w < self.nodes implies p[w] != ks.subrange(0, j + 1) by {
                        lemma_edge_absent(self.next@, self.parent@, p, self.nodes as int, self.sigma_size as int, node as int, c as int, w);
                    }
                    assert(!nodes.contains(ks.subrange(0, j + 1)));
                    if index_error(ks, self.sigma_size, nodes) is None {
                        self.lemma_match_list_complete(ks, start as int);
                    }
                }
                return Ok(out);
            }
            proof {
                assert(p[nx as int] == ks.subrange(0, j + 1));
                assert(nodes.contains(ks.subrange(0, j + 1)));
                lemma_node_of::<V>(p, nx as int);
            }
            node = nx;
            match &self.vals[node] {
                Some(v) => {
                    proof {
                        self.lemma_value_at(node as int);
                    }
                    out.push(TrieNodeData { end: i + 1, val: v });
                },
                None => {
                    proof {
                        assert(!map.contains_key(ks.subrange(0, j + 1))) by {
                            if map.contains_key(ks.subrange(0, j + 1)) {
                                let w = choose|w: int| 0 <= w < p.len() && p[w] == ks.subrange(0, j + 1) && self.vals@[w] is Some;
                                assert(p[w] == p[node as int]);
                            }
                        }
                    }
                },
            }
            i += 1;
        }
        proof {
            assert(ks.subrange(0, ks.len() as int) =~= ks);
        }
        Ok(out)
    }

    /// The stored keys among the prefixes of `elements`, shortest first.
    pub fn try_matches<'a>(&'a self, elements: &'a [E]) -> (r: Result<Vec<TrieNodeData<&'a V>>, TrieError>)
        requires
            self.wf(),
            mappable(self.spec_idx(), elements@, 0, elements@.len() as int),
        ensures
            ({
                let ks = self.key_slots(elements@, 0, elements@.len() as int);
                match index_error(ks, self.spec_sigma(), self.spec_nodes()) {
                    Some(e) => r matches Err(e2) && e2 == e,
                    None => r matches Ok(out) && ({
                        let ms = match_list(self.spec_map(), ks, 0, self.spec_sigma(), self.spec_nodes());
                        &&& ms == matches_upto(self.spec_map(), ks, 0, ks.len() as int)
                        &&& out@.len() == ms.len()
                        &&& forall|i: int| 0 <= i < ms.len() ==> (#[trigger] out@[i]).end == ms[i].0 && *out@[i].val == ms[i].1
                    }),
                }
            }),
    {
        self.try_matches_range(elements, 0..elements.len())
    }

    /// Number of keys stored.
    pub fn size(&self) -> (r: usize)
        requires
            self.wf(),
        ensures
            r == self.spec_map().len(),
    {
        proof {
            self.lemma_wf();
        }
        self.words
    }
}

/// Adding a node path to the paths adds it to the node set.
proof fn lemma_node_set_push(p: Seq<Seq<usize>>, q: Seq<usize>)
    ensures
        node_set(p.push(q)) == node_set(p).insert(q),
{
    let p2 = p.push(q);
    assert forall|k: Seq<usize>| node_set(p2).contains(k) <==> node_set(p).insert(q).contains(k) by {
        if node_set(p2).contains(k) && k != q {
            let u = choose|u: int| 0 <= u < p2.len() && p2[u] == k;
            assert(0 <= u < p.len() && p[u] == k);
        }
        if node_set(p).contains(k) {
            let u = choose|u: int| 0 <= u < p.len() && p[u] == k;
            assert(0 <= u < p2.len() && p2[u] == k);
        }
        if k == q {
            assert(p2[p.len() as int] == q);
        }
    }
    assert(node_set(p2) =~= node_set(p).insert(q));
}

proof fn lemma_edge_pos(u: int, c: int, sigma: int, n: int)
    requires
        0 <= u < n,
        0 <= c < sigma,
    ensures
        0 <= u * sigma + c,
        u * sigma + c < n * sigma,
        u * sigma + c + 1 <= n * sigma,
        (u + 1) * sigma <= n * sigma,
{
    assert(u * sigma + c < n * sigma) by (nonlinear_arith)
        requires
            0 <= u < n,
            0 <= c < sigma,
    ;
    assert(0 <= u * sigma) by (nonlinear_arith)
        requires
            0 <= u,
            0 <= sigma,
    ;
    assert((u + 1) * sigma <= n * sigma) by (nonlinear_arith)
        requires
            0 <= u < n,
            0 <= sigma,
    ;
}

impl<E, V, Idx, Merge> Disposable for Trie<E, V, Idx, Merge> where Idx: Fn(&E) -> usize, Merge: Fn(V, V) -> V {
    open spec fn well_formed(&self) -> bool {
        self.wf()
    }

    fn dispose(&mut self)
        ensures
            final(self).wf(),
            final(self).spec_disposed(),
            final(self).spec_sigma() == old(self).spec_sigma(),
            final(self).spec_idx() == old(self).spec_idx(),
            final(self).spec_merge() == old(self).spec_merge(),
            final(self).spec_map() == Map::<Seq<usize>, V>::empty(),
            final(self).spec_nodes() == set![Seq::<usize>::empty()],
            final(self).spec_node_count() == 1,
    {
        Trie::dispose(self)
    }

    fn is_disposed(&self) -> (b: bool)
        ensures
            b == self.spec_disposed(),
    {
        Trie::is_disposed(self)
    }
}

impl<E, V, Idx, Merge> Collection for Trie<E, V, Idx, Merge> where Idx: Fn(&E) -> usize, Merge: Fn(V, V) -> V {
    type Item = V;

    open spec fn spec_size(&self) -> nat {
        self.spec_map().len()
    }

    fn size(&self) -> (r: usize)
        ensures
            r == self.spec_map().len(),
    {
        Trie::size(self)
    }

    fn clear(&mut self)
        ensures
            final(self).wf(),
            final(self).same_settings(old(self)),
            final(self).spec_map() == Map::<Seq<usize>, V>::empty(),
            final(self).spec_nodes() == set![Seq::<usize>::empty()],
            final(self).spec_node_count() == 1,
    {
        self.init()
    }

    fn collect(&self) -> (r: Vec<V>) where V: Clone
        ensures
            exists|ks: Seq<Seq<usize>>|
                slot_sorted(ks) && ks.to_set() == self.spec_map().dom() && r@.len() == ks.len()
                && forall|i: int| 0 <= i < ks.len() ==> cloned::<V>(self.spec_map()[ks[i]], #[trigger] r@[i]),
            r@.len() == self.spec_map().len(),
    {
        Trie::collect(self)
    }
}

/// The slot of an ASCII digit: `'0'..='9'` to `0..10`.
pub fn digit_idx(c: &char) -> (r: usize)
    requires
        '0' <= *c <= '9',
    ensures
        r == (*c as int) - ('0' as int),
{
    (*c as u32 - '0' as u32) as usize
}

/// The slot of an ASCII uppercase letter: `'A'..='Z'` to `0..26`.
pub fn uppercase_idx(c: &char) -> (r: usize)
    requires
        'A' <= *c <= 'Z',
    ensures
        r == (*c as int) - ('A' as int),
{
    (*c as u32 - 'A' as u32) as usize
}

/// The slot of an ASCII lowercase letter: `'a'..='z'` to `0..26`.
pub fn lowercase_idx(c: &char) -> (r: usize)
    requires
        'a' <= *c <= 'z',
    ensures
        r == (*c as int) - ('a' as int),
{
    (*c as u32 - 'a' as u32) as usize
}

/// An ASCII letter or digit.
pub open spec fn is_alpha_numeric(c: char) -> bool {
    ('0' <= c <= '9') || ('A' <= c <= 'Z') || ('a' <= c <= 'z')
}

/// The slot of an ASCII alphanumeric character: digits to `0..10`,
/// uppercase letters to `10..36`, lowercase letters to `36..62`.
pub open spec fn alpha_numeric_slot(c: char) -> int {
    if '0' <= c <= '9' {
        (c as int) - ('0' as int)
    } else if 'A' <= c <= 'Z' {
        (c as int) - ('A' as int) + 10
    } else {
        (c as int) - ('a' as int) + 36
    }
}

/// The slot of an ASCII alphanumeric character (see `alpha_numeric_slot`).
pub fn alpha_numeric_idx(c: &char) -> (r: usize)
    requires
        is_alpha_numeric(*c),
    ensures
        r == alpha_numeric_slot(*c),
        r < 62,
{
    if '0' <= *c && *c <= '9' {
        return digit_idx(c);
    }
    if 'A' <= *c && *c <= 'Z' {
        return uppercase_idx(c) + 10;
    }
    lowercase_idx(c) + 36
}

} // verus!
