//! The ordering that the index keeps: sorted nodes, key intervals that nest from
//! parent to child, and a unique parent for every child. Lookups are characterized
//! over it, and the changes an insertion makes are shown to keep every lookup.
use vstd::prelude::*;

use crate::config::MAX_NUMBER_KEYS;
use crate::btree::{lookup, tree_ok};
use crate::node::{
    above_start, below_end, included_at, is_run, item_at, start_position, KeyBound, StackEntry,
    bsearch, inserted_at, insert_position, keys_sorted, search_node, split_child_result,
    split_root_result, NodeView, SearchResult,
};

verus! {

/// A binary search over a sorted node, between bounds that already exclude `key`
/// from the keys outside them, finds `key` or the position where it belongs.
pub proof fn lemma_bsearch_sorted(n: NodeView, key: u64, left: int, right: int)
    requires
        keys_sorted(n),
        n.num_keys <= MAX_NUMBER_KEYS,
        0 <= left <= right <= n.num_keys,
        forall|j: int| 0 <= j < left ==> n.keys[j] < key,
        forall|j: int| right <= j < n.num_keys ==> key < n.keys[j],
    ensures
        match bsearch(n, key, left, right) {
            SearchResult::Found(i) => left <= i < right && n.keys[i as int] == key,
            SearchResult::NotFound(i) => left <= i <= right && insert_position(n, i as int, key),
        },
    decreases right - left,
{
    if left < right {
        let mid = left + (right - left) / 2;
        if n.keys[mid] < key {
            assert forall|j: int| 0 <= j < mid + 1 implies n.keys[j] < key by {
                if j < mid {
                    assert(n.keys[j] < n.keys[mid]);
                }
            }
            lemma_bsearch_sorted(n, key, mid + 1, right);
        } else if n.keys[mid] > key {
            assert forall|j: int| mid <= j < n.num_keys implies key < n.keys[j] by {
                if j > mid {
                    assert(n.keys[mid] < n.keys[j]);
                }
            }
            lemma_bsearch_sorted(n, key, left, mid);
        }
    }
}

/// In a sorted node a search finds `key` exactly where it is, and otherwise ends
/// where it belongs.
pub proof fn lemma_search_sorted(n: NodeView, key: u64)
    requires
        keys_sorted(n),
        n.num_keys <= MAX_NUMBER_KEYS,
    ensures
        match search_node(n, key) {
            SearchResult::Found(i) => i < n.num_keys && n.keys[i as int] == key,
            SearchResult::NotFound(i) => i <= n.num_keys && insert_position(n, i as int, key),
        },
{
    lemma_bsearch_sorted(n, key, 0, n.num_keys as int);
}

/// A search in a sorted node that holds `key` at `i` ends there.
pub proof fn lemma_search_finds(n: NodeView, key: u64, i: int)
    requires
        keys_sorted(n),
        n.num_keys <= MAX_NUMBER_KEYS,
        0 <= i < n.num_keys,
        n.keys[i] == key,
    ensures
        search_node(n, key) == SearchResult::Found(i as usize),
{
    lemma_search_sorted(n, key);
    match search_node(n, key) {
        SearchResult::Found(j) => {
            if (j as int) < i {
                assert(n.keys[j as int] < n.keys[i]);
            } else if (j as int) > i {
                assert(n.keys[i] < n.keys[j as int]);
            }
        },
        SearchResult::NotFound(j) => {
            if i < j {
                assert(n.keys[i] < key);
            } else {
                assert(key < n.keys[i]);
            }
        },
    }
}

/// A search in a sorted node for a key that belongs at position `i` ends there.
pub proof fn lemma_search_misses(n: NodeView, key: u64, i: int)
    requires
        keys_sorted(n),
        n.num_keys <= MAX_NUMBER_KEYS,
        0 <= i <= n.num_keys,
        insert_position(n, i, key),
    ensures
        search_node(n, key) == SearchResult::NotFound(i as usize),
{
    lemma_search_sorted(n, key);
    match search_node(n, key) {
        SearchResult::Found(j) => {
            if (j as int) < i {
                assert(n.keys[j as int] < key);
            } else {
                assert(key < n.keys[j as int]);
            }
        },
        SearchResult::NotFound(j) => {
            if (j as int) < i {
                assert(n.keys[j as int] < key);
                assert(key < n.keys[j as int]);
            } else if (j as int) > i {
                assert(n.keys[i] < key);
                assert(key < n.keys[i]);
            }
        },
    }
}

/// Exclusive lower and upper bounds on the keys below a node; `None` is unbounded.
pub type Interval = (Option<u64>, Option<u64>);

/// `k` lies strictly inside `iv`.
pub open spec fn within(iv: Interval, k: u64) -> bool {
    &&& match iv.0 {
        Some(l) => l < k,
        None => true,
    }
    &&& match iv.1 {
        Some(u) => k < u,
        None => true,
    }
}

/// The interval of child `i` of node `n`, whose own interval is `iv`.
pub open spec fn route(n: NodeView, iv: Interval, i: int) -> Interval {
    (
        if i == 0 { iv.0 } else { Some(n.keys[i - 1]) },
        if i == n.num_keys { iv.1 } else { Some(n.keys[i]) },
    )
}

/// The ordering of the tree rooted at `root`: every node is sorted and its keys lie
/// in its interval; each child has the interval its parent routes to it and knows
/// its parent slot, so no node is the child of two slots; the root is unbounded
/// and no child; and `po` knows the one slot that holds each payload in use.
pub open spec fn order_ok(
    nodes: Seq<NodeView>,
    iv: Seq<Interval>,
    par: Seq<Option<(int, int)>>,
    po: Map<u64, (int, int)>,
    root: int,
) -> bool {
    &&& iv.len() == nodes.len()
    &&& par.len() == nodes.len()
    &&& forall|j: int| 0 <= j < nodes.len() ==> #[trigger] keys_sorted(nodes[j])
    &&& forall|j: int, i: int| 0 <= j < nodes.len() && 0 <= i < nodes[j].num_keys ==>
        within(iv[j], #[trigger] nodes[j].keys[i])
    &&& forall|j: int, i: int| 0 <= j < nodes.len() && !nodes[j].is_leaf && 0 <= i <= nodes[j].num_keys ==>
        iv[#[trigger] nodes[j].children[i] as int] == route(nodes[j], iv[j], i)
            && par[nodes[j].children[i] as int] == Some((j, i))
    &&& 0 <= root < nodes.len()
    &&& iv[root] == (None::<u64>, None::<u64>)
    &&& par[root] == None::<(int, int)>
    &&& forall|j: int, i: int| 0 <= j < nodes.len() && 0 <= i < nodes[j].num_keys ==>
        po.contains_key(#[trigger] nodes[j].payloads[i]) && po[nodes[j].payloads[i]] == (j, i)
}

/// The payload owners after child `idx` of `p`, node `c`, was split at `t` into `s`:
/// the later slots of `p` move one right, the median moves up to slot `idx` of
/// `p`, and the upper slots of `c` move to `s`.
pub open spec fn split_pos(po: Map<u64, (int, int)>, p: int, idx: int, c: int, t: int, s: int) -> Map<u64, (int, int)> {
    Map::new(
        |q: u64| po.contains_key(q),
        |q: u64|
            {
                let (a, slot) = po[q];
                if a == p && slot >= idx {
                    (p, slot + 1)
                } else if a == c && slot == t - 1 {
                    (p, idx)
                } else if a == c && slot >= t {
                    (s, slot - t)
                } else {
                    (a, slot)
                }
            },
    )
}

/// The value a lookup of `k` from node `x` finds.
pub open spec fn lookup_val(nodes: Seq<NodeView>, h: Seq<nat>, recs: Map<usize, Seq<u8>>, x: int, k: u64) -> Option<Seq<u8>> {
    match lookup(nodes, h, x, k) {
        Some((j, i)) => Some(recs[nodes[j].payloads[i] as usize]),
        None => None,
    }
}

/// The intervals after child `c` with median `med` was split off into `s`.
pub open spec fn split_ivals(iv: Seq<Interval>, c: int, med: u64) -> Seq<Interval> {
    iv.update(c, (iv[c].0, Some(med))).push((Some(med), iv[c].1))
}

/// The parent slots after child `idx` of `p`, node `c`, was split at `t` into `s`:
/// `s` follows `c` in `p`, the later children of `p` move one slot right, and the
/// upper children of `c` move to `s`.
pub open spec fn split_pars(par: Seq<Option<(int, int)>>, p: int, idx: int, c: int, t: int, s: int) -> Seq<Option<(int, int)>> {
    Seq::new(
        (par.len() + 1) as nat,
        |x: int|
            if x == s {
                Some((p, idx + 1))
            } else {
                match par[x] {
                    Some((a, slot)) => if a == p && slot > idx {
                        Some((p, slot + 1))
                    } else if a == c && slot >= t {
                        Some((s, slot - t))
                    } else {
                        Some((a, slot))
                    },
                    None => None,
                }
            },
    )
}

/// Splitting a full child keeps the ordering.
pub proof fn lemma_split_child_order(
    before: Seq<NodeView>,
    after: Seq<NodeView>,
    iv: Seq<Interval>,
    par: Seq<Option<(int, int)>>,
    po: Map<u64, (int, int)>,
    root: int,
    t: int,
    parent: int,
    idx: int,
    left: int,
    right: int,
)
    requires
        order_ok(before, iv, par, po, root),
        forall|j: int| 0 <= j < before.len() ==> #[trigger] before[j].num_keys <= MAX_NUMBER_KEYS,
        forall|j: int, i: int| 0 <= j < before.len() && !before[j].is_leaf && 0 <= i <= before[j].num_keys ==>
            #[trigger] before[j].children[i] < before.len(),
        2 <= t,
        0 <= parent < before.len(),
        !before[parent].is_leaf,
        0 <= idx <= before[parent].num_keys,
        0 <= left < before.len(),
        before[left].num_keys == 2 * t - 1,
        split_child_result(before, after, parent, idx, t, left, right),
    ensures
        order_ok(after, split_ivals(iv, left, before[left].keys[t - 1]), split_pars(par, parent, idx, left, t, right),
            split_pos(po, parent, idx, left, t, right), root),
{
    let p = before[parent];
    let c = before[left];
    let q = after[parent];
    let sn = after[right];
    let n = p.num_keys as int;
    let med = c.keys[t - 1];
    let iv2 = split_ivals(iv, left, med);
    let par2 = split_pars(par, parent, idx, left, t, right);
    assert(iv[left] == route(p, iv[parent], idx) && par[left] == Some((parent, idx)));
    assert(left != parent);
    assert(left != root);
    assert(within(iv[left], med));
    // sortedness
    assert forall|j: int| 0 <= j < after.len() implies #[trigger] keys_sorted(after[j]) by {
        if j == parent {
            assert(keys_sorted(p));
            assert forall|a: int, b: int| 0 <= a < b < q.num_keys implies q.keys[a] < q.keys[b] by {
                if b == idx {
                    if a < idx {
                        assert(p.keys[a] <= p.keys[idx - 1]);
                    }
                } else if a == idx {
                    if b > idx {
                        assert(p.keys[idx] <= p.keys[b - 1]);
                    }
                }
            }
        } else if j == left {
            assert(keys_sorted(c));
        } else if j == right {
            assert(keys_sorted(c));
            assert forall|a: int, b: int| 0 <= a < b < sn.num_keys implies sn.keys[a] < sn.keys[b] by {
                assert(c.keys[t + a] < c.keys[t + b]);
            }
        } else {
            assert(keys_sorted(before[j]));
        }
    }
    // keys inside intervals
    assert forall|j: int, i: int| 0 <= j < after.len() && 0 <= i < after[j].num_keys implies
        within(iv2[j], #[trigger] after[j].keys[i]) by {
        if j == parent {
            if i < idx {
                assert(within(iv[parent], p.keys[i]));
            } else if i > idx {
                assert(within(iv[parent], p.keys[i - 1]));
            } else {
                assert(within(iv[left], c.keys[t - 1]));
                if idx > 0 {
                    assert(within(iv[parent], p.keys[idx - 1]));
                }
                if idx < n {
                    assert(within(iv[parent], p.keys[idx]));
                }
            }
        } else if j == left {
            assert(within(iv[left], c.keys[i]));
            assert(keys_sorted(before[left]));
            assert(c.keys[i] < c.keys[t - 1]);
        } else if j == right {
            assert(within(iv[left], c.keys[t + i]));
            assert(keys_sorted(before[left]));
            assert(c.keys[t - 1] < c.keys[t + i]);
        } else {
            assert(within(iv[j], before[j].keys[i]));
        }
    }
    // children: intervals and parent slots
    assert forall|j: int, i: int| 0 <= j < after.len() && !after[j].is_leaf && 0 <= i <= after[j].num_keys implies
        iv2[#[trigger] after[j].children[i] as int] == route(after[j], iv2[j], i)
            && par2[after[j].children[i] as int] == Some((j, i)) by {
        if j == parent {
            if i < idx {
                let ch = p.children[i];
                assert(iv[ch as int] == route(p, iv[parent], i) && par[ch as int] == Some((parent, i)));
                assert(ch < before.len());
                assert(ch != left);
            } else if i == idx {
            } else if i == idx + 1 {
            } else {
                let ch = p.children[i - 1];
                assert(iv[ch as int] == route(p, iv[parent], i - 1) && par[ch as int] == Some((parent, i - 1)));
                assert(ch < before.len());
                assert(ch != left);
            }
        } else if j == left {
            let ch = c.children[i];
            assert(iv[ch as int] == route(c, iv[left], i) && par[ch as int] == Some((left, i)));
            assert(ch < before.len());
            assert(ch != left);
            assert(ch != parent);
        } else if j == right {
            let ch = c.children[t + i];
            assert(iv[ch as int] == route(c, iv[left], t + i) && par[ch as int] == Some((left, t + i)));
            assert(ch < before.len());
            assert(ch != left);
            assert(ch != parent);
        } else {
            let ch = before[j].children[i];
            assert(iv[ch as int] == route(before[j], iv[j], i) && par[ch as int] == Some((j, i)));
            assert(ch < before.len());
            assert(ch != left);
        }
    }
    // payload owners
    let po2 = split_pos(po, parent, idx, left, t, right);
    assert forall|j: int, i: int| 0 <= j < after.len() && 0 <= i < after[j].num_keys implies
        po2.contains_key(#[trigger] after[j].payloads[i]) && po2[after[j].payloads[i]] == (j, i) by {
        if j == parent {
            if i < idx {
                assert(po[p.payloads[i]] == (parent, i));
            } else if i > idx {
                assert(po[p.payloads[i - 1]] == (parent, i - 1));
            } else {
                assert(po[c.payloads[t - 1]] == (left, t - 1));
            }
        } else if j == left {
            assert(po[c.payloads[i]] == (left, i));
        } else if j == right {
            assert(po[c.payloads[t + i]] == (left, t + i));
        } else {
            assert(po[before[j].payloads[i]] == (j, i));
        }
    }
}

/// A key that belongs at position `i` of a node lies inside the interval of child `i`.
pub proof fn lemma_within_route(n: NodeView, iv: Interval, i: int, k: u64)
    requires
        within(iv, k),
        0 <= i <= n.num_keys,
        insert_position(n, i, k),
    ensures
        within(route(n, iv, i), k),
{
    if i > 0 {
        assert(n.keys[i - 1] < k);
    }
    if i < n.num_keys {
        assert(k < n.keys[i]);
    }
}

/// What the lookup lemmas for a split know: the shape and ordering before and after.
pub open spec fn split_child_ctx(
    before: Seq<NodeView>,
    after: Seq<NodeView>,
    h: Seq<nat>,
    recs: Map<usize, Seq<u8>>,
    iv: Seq<Interval>,
    par: Seq<Option<(int, int)>>,
    po: Map<u64, (int, int)>,
    root: int,
    t: int,
    parent: int,
    idx: int,
    left: int,
    right: int,
) -> bool {
    &&& tree_ok(before, h, recs, t)
    &&& order_ok(before, iv, par, po, root)
    &&& 2 <= t <= MAX_NUMBER_KEYS / 2
    &&& 0 <= parent < before.len()
    &&& !before[parent].is_leaf
    &&& 0 <= idx <= before[parent].num_keys
    &&& before[parent].num_keys < 2 * t - 1
    &&& 0 <= left < before.len()
    &&& before[left].num_keys == 2 * t - 1
    &&& split_child_result(before, after, parent, idx, t, left, right)
    &&& tree_ok(after, h.push(h[left]), recs, t)
    &&& order_ok(after, split_ivals(iv, left, before[left].keys[t - 1]), split_pars(par, parent, idx, left, t, right),
        split_pos(po, parent, idx, left, t, right), root)
}

/// After a split, a lookup inside the interval of any node finds the same value as
/// before; the new node answers for the keys it took over.
pub proof fn lemma_split_child_lookups(
    before: Seq<NodeView>,
    after: Seq<NodeView>,
    h: Seq<nat>,
    recs: Map<usize, Seq<u8>>,
    iv: Seq<Interval>,
    par: Seq<Option<(int, int)>>,
    po: Map<u64, (int, int)>,
    root: int,
    t: int,
    parent: int,
    idx: int,
    left: int,
    right: int,
    x: int,
    k: u64,
)
    requires
        split_child_ctx(before, after, h, recs, iv, par, po, root, t, parent, idx, left, right),
        0 <= x < after.len(),
        within(split_ivals(iv, left, before[left].keys[t - 1])[x], k),
    ensures
        lookup_val(after, h.push(h[left]), recs, x, k) == lookup_val(before, h, recs, if x == right { left } else { x }, k),
    decreases h.push(h[left])[x], 1nat,
{
    if x == parent {
        lemma_split_lookups_parent(before, after, h, recs, iv, par, po, root, t, parent, idx, left, right, x, k);
    } else if x == left {
        lemma_split_lookups_left(before, after, h, recs, iv, par, po, root, t, parent, idx, left, right, x, k);
    } else if x == right {
        lemma_split_lookups_right(before, after, h, recs, iv, par, po, root, t, parent, idx, left, right, x, k);
    } else {
        lemma_split_lookups_other(before, after, h, recs, iv, par, po, root, t, parent, idx, left, right, x, k);
    }
}

/// The parent of the split routes each key to the half that now holds it.
#[verifier::rlimit(100)]
proof fn lemma_split_lookups_parent(
    before: Seq<NodeView>,
    after: Seq<NodeView>,
    h: Seq<nat>,
    recs: Map<usize, Seq<u8>>,
    iv: Seq<Interval>,
    par: Seq<Option<(int, int)>>,
    po: Map<u64, (int, int)>,
    root: int,
    t: int,
    parent: int,
    idx: int,
    left: int,
    right: int,
    x: int,
    k: u64,
)
    requires
        split_child_ctx(before, after, h, recs, iv, par, po, root, t, parent, idx, left, right),
        0 <= x < after.len(),
        within(split_ivals(iv, left, before[left].keys[t - 1])[x], k),
        x == parent,
    ensures
        lookup_val(after, h.push(h[left]), recs, x, k) == lookup_val(before, h, recs, if x == right { left } else { x }, k),
    decreases h.push(h[left])[x], 0nat,
{
    let h2 = h.push(h[left]);
    let p = before[parent];
    let c = before[left];
    let q = after[parent];
    let sn = after[right];
    let n = p.num_keys as int;
    let med = c.keys[t - 1];
    let iv2 = split_ivals(iv, left, med);
    let par2 = split_pars(par, parent, idx, left, t, right);
    assert(iv[left] == route(p, iv[parent], idx) && par[left] == Some((parent, idx)));
    assert(keys_sorted(before[left]));
    assert(keys_sorted(after[x]));
    assert(before[left].num_keys <= 2 * t - 1);
    assert(p.children[idx] == left);
    assert(keys_sorted(before[parent]));
    assert(p.num_keys <= 2 * t - 1);
    assert(q.num_keys <= 2 * t - 1);
    assert(iv2[parent] == iv[parent]);
    lemma_search_sorted(p, k);
    match search_node(p, k) {
        SearchResult::Found(i) => {
            let i2 = if (i as int) < idx { i as int } else { i + 1 };
            lemma_search_finds(q, k, i2);
        },
        SearchResult::NotFound(i) => {
            if (i as int) < idx {
                assert(p.keys[i as int] <= p.keys[idx - 1]);
                assert(within(iv[left], med));
                lemma_search_misses(q, k, i as int);
                let ch = p.children[i as int];
                assert(q.children[i as int] == ch);
                assert(iv[ch as int] == route(p, iv[parent], i as int) && par[ch as int] == Some((parent, i as int)));
                assert(ch != left);
                assert(h2[ch as int] < h2[parent]);
                assert(iv2[q.children[i as int] as int] == route(q, iv2[parent], i as int));
                lemma_within_route(q, iv2[parent], i as int, k);
                lemma_split_child_lookups(before, after, h, recs, iv, par, po, root, t, parent, idx, left, right, ch as int, k);
            } else if (i as int) > idx {
                assert(p.keys[idx] <= p.keys[i - 1]);
                assert(within(iv[left], med));
                assert(insert_position(q, i + 1, k));
                lemma_search_misses(q, k, i + 1);
                let ch = p.children[i as int];
                assert(q.children[i + 1] == ch);
                assert(iv[ch as int] == route(p, iv[parent], i as int) && par[ch as int] == Some((parent, i as int)));
                assert(ch != left);
                assert(h2[ch as int] < h2[parent]);
                assert(iv2[q.children[i + 1] as int] == route(q, iv2[parent], i + 1));
                lemma_within_route(q, iv2[parent], i + 1, k);
                lemma_split_child_lookups(before, after, h, recs, iv, par, po, root, t, parent, idx, left, right, ch as int, k);
            } else {
                assert(h[left] < h[parent]);
                if k < med {
                    assert(insert_position(q, idx, k));
                    lemma_search_misses(q, k, idx);
                    assert(iv2[q.children[idx] as int] == route(q, iv2[parent], idx));
                    lemma_within_route(q, iv2[parent], idx, k);
                    lemma_split_child_lookups(before, after, h, recs, iv, par, po, root, t, parent, idx, left, right, left, k);
                } else if k == med {
                    lemma_search_finds(q, k, idx);
                    lemma_search_finds(c, k, t - 1);
                } else {
                    assert(insert_position(q, idx + 1, k));
                    lemma_search_misses(q, k, idx + 1);
                    assert(q.children[idx + 1] == right);
                    assert(iv2[q.children[idx + 1] as int] == route(q, iv2[parent], idx + 1));
                    lemma_within_route(q, iv2[parent], idx + 1, k);
                    lemma_split_child_lookups(before, after, h, recs, iv, par, po, root, t, parent, idx, left, right, right, k);
                }
            }
        },
    }
}

/// The left half answers for the keys below the median.
#[verifier::rlimit(100)]
proof fn lemma_split_lookups_left(
    before: Seq<NodeView>,
    after: Seq<NodeView>,
    h: Seq<nat>,
    recs: Map<usize, Seq<u8>>,
    iv: Seq<Interval>,
    par: Seq<Option<(int, int)>>,
    po: Map<u64, (int, int)>,
    root: int,
    t: int,
    parent: int,
    idx: int,
    left: int,
    right: int,
    x: int,
    k: u64,
)
    requires
        split_child_ctx(before, after, h, recs, iv, par, po, root, t, parent, idx, left, right),
        0 <= x < after.len(),
        within(split_ivals(iv, left, before[left].keys[t - 1])[x], k),
        x == left,
    ensures
        lookup_val(after, h.push(h[left]), recs, x, k) == lookup_val(before, h, recs, if x == right { left } else { x }, k),
    decreases h.push(h[left])[x], 0nat,
{
    let h2 = h.push(h[left]);
    let p = before[parent];
    let c = before[left];
    let q = after[parent];
    let sn = after[right];
    let n = p.num_keys as int;
    let med = c.keys[t - 1];
    let iv2 = split_ivals(iv, left, med);
    let par2 = split_pars(par, parent, idx, left, t, right);
    assert(iv[left] == route(p, iv[parent], idx) && par[left] == Some((parent, idx)));
    assert(keys_sorted(before[left]));
    assert(keys_sorted(after[x]));
    assert(before[left].num_keys <= 2 * t - 1);
    assert(p.children[idx] == left);
    let c2 = after[left];
    lemma_search_sorted(c, k);
    match search_node(c, k) {
        SearchResult::Found(i) => {
            assert((i as int) < t - 1) by {
                if (i as int) > t - 1 {
                    assert(c.keys[t - 1] < c.keys[i as int]);
                }
            }
            lemma_search_finds(c2, k, i as int);
        },
        SearchResult::NotFound(i) => {
            assert((i as int) <= t - 1) by {
                if (i as int) > t - 1 {
                    assert(c.keys[t - 1] < k);
                }
            }
            lemma_search_misses(c2, k, i as int);
            if !c.is_leaf {
                let ch = c.children[i as int];
                assert(iv[ch as int] == route(c, iv[left], i as int) && par[ch as int] == Some((left, i as int)));
                assert(h[ch as int] < h[left]);
                assert(ch != parent && ch != left && ch != right);
                assert(iv2[c2.children[i as int] as int] == route(c2, iv2[left], i as int));
                lemma_within_route(c2, iv2[left], i as int, k);
                lemma_split_child_lookups(before, after, h, recs, iv, par, po, root, t, parent, idx, left, right, ch as int, k);
            }
        },
    }
}

/// The new right half answers for the keys above the median.
#[verifier::rlimit(100)]
proof fn lemma_split_lookups_right(
    before: Seq<NodeView>,
    after: Seq<NodeView>,
    h: Seq<nat>,
    recs: Map<usize, Seq<u8>>,
    iv: Seq<Interval>,
    par: Seq<Option<(int, int)>>,
    po: Map<u64, (int, int)>,
    root: int,
    t: int,
    parent: int,
    idx: int,
    left: int,
    right: int,
    x: int,
    k: u64,
)
    requires
        split_child_ctx(before, after, h, recs, iv, par, po, root, t, parent, idx, left, right),
        0 <= x < after.len(),
        within(split_ivals(iv, left, before[left].keys[t - 1])[x], k),
        x == right,
    ensures
        lookup_val(after, h.push(h[left]), recs, x, k) == lookup_val(before, h, recs, if x == right { left } else { x }, k),
    decreases h.push(h[left])[x], 0nat,
{
    let h2 = h.push(h[left]);
    let p = before[parent];
    let c = before[left];
    let q = after[parent];
    let sn = after[right];
    let n = p.num_keys as int;
    let med = c.keys[t - 1];
    let iv2 = split_ivals(iv, left, med);
    let par2 = split_pars(par, parent, idx, left, t, right);
    assert(iv[left] == route(p, iv[parent], idx) && par[left] == Some((parent, idx)));
    assert(keys_sorted(before[left]));
    assert(keys_sorted(after[x]));
    assert(before[left].num_keys <= 2 * t - 1);
    assert(p.children[idx] == left);
    lemma_search_sorted(c, k);
    assert(iv2[right] == (Some(med), iv[left].1));
    match search_node(c, k) {
        SearchResult::Found(i) => {
            assert((i as int) >= t) by {
                if (i as int) < t {
                    assert(c.keys[i as int] <= c.keys[t - 1]);
                }
            }
            assert(sn.keys[i - t] == k);
            lemma_search_finds(sn, k, i - t);
        },
        SearchResult::NotFound(i) => {
            assert((i as int) >= t) by {
                if (i as int) < t {
                    assert(k < c.keys[t - 1]);
                }
            }
            assert(insert_position(sn, i - t, k));
            lemma_search_misses(sn, k, i - t);
            if !c.is_leaf {
                let ch = c.children[i as int];
                assert(sn.children[i - t] == ch);
                assert(iv[ch as int] == route(c, iv[left], i as int) && par[ch as int] == Some((left, i as int)));
                assert(h[ch as int] < h[left]);
                assert(ch != parent && ch != left && ch != right);
                assert(iv2[sn.children[i - t] as int] == route(sn, iv2[right], i - t));
                lemma_within_route(sn, iv2[right], i - t, k);
                lemma_split_child_lookups(before, after, h, recs, iv, par, po, root, t, parent, idx, left, right, ch as int, k);
            }
        },
    }
}

/// A node the split did not touch routes every key as before.
#[verifier::rlimit(100)]
proof fn lemma_split_lookups_other(
    before: Seq<NodeView>,
    after: Seq<NodeView>,
    h: Seq<nat>,
    recs: Map<usize, Seq<u8>>,
    iv: Seq<Interval>,
    par: Seq<Option<(int, int)>>,
    po: Map<u64, (int, int)>,
    root: int,
    t: int,
    parent: int,
    idx: int,
    left: int,
    right: int,
    x: int,
    k: u64,
)
    requires
        split_child_ctx(before, after, h, recs, iv, par, po, root, t, parent, idx, left, right),
        0 <= x < after.len(),
        within(split_ivals(iv, left, before[left].keys[t - 1])[x], k),
        x != parent && x != left && x != right,
    ensures
        lookup_val(after, h.push(h[left]), recs, x, k) == lookup_val(before, h, recs, if x == right { left } else { x }, k),
    decreases h.push(h[left])[x], 0nat,
{
    let h2 = h.push(h[left]);
    let p = before[parent];
    let c = before[left];
    let q = after[parent];
    let sn = after[right];
    let n = p.num_keys as int;
    let med = c.keys[t - 1];
    let iv2 = split_ivals(iv, left, med);
    let par2 = split_pars(par, parent, idx, left, t, right);
    assert(iv[left] == route(p, iv[parent], idx) && par[left] == Some((parent, idx)));
    assert(keys_sorted(before[left]));
    assert(keys_sorted(after[x]));
    assert(before[left].num_keys <= 2 * t - 1);
    assert(p.children[idx] == left);
    let b = before[x];
    assert(after[x] == b);
    assert(iv2[x] == iv[x]);
    assert(keys_sorted(b));
    assert(b.num_keys <= 2 * t - 1);
    lemma_search_sorted(b, k);
    match search_node(b, k) {
        SearchResult::Found(i) => {},
        SearchResult::NotFound(i) => {
            if !b.is_leaf {
                let ch = b.children[i as int];
                assert(iv[ch as int] == route(b, iv[x], i as int) && par[ch as int] == Some((x, i as int)));
                assert(ch < before.len());
                assert(ch != left);
                assert(h[ch as int] < h[x]);
                assert(iv2[b.children[i as int] as int] == route(b, iv2[x], i as int));
                lemma_within_route(b, iv2[x], i as int, k);
                lemma_split_child_lookups(before, after, h, recs, iv, par, po, root, t, parent, idx, left, right, ch as int, k);
            }
        },
    }
}

/// The intervals after the root `o` with median `med` was split under a new root.
pub open spec fn root_split_ivals(iv: Seq<Interval>, o: int, med: u64) -> Seq<Interval> {
    iv.update(o, (None, Some(med))).push((None, None)).push((Some(med), None))
}

/// The parent slots after the root `o` was split at `t` under the new root `r`,
/// with new sibling `r + 1`.
pub open spec fn root_split_pars(par: Seq<Option<(int, int)>>, o: int, t: int, r: int) -> Seq<Option<(int, int)>> {
    Seq::new(
        (par.len() + 2) as nat,
        |x: int|
            if x == r {
                None
            } else if x == r + 1 {
                Some((r, 1))
            } else if x == o {
                Some((r, 0))
            } else {
                match par[x] {
                    Some((a, slot)) => if a == o && slot >= t {
                        Some((r + 1, slot - t))
                    } else {
                        Some((a, slot))
                    },
                    None => None,
                }
            },
    )
}

/// The payload owners after the root `o` was split at `t` under the new root `r`.
pub open spec fn root_split_pos(po: Map<u64, (int, int)>, o: int, t: int, r: int) -> Map<u64, (int, int)> {
    Map::new(
        |q: u64| po.contains_key(q),
        |q: u64|
            {
                let (a, slot) = po[q];
                if a == o && slot == t - 1 {
                    (r, 0)
                } else if a == o && slot >= t {
                    (r + 1, slot - t)
                } else {
                    (a, slot)
                }
            },
    )
}

/// Splitting the full root under a new root keeps the ordering.
pub proof fn lemma_split_root_order(
    before: Seq<NodeView>,
    after: Seq<NodeView>,
    iv: Seq<Interval>,
    par: Seq<Option<(int, int)>>,
    po: Map<u64, (int, int)>,
    t: int,
    old_root: int,
    root: int,
)
    requires
        order_ok(before, iv, par, po, old_root),
        forall|j: int| 0 <= j < before.len() ==> #[trigger] before[j].num_keys <= MAX_NUMBER_KEYS,
        forall|j: int, i: int| 0 <= j < before.len() && !before[j].is_leaf && 0 <= i <= before[j].num_keys ==>
            #[trigger] before[j].children[i] < before.len(),
        2 <= t,
        before[old_root].num_keys == 2 * t - 1,
        split_root_result(before, after, old_root, t, root),
    ensures
        order_ok(after, root_split_ivals(iv, old_root, before[old_root].keys[t - 1]),
            root_split_pars(par, old_root, t, root), root_split_pos(po, old_root, t, root), root),
{
    let o = before[old_root];
    let rn = after[root];
    let sn = after[root + 1];
    let med = o.keys[t - 1];
    let iv2 = root_split_ivals(iv, old_root, med);
    let par2 = root_split_pars(par, old_root, t, root);
    let po2 = root_split_pos(po, old_root, t, root);
    assert(keys_sorted(before[old_root]));
    assert forall|j: int| 0 <= j < after.len() implies #[trigger] keys_sorted(after[j]) by {
        if j == root + 1 {
            assert forall|a: int, b: int| 0 <= a < b < sn.num_keys implies sn.keys[a] < sn.keys[b] by {
                assert(o.keys[t + a] < o.keys[t + b]);
            }
        } else if j != root && j != old_root {
            assert(keys_sorted(before[j]));
        }
    }
    assert forall|j: int, i: int| 0 <= j < after.len() && 0 <= i < after[j].num_keys implies
        within(iv2[j], #[trigger] after[j].keys[i]) by {
        if j == old_root {
            assert(o.keys[i] < o.keys[t - 1]);
        } else if j == root + 1 {
            assert(o.keys[t - 1] < o.keys[t + i]);
        } else if j != root {
            assert(within(iv[j], before[j].keys[i]));
        }
    }
    assert forall|j: int, i: int| 0 <= j < after.len() && !after[j].is_leaf && 0 <= i <= after[j].num_keys implies
        iv2[#[trigger] after[j].children[i] as int] == route(after[j], iv2[j], i)
            && par2[after[j].children[i] as int] == Some((j, i)) by {
        if j == root {
        } else if j == old_root {
            let ch = o.children[i];
            assert(iv[ch as int] == route(o, iv[old_root], i) && par[ch as int] == Some((old_root, i)));
            assert(ch < before.len());
            assert(ch != old_root);
        } else if j == root + 1 {
            let ch = o.children[t + i];
            assert(iv[ch as int] == route(o, iv[old_root], t + i) && par[ch as int] == Some((old_root, t + i)));
            assert(ch < before.len());
            assert(ch != old_root);
        } else {
            let ch = before[j].children[i];
            assert(iv[ch as int] == route(before[j], iv[j], i) && par[ch as int] == Some((j, i)));
            assert(ch < before.len());
            assert(ch != old_root);
        }
    }
    assert forall|j: int, i: int| 0 <= j < after.len() && 0 <= i < after[j].num_keys implies
        po2.contains_key(#[trigger] after[j].payloads[i]) && po2[after[j].payloads[i]] == (j, i) by {
        if j == root {
            assert(po[o.payloads[t - 1]] == (old_root, t - 1));
        } else if j == old_root {
            assert(po[o.payloads[i]] == (old_root, i));
        } else if j == root + 1 {
            assert(po[o.payloads[t + i]] == (old_root, t + i));
        } else {
            assert(po[before[j].payloads[i]] == (j, i));
        }
    }
}

/// After the root split, lookups inside every node's interval find what they found
/// before; the new root and the new sibling answer as the old root did.
#[verifier::rlimit(100)]
pub proof fn lemma_split_root_lookups(
    before: Seq<NodeView>,
    after: Seq<NodeView>,
    h: Seq<nat>,
    recs: Map<usize, Seq<u8>>,
    iv: Seq<Interval>,
    par: Seq<Option<(int, int)>>,
    po: Map<u64, (int, int)>,
    t: int,
    old_root: int,
    root: int,
    x: int,
    k: u64,
)
    requires
        tree_ok(before, h, recs, t),
        order_ok(before, iv, par, po, old_root),
        2 <= t <= MAX_NUMBER_KEYS / 2,
        before[old_root].num_keys == 2 * t - 1,
        split_root_result(before, after, old_root, t, root),
        tree_ok(after, h.push(h[old_root] + 1).push(h[old_root]), recs, t),
        order_ok(after, root_split_ivals(iv, old_root, before[old_root].keys[t - 1]),
            root_split_pars(par, old_root, t, root), root_split_pos(po, old_root, t, root), root),
        0 <= x < after.len(),
        within(root_split_ivals(iv, old_root, before[old_root].keys[t - 1])[x], k),
    ensures
        lookup_val(after, h.push(h[old_root] + 1).push(h[old_root]), recs, x, k)
            == lookup_val(before, h, recs, if x >= root { old_root } else { x }, k),
    decreases h.push(h[old_root] + 1).push(h[old_root])[x],
{
    let h2 = h.push(h[old_root] + 1).push(h[old_root]);
    let o = before[old_root];
    let rn = after[root];
    let sn = after[root + 1];
    let med = o.keys[t - 1];
    let iv2 = root_split_ivals(iv, old_root, med);
    let par2 = root_split_pars(par, old_root, t, root);
    assert(keys_sorted(before[old_root]));
    assert(keys_sorted(after[x]));
    assert(o.num_keys <= 2 * t - 1);
    if x == root {
        assert(rn.num_keys == 1);
        if k < med {
            assert(insert_position(rn, 0, k));
            lemma_search_misses(rn, k, 0);
            assert(iv2[rn.children[0] as int] == route(rn, iv2[root], 0));
            lemma_split_root_lookups(before, after, h, recs, iv, par, po, t, old_root, root, old_root, k);
        } else if k == med {
            lemma_search_finds(rn, k, 0);
            lemma_search_finds(o, k, t - 1);
        } else {
            assert(insert_position(rn, 1, k));
            lemma_search_misses(rn, k, 1);
            assert(iv2[rn.children[1] as int] == route(rn, iv2[root], 1));
            lemma_split_root_lookups(before, after, h, recs, iv, par, po, t, old_root, root, root + 1, k);
        }
    } else if x == old_root {
        let o2 = after[old_root];
        lemma_search_sorted(o, k);
        match search_node(o, k) {
            SearchResult::Found(i) => {
                assert((i as int) < t - 1) by {
                    if (i as int) > t - 1 {
                        assert(o.keys[t - 1] < o.keys[i as int]);
                    }
                }
                lemma_search_finds(o2, k, i as int);
            },
            SearchResult::NotFound(i) => {
                assert((i as int) <= t - 1) by {
                    if (i as int) > t - 1 {
                        assert(o.keys[t - 1] < k);
                    }
                }
                lemma_search_misses(o2, k, i as int);
                if !o.is_leaf {
                    let ch = o.children[i as int];
                    assert(iv[ch as int] == route(o, iv[old_root], i as int) && par[ch as int] == Some((old_root, i as int)));
                    assert(h[ch as int] < h[old_root]);
                    assert(ch != old_root);
                    assert(iv2[o2.children[i as int] as int] == route(o2, iv2[old_root], i as int));
                    lemma_within_route(o2, iv2[old_root], i as int, k);
                    lemma_split_root_lookups(before, after, h, recs, iv, par, po, t, old_root, root, ch as int, k);
                }
            },
        }
    } else if x == root + 1 {
        lemma_search_sorted(o, k);
        match search_node(o, k) {
            SearchResult::Found(i) => {
                assert((i as int) >= t) by {
                    if (i as int) < t {
                        assert(o.keys[i as int] <= o.keys[t - 1]);
                    }
                }
                assert(sn.keys[i - t] == k);
                lemma_search_finds(sn, k, i - t);
            },
            SearchResult::NotFound(i) => {
                assert((i as int) >= t) by {
                    if (i as int) < t {
                        assert(k < o.keys[t - 1]);
                    }
                }
                assert(insert_position(sn, i - t, k));
                lemma_search_misses(sn, k, i - t);
                if !o.is_leaf {
                    let ch = o.children[i as int];
                    assert(sn.children[i - t] == ch);
                    assert(iv[ch as int] == route(o, iv[old_root], i as int) && par[ch as int] == Some((old_root, i as int)));
                    assert(h[ch as int] < h[old_root]);
                    assert(ch != old_root);
                    assert(iv2[sn.children[i - t] as int] == route(sn, iv2[root + 1], i - t));
                    lemma_within_route(sn, iv2[root + 1], i - t, k);
                    lemma_split_root_lookups(before, after, h, recs, iv, par, po, t, old_root, root, ch as int, k);
                }
            },
        }
    } else {
        let b = before[x];
        assert(after[x] == b);
        assert(iv2[x] == iv[x]);
        assert(keys_sorted(b));
        assert(b.num_keys <= 2 * t - 1);
        lemma_search_sorted(b, k);
        match search_node(b, k) {
            SearchResult::Found(i) => {},
            SearchResult::NotFound(i) => {
                if !b.is_leaf {
                    let ch = b.children[i as int];
                    assert(iv[ch as int] == route(b, iv[x], i as int) && par[ch as int] == Some((x, i as int)));
                    assert(ch < before.len());
                    assert(ch != old_root);
                    assert(h[ch as int] < h[x]);
                    assert(iv2[b.children[i as int] as int] == route(b, iv2[x], i as int));
                    lemma_within_route(b, iv2[x], i as int, k);
                    lemma_split_root_lookups(before, after, h, recs, iv, par, po, t, old_root, root, ch as int, k);
                }
            },
        }
    }
}

/// Two nodes that differ at most in their payloads.
pub open spec fn same_but_payloads(m: NodeView, n: NodeView) -> bool {
    m == (NodeView { payloads: m.payloads, ..n })
}

/// A binary search does not look at payloads.
pub proof fn lemma_bsearch_ignores_payloads(m: NodeView, n: NodeView, key: u64, left: int, right: int)
    requires
        same_but_payloads(m, n),
    ensures
        bsearch(m, key, left, right) == bsearch(n, key, left, right),
    decreases right - left,
{
    if left < right {
        let mid = left + (right - left) / 2;
        lemma_bsearch_ignores_payloads(m, n, key, mid + 1, right);
        lemma_bsearch_ignores_payloads(m, n, key, left, mid);
    }
}

/// A search does not look at payloads.
pub proof fn lemma_lookup_ignores_payloads(a: Seq<NodeView>, b: Seq<NodeView>, h: Seq<nat>, id: int, key: u64)
    requires
        a.len() == b.len(),
        forall|j: int| 0 <= j < a.len() ==> same_but_payloads(#[trigger] a[j], b[j]),
    ensures
        lookup(a, h, id, key) == lookup(b, h, id, key),
    decreases h[id],
{
    if 0 <= id < a.len() && id < h.len() {
        assert(same_but_payloads(a[id], b[id]));
        lemma_bsearch_ignores_payloads(a[id], b[id], key, 0, a[id].num_keys as int);
        match search_node(a[id], key) {
            SearchResult::Found(i) => {},
            SearchResult::NotFound(i) => {
                if !a[id].is_leaf {
                    let c = a[id].children[i as int] as int;
                    if 0 <= c < h.len() && h[c] < h[id] {
                        lemma_lookup_ignores_payloads(a, b, h, c, key);
                    }
                }
            },
        }
    }
}

/// A binary search that ends in `Found(i)` stopped at a slot that holds the key.
pub proof fn lemma_bsearch_found(n: NodeView, key: u64, left: int, right: int)
    requires
        0 <= left,
        right <= MAX_NUMBER_KEYS,
    ensures
        bsearch(n, key, left, right) matches SearchResult::Found(i) ==> left <= i < right && n.keys[i as int] == key,
    decreases right - left,
{
    if left < right {
        let mid = left + (right - left) / 2;
        lemma_bsearch_found(n, key, mid + 1, right);
        lemma_bsearch_found(n, key, left, mid);
    }
}

/// A lookup that finds something finds an occupied slot holding the key.
pub proof fn lemma_lookup_found(nodes: Seq<NodeView>, h: Seq<nat>, x: int, k: u64)
    requires
        forall|j: int| 0 <= j < nodes.len() ==> #[trigger] nodes[j].num_keys <= MAX_NUMBER_KEYS,
    ensures
        lookup(nodes, h, x, k) matches Some((j, i)) ==> 0 <= j < nodes.len() && 0 <= i < nodes[j].num_keys
            && nodes[j].keys[i] == k,
    decreases h[x],
{
    if 0 <= x < nodes.len() && x < h.len() {
        assert(nodes[x].num_keys <= MAX_NUMBER_KEYS);
        lemma_bsearch_found(nodes[x], k, 0, nodes[x].num_keys as int);
        match search_node(nodes[x], k) {
            SearchResult::Found(i) => {},
            SearchResult::NotFound(i) => {
                if !nodes[x].is_leaf {
                    let c = nodes[x].children[i as int] as int;
                    if 0 <= c < h.len() && h[c] < h[x] {
                        lemma_lookup_found(nodes, h, c, k);
                    }
                }
            },
        }
    }
}

/// The payload owners after a payload was inserted at slot `i` of node `id`.
pub open spec fn leaf_insert_pos(po: Map<u64, (int, int)>, id: int, i: int, payload: u64) -> Map<u64, (int, int)> {
    Map::new(
        |q: u64| po.contains_key(q) || q == payload,
        |q: u64|
            if q == payload {
                (id, i)
            } else {
                let (a, slot) = po[q];
                if a == id && slot >= i {
                    (id, slot + 1)
                } else {
                    (a, slot)
                }
            },
    )
}

/// Inserting a key where it belongs into a leaf, with a payload not in use, keeps
/// the ordering.
pub proof fn lemma_leaf_insert_order(
    before: Seq<NodeView>,
    after: Seq<NodeView>,
    iv: Seq<Interval>,
    par: Seq<Option<(int, int)>>,
    po: Map<u64, (int, int)>,
    root: int,
    id: int,
    i: int,
    key: u64,
    payload: u64,
)
    requires
        order_ok(before, iv, par, po, root),
        0 <= id < before.len(),
        before[id].is_leaf,
        0 <= i <= before[id].num_keys,
        insert_position(before[id], i, key),
        within(iv[id], key),
        after.len() == before.len(),
        forall|j: int| 0 <= j < before.len() && j != id ==> after[j] == before[j],
        inserted_at(before[id], i, key, payload, after[id]),
        !po.contains_key(payload),
    ensures
        order_ok(after, iv, par, leaf_insert_pos(po, id, i, payload), root),
{
    let b = before[id];
    let a = after[id];
    let po2 = leaf_insert_pos(po, id, i, payload);
    assert(keys_sorted(before[id]));
    assert forall|j: int| 0 <= j < after.len() implies #[trigger] keys_sorted(after[j]) by {
        if j == id {
            assert forall|x: int, y: int| 0 <= x < y < a.num_keys implies a.keys[x] < a.keys[y] by {
                if x < i && y > i {
                    assert(b.keys[x] < key);
                    assert(key < b.keys[y - 1]);
                } else if x < i && y < i {
                } else if x == i {
                    assert(key < b.keys[y - 1]);
                } else if y == i {
                    assert(b.keys[x] < key);
                } else {
                    assert(b.keys[x - 1] < b.keys[y - 1]);
                }
            }
        } else {
            assert(keys_sorted(before[j]));
        }
    }
    assert forall|j: int, k: int| 0 <= j < after.len() && 0 <= k < after[j].num_keys implies
        within(iv[j], #[trigger] after[j].keys[k]) by {
        if j == id {
            if k < i {
                assert(within(iv[id], b.keys[k]));
            } else if k > i {
                assert(within(iv[id], b.keys[k - 1]));
            }
        } else {
            assert(within(iv[j], before[j].keys[k]));
        }
    }
    assert forall|j: int, k: int| 0 <= j < after.len() && !after[j].is_leaf && 0 <= k <= after[j].num_keys implies
        iv[#[trigger] after[j].children[k] as int] == route(after[j], iv[j], k)
            && par[after[j].children[k] as int] == Some((j, k)) by {
        assert(iv[before[j].children[k] as int] == route(before[j], iv[j], k) && par[before[j].children[k] as int] == Some((j, k)));
    }
    assert forall|j: int, k: int| 0 <= j < after.len() && 0 <= k < after[j].num_keys implies
        po2.contains_key(#[trigger] after[j].payloads[k]) && po2[after[j].payloads[k]] == (j, k) by {
        if j == id {
            if k < i {
                assert(po[b.payloads[k]] == (id, k));
            } else if k > i {
                assert(po[b.payloads[k - 1]] == (id, k - 1));
            }
        } else {
            assert(po[before[j].payloads[k]] == (j, k));
        }
    }
}

/// After a key was inserted into a leaf, every other key inside a node's interval
/// finds what it found before, and the new key is found in the leaf.
pub proof fn lemma_leaf_insert_lookups(
    before: Seq<NodeView>,
    after: Seq<NodeView>,
    h: Seq<nat>,
    recs: Map<usize, Seq<u8>>,
    recs2: Map<usize, Seq<u8>>,
    iv: Seq<Interval>,
    par: Seq<Option<(int, int)>>,
    po: Map<u64, (int, int)>,
    root: int,
    t: int,
    id: int,
    i: int,
    key: u64,
    payload: u64,
    x: int,
    k: u64,
)
    requires
        tree_ok(before, h, recs, t),
        order_ok(before, iv, par, po, root),
        tree_ok(after, h, recs2, t),
        order_ok(after, iv, par, leaf_insert_pos(po, id, i, payload), root),
        t <= MAX_NUMBER_KEYS / 2,
        0 <= id < before.len(),
        before[id].is_leaf,
        0 <= i <= before[id].num_keys,
        insert_position(before[id], i, key),
        after.len() == before.len(),
        forall|j: int| 0 <= j < before.len() && j != id ==> after[j] == before[j],
        inserted_at(before[id], i, key, payload, after[id]),
        !po.contains_key(payload),
        forall|q: u64| #[trigger] po.contains_key(q) && q <= usize::MAX ==> recs2[q as usize] == recs[q as usize],
        0 <= x < before.len(),
        within(iv[x], k),
    ensures
        k != key ==> lookup_val(after, h, recs2, x, k) == lookup_val(before, h, recs, x, k),
        x == id ==> lookup(after, h, x, key) == Some((id, i)),
    decreases h[x],
{
    let b = before[x];
    let a = after[x];
    assert(keys_sorted(before[x]));
    assert(keys_sorted(after[x]));
    assert(b.num_keys <= 2 * t - 1);
    assert(a.num_keys <= 2 * t - 1);
    if x == id {
        lemma_search_finds(a, key, i);
        if k != key {
            lemma_search_sorted(b, k);
            match search_node(b, k) {
                SearchResult::Found(j) => {
                    let j2 = if (j as int) < i { j as int } else { j + 1 };
                    lemma_search_finds(a, k, j2);
                    assert(po.contains_key(b.payloads[j as int]) && b.payloads[j as int] <= usize::MAX);
                },
                SearchResult::NotFound(j) => {
                    if k < key {
                        assert((j as int) <= i) by {
                            if (j as int) > i {
                                assert(b.keys[i] < k);
                            }
                        }
                        assert(insert_position(a, j as int, k));
                        lemma_search_misses(a, k, j as int);
                    } else {
                        assert((j as int) >= i) by {
                            if (j as int) < i {
                                assert(k < b.keys[i - 1]);
                                assert(b.keys[i - 1] < key);
                            }
                        }
                        assert(insert_position(a, j + 1, k));
                        lemma_search_misses(a, k, j + 1);
                    }
                },
            }
        }
    } else if k != key {
        assert(a == b);
        lemma_search_sorted(b, k);
        match search_node(b, k) {
            SearchResult::Found(j) => {
                assert(po.contains_key(b.payloads[j as int]) && b.payloads[j as int] <= usize::MAX);
            },
            SearchResult::NotFound(j) => {
                if !b.is_leaf {
                    let ch = b.children[j as int];
                    assert(iv[ch as int] == route(b, iv[x], j as int) && par[ch as int] == Some((x, j as int)));
                    assert(ch < before.len() && h[ch as int] < h[x]);
                    lemma_within_route(b, iv[x], j as int, k);
                    lemma_leaf_insert_lookups(before, after, h, recs, recs2, iv, par, po, root, t, id, i, key, payload, ch as int, k);
                }
            },
        }
    }
}

/// Overwriting the record of the payload at slot `(n, s)` changes what a lookup finds
/// only for the key of that slot.
pub proof fn lemma_overwrite_lookups(
    nodes: Seq<NodeView>,
    h: Seq<nat>,
    recs: Map<usize, Seq<u8>>,
    v: Seq<u8>,
    iv: Seq<Interval>,
    par: Seq<Option<(int, int)>>,
    po: Map<u64, (int, int)>,
    root: int,
    t: int,
    n: int,
    s: int,
    x: int,
    k: u64,
)
    requires
        tree_ok(nodes, h, recs, t),
        order_ok(nodes, iv, par, po, root),
        t <= MAX_NUMBER_KEYS / 2,
        0 <= n < nodes.len(),
        0 <= s < nodes[n].num_keys,
        k != nodes[n].keys[s],
    ensures
        lookup_val(nodes, h, recs.insert(nodes[n].payloads[s] as usize, v), x, k) == lookup_val(nodes, h, recs, x, k),
{
    lemma_lookup_found(nodes, h, x, k);
    let p = nodes[n].payloads[s];
    assert(po[p] == (n, s));
    match lookup(nodes, h, x, k) {
        Some((j, i)) => {
            let q = nodes[j].payloads[i];
            assert(po[q] == (j, i));
            assert(q <= usize::MAX && p <= usize::MAX);
            assert(q != p);
        },
        None => {},
    }
}

/// A lookup of `k` from `from` passes through node `to`.
pub open spec fn routes_to(nodes: Seq<NodeView>, h: Seq<nat>, from: int, to: int, k: u64) -> bool
    decreases h[from],
{
    if from == to {
        true
    } else if !(0 <= from < nodes.len() && from < h.len()) {
        false
    } else {
        match search_node(nodes[from], k) {
            SearchResult::NotFound(i) => {
                if nodes[from].is_leaf {
                    false
                } else {
                    let c = nodes[from].children[i as int] as int;
                    if 0 <= c < h.len() && h[c] < h[from] {
                        routes_to(nodes, h, c, to, k)
                    } else {
                        false
                    }
                }
            },
            SearchResult::Found(_) => false,
        }
    }
}

/// A lookup that passes through `to` finds what a lookup from `to` finds.
pub proof fn lemma_routes_lookup(nodes: Seq<NodeView>, h: Seq<nat>, from: int, to: int, k: u64)
    requires
        routes_to(nodes, h, from, to, k),
    ensures
        lookup(nodes, h, from, k) == lookup(nodes, h, to, k),
        from != to ==> 0 <= from < h.len() && 0 <= to < h.len() && h[to] < h[from],
    decreases h[from],
{
    if from != to {
        match search_node(nodes[from], k) {
            SearchResult::NotFound(i) => {
                let c = nodes[from].children[i as int] as int;
                lemma_routes_lookup(nodes, h, c, to, k);
            },
            SearchResult::Found(_) => {},
        }
    }
}

/// Passing through `b` on the way to `c` from `a`.
pub proof fn lemma_routes_compose(nodes: Seq<NodeView>, h: Seq<nat>, a: int, b: int, c: int, k: u64)
    requires
        routes_to(nodes, h, a, b, k),
        routes_to(nodes, h, b, c, k),
    ensures
        routes_to(nodes, h, a, c, k),
    decreases h[a],
{
    if a != b {
        match search_node(nodes[a], k) {
            SearchResult::NotFound(i) => {
                let ch = nodes[a].children[i as int] as int;
                lemma_routes_compose(nodes, h, ch, b, c, k);
            },
            SearchResult::Found(_) => {},
        }
    }
}

/// The way to `to` only looks at nodes higher than `to`: where those keep their keys
/// and children, the way stays.
pub proof fn lemma_routes_frame(nodes: Seq<NodeView>, nodes2: Seq<NodeView>, h: Seq<nat>, h2: Seq<nat>, from: int, to: int, k: u64)
    requires
        routes_to(nodes, h, from, to, k),
        nodes.len() <= nodes2.len(),
        h.len() <= h2.len(),
        forall|x: int| 0 <= x < h.len() ==> h2[x] == h[x],
        0 <= to < h.len(),
        forall|x: int| 0 <= x < nodes.len() && x < h.len() && h[x] > h[to] ==> same_but_payloads(#[trigger] nodes2[x], nodes[x]),
    ensures
        routes_to(nodes2, h2, from, to, k),
    decreases h[from],
{
    if from != to {
        lemma_routes_lookup(nodes, h, from, to, k);
        assert(same_but_payloads(nodes2[from], nodes[from]));
        lemma_bsearch_ignores_payloads(nodes2[from], nodes[from], k, 0, nodes[from].num_keys as int);
        match search_node(nodes[from], k) {
            SearchResult::NotFound(i) => {
                let c = nodes[from].children[i as int] as int;
                lemma_routes_frame(nodes, nodes2, h, h2, c, to, k);
            },
            SearchResult::Found(_) => {},
        }
    }
}

/// A key inside the interval of child `i` of a sorted node belongs at position `i`,
/// and lies inside the node's own interval.
pub proof fn lemma_route_position(n: NodeView, iv: Interval, i: int, k: u64)
    requires
        keys_sorted(n),
        0 <= i <= n.num_keys,
        within(route(n, iv, i), k),
        forall|j: int| 0 <= j < n.num_keys ==> within(iv, #[trigger] n.keys[j]),
    ensures
        insert_position(n, i, k),
        within(iv, k),
{
    assert forall|j: int| 0 <= j < i implies n.keys[j] < k by {
        if j < i - 1 {
            assert(n.keys[j] < n.keys[i - 1]);
        }
    }
    assert forall|j: int| i <= j < n.num_keys implies k < n.keys[j] by {
        if j > i {
            assert(n.keys[i] < n.keys[j]);
        }
    }
    if i > 0 {
        assert(within(iv, n.keys[i - 1]));
    }
    if i < n.num_keys {
        assert(within(iv, n.keys[i]));
    }
}

/// Key `k` lies above the start bound `start`, strictly even for an included bound.
pub open spec fn start_before(k: u64, start: KeyBound) -> bool {
    match start {
        KeyBound::Included(s) => s < k,
        KeyBound::Excluded(s) => s < k,
        KeyBound::Unbounded => true,
    }
}

/// The gap of child `i` of node `n`, between keys `i - 1` and `i`, lies below the end
/// of a range from `start` to `end` and reaches above its start.
pub open spec fn child_meets(n: NodeView, i: int, start: KeyBound, end: KeyBound) -> bool {
    &&& (i == 0 || below_end(n.keys[i - 1], end))
    &&& (i == n.num_keys || start_before(n.keys[i], start))
}

/// Where the walk over a sorted node starts, compared with the position of key `i`
/// and of child `i`.
pub proof fn lemma_start_compare(n: NodeView, start: KeyBound, i: int)
    requires
        keys_sorted(n),
        n.num_keys <= MAX_NUMBER_KEYS,
        0 <= i <= n.num_keys,
    ensures
        i < n.num_keys && n.is_leaf ==> (start_position(n, start) <= i <==> above_start(n.keys[i], start)),
        i < n.num_keys && !n.is_leaf ==> (start_position(n, start) <= 2 * i + 1 <==> above_start(n.keys[i], start)),
        !n.is_leaf ==> (start_position(n, start) <= 2 * i <==> (i == n.num_keys || start_before(n.keys[i], start))),
{
    match start {
        KeyBound::Included(s) => {
            lemma_search_sorted(n, s);
            match search_node(n, s) {
                SearchResult::Found(j) => {
                    if i < n.num_keys {
                        if (j as int) < i {
                            assert(n.keys[j as int] < n.keys[i]);
                        } else if (j as int) > i {
                            assert(n.keys[i] < n.keys[j as int]);
                        }
                    }
                },
                SearchResult::NotFound(j) => {
                    if i < n.num_keys {
                        if i < j {
                            assert(n.keys[i] < s);
                        } else {
                            assert(s < n.keys[i]);
                        }
                    }
                },
            }
        },
        KeyBound::Excluded(s) => {
            lemma_search_sorted(n, s);
            match search_node(n, s) {
                SearchResult::Found(j) => {
                    if i < n.num_keys {
                        if (j as int) < i {
                            assert(n.keys[j as int] < n.keys[i]);
                        } else if (j as int) > i {
                            assert(n.keys[i] < n.keys[j as int]);
                        }
                    }
                },
                SearchResult::NotFound(j) => {
                    if i < n.num_keys {
                        if i < j {
                            assert(n.keys[i] < s);
                        } else {
                            assert(s < n.keys[i]);
                        }
                    }
                },
            }
        },
        KeyBound::Unbounded => {},
    }
}

/// The walk `find_range` yields over a sorted node holds key `i` exactly when that key
/// lies in the range, and holds child `i` whenever the child's gap meets the range;
/// a child it holds reaches above the start.
pub proof fn lemma_run_members(r: Seq<StackEntry>, id: u64, n: NodeView, start: KeyBound, end: KeyBound)
    requires
        keys_sorted(n),
        n.num_keys <= MAX_NUMBER_KEYS,
        is_run(r, id, n, start_position(n, start), end),
    ensures
        forall|i: int| 0 <= i < n.num_keys ==> (r.contains(StackEntry::Key { node: id, idx: i as usize })
            <==> (above_start(n.keys[i], start) && below_end(n.keys[i], end))),
        !n.is_leaf ==> forall|i: int| 0 <= i <= n.num_keys && #[trigger] child_meets(n, i, start, end) ==>
            r.contains(StackEntry::Child { parent: id, idx: i as usize }),
        !n.is_leaf ==> forall|i: int| 0 <= i <= n.num_keys && r.contains(StackEntry::Child { parent: id, idx: i as usize })
            ==> (i == n.num_keys || start_before(n.keys[i], start)),
{
    let a = start_position(n, start);
    let bound = 2 * MAX_NUMBER_KEYS + 2;
    if r.len() > bound {
        assert(r[bound as int] == item_at(id, n, a + bound) && included_at(n, a + bound, end));
    }
    assert forall|i: int| 0 <= i < n.num_keys implies (r.contains(StackEntry::Key { node: id, idx: i as usize })
        <==> (above_start(n.keys[i], start) && below_end(n.keys[i], end))) by {
        lemma_start_compare(n, start, i);
        let p = if n.is_leaf { i } else { 2 * i + 1 };
        if r.contains(StackEntry::Key { node: id, idx: i as usize }) {
            let q = choose|q: int| 0 <= q < r.len() && r[q] == StackEntry::Key { node: id, idx: i as usize };
            assert(r[q] == item_at(id, n, a + q) && included_at(n, a + q, end));
            assert(a + q == p);
        }
        if above_start(n.keys[i], start) && below_end(n.keys[i], end) {
            if a + r.len() <= p {
                let x = a + r.len();
                assert(!included_at(n, x, end));
                if n.is_leaf {
                    if x < i {
                        assert(n.keys[x] < n.keys[i]);
                    }
                } else if x % 2 == 1 {
                    if x / 2 < i {
                        assert(n.keys[x / 2] < n.keys[i]);
                    }
                }
            }
            assert(r[p - a] == item_at(id, n, p));
        }
    }
    if !n.is_leaf {
        assert forall|i: int| 0 <= i <= n.num_keys && #[trigger] child_meets(n, i, start, end) implies
            r.contains(StackEntry::Child { parent: id, idx: i as usize }) by {
            lemma_start_compare(n, start, i);
            let p = 2 * i;
            if a + r.len() <= p {
                let x = a + r.len();
                assert(!included_at(n, x, end));
                if x % 2 == 1 {
                    if x / 2 < i - 1 {
                        assert(n.keys[x / 2] < n.keys[i - 1]);
                    }
                }
            }
            assert(r[p - a] == item_at(id, n, p));
        }
        assert forall|i: int| 0 <= i <= n.num_keys && r.contains(StackEntry::Child { parent: id, idx: i as usize }) implies
            (i == n.num_keys || start_before(n.keys[i], start)) by {
            lemma_start_compare(n, start, i);
            let q = choose|q: int| 0 <= q < r.len() && r[q] == StackEntry::Child { parent: id, idx: i as usize };
            assert(r[q] == item_at(id, n, a + q) && included_at(n, a + q, end));
            assert(a + q == 2 * i);
        }
    }
}

} // verus!
