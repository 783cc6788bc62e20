use vstd::prelude::*;

use crate::config::MAX_NUMBER_KEYS;
use crate::error::Error;
use crate::region::{lemma_u64_at_unchanged, only_changed, u64_at, PagedRegion};

verus! {

/// The stride between node pages.
pub const NODE_PAGE_SIZE: usize = 4096;

/// Byte offsets of the fields inside a node page.
pub const OFFSET_ID: usize = 0;
pub const OFFSET_NUM_KEYS: usize = 8;
pub const OFFSET_IS_LEAF: usize = 16;
/// The 64-bit slots start here: keys, then payloads, then child node ids.
pub const OFFSET_SLOTS: usize = 17;

/// Slot numbers of the three tables inside a page.
pub const FIRST_PAYLOAD_SLOT: usize = 169;
pub const FIRST_CHILD_SLOT: usize = 338;
pub const NUMBER_OF_SLOTS: usize = 508;

/// What a node page holds.
pub struct NodeView {
    pub id: u64,
    pub num_keys: u64,
    pub is_leaf: bool,
    pub keys: Seq<u64>,
    pub payloads: Seq<u64>,
    pub children: Seq<u64>,
}

/// The 64-bit slot `k` of the page of node `j`.
pub open spec fn slot(bytes: Seq<u8>, j: int, k: int) -> u64 {
    u64_at(bytes, NODE_PAGE_SIZE * j + OFFSET_SLOTS + 8 * k)
}

/// The node whose page starts at `NODE_PAGE_SIZE * j`.
pub open spec fn node_at(bytes: Seq<u8>, j: int) -> NodeView {
    let base = NODE_PAGE_SIZE * j;
    NodeView {
        id: u64_at(bytes, base + OFFSET_ID),
        num_keys: u64_at(bytes, base + OFFSET_NUM_KEYS),
        is_leaf: bytes[base + OFFSET_IS_LEAF] != 0,
        keys: Seq::new(MAX_NUMBER_KEYS as nat, |i: int| slot(bytes, j, i)),
        payloads: Seq::new(MAX_NUMBER_KEYS as nat, |i: int| slot(bytes, j, FIRST_PAYLOAD_SLOT + i)),
        children: Seq::new(
            (MAX_NUMBER_KEYS + 1) as nat,
            |i: int| slot(bytes, j, FIRST_CHILD_SLOT + i),
        ),
    }
}

/// `n` with slot `k` (counted over keys, payloads and children in turn) set to `v`.
pub open spec fn with_slot(n: NodeView, k: int, v: u64) -> NodeView {
    if k < FIRST_PAYLOAD_SLOT {
        NodeView { keys: n.keys.update(k, v), ..n }
    } else if k < FIRST_CHILD_SLOT {
        NodeView { payloads: n.payloads.update(k - FIRST_PAYLOAD_SLOT, v), ..n }
    } else {
        NodeView { children: n.children.update(k - FIRST_CHILD_SLOT, v), ..n }
    }
}

/// The first `count` pages of `bytes` as nodes.
pub open spec fn nodes_of(bytes: Seq<u8>, count: int) -> Seq<NodeView> {
    Seq::new(count as nat, |j: int| node_at(bytes, j))
}

/// A write outside the page of node `j` leaves that node as it was.
proof fn lemma_node_untouched(before: Seq<u8>, after: Seq<u8>, o: int, n: int, j: int)
    requires
        only_changed(before, after, o, n),
        0 <= j,
        NODE_PAGE_SIZE * (j + 1) <= before.len(),
        o + n <= NODE_PAGE_SIZE * j || NODE_PAGE_SIZE * (j + 1) <= o,
    ensures
        node_at(after, j) == node_at(before, j),
{
    let base = NODE_PAGE_SIZE * j;
    lemma_u64_at_unchanged(before, after, o, n, base + OFFSET_ID);
    lemma_u64_at_unchanged(before, after, o, n, base + OFFSET_NUM_KEYS);
    assert forall|k: int| 0 <= k < NUMBER_OF_SLOTS implies #[trigger] slot(after, j, k) == slot(
        before,
        j,
        k,
    ) by {
        lemma_u64_at_unchanged(before, after, o, n, base + OFFSET_SLOTS + 8 * k);
    }
    assert(node_at(after, j).keys =~= node_at(before, j).keys);
    assert(node_at(after, j).payloads =~= node_at(before, j).payloads);
    assert(node_at(after, j).children =~= node_at(before, j).children);
}

/// Writing slot `k` of node `id` changes exactly that slot of the node view.
proof fn lemma_slot_write(before: Seq<u8>, after: Seq<u8>, count: int, id: int, k: int, v: u64)
    requires
        0 <= id < count,
        NODE_PAGE_SIZE * count <= before.len(),
        0 <= k < NUMBER_OF_SLOTS,
        only_changed(before, after, NODE_PAGE_SIZE * id + OFFSET_SLOTS + 8 * k, 8),
        slot(after, id, k) == v,
    ensures
        nodes_of(after, count) == nodes_of(before, count).update(
            id,
            with_slot(node_at(before, id), k, v),
        ),
{
    let o = NODE_PAGE_SIZE * id + OFFSET_SLOTS + 8 * k;
    assert forall|j: int| 0 <= j < count && j != id implies node_at(after, j) == node_at(
        before,
        j,
    ) by {
        lemma_node_untouched(before, after, o, 8, j);
    }
    let base = NODE_PAGE_SIZE * id;
    lemma_u64_at_unchanged(before, after, o, 8, base + OFFSET_ID);
    lemma_u64_at_unchanged(before, after, o, 8, base + OFFSET_NUM_KEYS);
    assert forall|m: int| 0 <= m < NUMBER_OF_SLOTS && m != k implies #[trigger] slot(
        after,
        id,
        m,
    ) == slot(before, id, m) by {
        lemma_u64_at_unchanged(before, after, o, 8, base + OFFSET_SLOTS + 8 * m);
    }
    let nb = node_at(before, id);
    let na = node_at(after, id);
    let w = with_slot(nb, k, v);
    assert(na.keys =~= w.keys);
    assert(na.payloads =~= w.payloads);
    assert(na.children =~= w.children);
    assert(nodes_of(after, count) =~= nodes_of(before, count).update(id, w));
}

/// Growing the bytes behind a prefix leaves the nodes inside the prefix as they were.
proof fn lemma_nodes_in_prefix(before: Seq<u8>, after: Seq<u8>, count: int)
    requires
        before.len() <= after.len(),
        after.subrange(0, before.len() as int) == before,
        0 <= count,
        NODE_PAGE_SIZE * count <= before.len(),
    ensures
        nodes_of(after, count) == nodes_of(before, count),
{
    assert forall|x: int| 0 <= x < before.len() implies after[x] == before[x] by {
        assert(after.subrange(0, before.len() as int)[x] == after[x]);
    }
    assert forall|j: int| 0 <= j < count implies node_at(after, j) == node_at(before, j) by {
        let base = NODE_PAGE_SIZE * j;
        assert forall|p: int| base <= p && p + 8 <= base + NODE_PAGE_SIZE implies u64_at(after, p)
            == u64_at(before, p) by {
            assert(after.subrange(p, p + 8) =~= before.subrange(p, p + 8));
        }
        assert(u64_at(after, base + OFFSET_ID) == u64_at(before, base + OFFSET_ID));
        assert(u64_at(after, base + OFFSET_NUM_KEYS) == u64_at(before, base + OFFSET_NUM_KEYS));
        assert forall|k: int| 0 <= k < NUMBER_OF_SLOTS implies #[trigger] slot(after, j, k)
            == slot(before, j, k) by {
            assert(u64_at(after, base + OFFSET_SLOTS + 8 * k) == u64_at(before, base + OFFSET_SLOTS + 8 * k));
        }
        assert(node_at(after, j).keys =~= node_at(before, j).keys);
        assert(node_at(after, j).payloads =~= node_at(before, j).payloads);
        assert(node_at(after, j).children =~= node_at(before, j).children);
    }
    assert(nodes_of(after, count) =~= nodes_of(before, count));
}

/// A write to the header bytes `[o, o + n)` of node `id` leaves all its slots and all other nodes.
proof fn lemma_header_write(before: Seq<u8>, after: Seq<u8>, count: int, id: int, o: int, n: int)
    requires
        0 <= id < count,
        NODE_PAGE_SIZE * count <= before.len(),
        NODE_PAGE_SIZE * id <= o,
        0 <= n,
        o + n <= NODE_PAGE_SIZE * id + OFFSET_SLOTS,
        only_changed(before, after, o, n),
    ensures
        forall|j: int| 0 <= j < count && j != id ==> node_at(after, j) == node_at(before, j),
        node_at(after, id).keys == node_at(before, id).keys,
        node_at(after, id).payloads == node_at(before, id).payloads,
        node_at(after, id).children == node_at(before, id).children,
{
    assert forall|j: int| 0 <= j < count && j != id implies node_at(after, j) == node_at(
        before,
        j,
    ) by {
        lemma_node_untouched(before, after, o, n, j);
    }
    let base = NODE_PAGE_SIZE * id;
    assert forall|m: int| 0 <= m < NUMBER_OF_SLOTS implies #[trigger] slot(after, id, m) == slot(
        before,
        id,
        m,
    ) by {
        lemma_u64_at_unchanged(before, after, o, n, base + OFFSET_SLOTS + 8 * m);
    }
    assert(node_at(after, id).keys =~= node_at(before, id).keys);
    assert(node_at(after, id).payloads =~= node_at(before, id).payloads);
    assert(node_at(after, id).children =~= node_at(before, id).children);
}

/// Where a key stands in a node.
#[derive(Clone, Copy, Debug, PartialEq, Eq, Structural)]
pub enum SearchResult {
    /// The key is at this position.
    Found(usize),
    /// The key is absent and would be inserted at this position.
    NotFound(usize),
}

/// A pending step of an in-order walk over the tree.
#[derive(Clone, Copy, Debug, PartialEq, Eq, Structural)]
pub enum StackEntry {
    /// Descend into child `idx` of node `parent`.
    Child { parent: u64, idx: usize },
    /// Yield key `idx` of node `node`.
    Key { node: u64, idx: usize },
}

/// One end of a key range.
#[derive(Clone, Copy, Debug, PartialEq, Eq, Structural)]
pub enum KeyBound {
    Included(u64),
    Excluded(u64),
    Unbounded,
}

/// Position `p` of the in-order walk over node `id`: keys alone in a leaf,
/// children and keys in turn in an internal node.
pub open spec fn item_at(id: u64, n: NodeView, p: int) -> StackEntry {
    if n.is_leaf {
        StackEntry::Key { node: id, idx: p as usize }
    } else if p % 2 == 0 {
        StackEntry::Child { parent: id, idx: (p / 2) as usize }
    } else {
        StackEntry::Key { node: id, idx: (p / 2) as usize }
    }
}

/// `key` lies below the end bound `end`.
pub open spec fn below_end(key: u64, end: KeyBound) -> bool {
    match end {
        KeyBound::Included(e) => key <= e,
        KeyBound::Excluded(e) => key < e,
        KeyBound::Unbounded => true,
    }
}

/// `key` lies above the start bound `start`.
pub open spec fn above_start(key: u64, start: KeyBound) -> bool {
    match start {
        KeyBound::Included(s) => s <= key,
        KeyBound::Excluded(s) => s < key,
        KeyBound::Unbounded => true,
    }
}

/// Position `p` of the walk over node `n` still belongs to a range ending at `end`.
pub open spec fn included_at(n: NodeView, p: int, end: KeyBound) -> bool {
    match item_at(0, n, p) {
        StackEntry::Child { idx, .. } => idx < n.num_keys + 1,
        StackEntry::Key { idx, .. } => idx < n.num_keys && below_end(n.keys[idx as int], end),
    }
}

/// `r` is the walk over node `id` from position `a` up to the first position that
/// falls outside a range ending at `end`.
pub open spec fn is_run(r: Seq<StackEntry>, id: u64, n: NodeView, a: int, end: KeyBound) -> bool {
    &&& 0 <= a <= 2 * MAX_NUMBER_KEYS + 2
    &&& forall|q: int| 0 <= q < r.len() ==> r[q] == item_at(id, n, a + q) && included_at(n, a + q, end)
    &&& !included_at(n, a + r.len(), end)
}

/// The walk position in node `n` where a range starting at `start` begins: at the
/// key or child where a search for the start bound ends.
pub open spec fn start_position(n: NodeView, start: KeyBound) -> int {
    match start {
        KeyBound::Included(k) => match search_node(n, k) {
            SearchResult::Found(i) => if n.is_leaf { i as int } else { 2 * i + 1 },
            SearchResult::NotFound(i) => if n.is_leaf { i as int } else { 2 * i },
        },
        KeyBound::Excluded(k) => match search_node(n, k) {
            SearchResult::Found(i) => if n.is_leaf { i + 1 } else { 2 * (i + 1) },
            SearchResult::NotFound(i) => if n.is_leaf { i as int } else { 2 * i },
        },
        KeyBound::Unbounded => 0,
    }
}

/// The occupied keys of `n` strictly ascend.
pub open spec fn keys_sorted(n: NodeView) -> bool {
    forall|a: int, b: int| 0 <= a < b < n.num_keys ==> n.keys[a] < n.keys[b]
}

/// The outcome of a binary search for `key` among keys `left..right` of `n`,
/// halving the interval at its middle.
pub open spec fn bsearch(n: NodeView, key: u64, left: int, right: int) -> SearchResult
    decreases right - left,
{
    if left < right {
        let mid = left + (right - left) / 2;
        if n.keys[mid] < key {
            bsearch(n, key, mid + 1, right)
        } else if n.keys[mid] > key {
            bsearch(n, key, left, mid)
        } else {
            SearchResult::Found(mid as usize)
        }
    } else {
        SearchResult::NotFound(left as usize)
    }
}

/// Where a search for `key` ends in node `n`.
pub open spec fn search_node(n: NodeView, key: u64) -> SearchResult {
    bsearch(n, key, 0, n.num_keys as int)
}

/// Position `i` of sorted node `n` is where `key` belongs: the keys before it
/// are smaller, those from it on are larger.
pub open spec fn insert_position(n: NodeView, i: int, key: u64) -> bool {
    &&& forall|j: int| 0 <= j < i ==> n.keys[j] < key
    &&& forall|j: int| i <= j < n.num_keys ==> key < n.keys[j]
}

/// Node pages of a B-tree in a paged region. A node's id is its page index.
pub struct NodeFile {
    region: PagedRegion,
    num_nodes: u64,
}

impl View for NodeFile {
    type V = Seq<NodeView>;

    closed spec fn view(&self) -> Seq<NodeView> {
        nodes_of(self.region@, self.num_nodes as int)
    }
}

impl NodeFile {
    /// Every node page lies inside the region and no node claims more keys than fit.
    pub closed spec fn wf(&self) -> bool {
        &&& NODE_PAGE_SIZE * self.num_nodes <= self.region@.len()
        &&& self.region@.len() <= usize::MAX
        &&& forall|j: int| 0 <= j < self.num_nodes ==> #[trigger] node_at(self.region@, j).num_keys <= MAX_NUMBER_KEYS
    }

    /// Every node has `MAX_NUMBER_KEYS` key and payload slots and one more child slot.
    pub proof fn lemma_slot_counts(&self)
        ensures
            forall|j: int| 0 <= j < self@.len() ==> {
                &&& (#[trigger] self@[j]).keys.len() == MAX_NUMBER_KEYS
                &&& self@[j].payloads.len() == MAX_NUMBER_KEYS
                &&& self@[j].children.len() == MAX_NUMBER_KEYS + 1
            },
    {
    }

    /// The number of bytes the region holds.
    pub closed spec fn spec_region_len(&self) -> nat {
        self.region@.len()
    }

    /// Node `j` exists.
    pub open spec fn valid(&self, j: u64) -> bool {
        j < self@.len()
    }

    /// An empty node file with room for `capacity` pages (at least one).
    pub fn with_capacity(capacity: usize) -> (r: Result<NodeFile, Error>)
        ensures
            r is Ok ==> r->Ok_0.wf() && r->Ok_0@.len() == 0,
            r is Ok ==> r->Ok_0.spec_region_len() == NODE_PAGE_SIZE * (if capacity == 0 { 1 } else { capacity }),
            r is Err ==> r->Err_0 is IO || r->Err_0 is IntConversion,
            (r is Err && r->Err_0 is IntConversion) <==> NODE_PAGE_SIZE * (if capacity == 0 { 1 } else { capacity }) > usize::MAX,
    {
        let pages = if capacity == 0 { 1 } else { capacity };
        if pages > usize::MAX / NODE_PAGE_SIZE {
            proof {
                assert(NODE_PAGE_SIZE * pages > usize::MAX) by (nonlinear_arith)
                    requires
                        pages > usize::MAX / NODE_PAGE_SIZE,
                ;
            }
            return Err(Error::IntConversion);
        }
        proof {
            assert(NODE_PAGE_SIZE * pages <= usize::MAX) by (nonlinear_arith)
                requires
                    pages <= usize::MAX / NODE_PAGE_SIZE,
            ;
        }
        let region = PagedRegion::new(pages * NODE_PAGE_SIZE)?;
        let r = NodeFile { region, num_nodes: 0 };
        proof {
            assert(r@ =~= Seq::<NodeView>::empty());
        }
        Ok(r)
    }

    /// The byte offset of the page of node `id`.
    fn page_offset(&self, id: u64) -> (r: usize)
        requires
            self.wf(),
            self.valid(id),
        ensures
            r == NODE_PAGE_SIZE * id,
            r + NODE_PAGE_SIZE <= self.region@.len(),
    {
        assert(NODE_PAGE_SIZE * id < NODE_PAGE_SIZE * self.num_nodes);
        NODE_PAGE_SIZE * (id as usize)
    }

    /// Slot `k` of node `id`.
    fn read_slot(&self, id: u64, k: usize) -> (r: u64)
        requires
            self.wf(),
            self.valid(id),
            k < NUMBER_OF_SLOTS,
        ensures
            r == slot(self.region@, id as int, k as int),
    {
        let base = self.page_offset(id);
        self.region.read_u64(base + OFFSET_SLOTS + 8 * k)
    }

    /// Set slot `k` of node `id`.
    fn write_slot(&mut self, id: u64, k: usize, v: u64)
        requires
            old(self).wf(),
            old(self).valid(id),
            k < NUMBER_OF_SLOTS,
        ensures
            final(self).wf(),
            final(self)@ == old(self)@.update(id as int, with_slot(old(self)@[id as int], k as int, v)),
            final(self).spec_region_len() == old(self).spec_region_len(),
    {
        let base = self.page_offset(id);
        let ghost before = self.region@;
        self.region.write_u64(base + OFFSET_SLOTS + 8 * k, v);
        proof {
            lemma_slot_write(before, self.region@, self.num_nodes as int, id as int, k as int, v);
            assert(self@[id as int] == with_slot(old(self)@[id as int], k as int, v));
            assert forall|j: int| 0 <= j < self.num_nodes implies #[trigger] node_at(self.region@, j).num_keys <= MAX_NUMBER_KEYS by {
                assert(self@[j] == node_at(self.region@, j));
                assert(old(self)@[j] == node_at(before, j));
            }
        }
    }

    /// Set the key count of node `id`.
    fn write_num_keys(&mut self, id: u64, n: u64)
        requires
            old(self).wf(),
            old(self).valid(id),
            n <= MAX_NUMBER_KEYS,
        ensures
            final(self).wf(),
            final(self)@ == old(self)@.update(id as int, NodeView { num_keys: n, ..old(self)@[id as int] }),
            final(self).spec_region_len() == old(self).spec_region_len(),
    {
        let base = self.page_offset(id);
        let ghost before = self.region@;
        self.region.write_u64(base + OFFSET_NUM_KEYS, n);
        proof {
            let c = self.num_nodes as int;
            lemma_header_write(before, self.region@, c, id as int, base + OFFSET_NUM_KEYS, 8);
            lemma_u64_at_unchanged(before, self.region@, base + OFFSET_NUM_KEYS, 8, base + OFFSET_ID);
            assert(self@ =~= old(self)@.update(id as int, NodeView { num_keys: n, ..old(self)@[id as int] }));
            assert forall|j: int| 0 <= j < self.num_nodes implies #[trigger] node_at(self.region@, j).num_keys <= MAX_NUMBER_KEYS by {
                assert(self@[j] == node_at(self.region@, j));
                assert(old(self)@[j] == node_at(before, j));
            }
        }
    }

    /// Set the leaf flag of node `id`.
    fn write_is_leaf(&mut self, id: u64, leaf: bool)
        requires
            old(self).wf(),
            old(self).valid(id),
        ensures
            final(self).wf(),
            final(self)@ == old(self)@.update(id as int, NodeView { is_leaf: leaf, ..old(self)@[id as int] }),
            final(self).spec_region_len() == old(self).spec_region_len(),
    {
        let base = self.page_offset(id);
        let ghost before = self.region@;
        self.region.write_u8(base + OFFSET_IS_LEAF, if leaf { 1 } else { 0 });
        proof {
            let c = self.num_nodes as int;
            assert(only_changed(before, self.region@, base + OFFSET_IS_LEAF, 1));
            lemma_header_write(before, self.region@, c, id as int, base + OFFSET_IS_LEAF, 1);
            lemma_u64_at_unchanged(before, self.region@, base + OFFSET_IS_LEAF, 1, base + OFFSET_ID);
            lemma_u64_at_unchanged(before, self.region@, base + OFFSET_IS_LEAF, 1, base + OFFSET_NUM_KEYS);
            assert(self@ =~= old(self)@.update(id as int, NodeView { is_leaf: leaf, ..old(self)@[id as int] }));
            assert forall|j: int| 0 <= j < self.num_nodes implies #[trigger] node_at(self.region@, j).num_keys <= MAX_NUMBER_KEYS by {
                assert(self@[j] == node_at(self.region@, j));
                assert(old(self)@[j] == node_at(before, j));
            }
        }
    }
    /// Append a fresh empty leaf; its id is the number of nodes before the call.
    pub fn allocate_new_node(&mut self) -> (r: Result<u64, Error>)
        requires
            old(self).wf(),
        ensures
            final(self).wf(),
            r is Ok ==> {
                &&& r->Ok_0 == old(self)@.len()
                &&& final(self)@.len() == old(self)@.len() + 1
                &&& final(self)@.subrange(0, old(self)@.len() as int) == old(self)@
                &&& final(self)@[r->Ok_0 as int].id == r->Ok_0
                &&& final(self)@[r->Ok_0 as int].num_keys == 0
                &&& final(self)@[r->Ok_0 as int].is_leaf
            },
            r is Err ==> final(self)@ == old(self)@ && (r->Err_0 is IO || r->Err_0 is IntConversion),
            (r is Err && r->Err_0 is IntConversion) <==> NODE_PAGE_SIZE * (old(self)@.len() + 1) > usize::MAX,
            r is Err && r->Err_0 is IO ==> NODE_PAGE_SIZE * (old(self)@.len() + 1) > old(self).spec_region_len(),
            final(self).spec_region_len() >= old(self).spec_region_len(),
            r is Err ==> final(self).spec_region_len() == old(self).spec_region_len(),
            NODE_PAGE_SIZE * (old(self)@.len() + 1) <= old(self).spec_region_len() ==>
                final(self).spec_region_len() == old(self).spec_region_len(),
    {
        let id = self.num_nodes;
        let offset = NODE_PAGE_SIZE * (id as usize);
        if offset > usize::MAX - NODE_PAGE_SIZE {
            return Err(Error::IntConversion);
        }
        let ghost before = self.region@;
        let ghost c = self.num_nodes as int;
        self.region.grow(offset + NODE_PAGE_SIZE)?;
        proof {
            if offset + NODE_PAGE_SIZE <= before.len() {
                assert(self.region@.subrange(0, before.len() as int) =~= before);
            }
            lemma_nodes_in_prefix(before, self.region@, c);
        }
        let ghost grown = self.region@;
        self.num_nodes = id + 1;
        proof {
            assert(self@.subrange(0, c) =~= nodes_of(grown, c));
        }
        self.region.write_u64(offset + OFFSET_ID, id);
        proof {
            lemma_header_write(grown, self.region@, c + 1, c, offset + OFFSET_ID, 8);
            assert forall|j: int| 0 <= j < c implies node_at(self.region@, j).num_keys <= MAX_NUMBER_KEYS by {
                assert(old(self)@[j] == node_at(before, j));
                assert(nodes_of(grown, c)[j] == node_at(grown, j));
            }
        }
        let ghost g2 = self.region@;
        self.region.write_u64(offset + OFFSET_NUM_KEYS, 0);
        proof {
            lemma_header_write(g2, self.region@, c + 1, c, offset + OFFSET_NUM_KEYS, 8);
            lemma_u64_at_unchanged(g2, self.region@, offset + OFFSET_NUM_KEYS, 8, offset + OFFSET_ID);
        }
        let ghost g3 = self.region@;
        self.region.write_u8(offset + OFFSET_IS_LEAF, 1);
        proof {
            assert(only_changed(g3, self.region@, offset + OFFSET_IS_LEAF, 1));
            lemma_header_write(g3, self.region@, c + 1, c, offset + OFFSET_IS_LEAF, 1);
            lemma_u64_at_unchanged(g3, self.region@, offset + OFFSET_IS_LEAF, 1, offset + OFFSET_ID);
            lemma_u64_at_unchanged(g3, self.region@, offset + OFFSET_IS_LEAF, 1, offset + OFFSET_NUM_KEYS);
            assert forall|j: int| 0 <= j < c implies node_at(self.region@, j) == node_at(grown, j) by {}
            assert(self@.subrange(0, c) =~= old(self)@);
            assert forall|j: int| 0 <= j < self.num_nodes implies #[trigger] node_at(self.region@, j).num_keys <= MAX_NUMBER_KEYS by {
                if j < c {
                    assert(old(self)@[j] == node_at(before, j));
                }
            }
        }
        Ok(id)
    }

    /// The number of keys in node `id`.
    pub fn number_of_keys(&self, id: u64) -> (r: usize)
        requires
            self.wf(),
            self.valid(id),
        ensures
            r == self@[id as int].num_keys,
            r <= MAX_NUMBER_KEYS,
    {
        let base = self.page_offset(id);
        let n = self.region.read_u64(base + OFFSET_NUM_KEYS);
        proof {
            assert(self@[id as int] == node_at(self.region@, id as int));
        }
        n as usize
    }

    /// Whether node `id` is a leaf.
    pub fn is_leaf(&self, id: u64) -> (r: bool)
        requires
            self.wf(),
            self.valid(id),
        ensures
            r == self@[id as int].is_leaf,
    {
        let base = self.page_offset(id);
        let b = self.region.read_u8(base + OFFSET_IS_LEAF);
        proof {
            assert(self@[id as int] == node_at(self.region@, id as int));
        }
        b != 0
    }

    /// The number of children of node `id`: none for a leaf, one more than its keys otherwise.
    pub fn number_of_children(&self, id: u64) -> (r: usize)
        requires
            self.wf(),
            self.valid(id),
        ensures
            r == children_count(self@[id as int]),
    {
        if self.is_leaf(id) {
            0
        } else {
            self.number_of_keys(id) + 1
        }
    }

    /// Key `i` of node `id`.
    pub fn get_key(&self, id: u64, i: usize) -> (r: Result<u64, Error>)
        requires
            self.wf(),
            self.valid(id),
        ensures
            i < self@[id as int].num_keys ==> r == Ok::<u64, Error>(self@[id as int].keys[i as int]),
            i >= self@[id as int].num_keys ==> r matches Err(Error::KeyIndexOutOfBounds { .. }),
    {
        let n = self.number_of_keys(id);
        if i < n && i < MAX_NUMBER_KEYS {
            Ok(self.read_slot(id, i))
        } else {
            Err(Error::KeyIndexOutOfBounds { idx: i, len: n })
        }
    }

    /// Set key `i` of node `id`; writing just past the last key appends it.
    pub fn set_key(&mut self, id: u64, i: usize, key: u64) -> (r: Result<(), Error>)
        requires
            old(self).wf(),
            old(self).valid(id),
        ensures
            final(self).wf(),
            r is Ok <==> i <= old(self)@[id as int].num_keys && i < MAX_NUMBER_KEYS,
            r is Ok ==> final(self)@ == old(self)@.update(id as int, set_key_in(old(self)@[id as int], i as int, key)),
            r is Err ==> final(self)@ == old(self)@ && r->Err_0 is KeyIndexOutOfBounds,
    {
        let n = self.number_of_keys(id);
        if i <= n && i < MAX_NUMBER_KEYS {
            self.write_slot(id, i, key);
            if i == n {
                self.write_num_keys(id, (n + 1) as u64);
            }
            Ok(())
        } else {
            Err(Error::KeyIndexOutOfBounds { idx: i, len: n })
        }
    }

    /// Payload `i` of node `id`.
    pub fn get_payload(&self, id: u64, i: usize) -> (r: Result<u64, Error>)
        requires
            self.wf(),
            self.valid(id),
        ensures
            i < self@[id as int].num_keys ==> r == Ok::<u64, Error>(self@[id as int].payloads[i as int]),
            i >= self@[id as int].num_keys ==> r matches Err(Error::KeyIndexOutOfBounds { .. }),
    {
        let n = self.number_of_keys(id);
        if i < n && i < MAX_NUMBER_KEYS {
            Ok(self.read_slot(id, FIRST_PAYLOAD_SLOT + i))
        } else {
            Err(Error::KeyIndexOutOfBounds { idx: i, len: n })
        }
    }

    /// Set payload `i` of node `id`, an occupied slot.
    pub fn set_payload(&mut self, id: u64, i: usize, value: u64) -> (r: Result<(), Error>)
        requires
            old(self).wf(),
            old(self).valid(id),
        ensures
            final(self).wf(),
            r is Ok <==> i < old(self)@[id as int].num_keys,
            r is Ok ==> final(self)@ == old(self)@.update(
                id as int,
                NodeView { payloads: old(self)@[id as int].payloads.update(i as int, value), ..old(self)@[id as int] },
            ),
            r is Err ==> final(self)@ == old(self)@ && r->Err_0 is KeyIndexOutOfBounds,
    {
        let n = self.number_of_keys(id);
        if i < n && i < MAX_NUMBER_KEYS {
            self.write_slot(id, FIRST_PAYLOAD_SLOT + i, value);
            Ok(())
        } else {
            Err(Error::KeyIndexOutOfBounds { idx: i, len: n })
        }
    }

    /// Child `i` of node `id`, an internal node.
    pub fn get_child_node(&self, id: u64, i: usize) -> (r: Result<u64, Error>)
        requires
            self.wf(),
            self.valid(id),
        ensures
            i < children_count(self@[id as int]) ==> r == Ok::<u64, Error>(self@[id as int].children[i as int]),
            i >= children_count(self@[id as int]) ==> r matches Err(Error::KeyIndexOutOfBounds { .. }),
    {
        let n = self.number_of_keys(id);
        let has_children = !self.is_leaf(id);
        if has_children && i < n + 1 && i < MAX_NUMBER_KEYS + 1 {
            Ok(self.read_slot(id, FIRST_CHILD_SLOT + i))
        } else {
            Err(Error::KeyIndexOutOfBounds { idx: i, len: n })
        }
    }

    /// Set child `i` of node `id`, at most one past its current children; the node
    /// becomes internal.
    pub fn set_child_node(&mut self, id: u64, i: usize, child: u64) -> (r: Result<(), Error>)
        requires
            old(self).wf(),
            old(self).valid(id),
        ensures
            final(self).wf(),
            r is Ok <==> i <= children_count(old(self)@[id as int]) && i <= MAX_NUMBER_KEYS,
            r is Ok ==> final(self)@ == old(self)@.update(
                id as int,
                NodeView {
                    children: old(self)@[id as int].children.update(i as int, child),
                    is_leaf: false,
                    ..old(self)@[id as int]
                },
            ),
            r is Err ==> final(self)@ == old(self)@ && r->Err_0 is KeyIndexOutOfBounds,
    {
        let n = self.number_of_children(id);
        if i <= n && i < MAX_NUMBER_KEYS + 1 {
            self.write_slot(id, FIRST_CHILD_SLOT + i, child);
            self.write_is_leaf(id, false);
            Ok(())
        } else {
            Err(Error::KeyIndexOutOfBounds { idx: i, len: n })
        }
    }
    /// Binary search for `key` among the occupied keys of node `id`.
    pub fn binary_search(&self, id: u64, key: u64) -> (r: SearchResult)
        requires
            self.wf(),
            self.valid(id),
        ensures
            r == search_node(self@[id as int], key),
            r matches SearchResult::Found(i) ==> i < self@[id as int].num_keys
                && self@[id as int].keys[i as int] == key,
            r matches SearchResult::NotFound(i) ==> i <= self@[id as int].num_keys && (keys_sorted(
                self@[id as int],
            ) ==> insert_position(self@[id as int], i as int, key)),
    {
        let n = self.number_of_keys(id);
        let ghost node = self@[id as int];
        let mut left: usize = 0;
        let mut right: usize = n;
        while left < right
            invariant
                self.wf(),
                self.valid(id),
                node == self@[id as int],
                n == node.num_keys,
                n <= MAX_NUMBER_KEYS,
                left <= right <= n,
                search_node(node, key) == bsearch(node, key, left as int, right as int),
                keys_sorted(node) ==> forall|j: int| 0 <= j < left ==> node.keys[j] < key,
                keys_sorted(node) ==> forall|j: int| right <= j < n ==> key < node.keys[j],
            decreases right - left,
        {
            let mid = left + (right - left) / 2;
            let mid_key = self.read_slot(id, mid);
            proof {
                assert(node == node_at(self.region@, id as int));
                assert(mid_key == node.keys[mid as int]);
            }
            if mid_key < key {
                left = mid + 1;
            } else if mid_key > key {
                right = mid;
            } else {
                return SearchResult::Found(mid);
            }
        }
        SearchResult::NotFound(left)
    }

    /// Move the keys and payloads from `split_at` on (and the children from `split_at`
    /// on) of node `source` into a new node; `source` keeps its first `split_at` keys.
    fn split_off(&mut self, source: u64, split_at: usize) -> (r: Result<u64, Error>)
        requires
            old(self).wf(),
            old(self).valid(source),
            split_at < old(self)@[source as int].num_keys,
        ensures
            final(self).wf(),
            r is Ok ==> split_off_result(old(self)@, final(self)@, source as int, split_at as int, r->Ok_0 as int),
            r is Err ==> final(self)@ == old(self)@ && (r->Err_0 is IO || r->Err_0 is IntConversion),
            (r is Err && r->Err_0 is IntConversion) <==> NODE_PAGE_SIZE * (old(self)@.len() + 1) > usize::MAX,
            r is Err && r->Err_0 is IO ==> NODE_PAGE_SIZE * (old(self)@.len() + 1) > old(self).spec_region_len(),
            final(self).spec_region_len() >= old(self).spec_region_len(),
            r is Err ==> final(self).spec_region_len() == old(self).spec_region_len(),
    {
        let n = self.number_of_keys(source);
        let leaf = self.is_leaf(source);
        let ghost src = self@[source as int];
        let ghost len = self@.len() as int;
        let target = self.allocate_new_node()?;
        proof {
            assert(self@[source as int] == self@.subrange(0, len)[source as int]);
        }
        let mut i: usize = split_at;
        while i < n
            invariant
                self.wf(),
                self.spec_region_len() >= old(self).spec_region_len(),
                split_at <= i <= n,
                n == src.num_keys,
                n <= MAX_NUMBER_KEYS,
                self@.len() == len + 1,
                target == len,
                source < len,
                leaf == src.is_leaf,
                len == old(self)@.len(),
                src == old(self)@[source as int],
                forall|j: int| 0 <= j < len ==> self@[j] == old(self)@[j],
                self@[target as int].id == target,
                self@[target as int].num_keys == 0,
                self@[target as int].is_leaf,
                forall|m: int| 0 <= m < i - split_at ==> self@[target as int].keys[m] == src.keys[split_at + m],
                forall|m: int| 0 <= m < i - split_at ==> self@[target as int].payloads[m] == src.payloads[split_at + m],
            decreases n - i,
        {
            let k = self.read_slot(source, i);
            let p = self.read_slot(source, FIRST_PAYLOAD_SLOT + i);
            proof {
                assert(self@[source as int] == node_at(self.region@, source as int));
                assert(src == self@[source as int]);
                assert(src.keys[i as int] == k);
                assert(src.payloads[i as int] == p);
            }
            self.write_slot(target, i - split_at, k);
            self.write_slot(target, FIRST_PAYLOAD_SLOT + (i - split_at), p);
            i = i + 1;
        }
        if !leaf {
            self.write_is_leaf(target, false);
            let mut c: usize = split_at;
            while c <= n
                invariant
                    self.wf(),
                    self.spec_region_len() >= old(self).spec_region_len(),
                    split_at <= c <= n + 1,
                    n == src.num_keys,
                    n <= MAX_NUMBER_KEYS,
                    self@.len() == len + 1,
                    target == len,
                    source < len,
                    len == old(self)@.len(),
                    src == old(self)@[source as int],
                    forall|j: int| 0 <= j < len ==> self@[j] == old(self)@[j],
                    self@[target as int].id == target,
                    self@[target as int].num_keys == 0,
                    !self@[target as int].is_leaf,
                    forall|m: int| 0 <= m < n - split_at ==> self@[target as int].keys[m] == src.keys[split_at + m],
                    forall|m: int| 0 <= m < n - split_at ==> self@[target as int].payloads[m] == src.payloads[split_at + m],
                    forall|m: int| 0 <= m < c - split_at ==> self@[target as int].children[m] == src.children[split_at + m],
                decreases n + 1 - c,
            {
                let ch = self.read_slot(source, FIRST_CHILD_SLOT + c);
                proof {
                    assert(self@[source as int] == node_at(self.region@, source as int));
                    assert(src == self@[source as int]);
                    assert(src.children[c as int] == ch);
                }
                self.write_slot(target, FIRST_CHILD_SLOT + (c - split_at), ch);
                c = c + 1;
            }
        }
        self.write_num_keys(target, (n - split_at) as u64);
        self.write_num_keys(source, split_at as u64);
        Ok(target)
    }
    /// Split the full child `child_idx` of `parent`: its keys from `split_at` on move to
    /// a new right sibling, its key `split_at - 1` moves up into `parent` at `child_idx`,
    /// and the sibling becomes child `child_idx + 1` of `parent`.
    /// Returns the ids of the two children.
    pub fn split_child(&mut self, parent: u64, child_idx: usize, split_at: usize) -> (r: Result<(u64, u64), Error>)
        requires
            old(self).wf(),
            old(self).valid(parent),
            !old(self)@[parent as int].is_leaf,
            child_idx <= old(self)@[parent as int].num_keys,
            old(self)@[parent as int].num_keys < MAX_NUMBER_KEYS,
            old(self).valid(old(self)@[parent as int].children[child_idx as int]),
            old(self)@[parent as int].children[child_idx as int] != parent,
            1 <= split_at < old(self)@[old(self)@[parent as int].children[child_idx as int] as int].num_keys,
        ensures
            final(self).wf(),
            r is Ok ==> split_child_result(old(self)@, final(self)@, parent as int, child_idx as int, split_at as int, r->Ok_0.0 as int, r->Ok_0.1 as int),
            r is Err ==> final(self)@ == old(self)@ && (r->Err_0 is IO || r->Err_0 is IntConversion),
            (r is Err && r->Err_0 is IntConversion) <==> NODE_PAGE_SIZE * (old(self)@.len() + 1) > usize::MAX,
            r is Err && r->Err_0 is IO ==> NODE_PAGE_SIZE * (old(self)@.len() + 1) > old(self).spec_region_len(),
            final(self).spec_region_len() >= old(self).spec_region_len(),
            r is Err ==> final(self).spec_region_len() == old(self).spec_region_len(),
    {
        let ghost before = self@;
        let ghost p = before[parent as int];
        let n = self.number_of_keys(parent);
        let c = self.read_slot(parent, FIRST_CHILD_SLOT + child_idx);
        proof {
            assert(self@[parent as int] == node_at(self.region@, parent as int));
            assert(c == p.children[child_idx as int]);
        }
        let right = self.split_off(c, split_at)?;
        let ghost after_split = self@;
        let median_key = self.read_slot(c, split_at - 1);
        let median_payload = self.read_slot(c, FIRST_PAYLOAD_SLOT + split_at - 1);
        proof {
            assert(self@[c as int] == node_at(self.region@, c as int));
        }
        self.write_num_keys(c, (split_at - 1) as u64);
        let ghost mid = self@;
        proof {
            assert(mid[parent as int] == p);
            assert(mid[c as int] == NodeView { num_keys: (split_at - 1) as u64, ..before[c as int] });
            assert forall|j: int| 0 <= j < before.len() && j != c implies mid[j] == before[j] by {
                assert(mid[j] == after_split[j]);
            }
        }
        let mut k: usize = n;
        while k > child_idx
            invariant
                self.wf(),
                self.spec_region_len() >= old(self).spec_region_len(),
                child_idx <= k <= n,
                n == p.num_keys,
                n < MAX_NUMBER_KEYS,
                self@.len() == mid.len(),
                parent < mid.len(),
                forall|j: int| 0 <= j < mid.len() && j != parent ==> self@[j] == mid[j],
                self@[parent as int] == (NodeView { keys: self@[parent as int].keys, payloads: self@[parent as int].payloads, ..p }),
                forall|m: int| 0 <= m <= k ==> self@[parent as int].keys[m] == p.keys[m],
                forall|m: int| 0 <= m <= k ==> self@[parent as int].payloads[m] == p.payloads[m],
                forall|m: int| k < m <= n ==> self@[parent as int].keys[m] == p.keys[m - 1],
                forall|m: int| k < m <= n ==> self@[parent as int].payloads[m] == p.payloads[m - 1],
            decreases k,
        {
            let key = self.read_slot(parent, k - 1);
            let pay = self.read_slot(parent, FIRST_PAYLOAD_SLOT + k - 1);
            proof {
                assert(self@[parent as int] == node_at(self.region@, parent as int));
            }
            self.write_slot(parent, k, key);
            self.write_slot(parent, FIRST_PAYLOAD_SLOT + k, pay);
            k = k - 1;
        }
        let mut m: usize = n + 1;
        while m > child_idx + 1
            invariant
                self.wf(),
                self.spec_region_len() >= old(self).spec_region_len(),
                child_idx + 1 <= m <= n + 1,
                n == p.num_keys,
                n < MAX_NUMBER_KEYS,
                self@.len() == mid.len(),
                parent < mid.len(),
                forall|j: int| 0 <= j < mid.len() && j != parent ==> self@[j] == mid[j],
                self@[parent as int] == (NodeView { keys: self@[parent as int].keys, payloads: self@[parent as int].payloads, children: self@[parent as int].children, ..p }),
                forall|q: int| 0 <= q <= child_idx ==> self@[parent as int].keys[q] == p.keys[q],
                forall|q: int| 0 <= q <= child_idx ==> self@[parent as int].payloads[q] == p.payloads[q],
                forall|q: int| child_idx < q <= n ==> self@[parent as int].keys[q] == p.keys[q - 1],
                forall|q: int| child_idx < q <= n ==> self@[parent as int].payloads[q] == p.payloads[q - 1],
                forall|q: int| 0 <= q <= m ==> self@[parent as int].children[q] == p.children[q],
                forall|q: int| m < q <= n + 1 ==> self@[parent as int].children[q] == p.children[q - 1],
            decreases m,
        {
            let ch = self.read_slot(parent, FIRST_CHILD_SLOT + m - 1);
            proof {
                assert(self@[parent as int] == node_at(self.region@, parent as int));
            }
            self.write_slot(parent, FIRST_CHILD_SLOT + m, ch);
            m = m - 1;
        }
        let ghost after_shift = self@;
        self.write_slot(parent, child_idx, median_key);
        self.write_slot(parent, FIRST_PAYLOAD_SLOT + child_idx, median_payload);
        self.write_slot(parent, FIRST_CHILD_SLOT + child_idx + 1, right);
        self.write_num_keys(parent, (n + 1) as u64);
        proof {
            let after = self@;
            assert forall|j: int| 0 <= j < mid.len() && j != parent implies after[j] == mid[j] by {
                assert(after[j] == after_shift[j]);
            }
        }
        Ok((c, right))
    }

    /// Split the full root `old_root`: a new root takes its key `split_at - 1`, with
    /// `old_root` (keeping the keys before it) and a new sibling (holding the keys
    /// from `split_at` on) as its two children. Returns the id of the new root.
    pub fn split_root_node(&mut self, old_root: u64, split_at: usize) -> (r: Result<u64, Error>)
        requires
            old(self).wf(),
            old(self).valid(old_root),
            1 <= split_at < old(self)@[old_root as int].num_keys,
        ensures
            final(self).wf(),
            r is Ok ==> split_root_result(old(self)@, final(self)@, old_root as int, split_at as int, r->Ok_0 as int),
            r is Err ==> {
                &&& final(self)@.subrange(0, old(self)@.len() as int) == old(self)@
                &&& final(self)@.len() == old(self)@.len() || (final(self)@.len() == old(self)@.len() + 1
                    && final(self)@[old(self)@.len() as int].is_leaf && final(self)@[old(self)@.len() as int].num_keys == 0)
            },
            r is Err ==> r->Err_0 is IO || r->Err_0 is IntConversion,
            (r is Err && r->Err_0 is IntConversion) <==> NODE_PAGE_SIZE * (old(self)@.len() + 2) > usize::MAX,
            r is Err && r->Err_0 is IO ==> NODE_PAGE_SIZE * (old(self)@.len() + 2) > final(self).spec_region_len(),
            final(self).spec_region_len() >= old(self).spec_region_len(),
    {
        let ghost before = self@;
        if self.num_nodes >= (usize::MAX / NODE_PAGE_SIZE) as u64 - 1 {
            proof {
                assert(NODE_PAGE_SIZE * (self.num_nodes + 2) > usize::MAX) by (nonlinear_arith)
                    requires
                        self.num_nodes >= (usize::MAX / NODE_PAGE_SIZE) as u64 - 1,
                ;
            }
            return Err(Error::IntConversion);
        }
        proof {
            assert(NODE_PAGE_SIZE * (self.num_nodes + 2) <= usize::MAX) by (nonlinear_arith)
                requires
                    self.num_nodes < (usize::MAX / NODE_PAGE_SIZE) as u64 - 1,
            ;
        }
        let new_root = self.allocate_new_node()?;
        proof {
            assert(self@[old_root as int] == self@.subrange(0, before.len() as int)[old_root as int]);
        }
        let ghost with_root = self@;
        let right = self.split_off(old_root, split_at)?;
        let median_key = self.read_slot(old_root, split_at - 1);
        let median_payload = self.read_slot(old_root, FIRST_PAYLOAD_SLOT + split_at - 1);
        proof {
            assert(self@[old_root as int] == node_at(self.region@, old_root as int));
        }
        self.write_num_keys(old_root, (split_at - 1) as u64);
        self.write_slot(new_root, 0, median_key);
        self.write_slot(new_root, FIRST_PAYLOAD_SLOT, median_payload);
        self.write_slot(new_root, FIRST_CHILD_SLOT, old_root);
        self.write_slot(new_root, FIRST_CHILD_SLOT + 1, right);
        self.write_is_leaf(new_root, false);
        self.write_num_keys(new_root, 1);
        proof {
            assert forall|j: int| 0 <= j < before.len() && j != old_root implies self@[j] == before[j] by {
                assert(with_root.subrange(0, before.len() as int)[j] == with_root[j]);
            }
        }
        Ok(new_root)
    }
    /// The walk position where a range starting at `start` begins in node `id`.
    fn find_first_candidate(&self, id: u64, start: KeyBound) -> (r: usize)
        requires
            self.wf(),
            self.valid(id),
        ensures
            r <= 2 * MAX_NUMBER_KEYS + 2,
            r == start_position(self@[id as int], start),
    {
        let leaf = self.is_leaf(id);
        match start {
            KeyBound::Included(key) => match self.binary_search(id, key) {
                SearchResult::Found(i) => if leaf { i } else { 2 * i + 1 },
                SearchResult::NotFound(i) => if leaf { i } else { 2 * i },
            },
            KeyBound::Excluded(key) => match self.binary_search(id, key) {
                SearchResult::Found(i) => if leaf { i + 1 } else { 2 * (i + 1) },
                SearchResult::NotFound(i) => if leaf { i } else { 2 * i },
            },
            KeyBound::Unbounded => 0,
        }
    }

    /// The children and keys of node `id`, in order, that a range from `start` to `end`
    /// may need: from the first candidate for `start` on, up to the first key past `end`.
    pub fn find_range(&self, id: u64, start: KeyBound, end: KeyBound) -> (r: Vec<StackEntry>)
        requires
            self.wf(),
            self.valid(id),
        ensures
            is_run(r@, id, self@[id as int], start_position(self@[id as int], start), end),
            keys_sorted(self@[id as int]) ==> forall|i: int| 0 <= i < self@[id as int].num_keys ==>
                (r@.contains(StackEntry::Key { node: id, idx: i as usize })
                    <==> (above_start(self@[id as int].keys[i], start) && below_end(self@[id as int].keys[i], end))),
            keys_sorted(self@[id as int]) && !self@[id as int].is_leaf ==> forall|i: int| 0 <= i <= self@[id as int].num_keys
                && #[trigger] crate::order::child_meets(self@[id as int], i, start, end) ==>
                r@.contains(StackEntry::Child { parent: id, idx: i as usize }),
            keys_sorted(self@[id as int]) && !self@[id as int].is_leaf ==> forall|i: int| 0 <= i <= self@[id as int].num_keys
                && r@.contains(StackEntry::Child { parent: id, idx: i as usize }) ==>
                (i == self@[id as int].num_keys || crate::order::start_before(self@[id as int].keys[i], start)),
    {
        let ghost node = self@[id as int];
        let n = self.number_of_keys(id);
        let leaf = self.is_leaf(id);
        let first = self.find_first_candidate(id, start);
        let mut result: Vec<StackEntry> = Vec::new();
        let mut p: usize = first;
        loop
            invariant
                self.wf(),
                self.valid(id),
                node == self@[id as int],
                n == node.num_keys,
                n <= MAX_NUMBER_KEYS,
                leaf == node.is_leaf,
                first <= p <= 2 * MAX_NUMBER_KEYS + 2,
                result@.len() == p - first,
                forall|q: int| 0 <= q < result@.len() ==> result@[q] == item_at(id, node, first + q) && included_at(node, first + q, end),
            ensures
                is_run(result@, id, node, first as int, end),
            decreases 2 * MAX_NUMBER_KEYS + 2 - p,
        {
            let item = if leaf {
                StackEntry::Key { node: id, idx: p }
            } else if p % 2 == 0 {
                StackEntry::Child { parent: id, idx: p / 2 }
            } else {
                StackEntry::Key { node: id, idx: p / 2 }
            };
            let included = match item {
                StackEntry::Child { idx, .. } => idx < n + 1,
                StackEntry::Key { idx, .. } => {
                    if idx < n {
                        let key = self.read_slot(id, idx);
                        proof {
                            assert(node == node_at(self.region@, id as int));
                        }
                        match end {
                            KeyBound::Included(e) => key <= e,
                            KeyBound::Excluded(e) => key < e,
                            KeyBound::Unbounded => true,
                        }
                    } else {
                        false
                    }
                },
            };
            if !included {
                break;
            }
            result.push(item);
            p = p + 1;
        }
        proof {
            if keys_sorted(node) {
                crate::order::lemma_run_members(result@, id, node, start, end);
            }
        }
        result
    }
    /// Insert `key` with `payload` at position `i` of node `id`, shifting the keys and
    /// payloads from `i` on one slot to the right.
    pub fn insert_slot(&mut self, id: u64, i: usize, key: u64, payload: u64)
        requires
            old(self).wf(),
            old(self).valid(id),
            i <= old(self)@[id as int].num_keys,
            old(self)@[id as int].num_keys < MAX_NUMBER_KEYS,
        ensures
            final(self).wf(),
            final(self)@.len() == old(self)@.len(),
            forall|j: int| 0 <= j < old(self)@.len() && j != id ==> final(self)@[j] == old(self)@[j],
            inserted_at(old(self)@[id as int], i as int, key, payload, final(self)@[id as int]),
            final(self).spec_region_len() == old(self).spec_region_len(),
    {
        let ghost p = self@[id as int];
        let ghost before = self@;
        let n = self.number_of_keys(id);
        let mut k: usize = n;
        while k > i
            invariant
                self.wf(),
                self.spec_region_len() == old(self).spec_region_len(),
                i <= k <= n,
                n == p.num_keys,
                n < MAX_NUMBER_KEYS,
                self@.len() == before.len(),
                id < before.len(),
                forall|j: int| 0 <= j < before.len() && j != id ==> self@[j] == before[j],
                self@[id as int] == (NodeView { keys: self@[id as int].keys, payloads: self@[id as int].payloads, ..p }),
                forall|m: int| 0 <= m <= k ==> self@[id as int].keys[m] == p.keys[m],
                forall|m: int| 0 <= m <= k ==> self@[id as int].payloads[m] == p.payloads[m],
                forall|m: int| k < m <= n ==> self@[id as int].keys[m] == p.keys[m - 1],
                forall|m: int| k < m <= n ==> self@[id as int].payloads[m] == p.payloads[m - 1],
            decreases k,
        {
            let kk = self.read_slot(id, k - 1);
            let pp = self.read_slot(id, FIRST_PAYLOAD_SLOT + k - 1);
            proof {
                assert(self@[id as int] == node_at(self.region@, id as int));
            }
            self.write_slot(id, k, kk);
            self.write_slot(id, FIRST_PAYLOAD_SLOT + k, pp);
            k = k - 1;
        }
        self.write_slot(id, i, key);
        self.write_slot(id, FIRST_PAYLOAD_SLOT + i, payload);
        self.write_num_keys(id, (n + 1) as u64);
    }
}

/// `m` is `n` with `key` and `payload` inserted at position `i`.
pub open spec fn inserted_at(n: NodeView, i: int, key: u64, payload: u64, m: NodeView) -> bool {
    &&& m == (NodeView { keys: m.keys, payloads: m.payloads, num_keys: (n.num_keys + 1) as u64, ..n })
    &&& forall|j: int| 0 <= j < i ==> m.keys[j] == n.keys[j] && m.payloads[j] == n.payloads[j]
    &&& m.keys[i] == key
    &&& m.payloads[i] == payload
    &&& forall|j: int| i < j <= n.num_keys ==> m.keys[j] == n.keys[j - 1] && m.payloads[j] == n.payloads[j - 1]
}

/// `t` holds the keys and payloads of `src` from `split_at` on, and its children
/// from `split_at` on where `src` is internal.
pub open spec fn holds_upper_half(src: NodeView, split_at: int, t: NodeView) -> bool {
    let n = src.num_keys as int;
    &&& t.num_keys == n - split_at
    &&& t.is_leaf == src.is_leaf
    &&& forall|m: int| 0 <= m < n - split_at ==> t.keys[m] == src.keys[split_at + m]
    &&& forall|m: int| 0 <= m < n - split_at ==> t.payloads[m] == src.payloads[split_at + m]
    &&& !src.is_leaf ==> forall|m: int| 0 <= m <= n - split_at ==> t.children[m] == src.children[split_at + m]
}

/// `after` is `before` with child `child_idx` of `parent` split at `split_at` into
/// `left` and the new node `right`, its median moved up into `parent`.
pub open spec fn split_child_result(
    before: Seq<NodeView>,
    after: Seq<NodeView>,
    parent: int,
    child_idx: int,
    split_at: int,
    left: int,
    right: int,
) -> bool {
    let p = before[parent];
    let n = p.num_keys as int;
    let c = before[left];
    let q = after[parent];
    &&& left == p.children[child_idx]
    &&& right == before.len()
    &&& after.len() == before.len() + 1
    &&& forall|j: int| 0 <= j < before.len() && j != parent && j != left ==> after[j] == before[j]
    &&& after[left] == NodeView { num_keys: (split_at - 1) as u64, ..c }
    &&& after[right].id == right
    &&& holds_upper_half(c, split_at, after[right])
    &&& q == (NodeView { keys: q.keys, payloads: q.payloads, children: q.children, num_keys: (n + 1) as u64, ..p })
    &&& forall|m: int| 0 <= m < child_idx ==> q.keys[m] == p.keys[m] && q.payloads[m] == p.payloads[m]
    &&& q.keys[child_idx] == c.keys[split_at - 1]
    &&& q.payloads[child_idx] == c.payloads[split_at - 1]
    &&& forall|m: int| child_idx < m <= n ==> q.keys[m] == p.keys[m - 1] && q.payloads[m] == p.payloads[m - 1]
    &&& forall|m: int| 0 <= m <= child_idx ==> q.children[m] == p.children[m]
    &&& q.children[child_idx + 1] == right
    &&& forall|m: int| child_idx + 1 < m <= n + 1 ==> q.children[m] == p.children[m - 1]
}

/// `after` is `before` with `old_root` split at `split_at` under the new root `root`,
/// whose right child is the new node `root + 1`.
pub open spec fn split_root_result(
    before: Seq<NodeView>,
    after: Seq<NodeView>,
    old_root: int,
    split_at: int,
    root: int,
) -> bool {
    let o = before[old_root];
    let r = after[root];
    &&& root == before.len()
    &&& after.len() == before.len() + 2
    &&& forall|j: int| 0 <= j < before.len() && j != old_root ==> after[j] == before[j]
    &&& after[old_root] == NodeView { num_keys: (split_at - 1) as u64, ..o }
    &&& after[root + 1].id == root + 1
    &&& holds_upper_half(o, split_at, after[root + 1])
    &&& r.id == root
    &&& r.num_keys == 1
    &&& !r.is_leaf
    &&& r.keys[0] == o.keys[split_at - 1]
    &&& r.payloads[0] == o.payloads[split_at - 1]
    &&& r.children[0] == old_root
    &&& r.children[1] == root + 1
}

/// `after` is `before` with the upper part of node `source`, from key `split_at`
/// on, moved into the new node `target`.
pub open spec fn split_off_result(before: Seq<NodeView>, after: Seq<NodeView>, source: int, split_at: int, target: int) -> bool {
    let src = before[source];
    let n = src.num_keys as int;
    let t = after[target];
    &&& target == before.len()
    &&& after.len() == before.len() + 1
    &&& forall|j: int| 0 <= j < before.len() && j != source ==> after[j] == before[j]
    &&& after[source] == NodeView { num_keys: split_at as u64, ..src }
    &&& t.id == target
    &&& holds_upper_half(src, split_at, t)
}

/// The number of children of a node: none for a leaf.
pub open spec fn children_count(n: NodeView) -> int {
    if n.is_leaf {
        0
    } else {
        n.num_keys + 1
    }
}

/// `n` with key `i` set to `key`, counting it in when it is appended.
pub open spec fn set_key_in(n: NodeView, i: int, key: u64) -> NodeView {
    NodeView {
        keys: n.keys.update(i, key),
        num_keys: if i == n.num_keys { (n.num_keys + 1) as u64 } else { n.num_keys },
        ..n
    }
}

} // verus!
