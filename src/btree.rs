use vstd::prelude::*;

use crate::config::{BtreeConfig, TypeSize, MAX_NUMBER_KEYS};
use crate::error::Error;
use crate::node::{
    above_start, below_end, insert_position, start_position, inserted_at, is_run, item_at, keys_sorted, search_node, split_child_result, split_root_result,
    KeyBound, NodeFile, NodeView, SearchResult, StackEntry, NODE_PAGE_SIZE,
};
use crate::order::{
    lemma_leaf_insert_lookups, lemma_leaf_insert_order, lemma_lookup_found, lemma_lookup_ignores_payloads,
    lemma_overwrite_lookups, lemma_routes_compose, lemma_routes_frame, lemma_routes_lookup,
    lemma_search_finds, lemma_search_misses, lemma_search_sorted, lemma_split_child_lookups,
    lemma_split_child_order, lemma_split_root_lookups, lemma_split_root_order, lemma_within_route,
    lemma_route_position,
    leaf_insert_pos, lookup_val, order_ok, root_split_ivals, root_split_pars, root_split_pos, route,
    routes_to, same_but_payloads, split_ivals, split_pars, split_pos, within, Interval,
};
use crate::tuple::{lemma_page_aligned_bound, record_encoding, spec_page_aligned, FixedSizeTupleFile, VariableSizeTupleFile, HEADER_SIZE, PAGE_SIZE};

verus! {

/// The store that holds the values: records of variable or of fixed size.
pub enum ValueStore {
    Variable(VariableSizeTupleFile),
    Fixed(FixedSizeTupleFile),
    /// Values of width zero: every value is empty and no bytes are stored; blocks are
    /// numbered so that each slot keeps a payload of its own.
    Empty { count: usize, records: Ghost<Map<usize, Seq<u8>>> },
}

impl ValueStore {
    pub open spec fn wf(&self) -> bool {
        match self {
            ValueStore::Variable(f) => f.wf(),
            ValueStore::Fixed(f) => f.wf() && f.width() > 0,
            ValueStore::Empty { count, records } => forall|id: usize| #[trigger] records@.contains_key(id) ==>
                id < *count && records@[id] == Seq::<u8>::empty(),
        }
    }

    /// The ids of the allocated blocks.
    pub open spec fn blocks(&self) -> Set<usize> {
        match self {
            ValueStore::Variable(f) => f.blocks(),
            ValueStore::Fixed(f) => f.blocks(),
            ValueStore::Empty { count, .. } => Set::new(|id: usize| id < *count),
        }
    }

    /// The record last put into each block.
    pub open spec fn records(&self) -> Map<usize, Seq<u8>> {
        match self {
            ValueStore::Variable(f) => f.records(),
            ValueStore::Fixed(f) => f.records(),
            ValueStore::Empty { records, .. } => records@,
        }
    }

    /// The width of every value, for a store of fixed-width values.
    pub open spec fn width_of(&self) -> Option<nat> {
        match self {
            ValueStore::Variable(_) => None,
            ValueStore::Fixed(f) => Some(f.width()),
            ValueStore::Empty { .. } => Some(0),
        }
    }

    /// Storing `v` over `prev` (or anew, for `None`) needs a region larger than the
    /// store has: a new block that does not fit, or a record that outgrows its block
    /// and whose doubled block does not fit.
    pub open spec fn value_short(&self, prev: Option<Seq<u8>>, v: Seq<u8>) -> bool {
        match self {
            ValueStore::Variable(f) => match prev {
                None => f.free_offset() + HEADER_SIZE + record_encoding(v).len() > f.bytes().len(),
                Some(w) => record_encoding(v).len() > record_encoding(w).len() && f.free_offset() + HEADER_SIZE
                    + spec_page_aligned(2 * record_encoding(v).len() as int) > f.bytes().len(),
            },
            ValueStore::Fixed(f) => prev is None && f.free_offset() + f.width() > f.spec_region_len(),
            ValueStore::Empty { .. } => false,
        }
    }

    /// Storing `v` over `prev` (or anew, for `None`) would place a block past `usize::MAX`.
    pub open spec fn value_overflow(&self, prev: Option<Seq<u8>>, v: Seq<u8>) -> bool {
        match self {
            ValueStore::Variable(f) => match prev {
                None => f.free_offset() + HEADER_SIZE + record_encoding(v).len() > usize::MAX,
                Some(w) => record_encoding(v).len() > record_encoding(w).len() && (record_encoding(v).len()
                    > (usize::MAX - PAGE_SIZE) / 2 || f.free_offset() + HEADER_SIZE + spec_page_aligned(
                    2 * record_encoding(v).len() as int,
                ) > usize::MAX),
            },
            ValueStore::Fixed(f) => prev is None && f.free_offset() + f.width() > usize::MAX,
            ValueStore::Empty { count, .. } => prev is None && *count == usize::MAX,
        }
    }

    /// Block `id` is large enough for `v`.
    pub open spec fn fits(&self, id: usize, v: Seq<u8>) -> bool {
        match self {
            ValueStore::Variable(f) => record_encoding(v).len() <= f.capacity_of(id),
            _ => true,
        }
    }

    /// Allocate a block for a record of `size` bytes, the size that storing `v` takes.
    fn allocate_block(&mut self, size: usize, v: Ghost<Seq<u8>>) -> (r: Result<usize, Error>)
        requires
            old(self).wf(),
            size == match old(self).width_of() {
                None => record_encoding(v@).len(),
                Some(w) => w,
            },
        ensures
            final(self).width_of() == old(self).width_of(),
            r is Err ==> r->Err_0 is IO || r->Err_0 is IntConversion,
            r is Err && r->Err_0 is IntConversion ==> old(self).value_overflow(None, v@),
            r is Err && r->Err_0 is IO ==> old(self).value_short(None, v@),
            r is Ok ==> final(self).fits(r->Ok_0, v@),
            final(self).wf(),
            final(self).records() == old(self).records(),
            r is Ok ==> final(self).blocks() == old(self).blocks().insert(r->Ok_0),
            r is Ok ==> !old(self).blocks().contains(r->Ok_0),
            r is Err ==> final(self).blocks() == old(self).blocks(),
    {
        match self {
            ValueStore::Variable(f) => {
                let r = f.allocate_block(size);
                r
            },
            ValueStore::Fixed(f) => f.allocate_block(size),
            ValueStore::Empty { count, records } => {
                if *count == usize::MAX {
                    return Err(Error::IntConversion);
                }
                let id = *count;
                *count = id + 1;
                Ok(id)
            },
        }
    }

    /// Store `value` as the record of block `id`.
    fn put(&mut self, id: usize, value: &Vec<u8>) -> (r: Result<(), Error>)
        requires
            old(self).wf(),
            old(self).blocks().contains(id),
        ensures
            final(self).width_of() == old(self).width_of(),
            r is Err ==> r->Err_0 is IO || r->Err_0 is IntConversion || r->Err_0 is InvalidCapacity,
            r is Err && r->Err_0 is InvalidCapacity ==> old(self).width_of() is Some && old(self).width_of()->0 != value@.len(),
            r is Ok && old(self).width_of() is Some ==> old(self).width_of()->0 == value@.len(),
            old(self).fits(id, value@) ==> r is Ok || r->Err_0 is InvalidCapacity,
            old(self).records().contains_key(id) && r is Err && r->Err_0 is IntConversion ==>
                old(self).value_overflow(Some(old(self).records()[id]), value@),
            old(self).records().contains_key(id) && r is Err && r->Err_0 is IO ==>
                old(self).value_short(Some(old(self).records()[id]), value@),
            final(self).wf(),
            final(self).blocks() == old(self).blocks(),
            r is Ok ==> final(self).records() == old(self).records().insert(id, value@),
            r is Err ==> final(self).records() == old(self).records(),
    {
        match self {
            ValueStore::Variable(f) => {
                proof {
                    if f.records().contains_key(id) {
                        f.lemma_record_fits(id);
                    }
                }
                let r = f.put(id, value);
                r
            },
            ValueStore::Fixed(f) => f.put(id, value),
            ValueStore::Empty { records, .. } => {
                if value.len() != 0 {
                    return Err(Error::InvalidCapacity { capacity: value.len() });
                }
                proof {
                    assert(value@ =~= Seq::<u8>::empty());
                    *records = Ghost(records@.insert(id, value@));
                }
                Ok(())
            },
        }
    }

    /// Only allocated blocks hold records.
    proof fn lemma_records_in_blocks(&self)
        requires
            self.wf(),
        ensures
            self.records().dom().subset_of(self.blocks()),
    {
        match self {
            ValueStore::Variable(f) => f.lemma_records_in_blocks(),
            ValueStore::Fixed(f) => f.lemma_records_in_blocks(),
            ValueStore::Empty { .. } => {},
        }
    }

    /// The record of block `id`.
    fn get_owned(&self, id: usize) -> (r: Result<Vec<u8>, Error>)
        requires
            self.wf(),
            self.records().contains_key(id),
        ensures
            r is Ok && r->Ok_0@ == self.records()[id],
    {
        proof {
            self.lemma_records_in_blocks();
        }
        match self {
            ValueStore::Variable(f) => f.get_owned(id),
            ValueStore::Fixed(f) => f.get_owned(id),
            ValueStore::Empty { records, .. } => {
                let v: Vec<u8> = Vec::new();
                proof {
                    assert(v@ =~= records@[id]);
                }
                Ok(v)
            },
        }
    }

    /// The number of bytes that storing `value` takes.
    fn serialized_size(&self, value: &Vec<u8>) -> (r: u64)
        ensures
            r == match self.width_of() {
                None => record_encoding(value@).len(),
                Some(w) => w,
            },
    {
        match self {
            ValueStore::Variable(f) => f.serialized_size(value),
            ValueStore::Fixed(f) => f.serialized_size(value),
            ValueStore::Empty { .. } => 0,
        }
    }
}

/// Where a search for `key` from node `id` finds it: the node and the slot, or nothing.
/// The search descends into the child that the node's search points to, and a child
/// must be lower than its parent in `h` for the search to go on.
pub open spec fn lookup(nodes: Seq<NodeView>, h: Seq<nat>, id: int, key: u64) -> Option<(int, int)>
    decreases h[id],
{
    if !(0 <= id < nodes.len() && id < h.len()) {
        None
    } else {
        match search_node(nodes[id], key) {
            SearchResult::Found(i) => Some((id, i as int)),
            SearchResult::NotFound(i) => {
                if nodes[id].is_leaf {
                    None
                } else {
                    let c = nodes[id].children[i as int] as int;
                    if 0 <= c < h.len() && h[c] < h[id] {
                        lookup(nodes, h, c, key)
                    } else {
                        None
                    }
                }
            },
        }
    }
}

/// Some size that an index for `capacity` entries would set up passes `usize::MAX`:
/// the node pages, or the bytes reserved for the values.
pub open spec fn sizes_overflow(config: BtreeConfig, capacity: usize) -> bool {
    ||| crate::node::NODE_PAGE_SIZE * (if capacity == 0 { 1 } else { capacity }) > usize::MAX
    ||| match config.value_size {
        TypeSize::Estimated(e) => capacity * (e + HEADER_SIZE) > usize::MAX,
        TypeSize::Fixed(w) => capacity * w > usize::MAX,
    }
}

/// The view of an optional value.
pub open spec fn opt_view(o: Option<Vec<u8>>) -> Option<Seq<u8>> {
    match o {
        Some(v) => Some(v@),
        None => None,
    }
}

/// The shape the index keeps: no node holds more than `2t - 1` keys, every child of
/// an internal node exists and is lower than it, and every payload has a record.
pub open spec fn tree_ok(nodes: Seq<NodeView>, h: Seq<nat>, records: Map<usize, Seq<u8>>, t: int) -> bool {
    &&& h.len() == nodes.len()
    &&& forall|j: int| 0 <= j < nodes.len() ==> #[trigger] nodes[j].num_keys <= 2 * t - 1
    &&& forall|j: int, i: int| 0 <= j < nodes.len() && !nodes[j].is_leaf && 0 <= i <= nodes[j].num_keys ==>
        #[trigger] nodes[j].children[i] < nodes.len() && h[nodes[j].children[i] as int] < h[j]
    &&& forall|j: int, i: int| 0 <= j < nodes.len() && 0 <= i < nodes[j].num_keys ==>
        #[trigger] nodes[j].payloads[i] <= usize::MAX && records.contains_key(nodes[j].payloads[i] as usize)
}

/// Every child of an internal node holds at least `t - 1` keys and lies exactly one
/// level below its parent, and a node is a leaf exactly at height zero: non-root nodes
/// are at least half full and all leaves under a node lie at one depth.
pub open spec fn balanced(nodes: Seq<NodeView>, h: Seq<nat>, t: int) -> bool {
    &&& forall|j: int, i: int| 0 <= j < nodes.len() && !nodes[j].is_leaf && 0 <= i <= nodes[j].num_keys ==>
        h[#[trigger] nodes[j].children[i] as int] + 1 == h[j] && nodes[nodes[j].children[i] as int].num_keys >= t - 1
    &&& forall|j: int| 0 <= j < nodes.len() ==> (#[trigger] nodes[j].is_leaf <==> h[j] == 0)
}

/// Inserting into a leaf keeps the tree balanced.
proof fn lemma_leaf_insert_balanced(before: Seq<NodeView>, after: Seq<NodeView>, h: Seq<nat>, t: int, id: int, i: int, key: u64, payload: u64)
    requires
        balanced(before, h, t),
        h.len() == before.len(),
        0 <= id < before.len(),
        before[id].is_leaf,
        t <= MAX_NUMBER_KEYS / 2,
        before[id].num_keys < 2 * t - 1,
        after.len() == before.len(),
        forall|j: int| 0 <= j < before.len() && j != id ==> after[j] == before[j],
        inserted_at(before[id], i, key, payload, after[id]),
        forall|j: int, k: int| 0 <= j < before.len() && !before[j].is_leaf && 0 <= k <= before[j].num_keys ==>
            #[trigger] before[j].children[k] < before.len(),
    ensures
        balanced(after, h, t),
{
    assert forall|j: int, k: int| 0 <= j < after.len() && !after[j].is_leaf && 0 <= k <= after[j].num_keys implies
        h[#[trigger] after[j].children[k] as int] + 1 == h[j] && after[after[j].children[k] as int].num_keys >= t - 1 by {
        let c = after[j].children[k];
        assert(after[id].is_leaf == before[id].is_leaf);
        assert(j != id);
        assert(h[before[j].children[k] as int] + 1 == h[j] && before[before[j].children[k] as int].num_keys >= t - 1);
        assert(c < before.len());
        if c as int == id {
            assert(after[id].num_keys as int == before[id].num_keys as int + 1);
        } else {
            assert(after[c as int] == before[c as int]);
        }
    }
    assert forall|j: int| 0 <= j < after.len() implies (#[trigger] after[j].is_leaf <==> h[j] == 0) by {
        assert(before[j].is_leaf <==> h[j] == 0);
    }
}

/// Splitting a full child keeps the tree balanced; the new node is as high as the child.
proof fn lemma_split_child_balanced(before: Seq<NodeView>, after: Seq<NodeView>, h: Seq<nat>, t: int, parent: int, idx: int, left: int, right: int)
    requires
        balanced(before, h, t),
        h.len() == before.len(),
        2 <= t,
        0 <= parent < before.len(),
        !before[parent].is_leaf,
        0 <= idx <= before[parent].num_keys,
        before[parent].num_keys < 2 * t - 1,
        0 <= left < before.len(),
        before[left].num_keys == 2 * t - 1,
        forall|j: int, i: int| 0 <= j < before.len() && !before[j].is_leaf && 0 <= i <= before[j].num_keys ==>
            #[trigger] before[j].children[i] < before.len(),
        split_child_result(before, after, parent, idx, t, left, right),
    ensures
        balanced(after, h.push(h[left]), t),
{
    let h2 = h.push(h[left]);
    let p = before[parent];
    let c = before[left];
    assert(h[p.children[idx] as int] + 1 == h[parent]);
    assert forall|j: int, k: int| 0 <= j < after.len() && !after[j].is_leaf && 0 <= k <= after[j].num_keys implies
        h2[#[trigger] after[j].children[k] as int] + 1 == h2[j] && after[after[j].children[k] as int].num_keys >= t - 1 by {
        if j == parent {
            if k <= idx {
                assert(p.children[k] < before.len());
                assert(h[p.children[k] as int] + 1 == h[parent] && before[p.children[k] as int].num_keys >= t - 1);
            } else if k > idx + 1 {
                assert(p.children[k - 1] < before.len());
                assert(h[p.children[k - 1] as int] + 1 == h[parent] && before[p.children[k - 1] as int].num_keys >= t - 1);
            }
        } else if j == left {
            assert(c.children[k] < before.len());
            assert(h[c.children[k] as int] + 1 == h[left] && before[c.children[k] as int].num_keys >= t - 1);
        } else if j == right {
            assert(c.children[t + k] < before.len());
            assert(h[c.children[t + k] as int] + 1 == h[left] && before[c.children[t + k] as int].num_keys >= t - 1);
        } else {
            assert(before[j].children[k] < before.len());
            assert(h[before[j].children[k] as int] + 1 == h[j] && before[before[j].children[k] as int].num_keys >= t - 1);
        }
    }
    assert forall|j: int| 0 <= j < after.len() implies (#[trigger] after[j].is_leaf <==> h2[j] == 0) by {
        if j == right {
            assert(c.is_leaf <==> h[left] == 0);
        } else {
            assert(before[j].is_leaf <==> h[j] == 0);
        }
    }
}

/// Splitting the full root keeps the tree balanced: the new root is one level higher.
proof fn lemma_split_root_balanced(before: Seq<NodeView>, after: Seq<NodeView>, h: Seq<nat>, t: int, old_root: int, root: int)
    requires
        balanced(before, h, t),
        h.len() == before.len(),
        2 <= t,
        0 <= old_root < before.len(),
        before[old_root].num_keys == 2 * t - 1,
        forall|j: int, i: int| 0 <= j < before.len() && !before[j].is_leaf && 0 <= i <= before[j].num_keys ==>
            #[trigger] before[j].children[i] < before.len(),
        split_root_result(before, after, old_root, t, root),
    ensures
        balanced(after, h.push(h[old_root] + 1).push(h[old_root]), t),
{
    let h2 = h.push(h[old_root] + 1).push(h[old_root]);
    let o = before[old_root];
    assert forall|j: int, k: int| 0 <= j < after.len() && !after[j].is_leaf && 0 <= k <= after[j].num_keys implies
        h2[#[trigger] after[j].children[k] as int] + 1 == h2[j] && after[after[j].children[k] as int].num_keys >= t - 1 by {
        if j == root {
        } else if j == old_root {
            assert(o.children[k] < before.len());
            assert(h[o.children[k] as int] + 1 == h[old_root] && before[o.children[k] as int].num_keys >= t - 1);
        } else if j == root + 1 {
            assert(o.children[t + k] < before.len());
            assert(h[o.children[t + k] as int] + 1 == h[old_root] && before[o.children[t + k] as int].num_keys >= t - 1);
        } else {
            assert(before[j].children[k] < before.len());
            assert(h[before[j].children[k] as int] + 1 == h[j] && before[before[j].children[k] as int].num_keys >= t - 1);
        }
    }
    assert forall|j: int| 0 <= j < after.len() implies (#[trigger] after[j].is_leaf <==> h2[j] == 0) by {
        if j == root + 1 {
            assert(o.is_leaf <==> h[old_root] == 0);
        } else if j != root {
            assert(before[j].is_leaf <==> h[j] == 0);
        }
    }
}

/// Inserting a key with a payload that has a record into a leaf with room keeps the shape.
proof fn lemma_leaf_insert_ok(
    before: Seq<NodeView>,
    after: Seq<NodeView>,
    h: Seq<nat>,
    records: Map<usize, Seq<u8>>,
    records2: Map<usize, Seq<u8>>,
    t: int,
    id: int,
    i: int,
    key: u64,
    payload: u64,
)
    requires
        tree_ok(before, h, records, t),
        0 <= id < before.len(),
        before[id].is_leaf,
        before[id].num_keys < 2 * t - 1,
        0 <= i <= before[id].num_keys,
        after.len() == before.len(),
        forall|j: int| 0 <= j < before.len() && j != id ==> after[j] == before[j],
        inserted_at(before[id], i, key, payload, after[id]),
        records.dom().subset_of(records2.dom()),
        payload <= usize::MAX,
        records2.contains_key(payload as usize),
    ensures
        tree_ok(after, h, records2, t),
{
    assert forall|j: int| 0 <= j < after.len() implies #[trigger] after[j].num_keys <= 2 * t - 1 by {
        if j != id {
            assert(before[j].num_keys <= 2 * t - 1);
        }
    }
    assert forall|j: int, k: int| 0 <= j < after.len() && 0 <= k < after[j].num_keys implies
        #[trigger] after[j].payloads[k] <= usize::MAX && records2.contains_key(after[j].payloads[k] as usize) by {
        if j != id {
            assert(before[j].payloads[k] <= usize::MAX && records.contains_key(before[j].payloads[k] as usize));
        } else if k < i {
            assert(before[j].payloads[k] <= usize::MAX && records.contains_key(before[j].payloads[k] as usize));
        } else if k > i {
            assert(before[j].payloads[k - 1] <= usize::MAX && records.contains_key(before[j].payloads[k - 1] as usize));
        }
    }
    assert forall|j: int, k: int| 0 <= j < after.len() && !after[j].is_leaf && 0 <= k <= after[j].num_keys implies
        #[trigger] after[j].children[k] < after.len() && h[after[j].children[k] as int] < h[j] by {
        assert(j != id);
        assert(before[j].children[k] < before.len() && h[before[j].children[k] as int] < h[j]);
    }
}

/// Splitting a full child of an internal node with room keeps the shape; the new
/// node takes the height of the child.
proof fn lemma_split_child_ok(
    before: Seq<NodeView>,
    after: Seq<NodeView>,
    h: Seq<nat>,
    records: Map<usize, Seq<u8>>,
    t: int,
    parent: int,
    idx: int,
    left: int,
    right: int,
)
    requires
        tree_ok(before, h, records, t),
        2 <= t,
        0 <= parent < before.len(),
        !before[parent].is_leaf,
        0 <= idx <= before[parent].num_keys,
        before[parent].num_keys < 2 * t - 1,
        0 <= left < before.len(),
        before[left].num_keys == 2 * t - 1,
        split_child_result(before, after, parent, idx, t, left, right),
    ensures
        tree_ok(after, h.push(h[left]), records, t),
        h.push(h[left])[right] < h[parent],
{
    let h2 = h.push(h[left]);
    let p = before[parent];
    let c = before[left];
    assert(h[left] < h[parent]);
    assert forall|j: int| 0 <= j < after.len() implies #[trigger] after[j].num_keys <= 2 * t - 1 by {
        if j < before.len() && j != parent && j != left {
            assert(before[j].num_keys <= 2 * t - 1);
        }
    }
    assert forall|j: int, k: int| 0 <= j < after.len() && 0 <= k < after[j].num_keys implies
        #[trigger] after[j].payloads[k] <= usize::MAX && records.contains_key(after[j].payloads[k] as usize) by {
        if j == parent {
            if k < idx {
                assert(p.payloads[k] <= usize::MAX && records.contains_key(p.payloads[k] as usize));
            } else if k == idx {
                assert(c.payloads[t - 1] <= usize::MAX && records.contains_key(c.payloads[t - 1] as usize));
            } else {
                assert(p.payloads[k - 1] <= usize::MAX && records.contains_key(p.payloads[k - 1] as usize));
            }
        } else if j == left {
            assert(c.payloads[k] <= usize::MAX && records.contains_key(c.payloads[k] as usize));
        } else if j == right {
            assert(c.payloads[t + k] <= usize::MAX && records.contains_key(c.payloads[t + k] as usize));
        } else {
            assert(before[j].payloads[k] <= usize::MAX && records.contains_key(before[j].payloads[k] as usize));
        }
    }
    assert forall|j: int, k: int| 0 <= j < after.len() && !after[j].is_leaf && 0 <= k <= after[j].num_keys implies
        #[trigger] after[j].children[k] < after.len() && h2[after[j].children[k] as int] < h2[j] by {
        if j == parent {
            if k <= idx {
                assert(p.children[k] < before.len() && h[p.children[k] as int] < h[parent]);
            } else if k == idx + 1 {
            } else {
                assert(p.children[k - 1] < before.len() && h[p.children[k - 1] as int] < h[parent]);
            }
        } else if j == left {
            assert(c.children[k] < before.len() && h[c.children[k] as int] < h[left]);
        } else if j == right {
            assert(c.children[t + k] < before.len() && h[c.children[t + k] as int] < h[left]);
        } else {
            assert(before[j].children[k] < before.len() && h[before[j].children[k] as int] < h[j]);
        }
    }
}

/// Splitting a full root under a new root keeps the shape; the new root is one higher
/// than the old one and the new sibling as high as the old root.
proof fn lemma_split_root_ok(
    before: Seq<NodeView>,
    after: Seq<NodeView>,
    h: Seq<nat>,
    records: Map<usize, Seq<u8>>,
    t: int,
    old_root: int,
    root: int,
)
    requires
        tree_ok(before, h, records, t),
        2 <= t,
        0 <= old_root < before.len(),
        before[old_root].num_keys == 2 * t - 1,
        split_root_result(before, after, old_root, t, root),
    ensures
        tree_ok(after, h.push(h[old_root] + 1).push(h[old_root]), records, t),
{
    let h2 = h.push(h[old_root] + 1).push(h[old_root]);
    let o = before[old_root];
    assert forall|j: int| 0 <= j < after.len() implies #[trigger] after[j].num_keys <= 2 * t - 1 by {
        if j < before.len() && j != old_root {
            assert(before[j].num_keys <= 2 * t - 1);
        }
    }
    assert forall|j: int, k: int| 0 <= j < after.len() && 0 <= k < after[j].num_keys implies
        #[trigger] after[j].payloads[k] <= usize::MAX && records.contains_key(after[j].payloads[k] as usize) by {
        if j == root {
            assert(o.payloads[t - 1] <= usize::MAX && records.contains_key(o.payloads[t - 1] as usize));
        } else if j == old_root {
            assert(o.payloads[k] <= usize::MAX && records.contains_key(o.payloads[k] as usize));
        } else if j == root + 1 {
            assert(o.payloads[t + k] <= usize::MAX && records.contains_key(o.payloads[t + k] as usize));
        } else {
            assert(before[j].payloads[k] <= usize::MAX && records.contains_key(before[j].payloads[k] as usize));
        }
    }
    assert forall|j: int, k: int| 0 <= j < after.len() && !after[j].is_leaf && 0 <= k <= after[j].num_keys implies
        #[trigger] after[j].children[k] < after.len() && h2[after[j].children[k] as int] < h2[j] by {
        if j == root {
        } else if j == old_root {
            assert(o.children[k] < before.len() && h[o.children[k] as int] < h[old_root]);
        } else if j == root + 1 {
            assert(o.children[t + k] < before.len() && h[o.children[t + k] as int] < h[old_root]);
        } else {
            assert(before[j].children[k] < before.len() && h[before[j].children[k] as int] < h[j]);
        }
    }
}

/// `after` came from `before` by inserting `key` with value `v` below node `node`:
/// node ids and heights are kept, nodes higher than `node` and the interval of `node`
/// are kept, intervals only shrink, lookups of other keys inside a node's interval
/// find what they found, a lookup of `key` from `node` finds `v`, and every key
/// inside the interval of the node last written to passes through it from `node`.
pub open spec fn inserted_below(before: BtreeIndex, after: BtreeIndex, node: int, key: u64, v: Seq<u8>) -> bool {
    &&& before.node_views().len() <= after.node_views().len()
    &&& forall|x: int| 0 <= x < before.node_views().len() ==>
        #[trigger] after.height_of()[x] == before.height_of()[x]
    &&& forall|x: int| 0 <= x < before.node_views().len() && before.height_of()[x] > before.height_of()[node] ==>
        #[trigger] after.node_views()[x] == before.node_views()[x] && after.intervals()[x] == before.intervals()[x]
    &&& after.intervals()[node] == before.intervals()[node]
    &&& forall|x: int, k: u64| 0 <= x < before.node_views().len() && #[trigger] within(after.intervals()[x], k) ==>
        within(before.intervals()[x], k)
    &&& forall|x: int, k: u64| 0 <= x < before.node_views().len() && k != key && within(after.intervals()[x], k) ==>
        #[trigger] after.value_from(x, k) == before.value_from(x, k)
    &&& after.value_from(node, key) == Some(v)
    &&& last_routed_from(after, node)
}

/// Every key inside the interval of the node last written to passes through it on
/// the way from `node`, and lies inside the interval of `node`.
pub open spec fn last_routed_from(t: BtreeIndex, node: int) -> bool {
    forall|k: u64| #[trigger] within(t.intervals()[t.last_node()], k) ==>
        routes_to(t.node_views(), t.height_of(), node, t.last_node(), k) && within(t.intervals()[node], k)
}

/// What an insertion of `v` under `key` into `before` promises about `after` and its
/// result `r` (the index also stays well formed): see `BtreeIndex::insert`.
pub open spec fn insert_done(before: BtreeIndex, after: BtreeIndex, key: u64, v: Seq<u8>, r: Result<Option<Vec<u8>>, Error>) -> bool {
    let pages = before.node_views().len() + before.height_of()[before.root()] + 4;
    &&& after.node_room() >= before.node_room()
    &&& after.node_views().len() <= before.node_views().len() + before.height_of()[before.root()] + 3
    &&& after.height_of()[after.root()] <= before.height_of()[before.root()] + 1
    &&& before.node_views()[before.root()].num_keys < 2 * before.spec_order() - 1 ==> {
        &&& after.node_views().len() <= before.node_views().len() + before.height_of()[before.root()]
        &&& after.height_of()[after.root()] == before.height_of()[before.root()]
    }
    &&& r is Ok ==> after.lookup_value(key) == Some(v)
    &&& r is Ok ==> forall|k: u64| k != key ==> #[trigger] after.lookup_value(k) == before.lookup_value(k)
    &&& r is Ok ==> opt_view(r->Ok_0) == before.lookup_value(key)
    &&& r matches Ok(Some(_)) ==> after.spec_len() == before.spec_len()
    &&& r == Ok::<Option<Vec<u8>>, Error>(None) ==> after.spec_len() == before.spec_len() + 1
    &&& r is Err ==> after.spec_len() == before.spec_len()
    &&& after.fixed_width() == before.fixed_width()
    &&& r is Err ==> r->Err_0 is IO || r->Err_0 is IntConversion || r->Err_0 is InvalidCapacity
    &&& r is Err && r->Err_0 is InvalidCapacity ==> before.fixed_width() is Some && before.fixed_width()->0 != v.len()
    &&& r is Ok && before.fixed_width() is Some ==> before.fixed_width()->0 == v.len()
    &&& r is Err && r->Err_0 is IntConversion ==> before.spec_len() == usize::MAX || NODE_PAGE_SIZE * pages > usize::MAX
        || before.value_overflows(before.lookup_value(key), v)
    &&& r is Err && r->Err_0 is IO ==> NODE_PAGE_SIZE * pages > before.node_room()
        || before.needs_value_room(before.lookup_value(key), v)
}

/// The cost and the failures of an insertion of `v` under `key` below node `node`:
/// it allocates at most as many nodes as `node` is high, the node region never
/// shrinks, and each error has its cause in the state before the call: a full
/// element count, node pages or a value block past `usize::MAX`, a node or value
/// region that had to grow, or a value of the wrong fixed width.
pub open spec fn insert_bounds(before: BtreeIndex, after: BtreeIndex, node: int, key: u64, v: Seq<u8>,
    r: Result<Option<Vec<u8>>, Error>) -> bool {
    let pages = before.node_views().len() + before.height_of()[node] + 1;
    &&& after.node_views().len() <= before.node_views().len() + before.height_of()[node]
    &&& forall|x: int| 0 <= x < before.node_views().len() ==> #[trigger] after.height_of()[x] == before.height_of()[x]
    &&& after.node_room() >= before.node_room()
    &&& r is Err ==> r->Err_0 is IO || r->Err_0 is IntConversion || r->Err_0 is InvalidCapacity
    &&& r is Err && r->Err_0 is InvalidCapacity ==> before.fixed_width() is Some && before.fixed_width()->0 != v.len()
    &&& r is Ok && before.fixed_width() is Some ==> before.fixed_width()->0 == v.len()
    &&& r is Err && r->Err_0 is IntConversion ==> before.spec_len() == usize::MAX
        || NODE_PAGE_SIZE * pages > usize::MAX || before.value_overflows(before.value_from(node, key), v)
    &&& r is Err && r->Err_0 is IO ==> NODE_PAGE_SIZE * pages > before.node_room()
        || before.needs_value_room(before.value_from(node, key), v)
}

/// A B-tree index from `u64` keys to byte-string values, with node pages and value
/// records in anonymous memory-mapped regions.
pub struct BtreeIndex {
    nodes: NodeFile,
    values: ValueStore,
    root_id: u64,
    last_inserted_node_id: u64,
    order: usize,
    nr_elements: usize,
    heights: Ghost<Seq<nat>>,
    ivals: Ghost<Seq<Interval>>,
    parents: Ghost<Seq<Option<(int, int)>>>,
    owners: Ghost<Map<u64, (int, int)>>,
}

impl BtreeIndex {
    /// The node pages.
    pub closed spec fn node_views(&self) -> Seq<NodeView> {
        self.nodes@
    }

    /// The height of each node: a leaf may have any height, a child is lower than its parent.
    pub closed spec fn height_of(&self) -> Seq<nat> {
        self.heights@
    }

    /// The width of the values when the index stores values of one fixed width.
    pub closed spec fn fixed_width(&self) -> Option<nat> {
        self.values.width_of()
    }

    /// The number of bytes the node region holds.
    pub closed spec fn node_room(&self) -> nat {
        self.nodes.spec_region_len()
    }

    /// Storing `v` over `prev` (or anew) needs a value region larger than the index has.
    pub closed spec fn needs_value_room(&self, prev: Option<Seq<u8>>, v: Seq<u8>) -> bool {
        self.values.value_short(prev, v)
    }

    /// Storing `v` over `prev` (or anew) would place a value block past `usize::MAX`.
    pub closed spec fn value_overflows(&self, prev: Option<Seq<u8>>, v: Seq<u8>) -> bool {
        self.values.value_overflow(prev, v)
    }

    /// The key interval of each node.
    pub closed spec fn intervals(&self) -> Seq<Interval> {
        self.ivals@
    }

    /// The node the last insertion wrote to.
    pub closed spec fn last_node(&self) -> int {
        self.last_inserted_node_id as int
    }

    /// The value a lookup of `k` from node `x` finds.
    pub open spec fn value_from(&self, x: int, k: u64) -> Option<Seq<u8>> {
        lookup_val(self.node_views(), self.height_of(), self.value_records(), x, k)
    }

    /// The root node.
    pub closed spec fn root(&self) -> int {
        self.root_id as int
    }

    /// The minimum degree of the tree.
    pub closed spec fn spec_order(&self) -> int {
        self.order as int
    }

    /// The records of the value store.
    pub closed spec fn value_records(&self) -> Map<usize, Seq<u8>> {
        self.values.records()
    }

    /// The number of entries the index counts.
    pub closed spec fn spec_len(&self) -> nat {
        self.nr_elements as nat
    }

    /// The node and slot where a search for `key` from the root finds it.
    pub open spec fn locate(&self, key: u64) -> Option<(int, int)> {
        lookup(self.node_views(), self.height_of(), self.root(), key)
    }

    /// The payload id at slot `(j, i)`.
    pub open spec fn payload_at(&self, j: int, i: int) -> u64 {
        self.node_views()[j].payloads[i]
    }

    /// The value that a search for `key` finds.
    pub open spec fn lookup_value(&self, key: u64) -> Option<Seq<u8>> {
        match self.locate(key) {
            Some((j, i)) => Some(self.value_records()[self.payload_at(j, i) as usize]),
            None => None,
        }
    }

    /// The shape and the ordering of the tree, and the stores behind it.
    pub closed spec fn core_ok(&self) -> bool {
        let nodes = self.nodes@;
        let h = self.heights@;
        let t = self.order as int;
        &&& self.nodes.wf()
        &&& self.values.wf()
        &&& 2 <= t <= MAX_NUMBER_KEYS / 2
        &&& self.root_id < nodes.len()
        &&& self.last_inserted_node_id < nodes.len()
        &&& tree_ok(nodes, h, self.values.records(), t)
        &&& balanced(nodes, h, t)
        &&& order_ok(nodes, self.ivals@, self.parents@, self.owners@, self.root_id as int)
        &&& forall|q: u64| #[trigger] self.owners@.contains_key(q) ==> q <= usize::MAX && self.values.blocks().contains(q as usize)
    }

    /// The index is well formed, and a lookup of any key inside the interval of the
    /// node last written to passes through that node.
    pub closed spec fn wf(&self) -> bool {
        &&& self.core_ok()
        &&& forall|k: u64| within(self.ivals@[self.last_inserted_node_id as int], k) ==>
            #[trigger] routes_to(self.nodes@, self.heights@, self.root_id as int, self.last_inserted_node_id as int, k)
    }

    /// A well-formed index is a B-tree of its order: every node is sorted and holds at
    /// most `2t - 1` keys, every child holds at least `t - 1` keys and lies one level
    /// below its parent, and leaves lie exactly at height zero, so all leaves lie at
    /// the depth of the root's height.
    pub proof fn lemma_wf_shape(&self)
        requires
            self.wf(),
        ensures
            tree_ok(self.node_views(), self.height_of(), self.value_records(), self.spec_order()),
            balanced(self.node_views(), self.height_of(), self.spec_order()),
            forall|j: int| 0 <= j < self.node_views().len() ==> #[trigger] keys_sorted(self.node_views()[j]),
            2 <= self.spec_order() <= MAX_NUMBER_KEYS / 2,
    {
    }

    /// Membership agrees with lookup: the index contains a key exactly when a
    /// lookup of it finds a value.
    pub proof fn lemma_membership_agrees(&self, key: u64)
        ensures
            (self.locate(key) is Some) <==> (self.lookup_value(key) is Some),
    {
    }

    /// An empty index with the given configuration, sized for `capacity` entries.
    pub fn with_capacity(config: BtreeConfig, capacity: usize) -> (r: Result<BtreeIndex, Error>)
        ensures
            config.order < 2 <==> r == Err::<BtreeIndex, Error>(Error::OrderTooSmall(config.order)),
            config.order > MAX_NUMBER_KEYS / 2 <==> r == Err::<BtreeIndex, Error>(Error::OrderTooLarge(config.order)),
            r is Ok ==> {
                &&& r->Ok_0.wf()
                &&& r->Ok_0.spec_len() == 0
                &&& r->Ok_0.spec_order() == config.order
                &&& r->Ok_0.fixed_width() == (match config.value_size {
                    TypeSize::Fixed(w) => Some(w as nat),
                    TypeSize::Estimated(_) => None,
                })
                &&& forall|k: u64| #[trigger] r->Ok_0.lookup_value(k) == None::<Seq<u8>>
                &&& r->Ok_0.node_views().len() == 1
                &&& r->Ok_0.node_views()[r->Ok_0.root()].num_keys == 0
                &&& r->Ok_0.height_of()[r->Ok_0.root()] == 0
                &&& r->Ok_0.node_room() == NODE_PAGE_SIZE * (if capacity == 0 { 1 } else { capacity })
            },
            r is Err && 2 <= config.order <= MAX_NUMBER_KEYS / 2 ==> r->Err_0 is IO || r->Err_0 is IntConversion,
            (r is Err && r->Err_0 is IntConversion) <==> 2 <= config.order <= MAX_NUMBER_KEYS / 2
                && sizes_overflow(config, capacity),
    {
        if config.order < 2 {
            return Err(Error::OrderTooSmall(config.order));
        } else if config.order > MAX_NUMBER_KEYS / 2 {
            return Err(Error::OrderTooLarge(config.order));
        }
        // sizes are checked before any mapping is made
        let value_bytes: usize = match config.value_size {
            TypeSize::Estimated(est_max_value_size) => {
                if capacity == 0 {
                    0
                } else if est_max_value_size > usize::MAX - HEADER_SIZE || est_max_value_size + HEADER_SIZE > usize::MAX / capacity {
                    proof {
                        if est_max_value_size <= usize::MAX - HEADER_SIZE {
                            assert(capacity * (est_max_value_size + HEADER_SIZE) > usize::MAX) by (nonlinear_arith)
                                requires
                                    est_max_value_size + HEADER_SIZE > usize::MAX / capacity,
                                    capacity > 0,
                            ;
                        } else {
                            assert(capacity * (est_max_value_size + HEADER_SIZE) > usize::MAX) by (nonlinear_arith)
                                requires
                                    est_max_value_size + HEADER_SIZE > usize::MAX,
                                    capacity > 0,
                            ;
                        }
                    }
                    return Err(Error::IntConversion);
                } else {
                    proof {
                        assert(capacity * (est_max_value_size + HEADER_SIZE) <= usize::MAX) by (nonlinear_arith)
                            requires
                                est_max_value_size + HEADER_SIZE <= usize::MAX / capacity,
                                capacity > 0,
                        ;
                    }
                    capacity * (est_max_value_size + HEADER_SIZE)
                }
            },
            TypeSize::Fixed(fixed_value_size) => {
                if capacity > 0 && fixed_value_size > usize::MAX / capacity {
                    proof {
                        assert(capacity * fixed_value_size > usize::MAX) by (nonlinear_arith)
                            requires
                                fixed_value_size > usize::MAX / capacity,
                                capacity > 0,
                        ;
                    }
                    return Err(Error::IntConversion);
                }
                proof {
                    if capacity > 0 {
                        assert(capacity * fixed_value_size <= usize::MAX) by (nonlinear_arith)
                            requires
                                fixed_value_size <= usize::MAX / capacity,
                                capacity > 0,
                        ;
                    }
                }
                capacity * fixed_value_size
            },
        };
        let mut nodes = match NodeFile::with_capacity(capacity) {
            Ok(n) => n,
            Err(e) => return Err(e),
        };
        let values = match config.value_size {
            TypeSize::Estimated(_) => {
                match VariableSizeTupleFile::with_capacity(value_bytes, config.block_cache_size) {
                    Ok(f) => ValueStore::Variable(f),
                    Err(e) => return Err(e),
                }
            },
            TypeSize::Fixed(fixed_value_size) => {
                if fixed_value_size == 0 {
                    ValueStore::Empty { count: 0, records: Ghost(Map::empty()) }
                } else {
                    match FixedSizeTupleFile::with_capacity(value_bytes, fixed_value_size) {
                        Ok(f) => ValueStore::Fixed(f),
                        Err(e) => return Err(e),
                    }
                }
            },
        };
        let root_id = match nodes.allocate_new_node() {
            Ok(id) => id,
            Err(e) => return Err(e),
        };
        let ghost heights: Seq<nat> = seq![0nat];
        let ghost ivals: Seq<Interval> = seq![(None::<u64>, None::<u64>)];
        let ghost parents: Seq<Option<(int, int)>> = seq![None::<(int, int)>];
        let index = BtreeIndex {
            nodes,
            values,
            root_id,
            last_inserted_node_id: root_id,
            order: config.order,
            nr_elements: 0,
            heights: Ghost(heights),
            ivals: Ghost(ivals),
            parents: Ghost(parents),
            owners: Ghost(Map::empty()),
        };
        proof {
            assert(index.nodes@.len() == 1);
            assert forall|k: u64| #[trigger] index.lookup_value(k) == None::<Seq<u8>> by {
                assert(search_node(index.nodes@[0], k) == SearchResult::NotFound(0));
            }
        }
        Ok(index)
    }

    /// Search for `key` from node `id`.
    fn search(&self, id: u64, key: u64) -> (r: Option<(u64, usize)>)
        requires
            self.wf(),
            id < self.node_views().len(),
        ensures
            match r {
                Some((j, i)) => lookup(self.node_views(), self.height_of(), id as int, key) == Some((j as int, i as int))
                    && j < self.node_views().len() && i < self.node_views()[j as int].num_keys,
                None => lookup(self.node_views(), self.height_of(), id as int, key) is None,
            },
        decreases self.heights@[id as int],
    {
        match self.nodes.binary_search(id, key) {
            SearchResult::Found(i) => Some((id, i)),
            SearchResult::NotFound(i) => {
                if self.nodes.is_leaf(id) {
                    None
                } else {
                    let c = match self.nodes.get_child_node(id, i) {
                        Ok(c) => c,
                        Err(_) => return None,
                    };
                    proof {
                        assert(self.nodes@[id as int].children[i as int] < self.nodes@.len());
                    }
                    self.search(c, key)
                }
            },
        }
    }

    /// The value stored under `key`, if any.
    pub fn get(&self, key: &u64) -> (r: Result<Option<Vec<u8>>, Error>)
        requires
            self.wf(),
        ensures
            r is Ok,
            opt_view(r->Ok_0) == self.lookup_value(*key),
    {
        match self.search(self.root_id, *key) {
            Some((node, i)) => {
                let payload_id = self.nodes.get_payload(node, i)?;
                proof {
                    assert(self.nodes@[node as int].payloads[i as int] <= usize::MAX);
                }
                let v = self.values.get_owned(payload_id as usize)?;
                Ok(Some(v))
            },
            None => Ok(None),
        }
    }

    /// Whether the index holds `key`.
    pub fn contains_key(&self, key: &u64) -> (r: Result<bool, Error>)
        requires
            self.wf(),
        ensures
            r == Ok::<bool, Error>(self.locate(*key) is Some),
    {
        Ok(self.search(self.root_id, *key).is_some())
    }

    /// Whether the index holds no entry.
    pub fn is_empty(&self) -> (r: bool)
        ensures
            r == (self.spec_len() == 0),
    {
        self.nr_elements == 0
    }

    /// The number of entries.
    pub fn len(&self) -> (r: usize)
        ensures
            r == self.spec_len(),
    {
        self.nr_elements
    }

    /// An insertion below child `child` of `node`, reached after `mid` was made from
    /// `start` (by a split of that child, or by nothing), is an insertion below `node`.
    #[verifier::rlimit(100)]
    proof fn lemma_descend(&self, start: BtreeIndex, mid: BtreeIndex, node: int, slot: int, child: int, key: u64, v: Seq<u8>)
        requires
            start.core_ok(),
            mid.core_ok(),
            self.core_ok(),
            0 <= node < start.node_views().len(),
            start.node_views().len() <= mid.node_views().len(),
            forall|x: int| 0 <= x < start.node_views().len() ==> mid.height_of()[x] == start.height_of()[x],
            forall|x: int| 0 <= x < start.node_views().len() && start.height_of()[x] > start.height_of()[node] ==>
                mid.node_views()[x] == start.node_views()[x] && mid.intervals()[x] == start.intervals()[x],
            mid.intervals()[node] == start.intervals()[node],
            forall|x: int, k: u64| 0 <= x < start.node_views().len() && within(mid.intervals()[x], k) ==>
                within(start.intervals()[x], k),
            forall|x: int, k: u64| 0 <= x < start.node_views().len() && within(mid.intervals()[x], k) ==>
                mid.value_from(x, k) == start.value_from(x, k),
            !mid.node_views()[node].is_leaf,
            0 <= slot <= mid.node_views()[node].num_keys,
            mid.node_views()[node].children[slot] == child,
            search_node(mid.node_views()[node], key) == SearchResult::NotFound(slot as usize),
            within(mid.intervals()[node], key),
            inserted_below(mid, *self, child, key, v),
        ensures
            inserted_below(start, *self, node, key, v),
            mid.value_from(child, key) == start.value_from(node, key),
    {
        let n0 = start.node_views();
        let n1 = mid.node_views();
        let n2 = self.node_views();
        let h1 = mid.height_of();
        let h2 = self.height_of();
        let iv1 = mid.intervals();
        let iv2 = self.intervals();
        assert(child < n1.len() && h1[child] < h1[node]);
        assert(n2[node] == n1[node] && iv2[node] == iv1[node]);
        assert(keys_sorted(n2[node]));
        assert(forall|x: int, k: u64| 0 <= x < n0.len() && within(iv2[x], k) ==> within(iv1[x], k));
        assert forall|x: int, k: u64| 0 <= x < n0.len() && k != key && within(iv2[x], k) implies
            #[trigger] self.value_from(x, k) == start.value_from(x, k) by {
            assert(within(iv1[x], k));
            assert(self.value_from(x, k) == mid.value_from(x, k));
        }
        assert forall|x: int| 0 <= x < n0.len() && start.height_of()[x] > start.height_of()[node] implies
            n2[x] == n0[x] && iv2[x] == start.intervals()[x] by {
            assert(h1[x] > h1[child]);
        }
        assert(self.value_from(node, key) == self.value_from(child, key));
        assert(mid.value_from(node, key) == mid.value_from(child, key));
        let last = self.last_node();
        assert(inserted_below(mid, *self, child, key, v));
        assert(last_routed_from(*self, child));
        assert forall|k: u64| #[trigger] within(iv2[last], k) implies
            routes_to(n2, h2, node, last, k) && within(iv2[node], k) by {
            assert(routes_to(n2, h2, child, last, k) && within(iv2[child], k));
            assert(iv2[child] == route(n2[node], iv2[node], slot));
            assert forall|j: int| 0 <= j < n2[node].num_keys implies within(iv2[node], #[trigger] n2[node].keys[j]) by {}
            lemma_route_position(n2[node], iv2[node], slot, k);
            assert(n2[node].num_keys <= 2 * self.spec_order() - 1);
            lemma_search_misses(n2[node], k, slot);
        }
        assert(last_routed_from(*self, node));
        assert(n0.len() <= n2.len());
        assert forall|x: int| 0 <= x < n0.len() implies #[trigger] h2[x] == start.height_of()[x] by {}
        assert(iv2[node] == start.intervals()[node]);
        assert forall|x: int, k: u64| 0 <= x < n0.len() && #[trigger] within(iv2[x], k) implies within(start.intervals()[x], k) by {
            assert(within(iv1[x], k));
        }
        assert(self.value_from(node, key) == Some(v));
    }

    /// The value a lookup of `key` finds from `node` in `start` is the one it finds from
    /// the child it is routed to in `mid`.
    proof fn lemma_descend_prev(start: BtreeIndex, mid: BtreeIndex, node: int, slot: int, child: int, key: u64)
        requires
            mid.core_ok(),
            0 <= node < start.node_views().len(),
            start.node_views().len() <= mid.node_views().len(),
            forall|x: int, k: u64| 0 <= x < start.node_views().len() && within(mid.intervals()[x], k) ==>
                mid.value_from(x, k) == start.value_from(x, k),
            !mid.node_views()[node].is_leaf,
            0 <= slot <= mid.node_views()[node].num_keys,
            mid.node_views()[node].children[slot] == child,
            search_node(mid.node_views()[node], key) == SearchResult::NotFound(slot as usize),
            within(mid.intervals()[node], key),
        ensures
            mid.value_from(child, key) == start.value_from(node, key),
    {
        let n1 = mid.node_views();
        let h1 = mid.height_of();
        assert(child < n1.len() && h1[child] < h1[node]);
        assert(mid.value_from(node, key) == mid.value_from(child, key));
    }

    /// Insert below child `i` of the internal node `node_id`, where a search for `key`
    /// leads, first splitting that child when it is full.
    #[verifier::rlimit(100)]
    fn insert_into_child(&mut self, node_id: u64, i: usize, key: u64, value: Vec<u8>) -> (r: Result<Option<Vec<u8>>, Error>)
        requires
            old(self).core_ok(),
            node_id < old(self).node_views().len(),
            old(self).node_views()[node_id as int].num_keys < 2 * old(self).spec_order() - 1,
            within(old(self).intervals()[node_id as int], key),
            !old(self).node_views()[node_id as int].is_leaf,
            search_node(old(self).node_views()[node_id as int], key) == SearchResult::NotFound(i),
            i <= old(self).node_views()[node_id as int].num_keys,
            insert_position(old(self).node_views()[node_id as int], i as int, key),
        ensures
            final(self).core_ok(),
            final(self).root() == old(self).root(),
            final(self).spec_order() == old(self).spec_order(),
            r is Ok ==> inserted_below(*old(self), *final(self), node_id as int, key, value@),
            r is Ok ==> opt_view(r->Ok_0) == old(self).value_from(node_id as int, key),
            r matches Ok(Some(_)) ==> final(self).spec_len() == old(self).spec_len(),
            r == Ok::<Option<Vec<u8>>, Error>(None) ==> final(self).spec_len() == old(self).spec_len() + 1,
            r is Err ==> final(self).spec_len() == old(self).spec_len(),
            final(self).fixed_width() == old(self).fixed_width(),
            insert_bounds(*old(self), *final(self), node_id as int, key, value@, r),
        decreases old(self).height_of()[node_id as int], 0nat,
    {
        let t = self.order;
        let ghost entry_state = *self;
        let ghost nodes0 = self.nodes@;
        let ghost h0 = self.heights@;
        let child_id = match self.nodes.get_child_node(node_id, i) {
            Ok(c) => c,
            Err(e) => return Err(e),
        };
        proof {
            assert(self.nodes@[node_id as int].children[i as int] < self.nodes@.len());
            assert(self.ivals@[child_id as int] == route(nodes0[node_id as int], self.ivals@[node_id as int], i as int));
            lemma_within_route(nodes0[node_id as int], self.ivals@[node_id as int], i as int, key);
        }
        if self.nodes.number_of_keys(child_id) == 2 * t - 1 {
            let ghost before = self.nodes@;
            let ghost h = self.heights@;
            let ghost iv = self.ivals@;
            let ghost par = self.parents@;
            let ghost po = self.owners@;
            proof {
                assert(balanced(nodes0, h0, t as int));
                assert(h0[nodes0[node_id as int].children[i as int] as int] + 1 == h0[node_id as int]);
            }
            let (left, right) = match self.nodes.split_child(node_id, i, t) {
                Ok(lr) => lr,
                Err(e) => return Err(e),
            };
            let ghost med = before[left as int].keys[t - 1];
            proof {
                let after = self.nodes@;
                lemma_split_child_ok(before, after, h, self.values.records(), t as int,
                    node_id as int, i as int, left as int, right as int);
                lemma_split_child_balanced(before, after, h, t as int, node_id as int, i as int, left as int, right as int);
                lemma_split_child_order(before, after, iv, par, po, entry_state.root_id as int, t as int,
                    node_id as int, i as int, left as int, right as int);
                self.heights = Ghost(h.push(h[left as int]));
                self.ivals = Ghost(split_ivals(iv, left as int, med));
                self.parents = Ghost(split_pars(par, node_id as int, i as int, left as int, t as int, right as int));
                self.owners = Ghost(split_pos(po, node_id as int, i as int, left as int, t as int, right as int));
                assert forall|x: int, k: u64| 0 <= x < after.len() && within(self.ivals@[x], k) implies
                    lookup_val(after, self.heights@, self.values.records(), x, k)
                        == lookup_val(before, h, self.values.records(), if x == right { left as int } else { x }, k) by {
                    lemma_split_child_lookups(before, after, h, self.values.records(), iv, par, po, entry_state.root_id as int,
                        t as int, node_id as int, i as int, left as int, right as int, x, k);
                }
            }
            let ghost split_state = *self;
            let node_key = match self.nodes.get_key(node_id, i) {
                Ok(k) => k,
                Err(e) => return Err(e),
            };
            proof {
                assert(node_key == med);
                assert(keys_sorted(self.nodes@[node_id as int]));
                assert(self.nodes@[node_id as int].num_keys <= 2 * t - 1);
            }
            if key == node_key {
                let r = self.overwrite(node_id, i, &value);
                proof {
                    if r is Ok {
                        let nodes = self.nodes@;
                        lemma_search_finds(nodes[node_id as int], key, i as int);
                        assert forall|x: int, k: u64| 0 <= x < nodes0.len() && k != key && within(self.ivals@[x], k) implies
                            #[trigger] self.value_from(x, k) == entry_state.value_from(x, k) by {
                            lemma_overwrite_lookups(nodes, self.heights@, split_state.values.records(), value@, self.ivals@,
                                self.parents@, self.owners@, entry_state.root_id as int, t as int, node_id as int, i as int, x, k);
                        }
                        assert forall|k: u64| within(self.ivals@[node_id as int], k) implies
                            #[trigger] routes_to(nodes, self.heights@, node_id as int, node_id as int, k) by {}
                        assert(lookup(before, h, node_id as int, key) == lookup(before, h, left as int, key));
                    }
                }
                r
            } else if key > node_key {
                proof {
                    lemma_within_route(nodes0[node_id as int], iv[node_id as int], i as int, key);
                    let q = self.nodes@[node_id as int];
                    assert(insert_position(q, i + 1, key));
                    lemma_search_misses(q, key, i + 1);
                }
                proof {
                assert(h0[nodes0[node_id as int].children[i as int] as int] + 1 == h0[node_id as int]);
                Self::lemma_descend_prev(entry_state, split_state, node_id as int, i as int + 1, right as int, key);
            }
            let r = self.insert_nonfull(right, key, value);
                proof {
                    if r is Ok {
                        self.lemma_descend(entry_state, split_state, node_id as int, i as int + 1, right as int, key, value@);
                    }
                }
                r
            } else {
                proof {
                    let q = self.nodes@[node_id as int];
                    assert(insert_position(q, i as int, key));
                    lemma_search_misses(q, key, i as int);
                }
                proof {
                assert(h0[nodes0[node_id as int].children[i as int] as int] + 1 == h0[node_id as int]);
                Self::lemma_descend_prev(entry_state, split_state, node_id as int, i as int, left as int, key);
            }
            let r = self.insert_nonfull(left, key, value);
                proof {
                    if r is Ok {
                        self.lemma_descend(entry_state, split_state, node_id as int, i as int, left as int, key, value@);
                    }
                }
                r
            }
        } else {
            let ghost split_state = *self;
            proof {
                assert(balanced(nodes0, h0, t as int));
                assert(h0[nodes0[node_id as int].children[i as int] as int] + 1 == h0[node_id as int]);
                Self::lemma_descend_prev(entry_state, split_state, node_id as int, i as int, child_id as int, key);
            }
            let r = self.insert_nonfull(child_id, key, value);
            proof {
                if r is Ok {
                    self.lemma_descend(entry_state, split_state, node_id as int, i as int, child_id as int, key, value@);
                }
            }
            r
        }

    }

    /// Overwrite the value of the occupied slot `(node_id, i)`; returns the previous value.
    fn overwrite(&mut self, node_id: u64, i: usize, value: &Vec<u8>) -> (r: Result<Option<Vec<u8>>, Error>)
        requires
            old(self).core_ok(),
            node_id < old(self).node_views().len(),
            i < old(self).node_views()[node_id as int].num_keys,
        ensures
            final(self).core_ok(),
            final(self).root() == old(self).root(),
            final(self).spec_order() == old(self).spec_order(),
            final(self).spec_len() == old(self).spec_len(),
            final(self).node_views() == old(self).node_views(),
            final(self).height_of() == old(self).height_of(),
            final(self).intervals() == old(self).intervals(),
            r is Ok ==> final(self).last_node() == node_id,
            r is Ok ==> r->Ok_0 is Some && r->Ok_0->0@ == old(self).value_records()[old(self).payload_at(node_id as int, i as int) as usize],
            r is Ok ==> final(self).value_records() == old(self).value_records().insert(old(self).payload_at(node_id as int, i as int) as usize, value@),
            r is Err ==> final(self).value_records() == old(self).value_records(),
            final(self).fixed_width() == old(self).fixed_width(),
            final(self).node_room() == old(self).node_room(),
            r is Err ==> r->Err_0 is IO || r->Err_0 is IntConversion || r->Err_0 is InvalidCapacity,
            r is Err && r->Err_0 is InvalidCapacity ==> old(self).fixed_width() is Some
                && old(self).fixed_width()->0 != value@.len(),
            r is Ok && old(self).fixed_width() is Some ==> old(self).fixed_width()->0 == value@.len(),
            r is Err && r->Err_0 is IntConversion ==> old(self).value_overflows(
                Some(old(self).value_records()[old(self).payload_at(node_id as int, i as int) as usize]), value@),
            r is Err && r->Err_0 is IO ==> old(self).needs_value_room(
                Some(old(self).value_records()[old(self).payload_at(node_id as int, i as int) as usize]), value@),
    {
        let payload_id = self.nodes.get_payload(node_id, i)?;
        proof {
            let nodes = self.nodes@;
            assert(tree_ok(nodes, self.heights@, self.values.records(), self.order as int));
            assert(0 <= node_id < nodes.len() && 0 <= i < nodes[node_id as int].num_keys);
            assert(nodes[node_id as int].payloads[i as int] <= usize::MAX
                && self.values.records().contains_key(nodes[node_id as int].payloads[i as int] as usize));
            self.values.lemma_records_in_blocks();
        }
        let previous = self.values.get_owned(payload_id as usize)?;
        self.values.put(payload_id as usize, value)?;
        self.last_inserted_node_id = node_id;
        Ok(Some(previous))
    }

    /// Insert into the subtree of node `node_id`, which has room for one more key and
    /// whose interval holds `key`. Lookups of other keys keep their values, a lookup
    /// of `key` from `node_id` finds `value`, and the result is what it found before.
    #[verifier::rlimit(100)]
    fn insert_nonfull(&mut self, node_id: u64, key: u64, value: Vec<u8>) -> (r: Result<Option<Vec<u8>>, Error>)
        requires
            old(self).core_ok(),
            node_id < old(self).node_views().len(),
            old(self).node_views()[node_id as int].num_keys < 2 * old(self).spec_order() - 1,
            within(old(self).intervals()[node_id as int], key),
        ensures
            final(self).core_ok(),
            final(self).root() == old(self).root(),
            final(self).spec_order() == old(self).spec_order(),
            r is Ok ==> inserted_below(*old(self), *final(self), node_id as int, key, value@),
            r is Ok ==> opt_view(r->Ok_0) == old(self).value_from(node_id as int, key),
            r matches Ok(Some(_)) ==> final(self).spec_len() == old(self).spec_len(),
            r == Ok::<Option<Vec<u8>>, Error>(None) ==> final(self).spec_len() == old(self).spec_len() + 1,
            r is Err ==> final(self).spec_len() == old(self).spec_len(),
            final(self).fixed_width() == old(self).fixed_width(),
            insert_bounds(*old(self), *final(self), node_id as int, key, value@, r),
        decreases old(self).height_of()[node_id as int], 1nat,
    {
        let t = self.order;
        let ghost entry_state = *self;
        let ghost nodes0 = self.nodes@;
        let ghost h0 = self.heights@;
        proof {
            assert(keys_sorted(nodes0[node_id as int]));
            assert(nodes0[node_id as int].num_keys <= 2 * t - 1);
            lemma_search_sorted(nodes0[node_id as int], key);
        }
        match self.nodes.binary_search(node_id, key) {
            SearchResult::Found(i) => {
                let r = self.overwrite(node_id, i, &value);
                proof {
                    if r is Ok {
                        let nodes = self.nodes@;
                        let h = self.heights@;
                        let iv = self.ivals@;
                        assert forall|x: int, k: u64| 0 <= x < nodes0.len() && k != key && within(iv[x], k) implies
                            #[trigger] self.value_from(x, k) == entry_state.value_from(x, k) by {
                            lemma_overwrite_lookups(nodes0, h0, entry_state.values.records(), value@, iv, entry_state.parents@, entry_state.owners@,
                                entry_state.root_id as int, t as int, node_id as int, i as int, x, k);
                        }
                        assert forall|k: u64| within(iv[node_id as int], k) implies
                            #[trigger] routes_to(nodes, h, node_id as int, node_id as int, k) by {}
                    }
                }
                r
            },
            SearchResult::NotFound(i) => {
                if self.nodes.is_leaf(node_id) {
                    if self.nr_elements == usize::MAX {
                        return Err(Error::IntConversion);
                    }
                    let value_size = self.values.serialized_size(&value);
                    if value_size > usize::MAX as u64 {
                        return Err(Error::IntConversion);
                    }
                    let payload_id = self.values.allocate_block(value_size as usize, Ghost(value@))?;
                    proof {
                        assert(!self.owners@.contains_key(payload_id as u64));
                    }
                    self.values.put(payload_id, &value)?;
                    let ghost before = self.nodes@;
                    let ghost recs2 = self.values.records();
                    self.nodes.insert_slot(node_id, i, key, payload_id as u64);
                    proof {
                        let after = self.nodes@;
                        let po = self.owners@;
                        let iv = self.ivals@;
                        let par = self.parents@;
                        lemma_leaf_insert_ok(before, after, h0, entry_state.values.records(), recs2,
                            t as int, node_id as int, i as int, key, payload_id as u64);
                        lemma_leaf_insert_balanced(before, after, h0, t as int, node_id as int, i as int, key, payload_id as u64);
                        lemma_leaf_insert_order(before, after, iv, par, po, entry_state.root_id as int, node_id as int, i as int, key,
                            payload_id as u64);
                        assert forall|x: int, k: u64| 0 <= x < nodes0.len() && within(iv[x], k) implies
                            (k != key ==> lookup_val(after, h0, recs2, x, k) == lookup_val(before, h0, entry_state.values.records(), x, k))
                            && (x == node_id ==> lookup(after, h0, x, key) == Some((node_id as int, i as int))) by {
                            lemma_leaf_insert_lookups(before, after, h0, entry_state.values.records(), recs2, iv, par, po,
                                entry_state.root_id as int, t as int, node_id as int, i as int, key, payload_id as u64, x, k);
                        }
                        self.owners = Ghost(leaf_insert_pos(po, node_id as int, i as int, payload_id as u64));
                    }
                    self.nr_elements = self.nr_elements + 1;
                    self.last_inserted_node_id = node_id;
                    proof {
                        assert forall|k: u64| within(self.ivals@[node_id as int], k) implies
                            #[trigger] routes_to(self.nodes@, self.heights@, node_id as int, node_id as int, k) by {}
                        assert(self.value_from(node_id as int, key) == Some(value@));
                    }
                    Ok(None)
                } else {
                    self.insert_into_child(node_id, i, key, value)
                }
            },
        }
    }
    /// Insert `value` under `key`; returns the value it replaces, if any. Afterwards
    /// a lookup of `key` finds `value` and every other key finds what it found.
    /// After an error the index must not be used any more.
    pub fn insert(&mut self, key: u64, value: Vec<u8>) -> (r: Result<Option<Vec<u8>>, Error>)
        requires
            old(self).wf(),
        ensures
            final(self).wf(),
            r is Ok ==> final(self).lookup_value(key) == Some(value@),
            r is Ok ==> forall|k: u64| k != key ==> #[trigger] final(self).lookup_value(k) == old(self).lookup_value(k),
            r is Ok ==> opt_view(r->Ok_0) == old(self).lookup_value(key),
            r matches Ok(Some(_)) ==> final(self).spec_len() == old(self).spec_len(),
            r == Ok::<Option<Vec<u8>>, Error>(None) ==> final(self).spec_len() == old(self).spec_len() + 1,
            r is Err ==> final(self).spec_len() == old(self).spec_len(),
            final(self).fixed_width() == old(self).fixed_width(),
            r is Err ==> r->Err_0 is IO || r->Err_0 is IntConversion || r->Err_0 is InvalidCapacity,
            r is Err && r->Err_0 is InvalidCapacity ==> old(self).fixed_width() is Some
                && old(self).fixed_width()->0 != value@.len(),
            r is Ok && old(self).fixed_width() is Some ==> old(self).fixed_width()->0 == value@.len(),
            r is Err && r->Err_0 is IntConversion ==> old(self).spec_len() == usize::MAX
                || NODE_PAGE_SIZE * (old(self).node_views().len() + old(self).height_of()[old(self).root()] + 4) > usize::MAX
                || old(self).value_overflows(old(self).lookup_value(key), value@),
            r is Err && r->Err_0 is IO ==> NODE_PAGE_SIZE * (old(self).node_views().len() + old(self).height_of()[old(self).root()] + 4)
                > old(self).node_room() || old(self).needs_value_room(old(self).lookup_value(key), value@),
            final(self).node_room() >= old(self).node_room(),
            final(self).node_views().len() <= old(self).node_views().len() + old(self).height_of()[old(self).root()] + 3,
            final(self).height_of()[final(self).root()] <= old(self).height_of()[old(self).root()] + 1,
            old(self).node_views()[old(self).root()].num_keys < 2 * old(self).spec_order() - 1 ==> {
                &&& final(self).node_views().len() <= old(self).node_views().len() + old(self).height_of()[old(self).root()]
                &&& final(self).height_of()[final(self).root()] == old(self).height_of()[old(self).root()]
            },
    {
        let t = self.order;
        let ghost entry_state = *self;
        let last = self.last_inserted_node_id;
        let last_number_keys = self.nodes.number_of_keys(last);
        if last_number_keys > 0 {
            let start = self.nodes.get_key(last, 0)?;
            let end = self.nodes.get_key(last, last_number_keys - 1)?;
            if key >= start && key <= end && last_number_keys < 2 * t - 1 {
                proof {
                    let iv = self.ivals@;
                    assert(within(iv[last as int], self.nodes@[last as int].keys[0]));
                    assert(within(iv[last as int], self.nodes@[last as int].keys[last_number_keys - 1]));
                    assert(within(iv[last as int], key));
                }
                let r = self.insert_nonfull(last, key, value);
                match r {
                    Ok(prev) => {
                        proof {
                            self.lemma_top_insert(entry_state, last as int, key, value@);
                            assert(routes_to(entry_state.nodes@, entry_state.heights@, entry_state.root_id as int, last as int, key));
                            lemma_routes_lookup(entry_state.nodes@, entry_state.heights@, entry_state.root_id as int, last as int, key);
                        }
                        return Ok(prev);
                    },
                    Err(e) => {
                        proof {
                            assert(routes_to(entry_state.nodes@, entry_state.heights@, entry_state.root_id as int, last as int, key));
                            lemma_routes_lookup(entry_state.nodes@, entry_state.heights@, entry_state.root_id as int, last as int, key);
                        }
                        self.last_inserted_node_id = self.root_id;
                        proof {
                            self.lemma_root_routes();
                        }
                        return Err(e);
                    },
                }
            }
        }
        let root = self.root_id;
        if self.nodes.number_of_keys(root) == 2 * t - 1 {
            let r = self.split_root_then_insert(key, value);
            r
        } else {
            let r = self.insert_nonfull(root, key, value);
            match r {
                Ok(prev) => {
                    proof {
                        assert forall|k: u64| k != key implies #[trigger] self.lookup_value(k) == entry_state.lookup_value(k) by {
                            assert(self.value_from(root as int, k) == entry_state.value_from(root as int, k));
                        }
                        assert(self.value_from(root as int, key) == Some(value@));
                        assert(last_routed_from(*self, root as int));
                        self.lemma_last_routes(root as int);
                    }
                    Ok(prev)
                },
                Err(e) => {
                    self.last_inserted_node_id = self.root_id;
                    proof {
                        self.lemma_root_routes();
                    }
                    Err(e)
                },
            }
        }
    }

    /// Split the full root under a new root, then insert `value` under `key`.
    #[verifier::rlimit(100)]
    fn split_root_then_insert(&mut self, key: u64, value: Vec<u8>) -> (r: Result<Option<Vec<u8>>, Error>)
        requires
            old(self).wf(),
            old(self).node_views()[old(self).root()].num_keys == 2 * old(self).spec_order() - 1,
        ensures
            final(self).wf(),
            insert_done(*old(self), *final(self), key, value@, r),
    {
        let t = self.order;
        let ghost entry_state = *self;
        let root = self.root_id;
        proof {
            assert(self.nodes@[root as int].num_keys <= MAX_NUMBER_KEYS);
        }
        let ghost before = self.nodes@;
        let ghost h = self.heights@;
        let ghost iv = self.ivals@;
        let ghost par = self.parents@;
        let ghost po = self.owners@;
        match self.nodes.split_root_node(root, t) {
            Ok(new_root) => {
                let ghost med = before[root as int].keys[t - 1];
                proof {
                    let after = self.nodes@;
                    lemma_split_root_ok(before, after, h, self.values.records(), t as int, root as int, new_root as int);
                    lemma_split_root_balanced(before, after, h, t as int, root as int, new_root as int);
                    lemma_split_root_order(before, after, iv, par, po, t as int, root as int, new_root as int);
                    self.heights = Ghost(h.push(h[root as int] + 1).push(h[root as int]));
                    self.ivals = Ghost(root_split_ivals(iv, root as int, med));
                    self.parents = Ghost(root_split_pars(par, root as int, t as int, new_root as int));
                    self.owners = Ghost(root_split_pos(po, root as int, t as int, new_root as int));
                    assert forall|k: u64| #[trigger] lookup_val(after, self.heights@, self.values.records(), new_root as int, k)
                        == lookup_val(before, h, self.values.records(), root as int, k) by {
                        lemma_split_root_lookups(before, after, h, self.values.records(), iv, par, po, t as int,
                            root as int, new_root as int, new_root as int, k);
                    }
                }
                self.root_id = new_root;
                self.last_inserted_node_id = new_root;
                let ghost split_state = *self;
                let r = self.insert_nonfull(new_root, key, value);
                match r {
                    Ok(prev) => {
                        proof {
                            assert forall|k: u64| k != key implies #[trigger] self.lookup_value(k) == entry_state.lookup_value(k) by {
                                assert(self.value_from(new_root as int, k) == split_state.value_from(new_root as int, k));
                            }
                            assert(self.value_from(new_root as int, key) == Some(value@));
                            assert(last_routed_from(*self, new_root as int));
                            self.lemma_last_routes(new_root as int);
                        }
                        Ok(prev)
                    },
                    Err(e) => {
                        self.last_inserted_node_id = self.root_id;
                        proof {
                            self.lemma_root_routes();
                        }
                        Err(e)
                    },
                }
            },
            Err(e) => {
                proof {
                    let after = self.nodes@;
                    let grown = after.len() != before.len();
                    let h2 = if grown { h.push(0) } else { h };
                    let iv2 = if grown { iv.push((Some(0u64), Some(0u64))) } else { iv };
                    let par2 = if grown { par.push(None::<(int, int)>) } else { par };
                    assert forall|j: int| 0 <= j < before.len() implies after[j] == before[j] by {
                        assert(after.subrange(0, before.len() as int)[j] == after[j]);
                    }
                    assert(tree_ok(after, h2, self.values.records(), t as int));
                    assert(balanced(after, h2, t as int));
                    assert(order_ok(after, iv2, par2, po, root as int));
                    self.heights = Ghost(h2);
                    self.ivals = Ghost(iv2);
                    self.parents = Ghost(par2);
                }
                self.last_inserted_node_id = self.root_id;
                proof {
                    self.lemma_root_routes();
                }
                Err(e)
            },
        }
    }

    /// After an insertion below the node `last` that the index last wrote to, every
    /// lookup from the root behaves as the insertion promises.
    /// With the root as the node last written to, every key passes through it.
    proof fn lemma_root_routes(&self)
        requires
            self.core_ok(),
            self.last_inserted_node_id == self.root_id,
        ensures
            self.wf(),
    {
        assert forall|k: u64| within(self.ivals@[self.last_inserted_node_id as int], k) implies
            #[trigger] routes_to(self.nodes@, self.heights@, self.root_id as int, self.last_inserted_node_id as int, k) by {}
    }

    /// Routing from the root to the node last written to gives a well-formed index.
    proof fn lemma_last_routes(&self, root: int)
        requires
            self.core_ok(),
            root == self.root_id,
            last_routed_from(*self, root),
        ensures
            self.wf(),
    {
        assert forall|k: u64| within(self.ivals@[self.last_inserted_node_id as int], k) implies
            #[trigger] routes_to(self.nodes@, self.heights@, self.root_id as int, self.last_inserted_node_id as int, k) by {
            assert(within(self.intervals()[self.last_node()], k));
        }
    }

    proof fn lemma_top_insert(&self, start: BtreeIndex, last: int, key: u64, v: Seq<u8>)
        requires
            start.wf(),
            self.core_ok(),
            last == start.last_node(),
            self.root() == start.root(),
            within(start.intervals()[last], key),
            inserted_below(start, *self, last, key, v),
        ensures
            self.wf(),
            self.lookup_value(key) == Some(v),
            forall|k: u64| k != key ==> #[trigger] self.lookup_value(k) == start.lookup_value(k),
            start.value_from(last, key) == start.lookup_value(key),
    {
        let root = start.root();
        let n0 = start.node_views();
        let n1 = self.node_views();
        let h0 = start.height_of();
        let h1 = self.height_of();
        assert(routes_to(n0, h0, root, last, key));
        lemma_routes_lookup(n0, h0, root, last, key);
        assert forall|x: int| 0 <= x < n0.len() && x < h0.len() && h0[x] > h0[last] implies
            same_but_payloads(#[trigger] n1[x], n0[x]) by {}
        assert forall|k: u64| within(start.intervals()[last], k) implies #[trigger] routes_to(n1, h1, root, last, k) by {
            assert(routes_to(n0, h0, root, last, k));
            lemma_routes_frame(n0, n1, h0, h1, root, last, k);
        }
        lemma_routes_lookup(n1, h1, root, last, key);
        assert(self.value_from(root, key) == self.value_from(last, key));
        assert forall|k: u64| k != key implies #[trigger] self.lookup_value(k) == start.lookup_value(k) by {
            assert(self.value_from(root, k) == start.value_from(root, k));
        }
        let l2 = self.last_node();
        assert(last_routed_from(*self, last));
        assert forall|k: u64| within(self.intervals()[l2], k) implies
            #[trigger] routes_to(n1, h1, root, l2, k) by {
            assert(routes_to(n1, h1, last, l2, k) && within(self.intervals()[last], k));
            assert(routes_to(n1, h1, root, last, k));
            lemma_routes_compose(n1, h1, root, last, l2, k);
        }
    }

    /// Swap the values of keys `a` and `b`; both must be in the index.
    pub fn swap(&mut self, a: &u64, b: &u64) -> (r: Result<(), Error>)
        requires
            old(self).wf(),
        ensures
            final(self).wf(),
            final(self).spec_len() == old(self).spec_len(),
            r is Ok <==> old(self).locate(*a) is Some && old(self).locate(*b) is Some,
            r is Err ==> r->Err_0 is NonExistingKey && *final(self) == *old(self),
            r is Ok ==> final(self).lookup_value(*a) == old(self).lookup_value(*b)
                && final(self).lookup_value(*b) == old(self).lookup_value(*a),
            r is Ok ==> forall|k: u64| k != *a && k != *b ==> #[trigger] final(self).lookup_value(k) == old(self).lookup_value(k),
            forall|k: u64| #[trigger] final(self).locate(k) == old(self).locate(k),
    {
        let (a_node, a_pos) = match self.search(self.root_id, *a) {
            Some(found) => found,
            None => return Err(Error::NonExistingKey),
        };
        let (b_node, b_pos) = match self.search(self.root_id, *b) {
            Some(found) => found,
            None => return Err(Error::NonExistingKey),
        };
        let ghost before = self.nodes@;
        proof {
            self.nodes.lemma_slot_counts();
        }
        let a_payload = self.nodes.get_payload(a_node, a_pos)?;
        let b_payload = self.nodes.get_payload(b_node, b_pos)?;
        self.nodes.set_payload(a_node, a_pos, b_payload)?;
        self.nodes.set_payload(b_node, b_pos, a_payload)?;
        proof {
            let after = self.nodes@;
            let h = self.heights@;
            let iv = self.ivals@;
            let par = self.parents@;
            let po = self.owners@;
            let root = self.root_id as int;
            let sa = (a_node as int, a_pos as int);
            let sb = (b_node as int, b_pos as int);
            let po2 = po.insert(b_payload, sa).insert(a_payload, sb);
            assert(po[a_payload] == sa && po[b_payload] == sb);
            assert forall|j: int| 0 <= j < after.len() implies #[trigger] crate::node::keys_sorted(after[j]) by {
                assert(same_but_payloads(after[j], before[j]));
                assert(crate::node::keys_sorted(before[j]));
            }
            assert forall|j: int, i: int| 0 <= j < after.len() && 0 <= i < after[j].num_keys implies
                within(iv[j], #[trigger] after[j].keys[i]) by {
                assert(within(iv[j], before[j].keys[i]));
            }
            assert forall|j: int, i: int| 0 <= j < after.len() && !after[j].is_leaf && 0 <= i <= after[j].num_keys implies
                iv[#[trigger] after[j].children[i] as int] == route(after[j], iv[j], i)
                    && par[after[j].children[i] as int] == Some((j, i)) by {
                assert(iv[before[j].children[i] as int] == route(before[j], iv[j], i) && par[before[j].children[i] as int] == Some((j, i)));
            }
            assert forall|j: int, i: int| 0 <= j < after.len() && 0 <= i < after[j].num_keys implies
                po2.contains_key(#[trigger] after[j].payloads[i]) && po2[after[j].payloads[i]] == (j, i) by {
                assert(po.contains_key(before[j].payloads[i]) && po[before[j].payloads[i]] == (j, i));
            }
            assert(order_ok(after, iv, par, po2, root));
            self.owners = Ghost(po2);
            assert forall|x: int| 0 <= x < after.len() && x < h.len() && h[x] > h[self.last_inserted_node_id as int] implies
                same_but_payloads(#[trigger] after[x], before[x]) by {}
            assert forall|k: u64| within(iv[self.last_inserted_node_id as int], k) implies
                #[trigger] routes_to(after, h, root, self.last_inserted_node_id as int, k) by {
                assert(routes_to(before, h, root, self.last_inserted_node_id as int, k));
                lemma_routes_frame(before, after, h, h, root, self.last_inserted_node_id as int, k);
            }
        }
        proof {
            let after = self.nodes@;
            let h = self.heights@;
            let recs = self.values.records();
            let t = self.order as int;
            assert forall|j: int| 0 <= j < after.len() implies same_but_payloads(#[trigger] after[j], before[j]) by {}
            assert forall|k: u64| #[trigger] self.locate(k) == old(self).locate(k) by {
                lemma_lookup_ignores_payloads(after, before, h, self.root_id as int, k);
            }
            assert(after[a_node as int].payloads[a_pos as int] == b_payload);
            assert(after[b_node as int].payloads[b_pos as int] == a_payload);
            assert forall|j: int| 0 <= j < after.len() implies #[trigger] after[j].num_keys <= 2 * t - 1 by {
                assert(before[j].num_keys <= 2 * t - 1);
            }
            assert forall|j: int, k: int| 0 <= j < after.len() && !after[j].is_leaf && 0 <= k <= after[j].num_keys implies
                #[trigger] after[j].children[k] < after.len() && h[after[j].children[k] as int] < h[j] by {
                assert(before[j].children[k] < before.len() && h[before[j].children[k] as int] < h[j]);
            }
            assert forall|j: int, k: int| 0 <= j < after.len() && 0 <= k < after[j].num_keys implies
                #[trigger] after[j].payloads[k] <= usize::MAX && recs.contains_key(after[j].payloads[k] as usize) by {
                assert(before[j].payloads[k] <= usize::MAX && recs.contains_key(before[j].payloads[k] as usize));
                assert(before[a_node as int].payloads[a_pos as int] <= usize::MAX && recs.contains_key(before[a_node as int].payloads[a_pos as int] as usize));
                assert(before[b_node as int].payloads[b_pos as int] <= usize::MAX && recs.contains_key(before[b_node as int].payloads[b_pos as int] as usize));
            }
        }
        proof {
            let after = self.nodes@;
            let before_nodes = old(self).nodes@;
            assert forall|k: u64| k != *a && k != *b implies #[trigger] self.lookup_value(k) == old(self).lookup_value(k) by {
                lemma_lookup_found(before_nodes, self.heights@, self.root_id as int, k);
                lemma_lookup_found(before_nodes, self.heights@, self.root_id as int, *a);
                lemma_lookup_found(before_nodes, self.heights@, self.root_id as int, *b);
                assert(self.locate(k) == old(self).locate(k));
            }
        }
        Ok(())
    }
}

/// The most entries a walk over one node yields.
pub const MAX_RUN: usize = 2 * MAX_NUMBER_KEYS + 2;

/// The weight of a pending descent into a node of height `h`: more than
/// `MAX_RUN` descents into lower nodes together.
pub open spec fn height_weight(h: nat) -> nat
    decreases h,
{
    if h == 0 {
        (MAX_RUN + 1) as nat
    } else {
        (MAX_RUN + 1) as nat * height_weight((h - 1) as nat)
    }
}

proof fn lemma_height_weight_grows(a: nat, b: nat)
    requires
        a <= b,
    ensures
        1 <= height_weight(a) <= height_weight(b),
    decreases b,
{
    if b > 0 {
        let k = (MAX_RUN + 1) as nat;
        let p = height_weight((b - 1) as nat);
        assert(height_weight(b) == k * p);
        if a < b {
            lemma_height_weight_grows(a, (b - 1) as nat);
        } else {
            lemma_height_weight_grows((b - 1) as nat, (b - 1) as nat);
        }
        assert(k * p >= p) by (nonlinear_arith)
            requires
                k >= 1,
        ;
    }
}

/// A stack entry refers to an existing node, and a pending descent to an existing child.
pub open spec fn entry_ok(nodes: Seq<NodeView>, e: StackEntry) -> bool {
    match e {
        StackEntry::Child { parent, idx } => parent < nodes.len() && !nodes[parent as int].is_leaf
            && idx <= nodes[parent as int].num_keys,
        StackEntry::Key { node, idx } => node < nodes.len() && idx < nodes[node as int].num_keys,
    }
}

/// The weight of one stack entry: one for a key, the weight of the child's height for a descent.
pub open spec fn entry_weight(nodes: Seq<NodeView>, h: Seq<nat>, e: StackEntry) -> nat {
    match e {
        StackEntry::Child { parent, idx } => height_weight(h[nodes[parent as int].children[idx as int] as int]),
        StackEntry::Key { .. } => 1,
    }
}

impl BtreeIndex {
    /// A stack entry of a range walk fits: a key entry holds a key of the range that a
    /// lookup from the root finds at that very slot, and every key inside the interval
    /// of a pending child passes through that child from the root.
    pub closed spec fn entry_fits(&self, e: StackEntry, start: KeyBound, end: KeyBound) -> bool {
        let nodes = self.nodes@;
        match e {
            StackEntry::Key { node, idx } => {
                let k = nodes[node as int].keys[idx as int];
                &&& above_start(k, start)
                &&& below_end(k, end)
                &&& lookup(nodes, self.heights@, self.root_id as int, k) == Some((node as int, idx as int))
            },
            StackEntry::Child { parent, idx } => {
                let c = nodes[parent as int].children[idx as int] as int;
                forall|k: u64| #[trigger] within(self.ivals@[c], k) ==> routes_to(nodes, self.heights@, self.root_id as int, c, k)
            },
        }
    }
}

impl BtreeIndex {
    /// The smallest and largest key that a stack entry may stand for: its key, or the
    /// interval of the pending child.
    pub closed spec fn span(&self, e: StackEntry) -> (int, int) {
        let nodes = self.nodes@;
        match e {
            StackEntry::Key { node, idx } => {
                let k = nodes[node as int].keys[idx as int] as int;
                (k, k)
            },
            StackEntry::Child { parent, idx } => {
                let iv = self.ivals@[nodes[parent as int].children[idx as int] as int];
                (
                    match iv.0 {
                        Some(l) => l + 1,
                        None => 0,
                    },
                    match iv.1 {
                        Some(u) => u - 1,
                        None => u64::MAX as int,
                    },
                )
            },
        }
    }

    /// Every entry of the stack `s` stands for keys below those of the entries under it.
    pub closed spec fn stack_ordered(&self, s: Seq<StackEntry>) -> bool {
        forall|a: int, b: int| 0 <= a < b < s.len() ==> #[trigger] self.span(s[b]).1 < #[trigger] self.span(s[a]).0
    }

    /// Key `k` is one that entry `e` stands for.
    pub closed spec fn in_entry(&self, e: StackEntry, k: u64) -> bool {
        let nodes = self.nodes@;
        match e {
            StackEntry::Key { node, idx } => k == nodes[node as int].keys[idx as int],
            StackEntry::Child { parent, idx } => within(self.ivals@[nodes[parent as int].children[idx as int] as int], k),
        }
    }

    /// Key `k` lies in the range from `start` to `end` and the index holds it.
    pub open spec fn in_scope(&self, k: u64, start: KeyBound, end: KeyBound) -> bool {
        above_start(k, start) && below_end(k, end) && self.lookup_value(k) is Some
    }

    /// Every key of the range above `floor` that the index holds is one that some
    /// entry of the stack `s` stands for.
    pub closed spec fn covers(&self, s: Seq<StackEntry>, start: KeyBound, end: KeyBound, floor: int) -> bool {
        forall|k: u64| #[trigger] self.in_scope(k, start, end) && k > floor ==>
            exists|q: int| 0 <= q < s.len() && self.in_entry(s[q], k)
    }

    /// Every entry of the stack `s` stands for keys above `floor`.
    pub closed spec fn above_floor(&self, s: Seq<StackEntry>, floor: int) -> bool {
        forall|a: int| 0 <= a < s.len() ==> #[trigger] self.span(s[a]).0 > floor
    }
}

/// A key that comes at or after the start position of a sorted node lies above the start.
proof fn lemma_after_start(n: NodeView, start: KeyBound, p: int, idx: int)
    requires
        keys_sorted(n),
        n.num_keys <= MAX_NUMBER_KEYS,
        start_position(n, start) <= p,
        0 <= idx < n.num_keys,
        if n.is_leaf { p == idx } else { p == 2 * idx + 1 },
    ensures
        above_start(n.keys[idx], start),
{
    match start {
        KeyBound::Included(s) => {
            lemma_search_sorted(n, s);
            match search_node(n, s) {
                SearchResult::Found(i) => {
                    if (i as int) < idx {
                        assert(n.keys[i as int] < n.keys[idx]);
                    }
                },
                SearchResult::NotFound(i) => {},
            }
        },
        KeyBound::Excluded(s) => {
            lemma_search_sorted(n, s);
            match search_node(n, s) {
                SearchResult::Found(i) => {
                    assert(n.keys[i as int] < n.keys[idx]);
                },
                SearchResult::NotFound(i) => {},
            }
        },
        KeyBound::Unbounded => {},
    }
}

/// The total weight of a stack.
pub open spec fn stack_weight(nodes: Seq<NodeView>, h: Seq<nat>, s: Seq<StackEntry>) -> nat
    decreases s.len(),
{
    if s.len() == 0 {
        0
    } else {
        stack_weight(nodes, h, s.drop_last()) + entry_weight(nodes, h, s.last())
    }
}

impl BtreeIndex {
    /// One entry of the walk over node `c`: it refers to existing nodes, fits the range
    /// walk, and is lighter than a descent into `c`.
    #[verifier::rlimit(50)]
    proof fn lemma_run_entry(&self, run: Seq<StackEntry>, c: u64, start: KeyBound, end: KeyBound, q: int)
        requires
            self.wf(),
            c < self.node_views().len(),
            is_run(run, c, self.node_views()[c as int], start_position(self.node_views()[c as int], start), end),
            forall|k: u64| #[trigger] within(self.ivals@[c as int], k) ==> routes_to(self.nodes@, self.heights@, self.root_id as int, c as int, k),
            run.len() <= MAX_RUN,
            0 <= q < run.len(),
        ensures
            entry_ok(self.nodes@, run[q]),
            self.entry_fits(run[q], start, end),
            entry_weight(self.nodes@, self.heights@, run[q]) * (MAX_RUN + 1) <= height_weight(self.heights@[c as int]),
    {
        let nodes = self.nodes@;
        let h = self.heights@;
        let iv = self.ivals@;
        let root = self.root_id as int;
        let n = nodes[c as int];
        let a = start_position(n, start);
        self.nodes.lemma_slot_counts();
        assert(keys_sorted(nodes[c as int]));
        assert(n.num_keys <= 2 * self.order - 1);
            assert(run[q] == item_at(c, n, a + q) && crate::node::included_at(n, a + q, end));
        match run[q] {
            StackEntry::Child { parent, idx } => {
                assert(parent == c);
                assert(idx <= n.num_keys);
                assert(nodes[c as int].children[idx as int] < nodes.len() && h[nodes[c as int].children[idx as int] as int] < h[c as int]);
                let child = n.children[idx as int];
                lemma_height_weight_grows(h[child as int], (h[c as int] - 1) as nat);
                let wc = height_weight((h[c as int] - 1) as nat);
                let wg = height_weight(h[child as int]);
                assert(height_weight(h[c as int]) == (MAX_RUN + 1) as nat * wc);
                assert(wg * (MAX_RUN + 1) <= (MAX_RUN + 1) as nat * wc) by (nonlinear_arith)
                    requires
                        wg <= wc,
                ;
                assert(iv[child as int] == route(n, iv[c as int], idx as int));
                assert forall|k: u64| #[trigger] within(iv[child as int], k) implies routes_to(nodes, h, root, child as int, k) by {
                    assert forall|j: int| 0 <= j < n.num_keys implies within(iv[c as int], #[trigger] n.keys[j]) by {}
                    lemma_route_position(n, iv[c as int], idx as int, k);
                    lemma_search_misses(n, k, idx as int);
                    assert(routes_to(nodes, h, root, c as int, k));
                    assert(routes_to(nodes, h, child as int, child as int, k));
                    assert(routes_to(nodes, h, c as int, child as int, k));
                    lemma_routes_compose(nodes, h, root, c as int, child as int, k);
                }
            },
            StackEntry::Key { node, idx } => {
                lemma_height_weight_grows(0, h[c as int]);
                let k = n.keys[idx as int];
                assert(idx < n.num_keys);
                if n.is_leaf {
                    assert(idx == a + q);
                } else {
                    assert((a + q) % 2 == 1);
                    assert(idx == (a + q) / 2);
                }
                lemma_after_start(n, start, a + q, idx as int);
                assert(within(iv[c as int], k));
                assert(routes_to(nodes, h, root, c as int, k));
                lemma_routes_lookup(nodes, h, root, c as int, k);
                lemma_search_finds(n, k, idx as int);
            },
        }
    }

    /// The walk over node `c` that `find_range` yields: entries that refer to existing
    /// nodes, each lighter than a descent into `c`, and no more than `MAX_RUN` of them.
    proof fn lemma_run_entries(&self, run: Seq<StackEntry>, c: u64, start: KeyBound, end: KeyBound)
        requires
            self.wf(),
            c < self.node_views().len(),
            is_run(run, c, self.node_views()[c as int], start_position(self.node_views()[c as int], start), end),
            forall|k: u64| #[trigger] within(self.ivals@[c as int], k) ==> routes_to(self.nodes@, self.heights@, self.root_id as int, c as int, k),
        ensures
            run.len() <= MAX_RUN,
            forall|q: int| 0 <= q < run.len() ==> entry_ok(self.nodes@, #[trigger] run[q]),
            forall|q: int| 0 <= q < run.len() ==> self.entry_fits(#[trigger] run[q], start, end),
            forall|q: int| 0 <= q < run.len() ==> (#[trigger] entry_weight(self.nodes@, self.heights@, run[q]))
                * (MAX_RUN + 1) <= height_weight(self.heights@[c as int]),
    {
        let nodes = self.nodes@;
        let h = self.heights@;
        let iv = self.ivals@;
        let root = self.root_id as int;
        let n = nodes[c as int];
        let a = start_position(n, start);
        self.nodes.lemma_slot_counts();
        assert(keys_sorted(nodes[c as int]));
        assert(n.num_keys <= 2 * self.order - 1);
        if run.len() > MAX_RUN {
            let q = MAX_RUN as int;
            assert(run[q] == item_at(c, n, a + q) && crate::node::included_at(n, a + q, end));
        }
        assert forall|q: int| 0 <= q < run.len() implies entry_ok(nodes, #[trigger] run[q])
            && self.entry_fits(run[q], start, end)
            && entry_weight(nodes, h, run[q]) * (MAX_RUN + 1) <= height_weight(h[c as int]) by {
            self.lemma_run_entry(run, c, start, end, q);
        }
    }

    /// The walk over node `c` comes in ascending order, inside the span of a descent
    /// into `c`.
    proof fn lemma_run_spans(&self, run: Seq<StackEntry>, c: u64, start: KeyBound, end: KeyBound, lo: int, hi: int)
        requires
            self.wf(),
            c < self.node_views().len(),
            is_run(run, c, self.node_views()[c as int], start_position(self.node_views()[c as int], start), end),
            lo == (match self.ivals@[c as int].0 { Some(l) => l + 1, None => 0 }),
            hi == (match self.ivals@[c as int].1 { Some(u) => u - 1, None => u64::MAX as int }),
        ensures
            forall|q: int| 0 <= q < run.len() ==> lo <= #[trigger] self.span(run[q]).0 && self.span(run[q]).1 <= hi,
            forall|a: int, b: int| 0 <= a < b < run.len() ==> #[trigger] self.span(run[a]).1 < #[trigger] self.span(run[b]).0,
    {
        let nodes = self.nodes@;
        let iv = self.ivals@;
        let n = nodes[c as int];
        let first_pos = start_position(n, start);
        assert(keys_sorted(nodes[c as int]));
        assert(n.num_keys <= 2 * self.order - 1);
        if run.len() > MAX_RUN {
            let q = MAX_RUN as int;
            assert(run[q] == item_at(c, n, first_pos + q) && crate::node::included_at(n, first_pos + q, end));
        }
        assert forall|q: int| 0 <= q < run.len() implies lo <= #[trigger] self.span(run[q]).0 && self.span(run[q]).1 <= hi by {
            assert(run[q] == item_at(c, n, first_pos + q) && crate::node::included_at(n, first_pos + q, end));
            match run[q] {
                StackEntry::Child { parent, idx } => {
                    let g = n.children[idx as int];
                    assert(iv[g as int] == route(n, iv[c as int], idx as int));
                    if idx > 0 {
                        assert(within(iv[c as int], n.keys[idx - 1]));
                    }
                    if idx < n.num_keys {
                        assert(within(iv[c as int], n.keys[idx as int]));
                    }
                },
                StackEntry::Key { node, idx } => {
                    assert(within(iv[c as int], n.keys[idx as int]));
                },
            }
        }
        assert forall|a: int, b: int| 0 <= a < b < run.len() implies #[trigger] self.span(run[a]).1 < #[trigger] self.span(run[b]).0 by {
            assert(run[a] == item_at(c, n, first_pos + a) && crate::node::included_at(n, first_pos + a, end));
            assert(run[b] == item_at(c, n, first_pos + b) && crate::node::included_at(n, first_pos + b, end));
            let pa = first_pos + a;
            let pb = first_pos + b;
            if n.is_leaf {
                assert(n.keys[pa] < n.keys[pb]);
            } else {
                let ia = pa / 2;
                let ib = pb / 2;
                if pa % 2 == 1 && pb % 2 == 1 {
                    assert(n.keys[ia] < n.keys[ib]);
                } else if pa % 2 == 1 {
                    assert(ib >= ia + 1);
                    if ib - 1 > ia {
                        assert(n.keys[ia] < n.keys[ib - 1]);
                    }
                } else if pb % 2 == 1 {
                    assert(ib >= ia);
                    if ib > ia {
                        assert(n.keys[ia] < n.keys[ib]);
                    }
                } else {
                    assert(ib >= ia + 1);
                    if ib - 1 > ia {
                        assert(n.keys[ia] < n.keys[ib - 1]);
                    }
                }
            }
        }
    }

    /// A key an entry stands for lies inside the entry's span.
    proof fn lemma_in_entry_span(&self, e: StackEntry, k: u64)
        requires
            self.in_entry(e, k),
        ensures
            self.span(e).0 <= k <= self.span(e).1,
    {
    }

    /// Every key of the range under node `c` that the index holds is one that an entry
    /// of the walk over `c` stands for; returns its position in the walk.
    proof fn lemma_run_covers(&self, run: Seq<StackEntry>, c: u64, start: KeyBound, end: KeyBound, k: u64) -> (m: int)
        requires
            self.wf(),
            c < self.node_views().len(),
            is_run(run, c, self.node_views()[c as int], start_position(self.node_views()[c as int], start), end),
            forall|x: u64| #[trigger] within(self.ivals@[c as int], x) ==> routes_to(self.nodes@, self.heights@, self.root_id as int, c as int, x),
            within(self.ivals@[c as int], k),
            self.in_scope(k, start, end),
        ensures
            0 <= m < run.len(),
            self.in_entry(run[m], k),
    {
        let nodes = self.nodes@;
        let h = self.heights@;
        let iv = self.ivals@;
        let root = self.root_id as int;
        let n = nodes[c as int];
        let a = start_position(n, start);
        assert(keys_sorted(nodes[c as int]));
        assert(n.num_keys <= 2 * self.order - 1);
        assert(routes_to(nodes, h, root, c as int, k));
        lemma_routes_lookup(nodes, h, root, c as int, k);
        assert(lookup(nodes, h, c as int, k) is Some);
        lemma_search_sorted(n, k);
        let p: int = match search_node(n, k) {
            SearchResult::Found(i) => if n.is_leaf { i as int } else { 2 * i + 1 },
            SearchResult::NotFound(i) => 2 * i,
        };
        match search_node(n, k) {
            SearchResult::Found(i) => {
                assert(item_at(c, n, p) == (StackEntry::Key { node: c, idx: i }));
            },
            SearchResult::NotFound(i) => {
                assert(!n.is_leaf);
                assert(item_at(c, n, p) == (StackEntry::Child { parent: c, idx: i }));
                assert(iv[n.children[i as int] as int] == route(n, iv[c as int], i as int));
                lemma_within_route(n, iv[c as int], i as int, k);
            },
        }
        // the walk starts at or before the position of `k`
        match start {
            KeyBound::Included(bound_key) => {
                lemma_search_sorted(n, bound_key);
                match search_node(n, bound_key) {
                    SearchResult::Found(j) => {
                        match search_node(n, k) {
                            SearchResult::Found(i) => {
                                if (i as int) < (j as int) {
                                    assert(n.keys[i as int] < n.keys[j as int]);
                                }
                            },
                            SearchResult::NotFound(i) => {
                                assert(n.keys[j as int] < k);
                            },
                        }
                    },
                    SearchResult::NotFound(j) => {
                        match search_node(n, k) {
                            SearchResult::Found(i) => {
                                if (i as int) < (j as int) {
                                    assert(n.keys[i as int] < bound_key);
                                }
                            },
                            SearchResult::NotFound(i) => {
                                if (i as int) < (j as int) {
                                    assert(k < n.keys[i as int]);
                                    assert(n.keys[i as int] < bound_key);
                                }
                            },
                        }
                    },
                }
            },
            KeyBound::Excluded(bound_key) => {
                lemma_search_sorted(n, bound_key);
                match search_node(n, bound_key) {
                    SearchResult::Found(j) => {
                        match search_node(n, k) {
                            SearchResult::Found(i) => {
                                if (i as int) <= (j as int) {
                                    if (i as int) < (j as int) {
                                        assert(n.keys[i as int] < n.keys[j as int]);
                                    }
                                }
                            },
                            SearchResult::NotFound(i) => {
                                assert(n.keys[j as int] < k);
                            },
                        }
                    },
                    SearchResult::NotFound(j) => {
                        match search_node(n, k) {
                            SearchResult::Found(i) => {
                                if (i as int) < (j as int) {
                                    assert(n.keys[i as int] < bound_key);
                                }
                            },
                            SearchResult::NotFound(i) => {
                                if (i as int) < (j as int) {
                                    assert(k < n.keys[i as int]);
                                    assert(n.keys[i as int] < bound_key);
                                }
                            },
                        }
                    },
                }
            },
            KeyBound::Unbounded => {},
        }
        assert(a <= p);
        // the walk runs past the position of `k`
        if a + run.len() <= p {
            let x = a + run.len();
            assert(!crate::node::included_at(n, x, end));
            match search_node(n, k) {
                SearchResult::Found(i) => {
                    if n.is_leaf {
                        if x < i {
                            assert(n.keys[x] < n.keys[i as int]);
                        }
                    } else if x % 2 == 1 {
                        if x / 2 < i {
                            assert(n.keys[x / 2] < n.keys[i as int]);
                        }
                    }
                },
                SearchResult::NotFound(i) => {
                    if x % 2 == 1 {
                        assert(n.keys[x / 2] < k);
                    }
                },
            }
            assert(crate::node::included_at(n, x, end));
        }
        let m = p - a;
        assert(run[m] == item_at(c, n, a + m));
        m
    }

    /// The key and the value at slot `(node, idx)`.
    fn get_key_value_tuple(&self, node: u64, idx: usize) -> (r: Result<(u64, Vec<u8>), Error>)
        requires
            self.wf(),
            node < self.node_views().len(),
            idx < self.node_views()[node as int].num_keys,
        ensures
            r is Ok,
            r->Ok_0.0 == self.node_views()[node as int].keys[idx as int],
            r->Ok_0.1@ == self.value_records()[self.payload_at(node as int, idx as int) as usize],
    {
        let payload_id = self.nodes.get_payload(node, idx)?;
        proof {
            assert(self.nodes@[node as int].payloads[idx as int] <= usize::MAX);
        }
        let value = self.values.get_owned(payload_id as usize)?;
        let key = self.nodes.get_key(node, idx)?;
        Ok((key, value))
    }

    /// Pop entries off `stack`, expanding descents into the walk over the child, until
    /// a key comes up; returns its entry, or `None` when the stack runs empty.
    fn advance(&self, stack: &mut Vec<StackEntry>, start: KeyBound, end: KeyBound, floor: Ghost<int>) -> (r: Option<Result<(u64, Vec<u8>), Error>>)
        requires
            self.wf(),
            self.stack_ordered(old(stack)@),
            self.above_floor(old(stack)@, floor@),
            self.covers(old(stack)@, start, end, floor@),
            forall|q: int| 0 <= q < old(stack)@.len() ==> entry_ok(self.node_views(), #[trigger] old(stack)@[q]),
            forall|q: int| 0 <= q < old(stack)@.len() ==> self.entry_fits(#[trigger] old(stack)@[q], start, end),
        ensures
            forall|q: int| 0 <= q < final(stack)@.len() ==> entry_ok(self.node_views(), #[trigger] final(stack)@[q]),
            forall|q: int| 0 <= q < final(stack)@.len() ==> self.entry_fits(#[trigger] final(stack)@[q], start, end),
            r matches Some(res) ==> res is Ok,
            r matches Some(Ok(kv)) ==> above_start(kv.0, start) && below_end(kv.0, end)
                && self.lookup_value(kv.0) == Some(kv.1@),
            self.stack_ordered(final(stack)@),
            r matches Some(Ok(kv)) ==> floor@ < kv.0 && self.above_floor(final(stack)@, kv.0 as int),
            r is None ==> self.above_floor(final(stack)@, floor@),
            r matches Some(Ok(kv)) ==> self.covers(final(stack)@, start, end, kv.0 as int),
            r matches Some(Ok(kv)) ==> forall|k: u64| #[trigger] self.in_scope(k, start, end) && floor@ < k ==> kv.0 <= k,
            r is None ==> forall|k: u64| #[trigger] self.in_scope(k, start, end) ==> k <= floor@,
    {
        let ghost nodes = self.nodes@;
        let ghost h = self.heights@;
        loop
            invariant
                self.wf(),
                nodes == self.nodes@,
                h == self.heights@,
                forall|q: int| 0 <= q < stack@.len() ==> entry_ok(nodes, #[trigger] stack@[q]),
                forall|q: int| 0 <= q < stack@.len() ==> self.entry_fits(#[trigger] stack@[q], start, end),
                self.stack_ordered(stack@),
                self.above_floor(stack@, floor@),
                self.covers(stack@, start, end, floor@),
            decreases stack_weight(nodes, h, stack@),
        {
            let ghost before = stack@;
            match stack.pop() {
                None => {
                    proof {
                        assert forall|k: u64| #[trigger] self.in_scope(k, start, end) implies k <= floor@ by {
                            if k > floor@ {
                                assert(exists|q: int| 0 <= q < before.len() && self.in_entry(before[q], k));
                            }
                        }
                    }
                    return None;
                },
                Some(StackEntry::Key { node, idx }) => {
                    proof {
                        assert(entry_ok(nodes, before[before.len() - 1]));
                        assert(self.entry_fits(before[before.len() - 1], start, end));
                        assert(stack@ =~= before.drop_last());
                        let top = before[before.len() - 1];
                        assert(self.span(top).0 > floor@);
                        assert forall|a: int| 0 <= a < stack@.len() implies #[trigger] self.span(stack@[a]).0 > self.span(top).1 by {
                            assert(stack@[a] == before[a]);
                        }
                        assert forall|a: int, b: int| 0 <= a < b < stack@.len() implies
                            #[trigger] self.span(stack@[b]).1 < #[trigger] self.span(stack@[a]).0 by {
                            assert(stack@[a] == before[a] && stack@[b] == before[b]);
                        }
                        let k0 = nodes[node as int].keys[idx as int];
                        assert forall|k: u64| #[trigger] self.in_scope(k, start, end) && floor@ < k implies k0 <= k by {
                            let q = choose|q: int| 0 <= q < before.len() && self.in_entry(before[q], k);
                            self.lemma_in_entry_span(before[q], k);
                            if q < before.len() - 1 {
                                assert(self.span(before[before.len() - 1]).1 < self.span(before[q]).0);
                            }
                        }
                        assert forall|k: u64| #[trigger] self.in_scope(k, start, end) && k > k0 implies
                            exists|q: int| 0 <= q < stack@.len() && self.in_entry(stack@[q], k) by {
                            let q = choose|q: int| 0 <= q < before.len() && self.in_entry(before[q], k);
                            assert(q != before.len() - 1);
                            assert(stack@[q] == before[q]);
                        }
                    }
                    let kv = self.get_key_value_tuple(node, idx);
                    return Some(kv);
                },
                Some(StackEntry::Child { parent, idx }) => {
                    proof {
                        assert(entry_ok(nodes, before[before.len() - 1]));
                        assert(self.entry_fits(before[before.len() - 1], start, end));
                        assert(stack@ =~= before.drop_last());
                    }
                    let c = match self.nodes.get_child_node(parent, idx) {
                        Ok(c) => c,
                        Err(e) => return Some(Err(e)),
                    };
                    proof {
                        assert(nodes[parent as int].children[idx as int] < nodes.len());
                    }
                    let run = self.nodes.find_range(c, start, end);
                    let ghost a = crate::node::start_position(nodes[c as int], start);
                    let ghost top = before[before.len() - 1];
                    let ghost lo = self.span(top).0;
                    let ghost hi = self.span(top).1;
                    proof {
                        self.lemma_run_entries(run@, c, start, end);
                        self.lemma_run_spans(run@, c, start, end, lo, hi);
                        assert forall|a: int| 0 <= a < stack@.len() implies hi < #[trigger] self.span(stack@[a]).0 by {
                            assert(stack@[a] == before[a]);
                        }
                        assert forall|a: int, b: int| 0 <= a < b < stack@.len() implies
                            #[trigger] self.span(stack@[b]).1 < #[trigger] self.span(stack@[a]).0 by {
                            assert(stack@[a] == before[a] && stack@[b] == before[b]);
                        }
                        assert forall|a: int| 0 <= a < stack@.len() implies #[trigger] self.span(stack@[a]).0 > floor@ by {
                            assert(stack@[a] == before[a]);
                        }
                    }
                    let ghost w = height_weight(h[c as int]);
                    let ghost w0 = stack_weight(nodes, h, stack@);
                    let mut q: usize = run.len();
                    while q > 0
                        invariant
                            q <= run@.len() <= MAX_RUN,
                            self.wf(),
                            nodes == self.nodes@,
                            h == self.heights@,
                            is_run(run@, c, nodes[c as int], a, end),
                            forall|k: int| 0 <= k < run@.len() ==> entry_ok(nodes, #[trigger] run@[k]),
                            forall|k: int| 0 <= k < run@.len() ==> (#[trigger] entry_weight(nodes, h, run@[k])) * (MAX_RUN + 1) <= w,
                            forall|k: int| 0 <= k < stack@.len() ==> entry_ok(nodes, #[trigger] stack@[k]),
                            forall|k: int| 0 <= k < run@.len() ==> self.entry_fits(#[trigger] run@[k], start, end),
                            forall|k: int| 0 <= k < stack@.len() ==> self.entry_fits(#[trigger] stack@[k], start, end),
                            stack_weight(nodes, h, stack@) * (MAX_RUN + 1) + q * w <= w0 * (MAX_RUN + 1) + run@.len() * w,
                            self.stack_ordered(stack@),
                            self.above_floor(stack@, floor@),
                            lo > floor@,
                            forall|m: int| 0 <= m < run@.len() ==> lo <= #[trigger] self.span(run@[m]).0 && self.span(run@[m]).1 <= hi,
                            forall|a: int, b: int| 0 <= a < b < run@.len() ==> #[trigger] self.span(run@[a]).1 < #[trigger] self.span(run@[b]).0,
                            forall|m: int, x: int| 0 <= m < q && 0 <= x < stack@.len() ==>
                                #[trigger] self.span(run@[m]).1 < #[trigger] self.span(stack@[x]).0,
                            before.len() >= 1,
                            stack@.len() == before.len() - 1 + (run@.len() - q),
                            forall|x: int| 0 <= x < before.len() - 1 ==> #[trigger] stack@[x] == before[x],
                            forall|x: int| 0 <= x < run@.len() - q ==> #[trigger] stack@[before.len() - 1 + x] == run@[run@.len() - 1 - x],
                        decreases q,
                    {
                        let e = run[q - 1];
                        let ghost prev = stack@;
                        proof {
                            assert(entry_ok(nodes, run@[q - 1]));
                            assert(self.entry_fits(run@[q - 1], start, end));
                            assert(entry_weight(nodes, h, run@[q - 1]) * (MAX_RUN + 1) <= w);
                            assert(run@[q - 1] == item_at(c, nodes[c as int], a + q - 1)
                                && crate::node::included_at(nodes[c as int], a + q - 1, end));
                        }
                        stack.push(e);
                        proof {
                            assert(stack@.drop_last() =~= prev);
                            assert(stack@[stack@.len() - 1] == run@[q - 1]);
                            assert forall|a: int| 0 <= a < stack@.len() implies #[trigger] self.span(stack@[a]).0 > floor@ by {
                                if a < prev.len() {
                                    assert(stack@[a] == prev[a]);
                                }
                            }
                            assert forall|a: int, b: int| 0 <= a < b < stack@.len() implies
                                #[trigger] self.span(stack@[b]).1 < #[trigger] self.span(stack@[a]).0 by {
                                assert(stack@[a] == prev[a]);
                                if b < prev.len() {
                                    assert(stack@[b] == prev[b]);
                                } else {
                                    assert(self.span(run@[q - 1]).1 < self.span(prev[a]).0);
                                }
                            }
                            assert forall|m: int, x: int| 0 <= m < q - 1 && 0 <= x < stack@.len() implies
                                #[trigger] self.span(run@[m]).1 < #[trigger] self.span(stack@[x]).0 by {
                                if x < prev.len() {
                                    assert(stack@[x] == prev[x]);
                                    assert(self.span(run@[m]).1 < self.span(prev[x]).0);
                                } else {
                                    assert(self.span(run@[m]).1 < self.span(run@[q - 1]).0);
                                }
                            }
                            let ew = entry_weight(nodes, h, e);
                            let pw = stack_weight(nodes, h, prev);
                            let nw = stack_weight(nodes, h, stack@);
                            assert(nw == pw + ew);
                            let k = (MAX_RUN + 1) as int;
                            assert(nw * k == pw * k + ew * k) by (nonlinear_arith)
                                requires
                                    nw == pw + ew,
                            ;
                            assert((q - 1) * w == q * w - w) by (nonlinear_arith);
                        }
                        q = q - 1;
                    }
                    proof {
                        assert(run@.len() * w <= MAX_RUN * w) by (nonlinear_arith)
                            requires
                                run@.len() <= MAX_RUN,
                        ;
                        assert(before.last() == (StackEntry::Child { parent, idx }));
                        assert(stack_weight(nodes, h, before) == stack_weight(nodes, h, before.drop_last())
                            + entry_weight(nodes, h, before.last()));
                        assert(entry_weight(nodes, h, before.last()) == w);
                        assert forall|k: u64| #[trigger] self.in_scope(k, start, end) && k > floor@ implies
                            exists|q: int| 0 <= q < stack@.len() && self.in_entry(stack@[q], k) by {
                            let q = choose|q: int| 0 <= q < before.len() && self.in_entry(before[q], k);
                            if q < before.len() - 1 {
                                assert(stack@[q] == before[q]);
                            } else {
                                assert(before[q] == (StackEntry::Child { parent, idx }));
                                assert(within(self.ivals@[c as int], k));
                                assert forall|x: u64| #[trigger] within(self.ivals@[c as int], x) implies
                                    routes_to(self.nodes@, self.heights@, self.root_id as int, c as int, x) by {
                                    assert(self.entry_fits(before[q], start, end));
                                }
                                let m = self.lemma_run_covers(run@, c, start, end, k);
                                let x = run@.len() - 1 - m;
                                assert(stack@[before.len() - 1 + x] == run@[m]);
                            }
                        }
                        lemma_height_weight_grows(0, h[c as int]);
                        let k = (MAX_RUN + 1) as int;
                        let nw = stack_weight(nodes, h, stack@);
                        let bw = stack_weight(nodes, h, before);
                        assert(bw == w0 + w);
                        assert(nw < bw) by (nonlinear_arith)
                            requires
                                nw * k <= w0 * k + MAX_RUN * w,
                                bw == w0 + w,
                                w >= 1,
                                k == MAX_RUN + 1,
                        ;
                    }
                },
            }
        }
    }

    /// The pending walk over node `id` for a range from `start` to `end`, as a stack
    /// whose top is the first entry.
    fn start_stack(&self, id: u64, start: KeyBound, end: KeyBound) -> (r: Vec<StackEntry>)
        requires
            self.wf(),
            id == self.root(),
        ensures
            forall|q: int| 0 <= q < r@.len() ==> entry_ok(self.node_views(), #[trigger] r@[q]),
            forall|q: int| 0 <= q < r@.len() ==> self.entry_fits(#[trigger] r@[q], start, end),
            self.stack_ordered(r@),
            self.above_floor(r@, -1),
            self.covers(r@, start, end, -1),
    {
        let run = self.nodes.find_range(id, start, end);
        let ghost a = crate::node::start_position(self.nodes@[id as int], start);
        proof {
            assert forall|k: u64| #[trigger] within(self.ivals@[id as int], k) implies
                routes_to(self.nodes@, self.heights@, self.root_id as int, id as int, k) by {}
            self.lemma_run_entries(run@, id, start, end);
            self.lemma_run_spans(run@, id, start, end, 0, u64::MAX as int);
        }
        let mut stack: Vec<StackEntry> = Vec::new();
        let mut q: usize = run.len();
        while q > 0
            invariant
                q <= run@.len(),
                self.wf(),
                is_run(run@, id, self.nodes@[id as int], a, end),
                forall|k: int| 0 <= k < run@.len() ==> entry_ok(self.nodes@, #[trigger] run@[k]),
                forall|k: int| 0 <= k < stack@.len() ==> entry_ok(self.nodes@, #[trigger] stack@[k]),
                forall|k: int| 0 <= k < run@.len() ==> self.entry_fits(#[trigger] run@[k], start, end),
                forall|k: int| 0 <= k < stack@.len() ==> self.entry_fits(#[trigger] stack@[k], start, end),
                forall|m: int| 0 <= m < run@.len() ==> 0 <= #[trigger] self.span(run@[m]).0,
                forall|a: int, b: int| 0 <= a < b < run@.len() ==> #[trigger] self.span(run@[a]).1 < #[trigger] self.span(run@[b]).0,
                self.stack_ordered(stack@),
                self.above_floor(stack@, -1),
                forall|m: int, x: int| 0 <= m < q && 0 <= x < stack@.len() ==>
                    #[trigger] self.span(run@[m]).1 < #[trigger] self.span(stack@[x]).0,
                stack@.len() == run@.len() - q,
                forall|x: int| 0 <= x < stack@.len() ==> stack@[x] == run@[run@.len() - 1 - x],
            decreases q,
        {
            proof {
                assert(entry_ok(self.nodes@, run@[q - 1]));
                assert(self.entry_fits(run@[q - 1], start, end));
                assert(run@[q - 1] == item_at(id, self.nodes@[id as int], a + q - 1)
                    && crate::node::included_at(self.nodes@[id as int], a + q - 1, end));
            }
            let ghost prev = stack@;
            stack.push(run[q - 1]);
            proof {
                assert forall|a: int| 0 <= a < stack@.len() implies #[trigger] self.span(stack@[a]).0 > -1 by {
                    if a < prev.len() {
                        assert(stack@[a] == prev[a]);
                    }
                }
                assert forall|a: int, b: int| 0 <= a < b < stack@.len() implies
                    #[trigger] self.span(stack@[b]).1 < #[trigger] self.span(stack@[a]).0 by {
                    assert(stack@[a] == prev[a]);
                    if b < prev.len() {
                        assert(stack@[b] == prev[b]);
                    } else {
                        assert(self.span(run@[q - 1]).1 < self.span(prev[a]).0);
                    }
                }
                assert forall|m: int, x: int| 0 <= m < q - 1 && 0 <= x < stack@.len() implies
                    #[trigger] self.span(run@[m]).1 < #[trigger] self.span(stack@[x]).0 by {
                    if x < prev.len() {
                        assert(stack@[x] == prev[x]);
                        assert(self.span(run@[m]).1 < self.span(prev[x]).0);
                    } else {
                        assert(self.span(run@[m]).1 < self.span(run@[q - 1]).0);
                    }
                }
            }
            q = q - 1;
        }
        proof {
            assert forall|k: u64| #[trigger] self.in_scope(k, start, end) && k > -1 implies
                exists|q: int| 0 <= q < stack@.len() && self.in_entry(stack@[q], k) by {
                assert forall|x: u64| #[trigger] within(self.ivals@[id as int], x) implies
                    routes_to(self.nodes@, self.heights@, self.root_id as int, id as int, x) by {}
                let m = self.lemma_run_covers(run@, id, start, end, k);
                assert(stack@[run@.len() - 1 - m] == run@[m]);
            }
        }
        stack
    }

    /// An iterator over the entries whose keys lie between `start` and `end`.
    pub fn range(&self, start: KeyBound, end: KeyBound) -> (r: Result<Range<'_>, Error>)
        requires
            self.wf(),
        ensures
            r is Ok,
            r->Ok_0.wf(),
            r->Ok_0.index() == *self,
            r->Ok_0.start_bound() == start,
            r->Ok_0.end_bound() == end,
            r->Ok_0.floor() == -1,
    {
        let stack = self.start_stack(self.root_id, start, end);
        Ok(Range { index: self, start, end, stack, floor: Ghost(-1) })
    }

    /// An iterator over all entries that consumes the index.
    pub fn into_iter(self) -> (r: Result<BtreeIntoIter, Error>)
        requires
            self.wf(),
        ensures
            r is Ok,
            r->Ok_0.wf(),
            r->Ok_0.index() == self,
            r->Ok_0.floor() == -1,
    {
        let stack = self.start_stack(self.root_id, KeyBound::Unbounded, KeyBound::Unbounded);
        Ok(BtreeIntoIter { index: self, stack, floor: Ghost(-1) })
    }
}

/// The entries of an index whose keys lie in a range, in the order of the tree.
pub struct Range<'a> {
    index: &'a BtreeIndex,
    start: KeyBound,
    end: KeyBound,
    stack: Vec<StackEntry>,
    floor: Ghost<int>,
}

impl<'a> Range<'a> {
    /// The index walked over.
    pub closed spec fn index(&self) -> BtreeIndex {
        *self.index
    }

    /// The last key yielded, or -1 before the first.
    pub closed spec fn floor(&self) -> int {
        self.floor@
    }

    /// The start of the range.
    pub closed spec fn start_bound(&self) -> KeyBound {
        self.start
    }

    /// The end of the range.
    pub closed spec fn end_bound(&self) -> KeyBound {
        self.end
    }

    pub closed spec fn wf(&self) -> bool {
        &&& self.index.wf()
        &&& forall|q: int| 0 <= q < self.stack@.len() ==> entry_ok(self.index.node_views(), #[trigger] self.stack@[q])
        &&& forall|q: int| 0 <= q < self.stack@.len() ==> self.index.entry_fits(#[trigger] self.stack@[q], self.start, self.end)
        &&& self.index.stack_ordered(self.stack@)
        &&& self.index.above_floor(self.stack@, self.floor@)
        &&& self.index.covers(self.stack@, self.start, self.end, self.floor@)
    }

    /// The next entry: the smallest key of the range above the last one yielded that
    /// the index holds, with its value, or `None` when there is none.
    pub fn next(&mut self) -> (r: Option<Result<(u64, Vec<u8>), Error>>)
        requires
            old(self).wf(),
        ensures
            final(self).wf(),
            final(self).index() == old(self).index(),
            final(self).end_bound() == old(self).end_bound(),
            final(self).start_bound() == old(self).start_bound(),
            r matches Some(res) ==> res is Ok,
            r matches Some(Ok(kv)) ==> above_start(kv.0, old(self).start_bound()) && below_end(kv.0, old(self).end_bound())
                && old(self).index().lookup_value(kv.0) == Some(kv.1@),
            r matches Some(Ok(kv)) ==> old(self).floor() < kv.0 && final(self).floor() == kv.0,
            r is None ==> final(self).floor() == old(self).floor(),
            r matches Some(Ok(kv)) ==> forall|k: u64| #[trigger] old(self).index().in_scope(k, old(self).start_bound(), old(self).end_bound())
                && old(self).floor() < k ==> kv.0 <= k,
            r is None ==> forall|k: u64| #[trigger] old(self).index().in_scope(k, old(self).start_bound(), old(self).end_bound())
                ==> k <= old(self).floor(),
    {
        let r = self.index.advance(&mut self.stack, self.start, self.end, Ghost(self.floor@));
        proof {
            if let Some(Ok(kv)) = &r {
                self.floor = Ghost(kv.0 as int);
            }
        }
        r
    }
}

/// All entries of an index, in the order of the tree; owns the index.
pub struct BtreeIntoIter {
    index: BtreeIndex,
    stack: Vec<StackEntry>,
    floor: Ghost<int>,
}

impl BtreeIntoIter {
    /// The index walked over.
    pub closed spec fn index(&self) -> BtreeIndex {
        self.index
    }

    /// The last key yielded, or -1 before the first.
    pub closed spec fn floor(&self) -> int {
        self.floor@
    }

    pub closed spec fn wf(&self) -> bool {
        &&& self.index.wf()
        &&& forall|q: int| 0 <= q < self.stack@.len() ==> entry_ok(self.index.node_views(), #[trigger] self.stack@[q])
        &&& forall|q: int| 0 <= q < self.stack@.len() ==> self.index.entry_fits(#[trigger] self.stack@[q], KeyBound::Unbounded, KeyBound::Unbounded)
        &&& self.index.stack_ordered(self.stack@)
        &&& self.index.above_floor(self.stack@, self.floor@)
        &&& self.index.covers(self.stack@, KeyBound::Unbounded, KeyBound::Unbounded, self.floor@)
    }

    /// The next entry: the smallest key above the last one yielded, with its value,
    /// or `None` when there is none.
    pub fn next(&mut self) -> (r: Option<Result<(u64, Vec<u8>), Error>>)
        requires
            old(self).wf(),
        ensures
            final(self).wf(),
            final(self).index() == old(self).index(),
            r matches Some(res) ==> res is Ok,
            r matches Some(Ok(kv)) ==> old(self).index().lookup_value(kv.0) == Some(kv.1@),
            r matches Some(Ok(kv)) ==> old(self).floor() < kv.0 && final(self).floor() == kv.0,
            r is None ==> final(self).floor() == old(self).floor(),
            r matches Some(Ok(kv)) ==> forall|k: u64| #[trigger] old(self).index().in_scope(k, KeyBound::Unbounded, KeyBound::Unbounded)
                && old(self).floor() < k ==> kv.0 <= k,
            r is None ==> forall|k: u64| #[trigger] old(self).index().in_scope(k, KeyBound::Unbounded, KeyBound::Unbounded)
                ==> k <= old(self).floor(),
    {
        let r = self.index.advance(&mut self.stack, KeyBound::Unbounded, KeyBound::Unbounded, Ghost(self.floor@));
        proof {
            if let Some(Ok(kv)) = &r {
                self.floor = Ghost(kv.0 as int);
            }
        }
        r
    }
}

/// `after` maps `key` to `v` and every other key as `before` does: what a successful
/// insertion of `v` under `key` promises.
pub open spec fn inserted(before: BtreeIndex, after: BtreeIndex, key: u64, v: Seq<u8>) -> bool {
    &&& after.lookup_value(key) == Some(v)
    &&& forall|k: u64| k != key ==> #[trigger] after.lookup_value(k) == before.lookup_value(k)
}

/// The value of the most recent write of `k` in `ops`, if any.
pub open spec fn last_write(ops: Seq<(u64, Seq<u8>)>, k: u64) -> Option<Seq<u8>>
    decreases ops.len(),
{
    if ops.len() == 0 {
        None
    } else if ops.last().0 == k {
        Some(ops.last().1)
    } else {
        last_write(ops.drop_last(), k)
    }
}

/// An index reflects its inserts: after inserting the pairs of `ops` one by one into
/// an empty index, a lookup of any key finds the value of its most recent insert,
/// and keys never inserted are absent.
pub proof fn lemma_reflects_inserts(states: Seq<BtreeIndex>, ops: Seq<(u64, Seq<u8>)>, k: u64)
    requires
        states.len() == ops.len() + 1,
        forall|x: u64| #[trigger] states[0].lookup_value(x) == None::<Seq<u8>>,
        forall|i: int| 0 <= i < ops.len() ==> inserted(#[trigger] states[i], states[i + 1], ops[i].0, ops[i].1),
    ensures
        states.last().lookup_value(k) == last_write(ops, k),
    decreases ops.len(),
{
    if ops.len() > 0 {
        let n = ops.len() - 1;
        assert(inserted(states[n], states[n + 1], ops[n].0, ops[n].1));
        let earlier_states = states.drop_last();
        let earlier_ops = ops.drop_last();
        assert forall|i: int| 0 <= i < earlier_ops.len() implies inserted(#[trigger] earlier_states[i], earlier_states[i + 1], earlier_ops[i].0, earlier_ops[i].1) by {
            assert(inserted(states[i], states[i + 1], ops[i].0, ops[i].1));
        }
        lemma_reflects_inserts(earlier_states, earlier_ops, k);
    }
}

/// Overwriting returns the value written before: after `insert(k, v1)` and then
/// `insert(k, v2)`, the second insertion returns `v1` and a lookup finds `v2`.
pub proof fn lemma_overwrite(t0: BtreeIndex, t1: BtreeIndex, t2: BtreeIndex, k: u64, v1: Seq<u8>, v2: Seq<u8>, prev: Option<Seq<u8>>)
    requires
        inserted(t0, t1, k, v1),
        inserted(t1, t2, k, v2),
        prev == t1.lookup_value(k),
    ensures
        prev == Some(v1),
        t2.lookup_value(k) == Some(v2),
{
}

impl BtreeIndex {
    /// The keys that a lookup finds.
    pub open spec fn key_set(&self) -> Set<u64> {
        Set::new(|k: u64| self.lookup_value(k) is Some)
    }
}

/// The length counts the distinct keys: it is zero for an index where nothing is
/// found, and an insertion that keeps it counting adds one exactly for a new key.
pub proof fn lemma_length_counts_keys(before: BtreeIndex, after: BtreeIndex, key: u64, v: Seq<u8>, prev: Option<Seq<u8>>)
    requires
        before.key_set().finite(),
        before.spec_len() == before.key_set().len(),
        inserted(before, after, key, v),
        prev == before.lookup_value(key),
        prev is None ==> after.spec_len() == before.spec_len() + 1,
        prev is Some ==> after.spec_len() == before.spec_len(),
    ensures
        after.key_set() == before.key_set().insert(key),
        after.key_set().finite(),
        after.spec_len() == after.key_set().len(),
{
    assert(after.key_set() =~= before.key_set().insert(key));
}

/// An index where no key is found holds no key.
pub proof fn lemma_no_keys(t: BtreeIndex)
    requires
        forall|x: u64| #[trigger] t.lookup_value(x) == None::<Seq<u8>>,
    ensures
        t.key_set() == Set::<u64>::empty(),
        t.key_set().finite(),
        t.key_set().len() == 0,
{
    assert(t.key_set() =~= Set::<u64>::empty());
}

/// A range walk agrees with a reference ordered map fed the same writes: after the
/// pairs of `ops` were inserted one by one into an empty index, the keys a walk
/// from `start` to `end` yields (each the smallest above the one before) are
/// exactly the keys of that range that some write holds, each with the value of
/// its most recent write.
pub proof fn lemma_scan_matches_writes(states: Seq<BtreeIndex>, ops: Seq<(u64, Seq<u8>)>, k: u64, start: KeyBound, end: KeyBound)
    requires
        states.len() == ops.len() + 1,
        forall|x: u64| #[trigger] states[0].lookup_value(x) == None::<Seq<u8>>,
        forall|i: int| 0 <= i < ops.len() ==> inserted(#[trigger] states[i], states[i + 1], ops[i].0, ops[i].1),
    ensures
        states.last().in_scope(k, start, end) <==> (above_start(k, start) && below_end(k, end) && last_write(ops, k) is Some),
        states.last().lookup_value(k) == last_write(ops, k),
{
    lemma_reflects_inserts(states, ops, k);
}

/// A range walk yields its keys in strictly ascending order: for successive states of
/// a walk where each step yielded a key above the last one (the walk's floor) and
/// made it the new floor, every key comes before all later ones.
pub proof fn lemma_scan_ascending<'a>(walk: Seq<Range<'a>>, keys: Seq<u64>)
    requires
        walk.len() == keys.len() + 1,
        forall|x: int| 0 <= x < keys.len() ==> walk[x].floor() < #[trigger] keys[x] && walk[x + 1].floor() == keys[x],
    ensures
        forall|i: int, j: int| 0 <= i < j < keys.len() ==> keys[i] < keys[j],
{
    assert forall|i: int, j: int| 0 <= i < j < keys.len() implies keys[i] < keys[j] by {
        lemma_floor_grows(walk, keys, i, j);
    }
}

/// Along such a walk the floor only grows.
proof fn lemma_floor_grows<'a>(walk: Seq<Range<'a>>, keys: Seq<u64>, i: int, j: int)
    requires
        walk.len() == keys.len() + 1,
        forall|x: int| 0 <= x < keys.len() ==> walk[x].floor() < #[trigger] keys[x] && walk[x + 1].floor() == keys[x],
        0 <= i < j < keys.len(),
    ensures
        keys[i] < keys[j],
    decreases j - i,
{
    assert(walk[j].floor() < keys[j]);
    assert(walk[j - 1].floor() < keys[j - 1] && walk[j].floor() == keys[j - 1]);
    if j > i + 1 {
        lemma_floor_grows(walk, keys, i, j - 1);
    }
}


} // verus!
