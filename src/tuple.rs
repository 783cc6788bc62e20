use linked_hash_map::LinkedHashMap;
use std::collections::HashMap;
use std::sync::Arc;
use vstd::bytes::{
    lemma_auto_spec_u64_to_from_le_bytes, spec_u64_from_le_bytes, spec_u64_to_le_bytes,
    u64_to_le_bytes,
};
use vstd::prelude::*;

use crate::error::Error;
use crate::region::{lemma_u64_at_unchanged, u64_at, PagedRegion};

verus! {

broadcast use vstd::std_specs::hash::group_hash_axioms;

/// The size of a memory page.
pub const PAGE_SIZE: usize = 4096;

/// The size of a block header.
pub const HEADER_SIZE: usize = 16;

/// How a record is stored: its length as a little-endian `u64`, then its bytes.
pub open spec fn record_encoding(v: Seq<u8>) -> Seq<u8> {
    spec_u64_to_le_bytes(v.len() as u64) + v
}

/// Relies on `bincode::serialize` on a byte vector: with the fixed-width integer
/// encoding it writes the length as a little-endian `u64` and then the bytes, and
/// it cannot fail on a byte vector.
#[verifier::external_body]
fn encode_record(v: &Vec<u8>) -> (r: Vec<u8>)
    ensures
        r@ == record_encoding(v@),
{
    bincode::serialize(v).unwrap_or_default()
}

/// Relies on `bincode::deserialize` into a byte vector: it reads a little-endian
/// `u64` length and then that many bytes, ignores what follows, and fails when
/// the input is shorter.
#[verifier::external_body]
fn decode_record(b: &[u8]) -> (r: Option<Vec<u8>>)
    ensures
        r is Some <==> (b@.len() >= 8 && spec_u64_from_le_bytes(b@.subrange(0, 8)) <= b@.len() - 8),
        r is Some ==> r->0@ == b@.subrange(8, 8 + spec_u64_from_le_bytes(b@.subrange(0, 8))),
{
    bincode::deserialize::<Vec<u8>>(b).ok()
}

#[verifier::external_type_specification]
#[verifier::external_body]
#[verifier::reject_recursive_types(K)]
#[verifier::reject_recursive_types(V)]
#[verifier::reject_recursive_types(S)]
pub struct ExLinkedHashMap<K, V, S>(LinkedHashMap<K, V, S>);

/// A cache of records by block id; its oldest entry is evicted first.
pub type BlockCache = LinkedHashMap<usize, Vec<u8>>;

/// The records a block cache holds, by block id.
pub uninterp spec fn cache_contents(m: BlockCache) -> Map<usize, Seq<u8>>;

/// Relies on `LinkedHashMap::with_capacity`: a new map is empty.
#[verifier::external_body]
fn cache_new(capacity: usize) -> (r: BlockCache)
    ensures
        cache_contents(r).dom() == Set::<usize>::empty(),
{
    LinkedHashMap::with_capacity(capacity)
}

/// Relies on `LinkedHashMap::insert`: afterwards `k` maps to `v` (it becomes the
/// newest entry) and no other entry changes.
#[verifier::external_body]
fn cache_insert(m: &mut BlockCache, k: usize, v: Vec<u8>)
    ensures
        cache_contents(*final(m)) == cache_contents(*old(m)).insert(k, v@),
{
    m.insert(k, v);
}

/// Relies on `LinkedHashMap::get`: the value of `k`, if the map has one.
#[verifier::external_body]
fn cache_get(m: &BlockCache, k: usize) -> (r: Option<Vec<u8>>)
    ensures
        r is Some <==> cache_contents(*m).contains_key(k),
        r is Some ==> r->0@ == cache_contents(*m)[k],
{
    m.get(&k).cloned()
}

/// Relies on `LinkedHashMap::len`: the number of entries.
#[verifier::external_body]
fn cache_len(m: &BlockCache) -> (r: usize)
    ensures
        r == cache_contents(*m).len(),
{
    m.len()
}

/// Relies on `LinkedHashMap::pop_front`: it removes one entry (the oldest), or
/// returns `None` from an empty map.
#[verifier::external_body]
fn cache_pop_front(m: &mut BlockCache) -> (r: Option<usize>)
    ensures
        r is None ==> cache_contents(*old(m)).is_empty() && cache_contents(*final(m)) == cache_contents(*old(m)),
        r is Some ==> cache_contents(*old(m)).contains_key(r->0)
            && cache_contents(*final(m)) == cache_contents(*old(m)).remove(r->0),
{
    m.pop_front().map(|e| e.0)
}

/// The smallest capacity at least `capacity` whose block, header included, fills whole pages.
pub open spec fn spec_page_aligned(capacity: int) -> int {
    ((capacity + PAGE_SIZE - 1) / PAGE_SIZE as int) * PAGE_SIZE - HEADER_SIZE
}

/// A page-aligned capacity exceeds what was asked for by less than a page.
pub proof fn lemma_page_aligned_bound(capacity: int)
    requires
        capacity >= 1,
    ensures
        spec_page_aligned(capacity) < capacity + PAGE_SIZE - HEADER_SIZE,
        spec_page_aligned(capacity) + HEADER_SIZE >= capacity,
{
    let q = (capacity + PAGE_SIZE - 1) / PAGE_SIZE as int;
    assert(q * PAGE_SIZE <= capacity + PAGE_SIZE - 1) by (nonlinear_arith)
        requires
            q == (capacity + PAGE_SIZE - 1) / PAGE_SIZE as int,
    ;
    assert(q * PAGE_SIZE >= capacity) by (nonlinear_arith)
        requires
            q == (capacity + PAGE_SIZE - 1) / PAGE_SIZE as int,
            capacity >= 1,
    ;
}

/// Return a capacity of at least `capacity - HEADER_SIZE` bytes with which the block,
/// header included, ends at a page boundary.
pub fn page_aligned_capacity(capacity: usize) -> (r: usize)
    requires
        1 <= capacity <= usize::MAX - PAGE_SIZE,
    ensures
        r == spec_page_aligned(capacity as int),
        r + HEADER_SIZE >= capacity,
        r + HEADER_SIZE >= PAGE_SIZE,
{
    let mut num_full_pages = capacity / PAGE_SIZE;
    if capacity % PAGE_SIZE != 0 {
        num_full_pages += 1;
    }
    proof {
        assert(num_full_pages == (capacity + PAGE_SIZE - 1) / PAGE_SIZE as int);
        assert(num_full_pages >= 1);
        assert(num_full_pages * PAGE_SIZE >= capacity) by (nonlinear_arith)
            requires
                num_full_pages == (capacity + PAGE_SIZE - 1) / PAGE_SIZE as int,
        ;
        assert(num_full_pages * PAGE_SIZE <= capacity + PAGE_SIZE) by (nonlinear_arith)
            requires
                num_full_pages == (capacity + PAGE_SIZE - 1) / PAGE_SIZE as int,
        ;
        assert(num_full_pages * PAGE_SIZE >= PAGE_SIZE) by (nonlinear_arith)
            requires
                num_full_pages >= 1,
        ;
    }
    (num_full_pages * PAGE_SIZE) - HEADER_SIZE
}

/// The header at the start of each block: its capacity and how much of it is used.
#[derive(Clone, Copy, Debug, PartialEq, Eq, Structural)]
pub struct BlockHeader {
    pub capacity: u64,
    pub used: u64,
}

impl BlockHeader {
    /// Read a header from its sixteen bytes.
    pub fn read(buffer: &[u8]) -> (r: Result<BlockHeader, Error>)
        requires
            buffer@.len() == HEADER_SIZE,
        ensures
            r == Ok::<BlockHeader, Error>(BlockHeader {
                capacity: u64_at(buffer@, 0),
                used: u64_at(buffer@, 8),
            }),
    {
        let capacity = vstd::bytes::u64_from_le_bytes(vstd::slice::slice_subrange(buffer, 0, 8));
        let used = vstd::bytes::u64_from_le_bytes(vstd::slice::slice_subrange(buffer, 8, 16));
        Ok(BlockHeader { capacity, used })
    }

    /// Append the sixteen bytes of the header to `buffer`.
    pub fn write(&self, buffer: &mut Vec<u8>) -> (r: Result<(), Error>)
        ensures
            r is Ok,
            final(buffer)@ == old(buffer)@ + spec_u64_to_le_bytes(self.capacity) + spec_u64_to_le_bytes(self.used),
    {
        let mut a = u64_to_le_bytes(self.capacity);
        let mut b = u64_to_le_bytes(self.used);
        buffer.append(&mut a);
        buffer.append(&mut b);
        Ok(())
    }

    /// The number of bytes of a header.
    pub fn size() -> (r: usize)
        ensures
            r == HEADER_SIZE,
    {
        HEADER_SIZE
    }
}

/// The block at `b` lies below `limit`, uses at most its capacity, and holds the
/// encoding of `rec` (or nothing, for a block never written).
pub open spec fn block_ok(bytes: Seq<u8>, b: int, limit: int, rec: Option<Seq<u8>>) -> bool {
    let cap = u64_at(bytes, b);
    let used = u64_at(bytes, b + 8);
    &&& 0 <= b
    &&& b + HEADER_SIZE + cap <= limit
    &&& used <= cap
    &&& match rec {
        Some(r) => bytes.subrange(b + HEADER_SIZE, b + HEADER_SIZE + used) == record_encoding(r),
        None => used == 0,
    }
}

/// The end of the block at `b`.
pub open spec fn block_end(bytes: Seq<u8>, b: int) -> int {
    b + HEADER_SIZE + u64_at(bytes, b)
}

/// A block whose bytes did not change is still as it was.
proof fn lemma_block_ok_frame(
    before: Seq<u8>,
    after: Seq<u8>,
    b: int,
    limit: int,
    limit2: int,
    rec: Option<Seq<u8>>,
)
    requires
        block_ok(before, b, limit, rec),
        limit <= limit2,
        block_end(before, b) <= before.len(),
        block_end(before, b) <= after.len(),
        forall|k: int| b <= k < block_end(before, b) ==> after[k] == before[k],
    ensures
        block_ok(after, b, limit2, rec),
        block_end(after, b) == block_end(before, b),
{
    assert(after.subrange(b, b + 8) =~= before.subrange(b, b + 8));
    assert(after.subrange(b + 8, b + 16) =~= before.subrange(b + 8, b + 16));
    let used = u64_at(before, b + 8);
    assert(after.subrange(b + HEADER_SIZE, b + HEADER_SIZE + used) =~= before.subrange(
        b + HEADER_SIZE,
        b + HEADER_SIZE + used,
    ));
}

/// Records of variable size in blocks of a paged region. A block id is the offset
/// of its header. A record that outgrows its block moves to a new block, and the
/// id keeps leading to it through the relocation table.
pub struct VariableSizeTupleFile {
    free_space_offset: usize,
    region: PagedRegion,
    relocated_blocks: HashMap<usize, usize>,
    cache: BlockCache,
    block_cache_size: usize,
    blocks: Ghost<Set<usize>>,
    records: Ghost<Map<usize, Seq<u8>>>,
}

impl VariableSizeTupleFile {
    /// The ids that `allocate_block` handed out.
    pub closed spec fn blocks(&self) -> Set<usize> {
        self.blocks@
    }

    /// The record last put into each block.
    pub closed spec fn records(&self) -> Map<usize, Seq<u8>> {
        self.records@
    }

    /// Where the content of block `id` currently lives.
    pub closed spec fn resolve(&self, id: usize) -> int {
        if self.relocated_blocks@.contains_key(id) {
            self.relocated_blocks@[id] as int
        } else {
            id as int
        }
    }

    /// Only allocated blocks hold records.
    pub proof fn lemma_records_in_blocks(&self)
        requires
            self.wf(),
        ensures
            self.records().dom().subset_of(self.blocks()),
    {
    }

    /// A stored record fits the block that holds it.
    pub proof fn lemma_record_fits(&self, id: usize)
        requires
            self.wf(),
            self.records().contains_key(id),
        ensures
            record_encoding(self.records()[id]).len() <= self.capacity_of(id),
    {
        let b = self.resolve(id);
        assert(block_ok(self.region@, b, self.free_space_offset as int, Some(self.records@[id])));
    }

    /// The relocation table is one step deep.
    pub proof fn lemma_relocations_flat(&self)
        requires
            self.wf(),
        ensures
            self.relocations_flat(),
    {
    }

    /// The capacity of the block that holds the content of `id`.
    pub closed spec fn capacity_of(&self, id: usize) -> int {
        u64_at(self.region@, self.resolve(id)) as int
    }

    /// The offset where the next block goes.
    pub closed spec fn free_offset(&self) -> nat {
        self.free_space_offset as nat
    }

    /// The bytes of the region.
    pub closed spec fn bytes(&self) -> Seq<u8> {
        self.region@
    }

    /// No block moved to a block that itself moved: the table is one step deep.
    pub open spec fn relocations_flat(&self) -> bool {
        forall|k: usize| #[trigger] self.relocations().contains_key(k) ==> !self.relocations().contains_key(self.relocations()[k])
    }

    /// The relocation table: the block that now holds the content of each moved block.
    pub closed spec fn relocations(&self) -> Map<usize, usize> {
        self.relocated_blocks@
    }

    /// The number of bytes the region holds.
    pub closed spec fn spec_region_len(&self) -> nat {
        self.region@.len()
    }

    pub closed spec fn wf(&self) -> bool {
        let bytes = self.region@;
        let free = self.free_space_offset as int;
        &&& bytes.len() <= usize::MAX
        &&& free <= bytes.len()
        &&& self.records@.dom().subset_of(self.blocks@)
        &&& self.relocated_blocks@.dom().subset_of(self.blocks@)
        &&& forall|k: usize| #[trigger] self.relocated_blocks@.contains_key(k) ==> !self.blocks@.contains(self.relocated_blocks@[k])
        &&& forall|id: usize| #[trigger] self.blocks@.contains(id) ==> id < free
        &&& forall|id: usize| #[trigger] self.blocks@.contains(id) ==> block_ok(bytes, self.resolve(id), free, if self.records@.contains_key(id) { Some(self.records@[id]) } else { None })
        &&& forall|a: usize, b: usize| #[trigger] self.blocks@.contains(a) && #[trigger] self.blocks@.contains(b) && a != b ==>
            block_end(bytes, self.resolve(a)) <= self.resolve(b) || block_end(bytes, self.resolve(b)) <= self.resolve(a)
        &&& forall|id: usize| #[trigger] self.blocks@.contains(id) && cache_contents(self.cache).contains_key(self.resolve(id) as usize) ==>
            self.records@.contains_key(id) && cache_contents(self.cache)[self.resolve(id) as usize] == self.records@[id]
        &&& forall|b: usize| #[trigger] cache_contents(self.cache).contains_key(b) ==> b < free
    }

    /// An empty store whose region starts with `max(capacity, 1)` bytes.
    pub fn with_capacity(capacity: usize, block_cache_size: usize) -> (r: Result<VariableSizeTupleFile, Error>)
        ensures
            r is Ok ==> r->Ok_0.wf() && r->Ok_0.blocks() == Set::<usize>::empty() && r->Ok_0.records() == Map::<usize, Seq<u8>>::empty(),
            r is Err ==> r->Err_0 is IO,
    {
        let region = PagedRegion::new(capacity)?;
        Ok(VariableSizeTupleFile {
            free_space_offset: 0,
            region,
            relocated_blocks: HashMap::new(),
            cache: cache_new(block_cache_size),
            block_cache_size,
            blocks: Ghost(Set::empty()),
            records: Ghost(Map::empty()),
        })
    }

    /// Append a block of `capacity` bytes with an empty header at the free offset,
    /// growing the region as needed. Blocks already placed keep their bytes.
    fn append_block(&mut self, capacity: usize) -> (r: Result<usize, Error>)
        requires
            old(self).wf(),
        ensures
            final(self).wf(),
            final(self).blocks() == old(self).blocks(),
            final(self).records() == old(self).records(),
            final(self).relocated_blocks@ == old(self).relocated_blocks@,
            r is Ok ==> {
                &&& r->Ok_0 == old(self).free_space_offset
                &&& final(self).free_space_offset == r->Ok_0 + HEADER_SIZE + capacity
                &&& block_ok(final(self).region@, r->Ok_0 as int, final(self).free_space_offset as int, None)
                &&& u64_at(final(self).region@, r->Ok_0 as int) == capacity
                &&& forall|x: usize| #[trigger] final(self).blocks().contains(x) ==>
                    block_end(final(self).region@, final(self).resolve(x)) <= r->Ok_0 && x < r->Ok_0
                &&& forall|b: usize| #[trigger] cache_contents(final(self).cache).contains_key(b) ==> b < r->Ok_0
            },
            final(self).cache == old(self).cache,
            r is Err ==> r->Err_0 is IO || r->Err_0 is IntConversion,
            (r is Err && r->Err_0 is IntConversion) <==> old(self).free_space_offset + HEADER_SIZE + capacity > usize::MAX,
            r is Err && r->Err_0 is IO ==> old(self).free_space_offset + HEADER_SIZE + capacity > old(self).region@.len(),
            r is Err ==> final(self).region@ == old(self).region@ && final(self).free_space_offset == old(self).free_space_offset,
            r is Ok ==> final(self).region@.len() >= final(self).free_space_offset,
            r is Ok ==> forall|k: int| 0 <= k < old(self).free_space_offset ==> final(self).region@[k] == old(self).region@[k],
    {
        let free = self.free_space_offset;
        if free > usize::MAX - HEADER_SIZE || capacity > usize::MAX - HEADER_SIZE - free {
            return Err(Error::IntConversion);
        }
        let new_offset = free + HEADER_SIZE + capacity;
        let ghost before = self.region@;
        let ghost old_self = *self;
        self.region.grow(new_offset)?;
        proof {
            if new_offset <= before.len() {
                assert(self.region@ == before);
            }
            assert forall|k: int| 0 <= k < before.len() implies self.region@[k] == before[k] by {
                if new_offset > before.len() {
                    assert(self.region@.subrange(0, before.len() as int)[k] == self.region@[k]);
                }
            }
        }
        let ghost grown = self.region@;
        self.region.write_u64(free, capacity as u64);
        let ghost mid = self.region@;
        self.region.write_u64(free + 8, 0);
        proof {
            let after = self.region@;
            lemma_u64_at_unchanged(mid, after, free + 8, 8, free as int);
            lemma_auto_spec_u64_to_from_le_bytes();
            assert forall|k: int| 0 <= k < free implies after[k] == before[k] by {}
            assert forall|id: usize| #[trigger] self.blocks@.contains(id) implies block_ok(after, self.resolve(id), new_offset as int, if self.records@.contains_key(id) { Some(self.records@[id]) } else { None }) by {
                let rec = if self.records@.contains_key(id) { Some(self.records@[id]) } else { None };
                assert(old_self.resolve(id) == self.resolve(id));
                assert(block_ok(before, self.resolve(id), free as int, rec));
                lemma_block_ok_frame(before, after, self.resolve(id), free as int, new_offset as int, rec);
            }
            assert forall|a: usize, b: usize| #[trigger] self.blocks@.contains(a) && #[trigger] self.blocks@.contains(b) && a != b implies
                block_end(after, self.resolve(a)) <= self.resolve(b) || block_end(after, self.resolve(b)) <= self.resolve(a) by {
                let ra = if self.records@.contains_key(a) { Some(self.records@[a]) } else { None };
                let rb = if self.records@.contains_key(b) { Some(self.records@[b]) } else { None };
                lemma_block_ok_frame(before, after, self.resolve(a), free as int, new_offset as int, ra);
                lemma_block_ok_frame(before, after, self.resolve(b), free as int, new_offset as int, rb);
            }
            assert forall|x: usize| #[trigger] self.blocks@.contains(x) implies
                block_end(after, self.resolve(x)) <= free && x < free by {
                let rx = if self.records@.contains_key(x) { Some(self.records@[x]) } else { None };
                lemma_block_ok_frame(before, after, self.resolve(x), free as int, new_offset as int, rx);
            }
            assert(after.subrange(free + 8, free + 16) == spec_u64_to_le_bytes(0u64));
            assert(after.subrange(free + HEADER_SIZE, free + HEADER_SIZE + 0) =~= Seq::<u8>::empty());
        }
        self.free_space_offset = new_offset;
        Ok(free)
    }

    /// Allocate a block of `capacity` bytes; returns its id.
    pub fn allocate_block(&mut self, capacity: usize) -> (r: Result<usize, Error>)
        requires
            old(self).wf(),
        ensures
            final(self).wf(),
            final(self).records() == old(self).records(),
            r is Ok ==> !old(self).blocks().contains(r->Ok_0) && final(self).blocks() == old(self).blocks().insert(r->Ok_0),
            r is Err ==> final(self).blocks() == old(self).blocks() && (r->Err_0 is IO || r->Err_0 is IntConversion),
            (r is Err && r->Err_0 is IntConversion) <==> old(self).free_offset() + HEADER_SIZE + capacity > usize::MAX,
            r is Err && r->Err_0 is IO ==> old(self).free_offset() + HEADER_SIZE + capacity > old(self).bytes().len(),
            r is Err ==> final(self).bytes() == old(self).bytes() && final(self).free_offset() == old(self).free_offset(),
            r is Ok ==> {
                &&& r->Ok_0 == old(self).free_offset()
                &&& final(self).free_offset() == old(self).free_offset() + HEADER_SIZE + capacity
                &&& final(self).bytes().len() >= final(self).free_offset()
                &&& u64_at(final(self).bytes(), r->Ok_0 as int) == capacity
                &&& u64_at(final(self).bytes(), r->Ok_0 + 8) == 0
                &&& forall|k: int| 0 <= k < old(self).free_offset() ==> final(self).bytes()[k] == old(self).bytes()[k]
                &&& final(self).capacity_of(r->Ok_0) == capacity
                &&& final(self).relocations() == old(self).relocations()
            },
    {
        let ghost old_self = *self;
        let id = self.append_block(capacity)?;
        proof {
            let bytes = self.region@;
            let free = self.free_space_offset as int;
            assert(!self.relocated_blocks@.contains_key(id));
            assert(!self.records@.contains_key(id));
            assert forall|x: usize| #[trigger] self.blocks@.contains(x) implies block_end(bytes, self.resolve(x)) <= id && x < id by {
                let rec = if self.records@.contains_key(x) { Some(self.records@[x]) } else { None };
                assert(old_self.blocks@.contains(x));
            }
        }
        proof {
            assert forall|k: usize| #[trigger] self.relocated_blocks@.contains_key(k) implies self.relocated_blocks@[k] != id by {
                assert(self.blocks@.contains(k));
                assert(self.resolve(k) == self.relocated_blocks@[k] as int);
            }
        }
        self.blocks = Ghost(self.blocks@.insert(id));
        proof {
            assert(!cache_contents(self.cache).contains_key(id));
        }
        Ok(id)
    }

    /// The current length of the region in bytes.
    pub fn region_len(&self) -> (r: usize)
        ensures
            r == self.spec_region_len(),
    {
        self.region.len()
    }

    /// The number of blocks whose content moved to another block.
    pub fn relocation_count(&self) -> (r: usize)
        ensures
            r == self.relocations().len(),
    {
        self.relocated_blocks.len()
    }

    /// Whether the content of block `block_id` moved to another block.
    pub fn is_relocated(&self, block_id: usize) -> (r: bool)
        ensures
            r == self.relocations().contains_key(block_id),
    {
        self.relocated_blocks.contains_key(&block_id)
    }

    /// Store `block` as the record of block `block_id`, moving it to a new block of
    /// twice the encoded size (rounded up to whole pages) when it outgrows its block.
    #[verifier::rlimit(60)]
    pub fn put(&mut self, block_id: usize, block: &Vec<u8>) -> (r: Result<(), Error>)
        requires
            old(self).wf(),
            old(self).blocks().contains(block_id),
        ensures
            final(self).wf(),
            final(self).blocks() == old(self).blocks(),
            r is Ok ==> final(self).records() == old(self).records().insert(block_id, block@),
            r is Err ==> final(self).records() == old(self).records() && (r->Err_0 is IO || r->Err_0 is IntConversion),
            final(self).relocations_flat(),
            r is Err ==> final(self).free_offset() == old(self).free_offset() && final(self).bytes() == old(self).bytes(),
            record_encoding(block@).len() <= old(self).capacity_of(block_id) ==> {
                &&& r is Ok
                &&& final(self).relocations() == old(self).relocations()
                &&& final(self).free_offset() == old(self).free_offset()
                &&& final(self).capacity_of(block_id) == old(self).capacity_of(block_id)
            },
            record_encoding(block@).len() > old(self).capacity_of(block_id) && r is Ok ==> {
                &&& final(self).relocations() == old(self).relocations().insert(block_id, old(self).free_offset() as usize)
                &&& final(self).capacity_of(block_id) == spec_page_aligned(2 * record_encoding(block@).len() as int)
                &&& spec_page_aligned(2 * record_encoding(block@).len() as int) >= record_encoding(block@).len()
                &&& final(self).free_offset() == old(self).free_offset() + HEADER_SIZE
                    + spec_page_aligned(2 * record_encoding(block@).len() as int)
            },
            (r is Err && r->Err_0 is IntConversion) <==> (record_encoding(block@).len() > old(self).capacity_of(block_id)
                && (record_encoding(block@).len() > (usize::MAX - PAGE_SIZE) / 2
                || old(self).free_offset() + HEADER_SIZE + spec_page_aligned(2 * record_encoding(block@).len() as int) > usize::MAX)),
            r is Err && r->Err_0 is IO ==> record_encoding(block@).len() > old(self).capacity_of(block_id)
                && old(self).free_offset() + HEADER_SIZE + spec_page_aligned(2 * record_encoding(block@).len() as int) > old(self).bytes().len(),
    {
        let encoded = encode_record(block);
        let needed = encoded.len();
        let b0 = match self.relocated_blocks.get(&block_id) {
            Some(b) => *b,
            None => block_id,
        };
        let ghost old_self = *self;
        proof {
            assert(b0 == self.resolve(block_id));
            let rec = if self.records@.contains_key(block_id) { Some(self.records@[block_id]) } else { None };
            assert(block_ok(self.region@, b0 as int, self.free_space_offset as int, rec));
        }
        let capacity = self.region.read_u64(b0);
        let ghost mut after_append = *self;
        let target = if (needed as u64) <= capacity {
            b0
        } else {
            if needed > (usize::MAX - PAGE_SIZE) / 2 {
                return Err(Error::IntConversion);
            }
            let new_capacity = page_aligned_capacity(2 * needed);
            let nb = self.append_block(new_capacity)?;
            proof {
                after_append = *self;
                assert(!self.blocks@.contains(nb));
            }
            self.relocated_blocks.insert(block_id, nb);
            nb
        };
        let ghost before = self.region@;
        let ghost free = self.free_space_offset as int;
        proof {
            assert(u64_at(before, target as int) >= needed);
            assert(target + HEADER_SIZE + u64_at(before, target as int) <= free);
            assert forall|x: usize| #[trigger] self.blocks@.contains(x) && x != block_id implies
                block_ok(before, self.resolve(x), free, if self.records@.contains_key(x) { Some(self.records@[x]) } else { None })
                && (block_end(before, self.resolve(x)) <= target || target + HEADER_SIZE + u64_at(before, target as int) <= self.resolve(x)) by {
                assert(self.resolve(x) == old_self.resolve(x));
                assert(old_self.blocks@.contains(x));
                if needed <= capacity {
                    assert(old_self.blocks@.contains(block_id));
                } else {
                    assert(after_append.resolve(x) == self.resolve(x));
                    assert(after_append.blocks@.contains(x));
                }
            }
        }
        self.region.write_u64(target + 8, needed as u64);
        let ghost mid = self.region@;
        self.region.write_bytes(target + HEADER_SIZE, encoded.as_slice());
        proof {
            let after = self.region@;
            let cap = u64_at(before, target as int);
            lemma_u64_at_unchanged(before, mid, target + 8, 8, target as int);
            lemma_u64_at_unchanged(mid, after, target + HEADER_SIZE, needed as int, target as int);
            lemma_u64_at_unchanged(mid, after, target + HEADER_SIZE, needed as int, target + 8);
            assert forall|x: usize| #[trigger] self.blocks@.contains(x) && x != block_id implies
                block_ok(after, self.resolve(x), free, if self.records@.contains_key(x) { Some(self.records@[x]) } else { None })
                && block_end(after, self.resolve(x)) == block_end(before, self.resolve(x)) by {
                let rec = if self.records@.contains_key(x) { Some(self.records@[x]) } else { None };
                lemma_block_ok_frame(before, after, self.resolve(x), free, free, rec);
            }
            assert(block_end(after, target as int) == block_end(before, target as int));
        }
        self.records = Ghost(self.records@.insert(block_id, block@));
        proof {
            let after = self.region@;
            assert(self.resolve(block_id) == target);
            assert(block_ok(after, target as int, free, Some(block@)));
            assert forall|x: usize| #[trigger] self.blocks@.contains(x) && x != block_id implies self.resolve(x) != target by {
                assert(old_self.blocks@.contains(x));
                if needed > capacity {
                    assert(after_append.blocks@.contains(x));
                }
            }
        }
        let ghost before_cache = cache_contents(self.cache);
        cache_insert(&mut self.cache, target, block.clone());
        if cache_len(&self.cache) > self.block_cache_size {
            cache_pop_front(&mut self.cache);
        }
        proof {
            assert forall|x: usize| #[trigger] self.blocks@.contains(x) && cache_contents(self.cache).contains_key(self.resolve(x) as usize) implies
                self.records@.contains_key(x) && cache_contents(self.cache)[self.resolve(x) as usize] == self.records@[x] by {
                if x != block_id {
                    assert(old_self.blocks@.contains(x));
                    assert(before_cache.contains_key(self.resolve(x) as usize));
                    if needed > capacity {
                        assert(after_append.blocks@.contains(x));
                    }
                }
            }
        }
        Ok(())
    }

    /// The record last put into block `block_id`; an error for a block never written.
    pub fn get_owned(&self, block_id: usize) -> (r: Result<Vec<u8>, Error>)
        requires
            self.wf(),
            self.blocks().contains(block_id),
        ensures
            self.records().contains_key(block_id) ==> r is Ok && r->Ok_0@ == self.records()[block_id],
            !self.records().contains_key(block_id) ==> r matches Err(Error::DeserializeBlock),
    {
        let b = match self.relocated_blocks.get(&block_id) {
            Some(b) => *b,
            None => block_id,
        };
        proof {
            assert(b == self.resolve(block_id));
        }
        if let Some(v) = cache_get(&self.cache, b) {
            return Ok(v);
        }
        let used = self.region.read_u64(b + 8);
        let bytes = self.region.read_bytes(b + HEADER_SIZE, used as usize);
        proof {
            lemma_auto_spec_u64_to_from_le_bytes();
            if self.records@.contains_key(block_id) {
                let rec = self.records@[block_id];
                assert(bytes@ == record_encoding(rec));
                assert(bytes@.subrange(0, 8) =~= spec_u64_to_le_bytes(rec.len() as u64));
                assert(bytes@.subrange(8, 8 + rec.len() as int) =~= rec);
            } else {
                assert(bytes@.len() == 0);
            }
        }
        match decode_record(bytes.as_slice()) {
            Some(v) => Ok(v),
            None => Err(Error::DeserializeBlock),
        }
    }

    /// A shared snapshot of the record last put into block `block_id`; an error for a
    /// block never written.
    pub fn get(&self, block_id: usize) -> (r: Result<Arc<Vec<u8>>, Error>)
        requires
            self.wf(),
            self.blocks().contains(block_id),
        ensures
            self.records().contains_key(block_id) ==> r is Ok && (*r->Ok_0)@ == self.records()[block_id],
            !self.records().contains_key(block_id) ==> r matches Err(Error::DeserializeBlock),
    {
        let v = self.get_owned(block_id)?;
        Ok(Arc::new(v))
    }

    /// The number of bytes that storing `block` takes.
    pub fn serialized_size(&self, block: &Vec<u8>) -> (r: u64)
        ensures
            r == record_encoding(block@).len(),
    {
        let encoded = encode_record(block);
        encoded.len() as u64
    }

    /// Whether `block` fits into the block that holds the content of `block_id`,
    /// and the number of bytes it needs.
    pub fn can_update(&self, block_id: usize, block: &Vec<u8>) -> (r: Result<(bool, u64), Error>)
        requires
            self.wf(),
            self.blocks().contains(block_id),
        ensures
            r is Ok,
            r->Ok_0.1 == record_encoding(block@).len(),
            r->Ok_0.0 == (r->Ok_0.1 <= self.capacity_of(block_id)),
    {
        let b = match self.relocated_blocks.get(&block_id) {
            Some(b) => *b,
            None => block_id,
        };
        proof {
            assert(b == self.resolve(block_id));
            let rec = if self.records@.contains_key(block_id) { Some(self.records@[block_id]) } else { None };
            assert(block_ok(self.region@, b as int, self.free_space_offset as int, rec));
        }
        let capacity = self.region.read_u64(b);
        let needed = self.serialized_size(block);
        Ok((needed <= capacity, needed))
    }
}

/// Records of one fixed width, stored back to back without headers. A block id is
/// the offset of its bytes.
pub struct FixedSizeTupleFile {
    free_space_offset: usize,
    region: PagedRegion,
    width: usize,
    blocks: Ghost<Set<usize>>,
    records: Ghost<Map<usize, Seq<u8>>>,
}

impl FixedSizeTupleFile {
    /// The ids that `allocate_block` handed out.
    pub closed spec fn blocks(&self) -> Set<usize> {
        self.blocks@
    }

    /// The record last put into each block.
    pub closed spec fn records(&self) -> Map<usize, Seq<u8>> {
        self.records@
    }

    /// Only allocated blocks hold records.
    pub proof fn lemma_records_in_blocks(&self)
        requires
            self.wf(),
        ensures
            self.records().dom().subset_of(self.blocks()),
    {
    }

    /// The offset where the next block goes.
    pub closed spec fn free_offset(&self) -> nat {
        self.free_space_offset as nat
    }

    /// The number of bytes the region holds.
    pub closed spec fn spec_region_len(&self) -> nat {
        self.region@.len()
    }

    /// The width of every record.
    pub closed spec fn width(&self) -> nat {
        self.width as nat
    }

    pub closed spec fn wf(&self) -> bool {
        let bytes = self.region@;
        let free = self.free_space_offset as int;
        let w = self.width as int;
        &&& bytes.len() <= usize::MAX
        &&& free <= bytes.len()
        &&& self.records@.dom().subset_of(self.blocks@)
        &&& forall|id: usize| #[trigger] self.blocks@.contains(id) ==> id + w <= free
        &&& forall|a: usize, b: usize| #[trigger] self.blocks@.contains(a) && #[trigger] self.blocks@.contains(b) && a != b ==>
            a + w <= b || b + w <= a
        &&& forall|id: usize| #[trigger] self.records@.contains_key(id) ==> self.records@[id].len() == w
            && bytes.subrange(id as int, id + w) == self.records@[id]
    }

    /// An empty store for records of `width` bytes whose region starts with
    /// `max(capacity, 1)` bytes.
    pub fn with_capacity(capacity: usize, width: usize) -> (r: Result<FixedSizeTupleFile, Error>)
        ensures
            r is Ok ==> r->Ok_0.wf() && r->Ok_0.width() == width && r->Ok_0.blocks() == Set::<usize>::empty()
                && r->Ok_0.records() == Map::<usize, Seq<u8>>::empty(),
            r is Err ==> r->Err_0 is IO,
    {
        let region = PagedRegion::new(capacity)?;
        Ok(FixedSizeTupleFile {
            free_space_offset: 0,
            region,
            width,
            blocks: Ghost(Set::empty()),
            records: Ghost(Map::empty()),
        })
    }

    /// Allocate a block; `capacity` must be the width of the store.
    pub fn allocate_block(&mut self, capacity: usize) -> (r: Result<usize, Error>)
        requires
            old(self).wf(),
        ensures
            final(self).wf(),
            final(self).width() == old(self).width(),
            final(self).records() == old(self).records(),
            capacity != old(self).width() ==> r == Err::<usize, Error>(Error::InvalidCapacity { capacity }),
            r is Ok ==> final(self).blocks() == old(self).blocks().insert(r->Ok_0),
            r is Ok && old(self).width() > 0 ==> !old(self).blocks().contains(r->Ok_0),
            r is Err ==> final(self).blocks() == old(self).blocks() && final(self).free_offset() == old(self).free_offset()
                && final(self).spec_region_len() == old(self).spec_region_len(),
            r is Err ==> r->Err_0 is InvalidCapacity || r->Err_0 is IntConversion || r->Err_0 is IO,
            (r is Err && r->Err_0 is InvalidCapacity) <==> capacity != old(self).width(),
            (r is Err && r->Err_0 is IntConversion) <==> capacity == old(self).width()
                && old(self).free_offset() + capacity > usize::MAX,
            r is Err && r->Err_0 is IO ==> capacity == old(self).width()
                && old(self).free_offset() + capacity > old(self).spec_region_len(),
            r is Ok ==> {
                &&& r->Ok_0 == old(self).free_offset()
                &&& final(self).free_offset() == old(self).free_offset() + capacity
                &&& final(self).spec_region_len() >= final(self).free_offset()
            },
    {
        if capacity != self.width {
            return Err(Error::InvalidCapacity { capacity });
        }
        let free = self.free_space_offset;
        if capacity > usize::MAX - free {
            return Err(Error::IntConversion);
        }
        let new_offset = free + capacity;
        let ghost before = self.region@;
        self.region.grow(new_offset)?;
        proof {
            if new_offset <= before.len() {
                assert(self.region@ == before);
            }
            assert forall|k: int| 0 <= k < before.len() implies self.region@[k] == before[k] by {
                if new_offset > before.len() {
                    assert(self.region@.subrange(0, before.len() as int)[k] == self.region@[k]);
                }
            }
            assert forall|id: usize| #[trigger] self.records@.contains_key(id) implies
                self.region@.subrange(id as int, id + capacity) == self.records@[id] by {
                assert(self.region@.subrange(id as int, id + capacity) =~= before.subrange(id as int, id + capacity));
            }
        }
        self.free_space_offset = new_offset;
        self.blocks = Ghost(self.blocks@.insert(free));
        Ok(free)
    }

    /// Store `block` as the record of block `block_id`; it must be as wide as the store.
    pub fn put(&mut self, block_id: usize, block: &Vec<u8>) -> (r: Result<(), Error>)
        requires
            old(self).wf(),
            old(self).blocks().contains(block_id),
        ensures
            final(self).wf(),
            final(self).width() == old(self).width(),
            final(self).blocks() == old(self).blocks(),
            block@.len() == old(self).width() ==> r is Ok && final(self).records() == old(self).records().insert(block_id, block@),
            block@.len() != old(self).width() ==> r == Err::<(), Error>(Error::InvalidCapacity { capacity: block@.len() as usize })
                && final(self).records() == old(self).records(),
    {
        if block.len() != self.width {
            return Err(Error::InvalidCapacity { capacity: block.len() });
        }
        let ghost before = self.region@;
        self.region.write_bytes(block_id, block.as_slice());
        proof {
            let after = self.region@;
            let w = self.width as int;
            assert forall|id: usize| #[trigger] self.records@.contains_key(id) && id != block_id implies
                after.subrange(id as int, id + w) == self.records@[id] by {
                assert(self.blocks@.contains(id));
                assert(after.subrange(id as int, id + w) =~= before.subrange(id as int, id + w));
            }
        }
        self.records = Ghost(self.records@.insert(block_id, block@));
        Ok(())
    }

    /// The bytes of block `block_id`: the record last put into it, if any.
    pub fn get_owned(&self, block_id: usize) -> (r: Result<Vec<u8>, Error>)
        requires
            self.wf(),
            self.blocks().contains(block_id),
        ensures
            r is Ok,
            r->Ok_0@.len() == self.width(),
            self.records().contains_key(block_id) ==> r->Ok_0@ == self.records()[block_id],
    {
        Ok(self.region.read_bytes(block_id, self.width))
    }

    /// A shared snapshot of the bytes of block `block_id`.
    pub fn get(&self, block_id: usize) -> (r: Result<Arc<Vec<u8>>, Error>)
        requires
            self.wf(),
            self.blocks().contains(block_id),
        ensures
            r is Ok,
            (*r->Ok_0)@.len() == self.width(),
            self.records().contains_key(block_id) ==> (*r->Ok_0)@ == self.records()[block_id],
    {
        let v = self.get_owned(block_id)?;
        Ok(Arc::new(v))
    }

    /// The number of bytes that storing a record takes: the width of the store.
    pub fn serialized_size(&self, block: &Vec<u8>) -> (r: u64)
        ensures
            r == self.width(),
    {
        self.width as u64
    }
}

/// A block returns the record last put into it, also after the record moved to a
/// larger block: after `put(id, v)` succeeds, `get_owned(id)` finds `v`.
pub proof fn lemma_put_then_get(before: VariableSizeTupleFile, after: VariableSizeTupleFile, id: usize, v: Seq<u8>)
    requires
        before.wf(),
        before.blocks().contains(id),
        after.blocks() == before.blocks(),
        after.records() == before.records().insert(id, v),
    ensures
        after.blocks().contains(id),
        after.records().contains_key(id),
        after.records()[id] == v,
        forall|other: usize| other != id && before.records().contains_key(other) ==> after.records().contains_key(other)
            && after.records()[other] == before.records()[other],
{
}

/// The same holds for records of fixed width.
pub proof fn lemma_fixed_put_then_get(before: FixedSizeTupleFile, after: FixedSizeTupleFile, id: usize, v: Seq<u8>)
    requires
        before.wf(),
        before.blocks().contains(id),
        after.blocks() == before.blocks(),
        after.records() == before.records().insert(id, v),
    ensures
        after.blocks().contains(id),
        after.records().contains_key(id),
        after.records()[id] == v,
        forall|other: usize| other != id && before.records().contains_key(other) ==> after.records().contains_key(other)
            && after.records()[other] == before.records()[other],
{
}

} // verus!
