use memmap2::MmapMut;
use vstd::bytes::{
    lemma_auto_spec_u64_to_from_le_bytes, spec_u64_from_le_bytes, spec_u64_to_le_bytes,
    u64_from_le_bytes, u64_to_le_bytes,
};
use vstd::prelude::*;

use crate::error::Error;

verus! {

#[verifier::external_type_specification]
#[verifier::external_body]
pub struct ExIoError(std::io::Error);

#[verifier::external_type_specification]
#[verifier::external_body]
pub struct ExMmapMut(MmapMut);

/// The bytes that a memory mapping holds.
pub uninterp spec fn mapped_bytes(m: MmapMut) -> Seq<u8>;

/// Relies on `memmap2::MmapMut::map_anon`: a mapping it returns is exactly `len` bytes long.
#[verifier::external_body]
fn map_anon(len: usize) -> (r: Result<MmapMut, std::io::Error>)
    ensures
        r is Ok ==> mapped_bytes(r->Ok_0).len() == len,
{
    MmapMut::map_anon(len)
}

/// Relies on `memmap2::MmapMut::len`: the length of the mapped byte slice.
#[verifier::external_body]
fn mapped_len(m: &MmapMut) -> (r: usize)
    ensures
        r == mapped_bytes(*m).len(),
{
    m.len()
}

/// Relies on `<[u8]>::to_vec` on the slice a mapping dereferences to: a copy of `len` bytes.
#[verifier::external_body]
fn mapped_read(m: &MmapMut, offset: usize, len: usize) -> (r: Vec<u8>)
    requires
        offset + len <= mapped_bytes(*m).len(),
    ensures
        r@ == mapped_bytes(*m).subrange(offset as int, offset + len),
{
    m[offset..offset + len].to_vec()
}

/// Relies on `<[u8]>::copy_from_slice` on the slice a mapping dereferences to:
/// the bytes at `offset` become `src`, all others stay.
#[verifier::external_body]
fn mapped_write(m: &mut MmapMut, offset: usize, src: &[u8])
    requires
        offset + src@.len() <= mapped_bytes(*old(m)).len(),
    ensures
        mapped_bytes(*final(m)) == mapped_bytes(*old(m)).subrange(0, offset as int) + src@
            + mapped_bytes(*old(m)).subrange(offset + src@.len(), mapped_bytes(*old(m)).len() as int),
{
    m[offset..offset + src.len()].copy_from_slice(src)
}

/// The little-endian `u64` stored at byte offset `o`.
pub open spec fn u64_at(bytes: Seq<u8>, o: int) -> u64 {
    spec_u64_from_le_bytes(bytes.subrange(o, o + 8))
}

/// `after` differs from `before` at most in the `n` bytes from `o`.
pub open spec fn only_changed(before: Seq<u8>, after: Seq<u8>, o: int, n: int) -> bool {
    &&& after.len() == before.len()
    &&& forall|j: int| 0 <= j < before.len() && (j < o || o + n <= j) ==> after[j] == before[j]
}

/// Reading eight bytes that a write did not touch gives the same integer.
pub proof fn lemma_u64_at_unchanged(before: Seq<u8>, after: Seq<u8>, o: int, n: int, p: int)
    requires
        only_changed(before, after, o, n),
        0 <= p,
        p + 8 <= before.len(),
        p + 8 <= o || o + n <= p,
    ensures
        u64_at(after, p) == u64_at(before, p),
{
    assert(after.subrange(p, p + 8) =~= before.subrange(p, p + 8));
}

/// A grow-only byte region in an anonymous memory mapping.
pub struct PagedRegion {
    mmap: MmapMut,
}

impl View for PagedRegion {
    type V = Seq<u8>;

    closed spec fn view(&self) -> Seq<u8> {
        mapped_bytes(self.mmap)
    }
}

impl PagedRegion {
    /// A region of exactly `max(initial_bytes, 1)` bytes.
    pub fn new(initial_bytes: usize) -> (r: Result<PagedRegion, Error>)
        ensures
            r is Ok ==> r->Ok_0@.len() == if initial_bytes == 0 { 1 } else { initial_bytes },
            r is Err ==> r->Err_0 is IO,
    {
        let len = if initial_bytes == 0 { 1 } else { initial_bytes };
        match map_anon(len) {
            Ok(mmap) => Ok(PagedRegion { mmap }),
            Err(e) => Err(Error::IO(e)),
        }
    }

    /// The current length in bytes.
    pub fn len(&self) -> (r: usize)
        ensures
            r == self@.len(),
    {
        mapped_len(&self.mmap)
    }

    /// Make the region at least `min_bytes` long. When it must grow, it grows to
    /// `max(min_bytes, 2 * len)` (to `min_bytes` where twice the length overflows)
    /// and its first `len` bytes stay as they were.
    pub fn grow(&mut self, min_bytes: usize) -> (r: Result<(), Error>)
        ensures
            min_bytes <= old(self)@.len() ==> r is Ok && final(self)@ == old(self)@,
            r is Ok && min_bytes > old(self)@.len() ==> {
                &&& final(self)@.len() == grown_len(old(self)@.len(), min_bytes as nat)
                &&& final(self)@.subrange(0, old(self)@.len() as int) == old(self)@
            },
            r is Err ==> r->Err_0 is IO && final(self)@ == old(self)@,
    {
        let len = self.len();
        if min_bytes <= len {
            return Ok(());
        }
        let new_len = if len > usize::MAX / 2 || min_bytes >= 2 * len {
            min_bytes
        } else {
            2 * len
        };
        match map_anon(new_len) {
            Ok(mut new_mmap) => {
                let content = mapped_read(&self.mmap, 0, len);
                mapped_write(&mut new_mmap, 0, content.as_slice());
                proof {
                    assert(mapped_bytes(new_mmap).subrange(0, len as int) =~= self@);
                }
                self.mmap = new_mmap;
                Ok(())
            },
            Err(e) => Err(Error::IO(e)),
        }
    }

    /// The byte at `offset`.
    pub fn read_u8(&self, offset: usize) -> (r: u8)
        requires
            offset < self@.len(),
        ensures
            r == self@[offset as int],
    {
        let v = mapped_read(&self.mmap, offset, 1);
        v[0]
    }

    /// Set the byte at `offset`.
    pub fn write_u8(&mut self, offset: usize, value: u8)
        requires
            offset < old(self)@.len(),
        ensures
            final(self)@ == old(self)@.update(offset as int, value),
    {
        let src: [u8; 1] = [value];
        mapped_write(&mut self.mmap, offset, &src);
        proof {
            assert(final(self)@ =~= old(self)@.update(offset as int, value));
        }
    }

    /// The little-endian `u64` at `offset`.
    pub fn read_u64(&self, offset: usize) -> (r: u64)
        requires
            offset + 8 <= self@.len(),
        ensures
            r == u64_at(self@, offset as int),
    {
        let v = mapped_read(&self.mmap, offset, 8);
        u64_from_le_bytes(v.as_slice())
    }

    /// Write `value` little-endian at `offset`; no other byte changes.
    pub fn write_u64(&mut self, offset: usize, value: u64)
        requires
            offset + 8 <= old(self)@.len(),
        ensures
            u64_at(final(self)@, offset as int) == value,
            only_changed(old(self)@, final(self)@, offset as int, 8),
    {
        let src = u64_to_le_bytes(value);
        mapped_write(&mut self.mmap, offset, src.as_slice());
        proof {
            lemma_auto_spec_u64_to_from_le_bytes();
            assert(final(self)@.subrange(offset as int, offset + 8) =~= spec_u64_to_le_bytes(value));
        }
    }

    /// A copy of the `len` bytes at `offset`.
    pub fn read_bytes(&self, offset: usize, len: usize) -> (r: Vec<u8>)
        requires
            offset + len <= self@.len(),
        ensures
            r@ == self@.subrange(offset as int, offset + len),
    {
        mapped_read(&self.mmap, offset, len)
    }

    /// Write `src` at `offset`; no other byte changes.
    pub fn write_bytes(&mut self, offset: usize, src: &[u8])
        requires
            offset + src@.len() <= old(self)@.len(),
        ensures
            final(self)@.subrange(offset as int, offset + src@.len()) == src@,
            only_changed(old(self)@, final(self)@, offset as int, src@.len() as int),
    {
        mapped_write(&mut self.mmap, offset, src);
        proof {
            assert(final(self)@.subrange(offset as int, offset + src@.len()) =~= src@);
        }
    }
}

/// The length a region of `len` bytes grows to when `min` bytes are asked for.
pub open spec fn grown_len(len: nat, min: nat) -> nat {
    if 2 * len > usize::MAX || min >= 2 * len {
        min
    } else {
        2 * len
    }
}

/// Growth keeps every prefix: when each of two steps keeps the previous content as
/// its prefix, the content before the first step is a prefix after the second.
pub proof fn lemma_grow_keeps_prefix(a: Seq<u8>, b: Seq<u8>, c: Seq<u8>)
    requires
        a.len() <= b.len() <= c.len(),
        b.subrange(0, a.len() as int) == a,
        c.subrange(0, b.len() as int) == b,
    ensures
        c.subrange(0, a.len() as int) == a,
{
    assert(c.subrange(0, a.len() as int) =~= b.subrange(0, a.len() as int));
}

/// A region never shrinks: growing leaves it at least as long as before.
pub proof fn lemma_grown_len_at_least(len: nat, min: nat)
    requires
        min > len,
    ensures
        grown_len(len, min) >= min,
        grown_len(len, min) > len,
{
}

} // verus!
