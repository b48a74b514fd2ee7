//! The backing volume: a memory-mapped file, seen by the rest of the crate
//! as a byte sequence with in-place reads and writes.

use vstd::prelude::*;

use memmap::MmapMut;

verus! {

#[verifier::external_type_specification]
#[verifier::external_body]
pub struct ExMmapMut(MmapMut);

/// The bytes of the memory-mapped region.
pub uninterp spec fn mmap_bytes(m: MmapMut) -> Seq<u8>;

/// Relies on `memmap::MmapMut::len` through its `Deref` to `[u8]`: the length
/// of the mapped region.
#[verifier::external_body]
pub fn mmap_len(m: &MmapMut) -> (r: usize)
    ensures
        r == mmap_bytes(*m).len(),
{
    m.len()
}

/// Relies on `memmap::MmapMut`'s `Deref` to `[u8]`: a copy of `len` bytes at
/// `offset`.
#[verifier::external_body]
pub fn mmap_read(m: &MmapMut, offset: usize, len: usize) -> (r: Vec<u8>)
    requires
        offset + len <= mmap_bytes(*m).len(),
    ensures
        r@ == mmap_bytes(*m).subrange(offset as int, offset as int + len as int),
{
    m[offset..offset + len].to_vec()
}

/// Relies on `memmap::MmapMut`'s `DerefMut` to `[u8]`: write `data` at
/// `offset` in place, leaving every other byte unchanged.
#[verifier::external_body]
pub fn mmap_write(m: &mut MmapMut, offset: usize, data: &[u8])
    requires
        offset + data@.len() <= mmap_bytes(*old(m)).len(),
    ensures
        mmap_bytes(*final(m)) == mmap_bytes(*old(m)).take(offset as int) + data@ + mmap_bytes(
            *old(m),
        ).skip(offset as int + data@.len() as int),
{
    m[offset..offset + data.len()].copy_from_slice(data);
}

/// What one in-place write does to the byte sequence: the written range holds
/// the data, the length stands, and every byte outside the range is as it
/// was.
pub proof fn lemma_splice_facts(d1: Seq<u8>, d2: Seq<u8>, off: int, data: Seq<u8>)
    requires
        0 <= off,
        off + data.len() <= d1.len(),
        d2 == d1.take(off) + data + d1.skip(off + data.len()),
    ensures
        d2.len() == d1.len(),
        d2.subrange(off, off + data.len() as int) =~= data,
        forall|p: int| 0 <= p < d1.len() && !(off <= p < off + data.len()) ==> d2[p] == d1[p],
{
    assert(d2.len() == d1.len());
    assert forall|p: int| 0 <= p < d1.len() && !(off <= p < off + data.len()) implies d2[p]
        == d1[p] by {
        if p < off {
            assert(d2[p] == d1.take(off)[p]);
        } else {
            assert(d2[p] == d1.skip(off + data.len())[p - off - data.len()]);
        }
    }
}

} // verus!
