//! The aspect-scoped filesystem over a memory-mapped volume: block
//! allocation, the root directory, lookup, directory listing, file creation,
//! chained reads and writes, and persisting the mounted aspect.

use vstd::prelude::*;

use std::collections::HashMap;

use memmap::MmapMut;

use vstd::bytes::{spec_u64_to_le_bytes, lemma_auto_spec_u64_to_from_le_bytes};

use crate::codec::lemma_concat_part;
use crate::config::Config;
use crate::encryption::{aes_enc, enc_len, iv_of, Key};
use crate::error::PinoqError;
use crate::filefmt::{
    block_iv, dir_contains, dir_has_name, sealed_as, DirEntry, spec_ea_size, spec_is_dir, Aspect, Block,
    Dir, EncryptedAspect, EncryptedBlock, FileAttr, FileKind, INode, PinoqSerialize, SuperBlock,
    BLOCK_SIZE, MAGIC, NO_BLOCK, SUPER_BLOCK_SIZE, S_IFDIR, S_IFREG,
};
use crate::volume::{lemma_splice_facts, mmap_bytes, mmap_len, mmap_read, mmap_write};
use crate::{
    get_aspect_offset, get_block_offset, lemma_ea_size_bounds, spec_aspect_offset,
    spec_block_offset, spec_volume_len,
};

verus! {

/// The per-handle cursor of an open file: the block the next read will
/// return, or the block the last write ended at; `None` before the first
/// operation.
#[derive(Debug)]
pub struct FileDescriptor {
    pub next_block: Option<u32>,
}

/// The open-file table: bridge file handle to cursor.
#[derive(Debug)]
pub struct FDManager {
    file_decs: HashMap<u64, FileDescriptor>,
}

impl FDManager {
    /// The table as a map from handle to cursor.
    pub closed spec fn view(&self) -> Map<u64, Option<u32>> {
        self.file_decs@.map_values(|fd: FileDescriptor| fd.next_block)
    }

    pub fn new() -> (r: FDManager)
        ensures
            r@ == Map::<u64, Option<u32>>::empty(),
    {
        let r = FDManager { file_decs: HashMap::new() };
        proof {
            assert(r@ =~= Map::<u64, Option<u32>>::empty());
        }
        r
    }

    pub fn get(&self, fd: u64) -> (r: Option<&FileDescriptor>)
        ensures
            match r {
                Some(d) => self@.contains_key(fd) && self@[fd] == d.next_block,
                None => !self@.contains_key(fd),
            },
    {
        self.file_decs.get(&fd)
    }

    pub fn insert(&mut self, fd: u64, val: FileDescriptor)
        ensures
            final(self)@ == old(self)@.insert(fd, val.next_block),
    {
        let ghost nb = val.next_block;
        self.file_decs.insert(fd, val);
        proof {
            assert(self@ =~= old(self)@.insert(fd, nb));
        }
    }
}

// ---------------------------------------------------------------------------
// What the disk holds
// ---------------------------------------------------------------------------

/// Block slot `n` of the disk holds, under `key`, the encryption of the
/// record plaintext `plain`, framed by its ciphertext length. The frame fits
/// the slot; bytes of the slot past the frame are immaterial.
pub open spec fn stored_bytes(
    disk: Seq<u8>,
    aspects: int,
    blocks: int,
    key: Seq<u8>,
    n: u32,
    plain: Seq<u8>,
) -> bool {
    let off = spec_block_offset(aspects, blocks, n as int);
    let c = aes_enc(plain, key, block_iv(n));
    let framed = spec_u64_to_le_bytes(c.len() as u64) + c;
    &&& framed.len() <= BLOCK_SIZE
    &&& 0 <= off
    &&& off + BLOCK_SIZE <= disk.len()
    &&& disk.subrange(off, off + framed.len() as int) == framed
}

/// Block slot `n` of the disk holds record `t` encrypted under `key`.
pub open spec fn stored_as<T: PinoqSerialize>(
    disk: Seq<u8>,
    aspects: int,
    blocks: int,
    key: Seq<u8>,
    n: u32,
    t: T,
) -> bool {
    stored_bytes(disk, aspects, blocks, key, n, t.enc())
}

/// The bytes of aspect slot `n`.
pub open spec fn aspect_slot_bytes(disk: Seq<u8>, blocks: int, n: int) -> Seq<u8> {
    disk.subrange(
        spec_aspect_offset(blocks, n),
        spec_aspect_offset(blocks, n) + spec_ea_size(blocks),
    )
}

/// The slot bytes are an aspect envelope sealing aspect `a` under `password`:
/// a 32-byte wrap key in the clear, then the framed ciphertext of `a`'s
/// plaintext under that wrap key with the password-derived IV.
pub open spec fn slot_seals(slot: Seq<u8>, a: Aspect, password: Seq<u8>) -> bool {
    let wk = slot.subrange(0, 32);
    let c = aes_enc(a.plain(), wk, iv_of(password));
    slot == wk + spec_u64_to_le_bytes(c.len() as u64) + c
}


/// A bit vector of `n` clear bits.
fn vec_false(n: u32) -> (r: Vec<bool>)
    ensures
        r@.len() == n,
        forall|j: int| 0 <= j < n ==> r@[j] == false,
{
    let mut r: Vec<bool> = Vec::new();
    let mut i: usize = 0;
    while i < n as usize
        invariant
            i <= n as usize,
            r@.len() == i,
            forall|j: int| 0 <= j < i ==> r@[j] == false,
        decreases n as usize - i,
    {
        r.push(false);
        i = i + 1;
    }
    r
}

/// The bitwise OR of two equal-length bit vectors.
fn or_bits(a: &Vec<bool>, b: &Vec<bool>) -> (r: Vec<bool>)
    requires
        a@.len() == b@.len(),
    ensures
        r@.len() == a@.len(),
        forall|j: int| 0 <= j < a@.len() ==> r@[j] == (a@[j] || b@[j]),
{
    let n = a.len();
    let mut r: Vec<bool> = Vec::new();
    let mut i: usize = 0;
    while i < n
        invariant
            i <= n,
            n == a@.len(),
            a@.len() == b@.len(),
            r@.len() == i,
            forall|j: int| 0 <= j < i ==> r@[j] == (a@[j] || b@[j]),
        decreases n - i,
    {
        r.push(a[i] || b[i]);
        i = i + 1;
    }
    r
}

/// The bytes of block slot `n`.
pub open spec fn block_slot_bytes(disk: Seq<u8>, aspects: int, blocks: int, n: int) -> Seq<u8> {
    disk.subrange(
        spec_block_offset(aspects, blocks, n),
        spec_block_offset(aspects, blocks, n) + BLOCK_SIZE,
    )
}

/// The inode of a fresh root directory whose entries live in block `db`.
pub open spec fn root_inode_of(sb: SuperBlock, db: u32) -> INode {
    INode {
        mode: S_IFDIR,
        size: 0,
        block_size: BLOCK_SIZE as u32,
        uid: sb.uid,
        gid: sb.gid,
        data_block: db,
    }
}

/// The inode of a fresh empty regular file with no data block yet.
pub open spec fn file_inode_of(sb: SuperBlock) -> INode {
    INode {
        mode: S_IFREG,
        size: 0,
        block_size: BLOCK_SIZE as u32,
        uid: sb.uid,
        gid: sb.gid,
        data_block: NO_BLOCK,
    }
}

/// The encoding of an empty directory: a zero entry count.
pub open spec fn empty_dir_enc() -> Seq<u8> {
    spec_u64_to_le_bytes(0)
}

/// Writes confined to the data region and aspect slot `cur` leave the
/// superblock and every other aspect's slot exactly as they were.
pub proof fn lemma_confined_writes(d1: Seq<u8>, d2: Seq<u8>, aspects: int, blocks: int, cur: int)
    requires
        0 <= cur < aspects,
        aspects <= u32::MAX,
        0 <= blocks <= u32::MAX,
        d1.len() == d2.len(),
        spec_volume_len(aspects, blocks) <= d1.len(),
        forall|p: int|
            0 <= p < d1.len() && !(spec_aspect_offset(blocks, cur) <= p < spec_aspect_offset(
                blocks,
                cur,
            ) + spec_ea_size(blocks)) && p < spec_block_offset(aspects, blocks, 0) ==> d2[p]
                == d1[p],
    ensures
        d2.subrange(0, SUPER_BLOCK_SIZE as int) == d1.subrange(0, SUPER_BLOCK_SIZE as int),
        forall|j: int|
            0 <= j < aspects && j != cur ==> aspect_slot_bytes(d2, blocks, j) == aspect_slot_bytes(
                d1,
                blocks,
                j,
            ),
{
    lemma_ea_size_bounds(blocks);
    let s = spec_ea_size(blocks);
    assert(0 <= cur * s) by (nonlinear_arith)
        requires
            0 <= cur,
            0 < s,
    ;
    assert(0 <= aspects * s && cur * s + s <= aspects * s) by (nonlinear_arith)
        requires
            0 <= cur < aspects,
            0 < s,
    ;
    assert(0 <= blocks * BLOCK_SIZE) by (nonlinear_arith)
        requires
            0 <= blocks,
            0 < BLOCK_SIZE,
    ;
    assert(d2.subrange(0, SUPER_BLOCK_SIZE as int) =~= d1.subrange(0, SUPER_BLOCK_SIZE as int));
    assert forall|j: int| 0 <= j < aspects && j != cur implies aspect_slot_bytes(d2, blocks, j)
        == aspect_slot_bytes(d1, blocks, j) by {
        let oj = spec_aspect_offset(blocks, j);
        let ocur = spec_aspect_offset(blocks, cur);
        if j < cur {
            assert(oj + s <= ocur) by (nonlinear_arith)
                requires
                    j < cur,
                    0 < s,
                    oj == SUPER_BLOCK_SIZE + j * s,
                    ocur == SUPER_BLOCK_SIZE + cur * s,
            ;
        } else {
            assert(ocur + s <= oj) by (nonlinear_arith)
                requires
                    cur < j,
                    0 < s,
                    oj == SUPER_BLOCK_SIZE + j * s,
                    ocur == SUPER_BLOCK_SIZE + cur * s,
            ;
        }
        assert(0 <= j * s && oj + s <= spec_block_offset(aspects, blocks, 0)) by (nonlinear_arith)
            requires
                0 <= j < aspects,
                0 < s,
                oj == SUPER_BLOCK_SIZE + j * s,
                spec_block_offset(aspects, blocks, 0) == SUPER_BLOCK_SIZE + aspects * s,
        ;
        assert(aspect_slot_bytes(d2, blocks, j) =~= aspect_slot_bytes(d1, blocks, j));
    }
}

/// Some well-formed aspect with a `blocks`-bit map is sealed in aspect slot
/// `i` under `pass`.
pub open spec fn some_aspect_sealed(disk: Seq<u8>, blocks: int, i: int, pass: Seq<u8>) -> bool {
    exists|a: Aspect|
        a.wf() && a.block_map@.len() == blocks && #[trigger] slot_seals(
            aspect_slot_bytes(disk, blocks, i),
            a,
            pass,
        )
}


/// Aspect slot `j` lies after the superblock and before the data region.
pub proof fn lemma_aspect_slot_range(aspects: int, blocks: int, j: int)
    requires
        0 <= j < aspects,
        aspects <= u32::MAX,
        0 <= blocks <= u32::MAX,
    ensures
        SUPER_BLOCK_SIZE <= spec_aspect_offset(blocks, j),
        spec_aspect_offset(blocks, j) + spec_ea_size(blocks) <= spec_block_offset(
            aspects,
            blocks,
            0,
        ),
{
    lemma_ea_size_bounds(blocks);
    let s = spec_ea_size(blocks);
    assert(0 <= j * s && j * s + s <= aspects * s) by (nonlinear_arith)
        requires
            0 <= j < aspects,
            0 < s,
    ;
}

/// Block slot `n` lies inside the data region, before the volume's end.
pub proof fn lemma_block_slot_range(aspects: int, blocks: int, n: int)
    requires
        0 <= n < blocks,
        0 <= aspects <= u32::MAX,
        blocks <= u32::MAX,
    ensures
        spec_block_offset(aspects, blocks, 0) <= spec_block_offset(aspects, blocks, n),
        spec_block_offset(aspects, blocks, n) + BLOCK_SIZE <= spec_volume_len(aspects, blocks),
{
    lemma_ea_size_bounds(blocks);
    assert(0 <= n * BLOCK_SIZE && n * BLOCK_SIZE + BLOCK_SIZE <= blocks * BLOCK_SIZE)
        by (nonlinear_arith)
        requires
            0 <= n < blocks,
            0 < BLOCK_SIZE,
    ;
}

/// Distinct block slots never overlap.
pub proof fn lemma_block_slots_disjoint(aspects: int, blocks: int, m: int, n: int)
    requires
        0 <= m,
        0 <= n,
        m != n,
    ensures
        spec_block_offset(aspects, blocks, m) + BLOCK_SIZE <= spec_block_offset(
            aspects,
            blocks,
            n,
        ) || spec_block_offset(aspects, blocks, n) + BLOCK_SIZE <= spec_block_offset(
            aspects,
            blocks,
            m,
        ),
{
    if m < n {
        assert(m * BLOCK_SIZE + BLOCK_SIZE <= n * BLOCK_SIZE) by (nonlinear_arith)
            requires
                m < n,
                0 < BLOCK_SIZE,
        ;
    } else {
        assert(n * BLOCK_SIZE + BLOCK_SIZE <= m * BLOCK_SIZE) by (nonlinear_arith)
            requires
                n < m,
                0 < BLOCK_SIZE,
        ;
    }
}

/// A stored record survives a write that stays clear of its block slot.
pub proof fn lemma_stored_bytes_preserved(
    d1: Seq<u8>,
    d2: Seq<u8>,
    aspects: int,
    blocks: int,
    key: Seq<u8>,
    n: u32,
    plain: Seq<u8>,
    lo: int,
    hi: int,
)
    requires
        stored_bytes(d1, aspects, blocks, key, n, plain),
        d2.len() == d1.len(),
        forall|p: int| 0 <= p < d1.len() && !(lo <= p < hi) ==> d2[p] == d1[p],
        hi <= spec_block_offset(aspects, blocks, n as int) || spec_block_offset(
            aspects,
            blocks,
            n as int,
        ) + BLOCK_SIZE <= lo,
    ensures
        stored_bytes(d2, aspects, blocks, key, n, plain),
{
    let off = spec_block_offset(aspects, blocks, n as int);
    let c = aes_enc(plain, key, block_iv(n));
    let framed = spec_u64_to_le_bytes(c.len() as u64) + c;
    assert(d2.subrange(off, off + framed.len() as int) =~= d1.subrange(
        off,
        off + framed.len() as int,
    ));
}



/// A stored record stands wherever its whole slot's bytes are unchanged.
pub proof fn lemma_stored_bytes_slot_eq(
    d1: Seq<u8>,
    d2: Seq<u8>,
    aspects: int,
    blocks: int,
    key: Seq<u8>,
    n: u32,
    plain: Seq<u8>,
)
    requires
        stored_bytes(d1, aspects, blocks, key, n, plain),
        d2.len() == d1.len(),
        block_slot_bytes(d2, aspects, blocks, n as int) == block_slot_bytes(
            d1,
            aspects,
            blocks,
            n as int,
        ),
    ensures
        stored_bytes(d2, aspects, blocks, key, n, plain),
{
    let off = spec_block_offset(aspects, blocks, n as int);
    let c = aes_enc(plain, key, block_iv(n));
    let framed = spec_u64_to_le_bytes(c.len() as u64) + c;
    assert forall|t: int| 0 <= t < framed.len() implies d2[off + t] == #[trigger] d1[off + t] by {
        assert(block_slot_bytes(d2, aspects, blocks, n as int)[t] == d2[off + t]);
        assert(block_slot_bytes(d1, aspects, blocks, n as int)[t] == d1[off + t]);
    }
    assert(d2.subrange(off, off + framed.len() as int) =~= d1.subrange(
        off,
        off + framed.len() as int,
    ));
}

/// Distinct aspect slots never overlap.
pub proof fn lemma_aspect_slots_disjoint(blocks: int, m: int, n: int)
    requires
        0 <= m,
        0 <= n,
        m != n,
        0 <= blocks <= u32::MAX,
    ensures
        spec_aspect_offset(blocks, m) + spec_ea_size(blocks) <= spec_aspect_offset(
            blocks,
            n,
        ) || spec_aspect_offset(blocks, n) + spec_ea_size(blocks) <= spec_aspect_offset(blocks, m),
{
    lemma_ea_size_bounds(blocks);
    let s = spec_ea_size(blocks);
    if m < n {
        assert(m * s + s <= n * s) by (nonlinear_arith)
            requires
                m < n,
                0 < s,
        ;
    } else {
        assert(n * s + s <= m * s) by (nonlinear_arith)
            requires
                n < m,
                0 < s,
        ;
    }
}

/// Aspect slot `i` seals a fresh aspect under `pass`: no root directory yet
/// and no block owned.
pub open spec fn fresh_aspect_sealed(disk: Seq<u8>, blocks: int, i: int, pass: Seq<u8>) -> bool {
    exists|a: Aspect|
        a.wf() && a.root_block == NO_BLOCK && a.block_map@.len() == blocks && (forall|j: int|
            0 <= j < blocks ==> !(#[trigger] a.block_map@[j])) && #[trigger] slot_seals(
            aspect_slot_bytes(disk, blocks, i),
            a,
            pass,
        )
}

/// Create a volume in a zeroed mapping: write the superblock, then seal a
/// fresh aspect (random data key, no root, empty block map) into every
/// aspect slot under `password`. Fails exactly when the mapping is shorter
/// than the volume layout demands.
pub fn mkfs(
    m: &mut MmapMut,
    aspects: u32,
    blocks: u32,
    uid: u32,
    gid: u32,
    password: &[u8],
) -> (r: Result<(), PinoqError>)
    ensures
        mmap_bytes(*final(m)).len() == mmap_bytes(*old(m)).len(),
        (r is Ok) <==> (spec_volume_len(aspects as int, blocks as int) <= mmap_bytes(
            *old(m),
        ).len() && mmap_bytes(*old(m)).len() <= usize::MAX),
        r matches Err(e) ==> e == PinoqError::IO && mmap_bytes(*final(m)) == mmap_bytes(*old(m)),
        r is Ok ==> mmap_bytes(*final(m)).subrange(0, SUPER_BLOCK_SIZE as int) == (SuperBlock {
            magic: MAGIC,
            aspects,
            blocks,
            uid,
            gid,
        }).enc(),
        r is Ok ==> forall|i: int|
            0 <= i < aspects ==> #[trigger] fresh_aspect_sealed(
                mmap_bytes(*final(m)),
                blocks as int,
                i,
                password@,
            ),
{
    proof {
        lemma_ea_size_bounds(blocks as int);
    }
    let len = mmap_len(m);
    let ea = EncryptedAspect::size_of(blocks) as u64;
    proof {
        vstd::arithmetic::mul::lemma_mul_inequality(
            aspects as int,
            0x1_0000_0000,
            spec_ea_size(blocks as int),
        );
        assert(0 <= (aspects as int) * spec_ea_size(blocks as int)) by (nonlinear_arith)
            requires
                0 <= aspects as int,
                0 < spec_ea_size(blocks as int),
        ;
        assert(0 <= (blocks as int) * BLOCK_SIZE) by (nonlinear_arith)
            requires
                0 <= blocks as int,
                0 < BLOCK_SIZE,
        ;
    }
    let vol: u64 = (SUPER_BLOCK_SIZE as u64) + (aspects as u64) * ea + (blocks as u64) * (
    BLOCK_SIZE as u64);
    if (len as u64) < vol {
        return Err(PinoqError::IO);
    }
    let sblock = SuperBlock::new(aspects, blocks, uid, gid);
    let mut head: Vec<u8> = Vec::new();
    sblock.serialize_into(&mut head);
    proof {
        vstd::bytes::lemma_auto_spec_u32_to_from_le_bytes();
        assert(head@.len() == SUPER_BLOCK_SIZE);
    }
    let ghost d0 = mmap_bytes(*m);
    mmap_write(m, 0, head.as_slice());
    proof {
        lemma_splice_facts(d0, mmap_bytes(*m), 0, head@);
    }
    let mut i: u32 = 0;
    while i < aspects
        invariant
            i <= aspects,
            blocks == sblock.blocks,
            aspects == sblock.aspects,
            sblock == (SuperBlock { magic: MAGIC, aspects, blocks, uid, gid }),

            mmap_bytes(*m).len() == mmap_bytes(*old(m)).len(),
            spec_volume_len(aspects as int, blocks as int) <= mmap_bytes(*m).len(),
            mmap_bytes(*m).len() <= usize::MAX,
            mmap_bytes(*m).subrange(0, SUPER_BLOCK_SIZE as int) == sblock.enc(),
            forall|ii: int|
                0 <= ii < i ==> #[trigger] fresh_aspect_sealed(
                    mmap_bytes(*m),
                    blocks as int,
                    ii,
                    password@,
                ),
        decreases aspects - i,
    {
        proof {
            lemma_ea_size_bounds(blocks as int);
            lemma_aspect_slot_range(aspects as int, blocks as int, i as int);
            assert(0 <= (blocks as int) * BLOCK_SIZE) by (nonlinear_arith)
                requires
                    0 <= blocks as int,
                    0 < BLOCK_SIZE,
            ;
        }
        let aspect = Aspect::new(blocks);
        let off = get_aspect_offset(blocks, i);
        proof {
            assert(crate::codec::pack_bits(aspect.block_map@).len() == (blocks as int + 7) / 8);
        }
        let ea_rec = aspect.to_encrypted_aspect(password);
        let mut buf: Vec<u8> = Vec::new();
        ea_rec.serialize_into(&mut buf);
        proof {
            lemma_auto_spec_u64_to_from_le_bytes();
            assert(buf@ =~= ea_rec.enc());
            assert(buf@.len() == spec_ea_size(blocks as int));
        }
        let ghost d1 = mmap_bytes(*m);
        mmap_write(m, off, buf.as_slice());
        proof {
            let d2 = mmap_bytes(*m);
            lemma_splice_facts(d1, d2, off as int, buf@);
            // the written slot seals the fresh aspect
            let slotv = aspect_slot_bytes(d2, blocks as int, i as int);
            assert(slotv =~= buf@);
            let c = ea_rec.encrypted_data@;
            lemma_concat_part(
                Seq::<u8>::empty(),
                ea_rec.key@,
                spec_u64_to_le_bytes(c.len() as u64) + c,
                slotv,
            );
            assert(slotv =~= Seq::<u8>::empty() + ea_rec.key@ + (spec_u64_to_le_bytes(
                c.len() as u64,
            ) + c));
            assert(slotv.is_prefix_of(slotv)) by {
                assert(slotv.subrange(0, slotv.len() as int) =~= slotv);
            }
            assert(ea_rec.key@ == slotv.subrange(0, 32));
            assert(slotv =~= slotv.subrange(0, 32) + spec_u64_to_le_bytes(c.len() as u64) + c);
            assert(slot_seals(slotv, aspect, password@));
            assert(fresh_aspect_sealed(d2, blocks as int, i as int, password@));
            // the superblock and the earlier slots are untouched
            assert(d2.subrange(0, SUPER_BLOCK_SIZE as int) =~= d1.subrange(
                0,
                SUPER_BLOCK_SIZE as int,
            ));
            assert forall|ii: int| 0 <= ii < i + 1 implies #[trigger] fresh_aspect_sealed(
                d2,
                blocks as int,
                ii,
                password@,
            ) by {
                if ii < i as int {
                    lemma_aspect_slots_disjoint(blocks as int, ii, i as int);
                    lemma_aspect_slot_range(aspects as int, blocks as int, ii);
                    assert(aspect_slot_bytes(d2, blocks as int, ii) =~= aspect_slot_bytes(
                        d1,
                        blocks as int,
                        ii,
                    ));
                    assert(fresh_aspect_sealed(d1, blocks as int, ii, password@));
                    let a = choose|a: Aspect|
                        a.wf() && a.root_block == NO_BLOCK && a.block_map@.len() == blocks as int
                            && (forall|j: int|
                            0 <= j < blocks as int ==> !(#[trigger] a.block_map@[j]))
                            && #[trigger] slot_seals(
                            aspect_slot_bytes(d1, blocks as int, ii),
                            a,
                            password@,
                        );
                    assert(slot_seals(aspect_slot_bytes(d2, blocks as int, ii), a, password@));
                }
            }
        }
        i = i + 1;
    }
    Ok(())
}


/// Maximum payload carried by one chained data block: the slot size less
/// room for the frame, the next-block field, and cipher padding.
pub const RAW_BLK_SIZE: usize = 992;

/// Number of chunks a write of `len` bytes splits into; an empty write still
/// stores one empty block.
pub open spec fn chunk_count(len: int) -> int {
    if len == 0 {
        1
    } else {
        (len + RAW_BLK_SIZE - 1) / (RAW_BLK_SIZE as int)
    }
}

/// Chunk `q` of the written data.
pub open spec fn chunk_of(data: Seq<u8>, q: int) -> Seq<u8> {
    data.subrange(
        q * RAW_BLK_SIZE,
        if q * RAW_BLK_SIZE + RAW_BLK_SIZE <= data.len() {
            q * RAW_BLK_SIZE + RAW_BLK_SIZE
        } else {
            data.len() as int
        },
    )
}

/// The plaintext encoding of a chained data block.
pub open spec fn block_enc(next: u32, payload: Seq<u8>) -> Seq<u8> {
    vstd::bytes::spec_u32_to_le_bytes(next) + spec_u64_to_le_bytes(payload.len() as u64) + payload
}

/// The continuation of chunk `q` in a chain laid out over blocks `bs`.
pub open spec fn chain_next(bs: Seq<u32>, q: int) -> u32 {
    if q + 1 < bs.len() {
        bs[q + 1]
    } else {
        NO_BLOCK
    }
}




/// Block `i` is owned by no aspect sealed anywhere in the volume.
pub open spec fn block_free_in_all(disk: Seq<u8>, sb: SuperBlock, pass: Seq<u8>, i: int) -> bool {
    forall|k: int, ak: Aspect|
        0 <= k < sb.aspects as int && ak.wf() && ak.block_map@.len() == sb.blocks as int
            && #[trigger] slot_seals(aspect_slot_bytes(disk, sb.blocks as int, k), ak, pass)
            ==> !ak.block_map@[i]
}

/// Two distinct blocks are free in every sealed aspect: room to bootstrap a
/// root directory.
pub open spec fn two_blocks_free(disk: Seq<u8>, sb: SuperBlock, pass: Seq<u8>) -> bool {
    exists|i: int, j: int|
        #[trigger] block_free_in_all(disk, sb, pass, i) && #[trigger] block_free_in_all(
            disk,
            sb,
            pass,
            j,
        ) && 0 <= i < j < sb.blocks as int
}

/// One witness pair under which mounting is owed success: the volume opens
/// with this superblock and this aspect sealed in the chosen slot.
pub open spec fn mount_witness(disk: Seq<u8>, config: Config, sb: SuperBlock, a: Aspect) -> bool {
    &&& sb.enc().is_prefix_of(disk)
    &&& sb.magic == MAGIC
    &&& (config.current.aspect as int) < sb.aspects as int
    &&& spec_volume_len(sb.aspects as int, sb.blocks as int) <= disk.len()
    &&& disk.len() <= usize::MAX
    &&& a.wf()
    &&& a.block_map@.len() == sb.blocks as int
    &&& slot_seals(
        aspect_slot_bytes(disk, sb.blocks as int, config.current.aspect as int),
        a,
        config.current.password@,
    )
    &&& (forall|i: int|
        0 <= i < sb.aspects as int ==> #[trigger] some_aspect_sealed(
            disk,
            sb.blocks as int,
            i,
            config.current.password@,
        ))
    &&& (a.root_block != NO_BLOCK || two_blocks_free(disk, sb, config.current.password@))
}

/// The inputs on which mounting is owed success: a valid superblock, every
/// aspect slot sealed under the password, and a root already bootstrapped or
/// room to bootstrap one.
pub open spec fn mount_inputs_ready(disk: Seq<u8>, config: Config) -> bool {
    exists|sb: SuperBlock, a: Aspect| #[trigger] mount_witness(disk, config, sb, a)
}

/// Number of clear bits: the free blocks of a map.
pub open spec fn free_count(g: Seq<bool>) -> nat
    decreases g.len(),
{
    if g.len() == 0 {
        0
    } else {
        (if g[0] {
            0nat
        } else {
            1nat
        }) + free_count(g.skip(1))
    }
}

/// Claiming a free block lowers the free count by exactly one.
pub proof fn lemma_free_count_update(g: Seq<bool>, i: int)
    requires
        0 <= i < g.len(),
        !g[i],
    ensures
        free_count(g.update(i, true)) + 1 == free_count(g),
    decreases g.len(),
{
    if i == 0 {
        assert(g.update(0, true)[0] == true);
        assert(g.update(0, true).skip(1) =~= g.skip(1));
    } else {
        assert(g.update(i, true)[0] == g[0]);
        assert(g.update(i, true).skip(1) =~= g.skip(1).update(i - 1, true));
        lemma_free_count_update(g.skip(1), i - 1);
    }
}

/// A map with every bit set has no free block.
pub proof fn lemma_free_count_full(g: Seq<bool>)
    requires
        forall|j: int| 0 <= j < g.len() ==> g[j],
    ensures
        free_count(g) == 0,
    decreases g.len(),
{
    if g.len() > 0 {
        lemma_free_count_full(g.skip(1));
    }
}

/// The inputs on which a write is owed success: enough free blocks for every
/// chunk, and a loadable link target — the inode on a fresh handle, or the
/// chain's terminal block under an advanced cursor.
pub open spec fn write_inputs_ready(
    disk: Seq<u8>,
    aspects: int,
    blocks: int,
    key: Seq<u8>,
    gmap: Seq<bool>,
    fds: Map<u64, Option<u32>>,
    ino: u64,
    fh: u64,
    len: int,
) -> bool {
    &&& free_count(gmap) >= chunk_count(len)
    &&& ((!fds.contains_key(fh) || fds[fh] is None) ==> ((ino as int) < blocks && (exists|
        nd: INode,
    |
        #[trigger] stored_as(disk, aspects, blocks, key, ino as u32, nd))))
    &&& (fds.contains_key(fh) ==> (fds[fh] matches Some(p) ==> ((p as int) < blocks && (exists|
        blk: Block,
    |
        #[trigger] stored_as(disk, aspects, blocks, key, p, blk) && blk.data@.len()
            <= RAW_BLK_SIZE))))
}

/// The inputs on which creating an entry is owed success: the parent block
/// index is in range, some block is free, the parent block holds an inode
/// whose directory block is a distinct in-range block holding a directory
/// record, and the directory extended by `name` still fits a block.
pub open spec fn create_inputs_ready(
    disk: Seq<u8>,
    aspects: int,
    blocks: int,
    key: Seq<u8>,
    gmap: Seq<bool>,
    inode: u64,
    name: Seq<u8>,
) -> bool {
    &&& (inode as int) < blocks
    &&& (exists|j: int| 0 <= j < blocks && !(#[trigger] gmap[j]))
    &&& (exists|nd: INode|
        #[trigger] stored_as(disk, aspects, blocks, key, inode as u32, nd) && nd.data_block as u64
            != inode && (nd.data_block as int) < blocks && (exists|d: Dir|
            d.wf_rec() && #[trigger] stored_as(disk, aspects, blocks, key, nd.data_block, d)
                && d.enc().len() + 12 + name.len() <= 1007))
}

// ---------------------------------------------------------------------------
// PinoqFs
// ---------------------------------------------------------------------------

/// A mounted aspect of a pinoq volume.
pub struct PinoqFs {
    config: Config,
    mmap: MmapMut,
    sblock: SuperBlock,
    aspect: Aspect,
    block_map: Vec<bool>,
    fd_manager: FDManager,
}

impl PinoqFs {
    /// The bytes of the backing volume.
    pub closed spec fn disk(&self) -> Seq<u8> {
        mmap_bytes(self.mmap)
    }

    /// Number of aspects in the volume.
    pub closed spec fn aspects(&self) -> int {
        self.sblock.aspects as int
    }

    /// Number of blocks per aspect.
    pub closed spec fn blocks(&self) -> int {
        self.sblock.blocks as int
    }

    /// The index of the mounted aspect.
    pub closed spec fn cur(&self) -> int {
        self.config.current.aspect as int
    }

    /// The mount password.
    pub closed spec fn password(&self) -> Seq<u8> {
        self.config.current.password@
    }

    /// The mounted aspect's data key.
    pub closed spec fn key(&self) -> Seq<u8> {
        self.aspect.key@
    }

    /// The mounted aspect, in memory.
    pub closed spec fn cur_aspect(&self) -> Aspect {
        self.aspect
    }

    /// The global free-block bitmap: the union of every aspect's map.
    pub closed spec fn gmap(&self) -> Seq<bool> {
        self.block_map@
    }

    /// The open-file table.
    pub closed spec fn fds(&self) -> Map<u64, Option<u32>> {
        self.fd_manager@
    }

    /// The volume's superblock.
    pub closed spec fn super_block(&self) -> SuperBlock {
        self.sblock
    }

    /// The mounted filesystem's invariant: a valid superblock, a mounted
    /// aspect whose map spans the volume's blocks, a global map of the same
    /// span, a valid aspect index, and a backing volume at least as long as
    /// the layout demands.
    pub closed spec fn wf(&self) -> bool {
        &&& self.sblock.magic == MAGIC
        &&& self.aspect.wf()
        &&& self.aspect.block_map@.len() == self.blocks()
        &&& self.block_map@.len() == self.blocks()
        &&& self.cur() < self.aspects()
        &&& spec_volume_len(self.aspects(), self.blocks()) <= self.disk().len()
        &&& self.disk().len() <= usize::MAX
    }

    /// Everything but the disk image and the open-file table is as it was.
    pub open spec fn same_core(a: &PinoqFs, b: &PinoqFs) -> bool {
        &&& b.super_block() == a.super_block()
        &&& b.aspects() == a.aspects()
        &&& b.blocks() == a.blocks()
        &&& b.cur() == a.cur()
        &&& b.password() == a.password()
        &&& b.disk().len() == a.disk().len()
    }

    /// The in-memory aspect and the maps are as they were.
    pub open spec fn same_aspect_state(a: &PinoqFs, b: &PinoqFs) -> bool {
        &&& b.key() == a.key()
        &&& b.cur_aspect().root_block == a.cur_aspect().root_block
        &&& b.cur_aspect().block_map@ == a.cur_aspect().block_map@
        &&& b.gmap() == a.gmap()
    }

    /// Store record `t` in block slot `n`, encrypted under the mounted
    /// aspect's key with the IV bound to `n`. Only bytes of slot `n` change.
    pub fn store_to_block<T: PinoqSerialize>(&mut self, t: &T, n: u32) -> (r: Result<
        (),
        PinoqError,
    >)
        requires
            old(self).wf(),
            t.wf_rec(),
            t.enc().len() <= 1007,
            (n as int) < old(self).blocks(),
        ensures
            final(self).wf(),
            r is Ok,
            stored_as(
                final(self).disk(),
                final(self).aspects(),
                final(self).blocks(),
                final(self).key(),
                n,
                *t,
            ),
            Self::same_core(old(self), final(self)),
            Self::same_aspect_state(old(self), final(self)),
            final(self).fds() == old(self).fds(),
            forall|p: int|
                0 <= p < old(self).disk().len() && !(spec_block_offset(
                    old(self).aspects(),
                    old(self).blocks(),
                    n as int,
                ) <= p < spec_block_offset(old(self).aspects(), old(self).blocks(), n as int)
                    + BLOCK_SIZE) ==> final(self).disk()[p] == old(self).disk()[p],
    {
        proof {
            lemma_ea_size_bounds(old(self).blocks());
            self.lemma_block_slot_in_range(n);
        }
        let off = get_block_offset(self.sblock.aspects, self.sblock.blocks, n);
        let eb = match crate::filefmt::to_encrypted_block(t, &self.aspect.key, n) {
            Ok(eb) => eb,
            Err(e) => {
                return Err(e);
            },
        };
        let mut out: Vec<u8> = Vec::new();
        eb.serialize_into(&mut out);
        proof {
            lemma_auto_spec_u64_to_from_le_bytes();
            assert(out@.len() == 8 + eb.0@.len());
            assert(enc_len(t.enc().len() as int) <= 1008);
        }
        mmap_write(&mut self.mmap, off, out.as_slice());
        proof {
            lemma_splice_facts(
                mmap_bytes(old(self).mmap),
                mmap_bytes(self.mmap),
                off as int,
                out@,
            );
            assert(eb.enc() =~= Seq::<u8>::empty() + eb.enc());
        }
        Ok(())
    }

    /// Block slot `n` lies inside the volume.
    proof fn lemma_block_slot_in_range(&self, n: u32)
        requires
            self.wf(),
            (n as int) < self.blocks(),
        ensures
            0 <= spec_block_offset(self.aspects(), self.blocks(), n as int),
            spec_block_offset(self.aspects(), self.blocks(), n as int) + BLOCK_SIZE
                <= self.disk().len(),
    {
        lemma_ea_size_bounds(self.blocks());
        let a = self.aspects();
        let b = self.blocks();
        assert(0 <= a * spec_ea_size(b)) by (nonlinear_arith)
            requires
                0 <= a,
                0 <= spec_ea_size(b),
        ;
        assert((n as int) * BLOCK_SIZE + BLOCK_SIZE <= b * BLOCK_SIZE) by (nonlinear_arith)
            requires
                (n as int) < b,
                BLOCK_SIZE > 0,
        ;
        assert(0 <= (n as int) * BLOCK_SIZE) by (nonlinear_arith)
            requires
                0 <= n as int,
                BLOCK_SIZE > 0,
        ;
    }

    /// Load the record stored in block slot `n` under the mounted aspect's
    /// key. Whatever record the slot holds under this key, exactly that
    /// record comes back.
    pub fn get_from_block<T: PinoqSerialize>(&self, n: u32) -> (r: Result<T, PinoqError>)
        requires
            self.wf(),
            (n as int) < self.blocks(),
        ensures
            forall|t: T|
                t.wf_rec() && #[trigger] stored_as(
                    self.disk(),
                    self.aspects(),
                    self.blocks(),
                    self.key(),
                    n,
                    t,
                ) ==> (r matches Ok(y) && y.eqv(&t)),
            r matches Ok(y) ==> y.wf_rec(),
            r matches Err(e) ==> e == PinoqError::Serialization,
    {
        proof {
            lemma_ea_size_bounds(self.blocks());
            self.lemma_block_slot_in_range(n);
            lemma_auto_spec_u64_to_from_le_bytes();
        }
        let off = get_block_offset(self.sblock.aspects, self.sblock.blocks, n);
        let slot = mmap_read(&self.mmap, off, BLOCK_SIZE);
        let len64 = crate::codec::read_u64_le(slot.as_slice(), 0);
        if len64 > (BLOCK_SIZE - 8) as u64 {
            proof {
                assert forall|t: T|
                    !(t.wf_rec() && #[trigger] stored_as(
                        self.disk(),
                        self.aspects(),
                        self.blocks(),
                        self.key(),
                        n,
                        t,
                    )) by {
                    if t.wf_rec() && stored_as(
                        self.disk(),
                        self.aspects(),
                        self.blocks(),
                        self.key(),
                        n,
                        t,
                    ) {
                        let c = aes_enc(t.enc(), self.key(), block_iv(n));
                        let framed = spec_u64_to_le_bytes(c.len() as u64) + c;
                        assert(framed =~= slot@.subrange(0, framed.len() as int));
                        assert(framed.is_prefix_of(slot@));
                        lemma_concat_part(
                            Seq::<u8>::empty(),
                            spec_u64_to_le_bytes(c.len() as u64),
                            c,
                            slot@,
                        );
                        assert(framed =~= Seq::<u8>::empty() + spec_u64_to_le_bytes(
                            c.len() as u64,
                        ) + c);
                        assert(spec_u64_to_le_bytes(c.len() as u64) =~= slot@.subrange(0, 8));
                    }
                }
            }
            return Err(PinoqError::Serialization);
        }
        let len = len64 as usize;
        let data = vstd::slice::slice_to_vec(
            vstd::slice::slice_subrange(slot.as_slice(), 8, 8 + len),
        );
        let eb = EncryptedBlock(data);
        let r = crate::filefmt::from_encrypted_block::<T>(&eb, &self.aspect.key, n);
        proof {
            assert forall|t: T|
                t.wf_rec() && #[trigger] stored_as(
                    self.disk(),
                    self.aspects(),
                    self.blocks(),
                    self.key(),
                    n,
                    t,
                ) implies (r matches Ok(y) && y.eqv(&t)) by {
                let c = aes_enc(t.enc(), self.key(), block_iv(n));
                let framed = spec_u64_to_le_bytes(c.len() as u64) + c;
                assert(framed =~= slot@.subrange(0, framed.len() as int));
                assert(framed.is_prefix_of(slot@));
                lemma_concat_part(
                    Seq::<u8>::empty(),
                    spec_u64_to_le_bytes(c.len() as u64),
                    c,
                    slot@,
                );
                lemma_concat_part(
                    spec_u64_to_le_bytes(c.len() as u64),
                    c,
                    Seq::<u8>::empty(),
                    slot@,
                );
                assert(framed =~= Seq::<u8>::empty() + spec_u64_to_le_bytes(c.len() as u64) + c);
                assert(framed =~= spec_u64_to_le_bytes(c.len() as u64) + c + Seq::<u8>::empty());
                assert(spec_u64_to_le_bytes(c.len() as u64) =~= slot@.subrange(0, 8));
                assert(c.len() == len64);
                assert(eb.0@ =~= c);
            }
        }
        r
    }

    /// Aspect slot `n` lies inside the volume, before the data region.
    proof fn lemma_aspect_slot_in_range(&self, n: u32)
        requires
            self.wf(),
            (n as int) < self.aspects(),
        ensures
            0 <= spec_aspect_offset(self.blocks(), n as int),
            spec_aspect_offset(self.blocks(), n as int) + spec_ea_size(self.blocks())
                <= spec_block_offset(self.aspects(), self.blocks(), 0),
            spec_block_offset(self.aspects(), self.blocks(), 0) <= self.disk().len(),
    {
        lemma_ea_size_bounds(self.blocks());
        let a = self.aspects();
        let b = self.blocks();
        let s = spec_ea_size(b);
        assert((n as int) * s + s <= a * s) by (nonlinear_arith)
            requires
                (n as int) < a,
                s > 0,
        ;
        assert(0 <= (n as int) * s) by (nonlinear_arith)
            requires
                0 <= n as int,
                s > 0,
        ;
        assert(0 <= b * BLOCK_SIZE) by (nonlinear_arith)
            requires
                0 <= b,
                BLOCK_SIZE > 0,
        ;
    }

    /// Read and open aspect slot `n` with the mount password. Whatever aspect
    /// the slot seals under this password, exactly that aspect comes back.
    pub fn get_aspect(&self, n: u32) -> (r: Result<Aspect, PinoqError>)
        requires
            self.wf(),
            (n as int) < self.aspects(),
        ensures
            forall|a: Aspect|
                a.wf() && a.block_map@.len() == self.blocks() && #[trigger] slot_seals(
                    aspect_slot_bytes(self.disk(), self.blocks(), n as int),
                    a,
                    self.password(),
                ) ==> (r matches Ok(got) && got.key@ == a.key@ && got.root_block == a.root_block
                    && got.block_map@ == a.block_map@),
            r matches Ok(got) ==> got.wf() && got.block_map@.len() == self.blocks(),
            r matches Err(e) ==> e == PinoqError::Serialization,
    {
        proof {
            lemma_ea_size_bounds(self.blocks());
            self.lemma_aspect_slot_in_range(n);
            lemma_auto_spec_u64_to_from_le_bytes();
        }
        let off = get_aspect_offset(self.sblock.blocks, n);
        let ea_len = EncryptedAspect::size_of(self.sblock.blocks);
        let slot = mmap_read(&self.mmap, off, ea_len);
        let ghost slotv = aspect_slot_bytes(self.disk(), self.blocks(), n as int);
        proof {
            assert(slot@ =~= slotv);
        }
        let wk = vstd::slice::slice_to_vec(vstd::slice::slice_subrange(slot.as_slice(), 0, 32));
        let len64 = crate::codec::read_u64_le(slot.as_slice(), 32);
        proof {
            assert forall|a: Aspect|
                a.wf() && a.block_map@.len() == self.blocks() && #[trigger] slot_seals(
                    slotv,
                    a,
                    self.password(),
                ) implies ({
                let c = aes_enc(a.plain(), slotv.subrange(0, 32), iv_of(self.password()));
                &&& wk@ == slotv.subrange(0, 32)
                &&& c.len() as u64 == len64
                &&& c.len() == slotv.len() - 40
                &&& c == slotv.skip(40)
            }) by {
                let wkv = slotv.subrange(0, 32);
                let c = aes_enc(a.plain(), wkv, iv_of(self.password()));
                lemma_concat_part(
                    Seq::<u8>::empty(),
                    wkv,
                    spec_u64_to_le_bytes(c.len() as u64) + c,
                    slotv,
                );
                lemma_concat_part(wkv, spec_u64_to_le_bytes(c.len() as u64), c, slotv);
                lemma_concat_part(
                    wkv + spec_u64_to_le_bytes(c.len() as u64),
                    c,
                    Seq::<u8>::empty(),
                    slotv,
                );
                assert(slotv =~= Seq::<u8>::empty() + wkv + (spec_u64_to_le_bytes(c.len() as u64)
                    + c));
                assert(slotv =~= wkv + spec_u64_to_le_bytes(c.len() as u64) + c + Seq::<
                    u8,
                >::empty());
                assert(slotv.is_prefix_of(slotv)) by {
                    assert(slotv.subrange(0, slotv.len() as int) =~= slotv);
                }
                assert(spec_u64_to_le_bytes(c.len() as u64) =~= slotv.subrange(32, 40));
                assert(c =~= slotv.skip(40));
            }
        }
        if len64 > (ea_len - 40) as u64 {
            return Err(PinoqError::Serialization);
        }
        let clen = len64 as usize;
        let cdata = vstd::slice::slice_to_vec(
            vstd::slice::slice_subrange(slot.as_slice(), 40, 40 + clen),
        );
        let ea = EncryptedAspect { key: Key(wk), encrypted_data: cdata };
        let r = Aspect::from_encrypted_aspect(
            &ea,
            self.config.current.password.as_slice(),
            self.sblock.blocks,
        );
        proof {
            assert forall|a: Aspect|
                a.wf() && a.block_map@.len() == self.blocks() && #[trigger] slot_seals(
                    slotv,
                    a,
                    self.password(),
                ) implies (r matches Ok(got) && got.key@ == a.key@ && got.root_block
                == a.root_block && got.block_map@ == a.block_map@) by {
                let c = aes_enc(a.plain(), slotv.subrange(0, 32), iv_of(self.password()));
                assert(ea.encrypted_data@ =~= c);
                assert(sealed_as(&ea, &a, self.password()));
            }
        }
        r
    }

    /// Seal the mounted aspect under a fresh wrap key and write it to aspect
    /// slot `n`. Only bytes of that slot change.
    pub fn store_aspect(&mut self, n: u32) -> (r: Result<(), PinoqError>)
        requires
            old(self).wf(),
            (n as int) < old(self).aspects(),
        ensures
            final(self).wf(),
            r is Ok,
            slot_seals(
                aspect_slot_bytes(final(self).disk(), final(self).blocks(), n as int),
                final(self).cur_aspect(),
                final(self).password(),
            ),
            Self::same_core(old(self), final(self)),
            Self::same_aspect_state(old(self), final(self)),
            final(self).fds() == old(self).fds(),
            forall|p: int|
                0 <= p < old(self).disk().len() && !(spec_aspect_offset(
                    old(self).blocks(),
                    n as int,
                ) <= p < spec_aspect_offset(old(self).blocks(), n as int) + spec_ea_size(
                    old(self).blocks(),
                )) ==> final(self).disk()[p] == old(self).disk()[p],
    {
        proof {
            lemma_ea_size_bounds(old(self).blocks());
            self.lemma_aspect_slot_in_range(n);
            lemma_auto_spec_u64_to_from_le_bytes();
            assert(crate::codec::pack_bits(self.aspect.block_map@).len() == (self.blocks() + 7)
                / 8);
        }
        let off = get_aspect_offset(self.sblock.blocks, n);
        let ea = self.aspect.to_encrypted_aspect(self.config.current.password.as_slice());
        let mut out: Vec<u8> = Vec::new();
        ea.serialize_into(&mut out);
        proof {
            assert(out@ =~= ea.enc());
            assert(out@.len() == spec_ea_size(old(self).blocks()));
        }
        mmap_write(&mut self.mmap, off, out.as_slice());
        proof {
            lemma_splice_facts(
                mmap_bytes(old(self).mmap),
                mmap_bytes(self.mmap),
                off as int,
                out@,
            );
            let slotv = aspect_slot_bytes(self.disk(), self.blocks(), n as int);
            assert(slotv =~= out@);
            let c = ea.encrypted_data@;
            lemma_concat_part(
                Seq::<u8>::empty(),
                ea.key@,
                spec_u64_to_le_bytes(c.len() as u64) + c,
                slotv,
            );
            assert(slotv =~= Seq::<u8>::empty() + ea.key@ + (spec_u64_to_le_bytes(c.len() as u64)
                + c));
            assert(slotv.is_prefix_of(slotv)) by {
                assert(slotv.subrange(0, slotv.len() as int) =~= slotv);
            }
            assert(ea.key@ == slotv.subrange(0, 32));
            assert(slotv =~= slotv.subrange(0, 32) + spec_u64_to_le_bytes(c.len() as u64) + c);
        }
        Ok(())
    }



    /// Mount: parse the superblock, open the selected aspect with the
    /// supplied password, build the global block map from every aspect, and
    /// bootstrap the root directory if the aspect has none yet.
    pub fn new(mmap: MmapMut, config: Config) -> (r: Result<PinoqFs, PinoqError>)
        ensures
            r matches Ok(fs) ==> fs.wf() && fs.super_block().magic == MAGIC && fs.cur()
                == config.current.aspect as int && fs.password() == config.current.password@
                && fs.cur_aspect().root_block != NO_BLOCK && fs.super_block().enc().is_prefix_of(
                mmap_bytes(mmap),
            ) && fs.aspects() == fs.super_block().aspects as int && fs.blocks()
                == fs.super_block().blocks as int && fs.cur_aspect().wf()
                && fs.cur_aspect().block_map@.len() == fs.blocks(),
            r matches Ok(fs) ==> forall|a: Aspect|
                a.wf() && a.block_map@.len() == fs.blocks() && #[trigger] slot_seals(
                    aspect_slot_bytes(mmap_bytes(mmap), fs.blocks(), fs.cur()),
                    a,
                    fs.password(),
                ) ==> fs.key() == a.key@ && (a.root_block != NO_BLOCK ==> fs.cur_aspect().root_block
                    == a.root_block && fs.cur_aspect().block_map@ == a.block_map@ && fs.disk()
                    == mmap_bytes(mmap)) && (a.root_block == NO_BLOCK ==> ({
                    let rb = fs.cur_aspect().root_block;
                    &&& exists|db: u32|
                        (db as int) < fs.blocks() && #[trigger] stored_as(
                            fs.disk(),
                            fs.aspects(),
                            fs.blocks(),
                            fs.key(),
                            rb,
                            root_inode_of(fs.super_block(), db),
                        ) && stored_bytes(
                            fs.disk(),
                            fs.aspects(),
                            fs.blocks(),
                            fs.key(),
                            db,
                            empty_dir_enc(),
                        )
                    &&& slot_seals(
                        aspect_slot_bytes(fs.disk(), fs.blocks(), fs.cur()),
                        fs.cur_aspect(),
                        fs.password(),
                    )
                })),
            mount_inputs_ready(mmap_bytes(mmap), config) ==> r is Ok,
    {
        let len = mmap_len(&mmap);
        proof {
            vstd::bytes::lemma_auto_spec_u32_to_from_le_bytes();
        }
        if len < SUPER_BLOCK_SIZE {
            proof {
                if mount_inputs_ready(mmap_bytes(mmap), config) {
                    let (sb, aw) = choose|sb: SuperBlock, aw: Aspect|
                        #[trigger] mount_witness(mmap_bytes(mmap), config, sb, aw);
                    assert(sb.enc().len() == SUPER_BLOCK_SIZE);
                }
            }
            return Err(PinoqError::IO);
        }
        let head = mmap_read(&mmap, 0, SUPER_BLOCK_SIZE);
        proof {
            if mount_inputs_ready(mmap_bytes(mmap), config) {
                let (sb, aw) = choose|sb: SuperBlock, aw: Aspect|
                    #[trigger] mount_witness(mmap_bytes(mmap), config, sb, aw);
                assert(sb.enc().len() == SUPER_BLOCK_SIZE);
                assert(sb.enc() =~= head@.subrange(0, SUPER_BLOCK_SIZE as int));
                assert(sb.enc().is_prefix_of(head@));
            }
        }
        let sblock = match SuperBlock::deserialize_from(head.as_slice()) {
            Ok(sb) => sb,
            Err(e) => {
                return Err(e);
            },
        };
        proof {
            if mount_inputs_ready(mmap_bytes(mmap), config) {
                let (sb, aw) = choose|sb: SuperBlock, aw: Aspect|
                    #[trigger] mount_witness(mmap_bytes(mmap), config, sb, aw);
                assert(sblock.eqv(&sb));
            }
        }
        if sblock.magic != MAGIC {
            return Err(PinoqError::Serialization);
        }
        if config.current.aspect >= sblock.aspects {
            return Err(PinoqError::InvalidConfig);
        }
        proof {
            lemma_ea_size_bounds(sblock.blocks as int);
            vstd::arithmetic::mul::lemma_mul_inequality(
                sblock.aspects as int,
                0x1_0000_0000,
                spec_ea_size(sblock.blocks as int),
            );
            assert(0 <= (sblock.aspects as int) * spec_ea_size(sblock.blocks as int))
                by (nonlinear_arith)
                requires
                    0 <= sblock.aspects as int,
                    0 < spec_ea_size(sblock.blocks as int),
            ;
            assert(0 <= (sblock.blocks as int) * BLOCK_SIZE) by (nonlinear_arith)
                requires
                    0 <= sblock.blocks as int,
                    0 < BLOCK_SIZE,
            ;
        }
        let ea = EncryptedAspect::size_of(sblock.blocks) as u64;
        let vol: u64 = (SUPER_BLOCK_SIZE as u64) + (sblock.aspects as u64) * ea + (
        sblock.blocks as u64) * (BLOCK_SIZE as u64);
        if (len as u64) < vol {
            proof {
                if mount_inputs_ready(mmap_bytes(mmap), config) {
                    let (sb, aw) = choose|sb: SuperBlock, aw: Aspect|
                        #[trigger] mount_witness(mmap_bytes(mmap), config, sb, aw);
                    assert(sblock.eqv(&sb));
                    assert(vol == spec_volume_len(sb.aspects as int, sb.blocks as int));
                }
            }
            return Err(PinoqError::IO);
        }
        let placeholder = Aspect::new(sblock.blocks);
        let gmap = vec_false(sblock.blocks);
        let mut fs = PinoqFs {
            config,
            mmap,
            sblock,
            aspect: placeholder,
            block_map: gmap,
            fd_manager: FDManager::new(),
        };
        let ghost d0 = fs.disk();
        let ghost fs0 = fs;
        let aspect = match fs.get_aspect(fs.config.current.aspect) {
            Ok(x) => x,
            Err(e) => {
                proof {
                    if mount_inputs_ready(mmap_bytes(mmap), config) {
                        let (sb, aw) = choose|sb: SuperBlock, aw: Aspect|
                            #[trigger] mount_witness(mmap_bytes(mmap), config, sb, aw);
                        assert(sblock.eqv(&sb));
                        assert(slot_seals(
                            aspect_slot_bytes(fs0.disk(), fs0.blocks(), fs0.cur()),
                            aw,
                            fs0.password(),
                        ));
                        assert(false);
                    }
                }
                return Err(e);
            },
        };
        fs.aspect = aspect;
        let ghost fs1 = fs;
        match fs.construct_block_map() {
            Ok(()) => (),
            Err(e) => {
                proof {
                    if mount_inputs_ready(mmap_bytes(mmap), config) {
                        let (sb, aw) = choose|sb: SuperBlock, aw: Aspect|
                            #[trigger] mount_witness(mmap_bytes(mmap), config, sb, aw);
                        assert(sblock.eqv(&sb));
                        assert(forall|i: int|
                            0 <= i < fs1.aspects() ==> #[trigger] some_aspect_sealed(
                                fs1.disk(),
                                fs1.blocks(),
                                i,
                                fs1.password(),
                            ));
                        assert(false);
                    }
                }
                return Err(e);
            },
        };
        let ghost fs2 = fs;
        match fs.init_root() {
            Ok(()) => (),
            Err(e) => {
                proof {
                    if mount_inputs_ready(mmap_bytes(mmap), config) {
                        let (sb, aw) = choose|sb: SuperBlock, aw: Aspect|
                            #[trigger] mount_witness(mmap_bytes(mmap), config, sb, aw);
                        assert(sblock.eqv(&sb));
                        // the chosen slot still seals the witness aspect
                        assert(slot_seals(
                            aspect_slot_bytes(fs0.disk(), fs0.blocks(), fs0.cur()),
                            aw,
                            fs0.password(),
                        ));
                        assert(aspect.root_block == aw.root_block);
                        assert(fs2.cur_aspect().root_block == aw.root_block);
                        if aw.root_block == NO_BLOCK {
                            // both bootstrap blocks are free in the global map
                            let (i, j) = choose|i: int, j: int|
                                #[trigger] block_free_in_all(
                                    mmap_bytes(mmap),
                                    sb,
                                    config.current.password@,
                                    i,
                                ) && #[trigger] block_free_in_all(
                                    mmap_bytes(mmap),
                                    sb,
                                    config.current.password@,
                                    j,
                                ) && 0 <= i < j < sb.blocks as int;
                            assert(forall|ii: int|
                                0 <= ii < fs1.aspects() ==> #[trigger] some_aspect_sealed(
                                    fs1.disk(),
                                    fs1.blocks(),
                                    ii,
                                    fs1.password(),
                                ));
                            assert(!fs2.gmap()[i]) by {
                                if fs2.gmap()[i] {
                                    let (k, ak) = choose|k: int, ak: Aspect|
                                        0 <= k < fs2.aspects() && ak.wf() && ak.block_map@.len()
                                            == fs2.blocks() && #[trigger] slot_seals(
                                            aspect_slot_bytes(fs2.disk(), fs2.blocks(), k),
                                            ak,
                                            fs2.password(),
                                        ) && ak.block_map@[i];
                                }
                            }
                            assert(!fs2.gmap()[j]) by {
                                if fs2.gmap()[j] {
                                    let (k, ak) = choose|k: int, ak: Aspect|
                                        0 <= k < fs2.aspects() && ak.wf() && ak.block_map@.len()
                                            == fs2.blocks() && #[trigger] slot_seals(
                                            aspect_slot_bytes(fs2.disk(), fs2.blocks(), k),
                                            ak,
                                            fs2.password(),
                                        ) && ak.block_map@[j];
                                }
                            }
                            assert(false);
                        } else {
                            assert(false);
                        }
                    }
                }
                return Err(e);
            },
        };
        proof {
            assert forall|a: Aspect|
                a.wf() && a.block_map@.len() == fs.blocks() && #[trigger] slot_seals(
                    aspect_slot_bytes(mmap_bytes(mmap), fs.blocks(), fs.cur()),
                    a,
                    fs.password(),
                ) implies fs.key() == a.key@ && (a.root_block != NO_BLOCK
                ==> fs.cur_aspect().root_block == a.root_block && fs.cur_aspect().block_map@
                == a.block_map@ && fs.disk() == mmap_bytes(mmap)) && (a.root_block == NO_BLOCK
                ==> ({
                let rb = fs.cur_aspect().root_block;
                &&& exists|db: u32|
                    (db as int) < fs.blocks() && #[trigger] stored_as(
                        fs.disk(),
                        fs.aspects(),
                        fs.blocks(),
                        fs.key(),
                        rb,
                        root_inode_of(fs.super_block(), db),
                    ) && stored_bytes(
                        fs.disk(),
                        fs.aspects(),
                        fs.blocks(),
                        fs.key(),
                        db,
                        empty_dir_enc(),
                    )
                &&& slot_seals(
                    aspect_slot_bytes(fs.disk(), fs.blocks(), fs.cur()),
                    fs.cur_aspect(),
                    fs.password(),
                )
            })) by {
                assert(fs0.disk() == mmap_bytes(mmap));
                assert(fs.blocks() == fs0.blocks() && fs.cur() == fs0.cur() && fs.password()
                    == fs0.password());
                assert(slot_seals(
                    aspect_slot_bytes(fs0.disk(), fs0.blocks(), fs0.cur()),
                    a,
                    fs0.password(),
                ));
                assert(aspect.key@ == a.key@ && aspect.root_block == a.root_block
                    && aspect.block_map@ == a.block_map@);
                assert(fs2.key() == a.key@ && fs2.cur_aspect().root_block == a.root_block
                    && fs2.cur_aspect().block_map@ == a.block_map@);
                assert(fs2.disk() == mmap_bytes(mmap));
                if a.root_block == NO_BLOCK {
                    assert(fs2.cur_aspect().root_block == NO_BLOCK);
                }
            }
            assert(fs.super_block().enc().is_prefix_of(mmap_bytes(mmap))) by {
                assert(head@ == mmap_bytes(mmap).subrange(0, SUPER_BLOCK_SIZE as int));
                assert(fs.super_block().enc() =~= mmap_bytes(mmap).subrange(
                    0,
                    fs.super_block().enc().len() as int,
                ));
            }
        }
        Ok(fs)
    }

    /// Rebuild the global block map: the OR of every aspect's map, opening
    /// each aspect slot with the mount password. Whatever aspects the slots
    /// seal under that password, every block they own is marked in-use.
    pub fn construct_block_map(&mut self) -> (r: Result<(), PinoqError>)
        requires
            old(self).wf(),
        ensures
            final(self).wf(),
            Self::same_core(old(self), final(self)),
            final(self).disk() == old(self).disk(),
            final(self).fds() == old(self).fds(),
            final(self).key() == old(self).key(),
            final(self).cur_aspect().root_block == old(self).cur_aspect().root_block,
            final(self).cur_aspect().block_map@ == old(self).cur_aspect().block_map@,
            r is Ok ==> forall|i: int, a: Aspect|
                0 <= i < final(self).aspects() && a.wf()
                    && a.block_map@.len() == final(self).blocks() && #[trigger] slot_seals(
                    aspect_slot_bytes(final(self).disk(), final(self).blocks(), i),
                    a,
                    final(self).password(),
                ) ==> forall|j: int|
                    0 <= j < final(self).blocks() && (#[trigger] a.block_map@[j])
                        ==> final(self).gmap()[j],
            (forall|i: int|
                0 <= i < old(self).aspects() ==> #[trigger] some_aspect_sealed(
                    old(self).disk(),
                    old(self).blocks(),
                    i,
                    old(self).password(),
                )) ==> (r is Ok && (forall|j: int|
                0 <= j < final(self).blocks() && (#[trigger] final(self).gmap()[j]) ==> exists|
                    i: int,
                    a: Aspect,
                |
                    0 <= i < final(self).aspects() && a.wf() && a.block_map@.len() == final(self).blocks() && #[trigger] slot_seals(
                        aspect_slot_bytes(final(self).disk(), final(self).blocks(), i),
                        a,
                        final(self).password(),
                    ) && a.block_map@[j])),
            r matches Err(e) ==> e == PinoqError::Serialization,
    {
        self.block_map = vec_false(self.sblock.blocks);
        let acount = self.sblock.aspects;
        let mut i: u32 = 0;
        while i < acount
            invariant
                i <= acount,
                self.wf(),
                acount as int == self.aspects(),
                old(self).wf(),
                self.disk() == old(self).disk(),
                self.super_block() == old(self).super_block(),
                self.cur() == old(self).cur(),
                self.password() == old(self).password(),
                self.fds() == old(self).fds(),
                self.key() == old(self).key(),
                self.cur_aspect().root_block == old(self).cur_aspect().root_block,
                self.cur_aspect().block_map@ == old(self).cur_aspect().block_map@,
                self.gmap().len() == self.blocks(),
                forall|ii: int, a: Aspect|
                    0 <= ii < i && a.wf() && a.block_map@.len() == self.blocks()
                        && #[trigger] slot_seals(
                        aspect_slot_bytes(self.disk(), self.blocks(), ii),
                        a,
                        self.password(),
                    ) ==> forall|j: int|
                        0 <= j < self.blocks() && (#[trigger] a.block_map@[j]) ==> self.gmap()[j],
                (forall|ii: int|
                    0 <= ii < self.aspects() ==> #[trigger] some_aspect_sealed(
                        self.disk(),
                        self.blocks(),
                        ii,
                        self.password(),
                    )) ==> (forall|j: int|
                    0 <= j < self.blocks() && (#[trigger] self.gmap()[j]) ==> exists|
                        ii: int,
                        a: Aspect,
                    |
                        0 <= ii < self.aspects() && a.wf() && a.block_map@.len() == self.blocks()
                            && #[trigger] slot_seals(
                            aspect_slot_bytes(self.disk(), self.blocks(), ii),
                            a,
                            self.password(),
                        ) && a.block_map@[j]),
            decreases acount - i,
        {
            let asp = match self.get_aspect(i) {
                Ok(a) => a,
                Err(e) => {
                    proof {
                        if forall|ii: int|
                            0 <= ii < self.aspects() ==> #[trigger] some_aspect_sealed(
                                self.disk(),
                                self.blocks(),
                                ii,
                                self.password(),
                            ) {
                            assert(some_aspect_sealed(
                                self.disk(),
                                self.blocks(),
                                i as int,
                                self.password(),
                            ));
                            let a = choose|a: Aspect|
                                a.wf() && a.block_map@.len() == self.blocks()
                                    && #[trigger] slot_seals(
                                    aspect_slot_bytes(self.disk(), self.blocks(), i as int),
                                    a,
                                    self.password(),
                                );
                            assert(false);
                        }
                    }
                    return Err(e);
                },
            };
            let merged = or_bits(&self.block_map, &asp.block_map);
            let ghost before = self.gmap();
            self.block_map = merged;
            proof {
                if forall|ii: int|
                    0 <= ii < self.aspects() ==> #[trigger] some_aspect_sealed(
                        self.disk(),
                        self.blocks(),
                        ii,
                        self.password(),
                    ) {
                    assert(some_aspect_sealed(
                        self.disk(),
                        self.blocks(),
                        i as int,
                        self.password(),
                    ));
                    let ai = choose|a: Aspect|
                        a.wf() && a.block_map@.len() == self.blocks() && #[trigger] slot_seals(
                            aspect_slot_bytes(self.disk(), self.blocks(), i as int),
                            a,
                            self.password(),
                        );
                    assert(asp.block_map@ == ai.block_map@);
                    assert forall|j: int|
                        0 <= j < self.blocks() && (#[trigger] self.gmap()[j]) implies exists|
                        ii: int,
                        a: Aspect,
                    |
                        0 <= ii < self.aspects() && a.wf() && a.block_map@.len() == self.blocks()
                            && #[trigger] slot_seals(
                            aspect_slot_bytes(self.disk(), self.blocks(), ii),
                            a,
                            self.password(),
                        ) && a.block_map@[j] by {
                        if !before[j] {
                            assert(asp.block_map@[j]);
                            assert(ai.block_map@[j]);
                        }
                    }
                }
                assert forall|ii: int, a: Aspect|
                    0 <= ii < i + 1 && a.wf() && a.block_map@.len() == self.blocks()
                        && #[trigger] slot_seals(
                        aspect_slot_bytes(self.disk(), self.blocks(), ii),
                        a,
                        self.password(),
                    ) implies forall|j: int|
                    0 <= j < self.blocks() && (#[trigger] a.block_map@[j]) ==> self.gmap()[j] by {
                    assert forall|j: int|
                        0 <= j < self.blocks() && (#[trigger] a.block_map@[j]) implies self.gmap()[j] by {
                        assert(self.gmap()[j] == (before[j] || asp.block_map@[j]));
                        if ii == i as int {
                            assert(asp.block_map@ == a.block_map@);
                        } else {
                            assert(before[j]);
                        }
                    }
                }
            }
            i = i + 1;
        }
        Ok(())
    }





    /// Release the mount and hand the mapping back; the in-memory aspect and
    /// table are dropped.
    pub fn unmount(self) -> (m: MmapMut)
        ensures
            mmap_bytes(m) == self.disk(),
    {
        self.mmap
    }

    /// Whether `fh` denotes an open file.
    pub fn is_open(&self, fh: u64) -> (r: bool)
        ensures
            r == self.fds().contains_key(fh),
    {
        match self.fd_manager.get(fh) {
            Some(_) => true,
            None => false,
        }
    }

    /// The bridge uses `1` for the root inode; the core translates it to the
    /// mounted aspect's root block. Every other inode number is a block index
    /// as it stands.
    pub fn convert_inode_index(&self, n: u64) -> (r: u64)
        ensures
            r == (if n == 1 {
                self.cur_aspect().root_block as u64
            } else {
                n
            }),
    {
        if n == 1 {
            self.aspect.root_block as u64
        } else {
            n
        }
    }

    /// Open a file handle for `inode` with a fresh cursor. The handle is the
    /// inode number itself, and reads and writes on it must reach the core
    /// directly: each block is encrypted on its own, so the bridge may not
    /// cache pages.
    pub fn open(&mut self, inode: u64) -> (fh: u64)
        requires
            old(self).wf(),
        ensures
            final(self).wf(),
            fh == inode,
            final(self).fds() == old(self).fds().insert(inode, None::<u32>),
            Self::same_core(old(self), final(self)),
            Self::same_aspect_state(old(self), final(self)),
            final(self).disk() == old(self).disk(),
    {
        self.fd_manager.insert(inode, FileDescriptor { next_block: None });
        inode
    }

    /// The attributes of the inode stored in block `ino`. Whatever inode the
    /// slot holds, its attributes come back under inode number `ino`.
    pub fn getattr(&self, ino: u64) -> (r: Result<FileAttr, PinoqError>)
        requires
            self.wf(),
        ensures
            forall|nd: INode|
                (ino as int) < self.blocks() && #[trigger] stored_as(
                    self.disk(),
                    self.aspects(),
                    self.blocks(),
                    self.key(),
                    ino as u32,
                    nd,
                ) ==> (r matches Ok(at) && at == nd.spec_attr(ino as u32)),
            ino as int >= self.blocks() ==> r == Err::<FileAttr, PinoqError>(PinoqError::IO),
    {
        if ino >= self.sblock.blocks as u64 {
            return Err(PinoqError::IO);
        }
        let nd: INode = match self.get_from_block(ino as u32) {
            Ok(x) => x,
            Err(e) => {
                return Err(e);
            },
        };
        Ok(nd.as_attr(ino as u32))
    }

    /// Attribute changes are not kept: the current attributes are re-read
    /// and reported back unchanged.
    pub fn setattr(&self, ino: u64) -> (r: Result<FileAttr, PinoqError>)
        requires
            self.wf(),
        ensures
            forall|nd: INode|
                (ino as int) < self.blocks() && #[trigger] stored_as(
                    self.disk(),
                    self.aspects(),
                    self.blocks(),
                    self.key(),
                    ino as u32,
                    nd,
                ) ==> (r matches Ok(at) && at == nd.spec_attr(ino as u32)),
    {
        self.getattr(ino)
    }

    /// The directory record stored in block `inode`.
    pub fn get_directory_content(&self, inode: u64) -> (r: Result<Dir, PinoqError>)
        requires
            self.wf(),
        ensures
            forall|d: Dir|
                (inode as int) < self.blocks() && d.wf_rec() && #[trigger] stored_as(
                    self.disk(),
                    self.aspects(),
                    self.blocks(),
                    self.key(),
                    inode as u32,
                    d,
                ) ==> (r matches Ok(y) && crate::filefmt::entries_eqv(y.entries@, d.entries@)),
            r matches Ok(y) ==> y.wf_rec(),
    {
        if inode >= self.sblock.blocks as u64 {
            return Err(PinoqError::IO);
        }
        self.get_from_block::<Dir>(inode as u32)
    }

    /// Look `name` up in the directory inode `inode`: load the parent inode,
    /// require a directory, follow its data block to the directory record,
    /// and report the named child's attributes under its block index.
    pub fn lookup_name(&self, inode: u64, name: &[u8]) -> (r: Result<FileAttr, PinoqError>)
        requires
            self.wf(),
        ensures
            forall|nd: INode|
                (inode as int) < self.blocks() && #[trigger] stored_as(
                    self.disk(),
                    self.aspects(),
                    self.blocks(),
                    self.key(),
                    inode as u32,
                    nd,
                ) && !spec_is_dir(nd.mode) ==> r == Err::<FileAttr, PinoqError>(
                    PinoqError::NoDirectory,
                ),
            forall|nd: INode, d: Dir, c: u32, child: INode|
                (inode as int) < self.blocks() && #[trigger] stored_as(
                    self.disk(),
                    self.aspects(),
                    self.blocks(),
                    self.key(),
                    inode as u32,
                    nd,
                ) && spec_is_dir(nd.mode) && (nd.data_block as int) < self.blocks() && d.wf_rec()
                    && #[trigger] stored_as(
                    self.disk(),
                    self.aspects(),
                    self.blocks(),
                    self.key(),
                    nd.data_block,
                    d,
                ) && #[trigger] dir_contains(d.entries@, name@, c) && (c as int) < self.blocks()
                    && #[trigger] stored_as(
                    self.disk(),
                    self.aspects(),
                    self.blocks(),
                    self.key(),
                    c,
                    child,
                ) ==> (r matches Ok(at) && at == child.spec_attr(c)),
            forall|nd: INode, d: Dir|
                (inode as int) < self.blocks() && #[trigger] stored_as(
                    self.disk(),
                    self.aspects(),
                    self.blocks(),
                    self.key(),
                    inode as u32,
                    nd,
                ) && spec_is_dir(nd.mode) && (nd.data_block as int) < self.blocks() && d.wf_rec()
                    && #[trigger] stored_as(
                    self.disk(),
                    self.aspects(),
                    self.blocks(),
                    self.key(),
                    nd.data_block,
                    d,
                ) && !dir_has_name(d.entries@, name@) ==> r == Err::<FileAttr, PinoqError>(
                    PinoqError::NoEntry,
                ),
    {
        if inode >= self.sblock.blocks as u64 {
            return Err(PinoqError::IO);
        }
        let nd: INode = match self.get_from_block(inode as u32) {
            Ok(x) => x,
            Err(e) => {
                return Err(e);
            },
        };
        if !nd.is_dir() {
            return Err(PinoqError::NoDirectory);
        }
        if nd.data_block >= self.sblock.blocks {
            return Err(PinoqError::IO);
        }
        let dir: Dir = match self.get_from_block(nd.data_block) {
            Ok(x) => x,
            Err(e) => {
                return Err(e);
            },
        };
        let c = match dir.get_entry(name) {
            Some(c) => c,
            None => {
                proof {
                    assert forall|nd2: INode, d: Dir|
                        (inode as int) < self.blocks() && #[trigger] stored_as(
                            self.disk(),
                            self.aspects(),
                            self.blocks(),
                            self.key(),
                            inode as u32,
                            nd2,
                        ) && spec_is_dir(nd2.mode) && (nd2.data_block as int) < self.blocks()
                            && d.wf_rec() && #[trigger] stored_as(
                            self.disk(),
                            self.aspects(),
                            self.blocks(),
                            self.key(),
                            nd2.data_block,
                            d,
                        ) implies !dir_has_name(d.entries@, name@) by {
                        assert(nd2.eqv(&nd));
                        crate::filefmt::lemma_entries_eqv_contains(dir.entries@, d.entries@);
                    }
                }
                return Err(PinoqError::NoEntry);
            },
        };
        proof {
            assert forall|nd2: INode, d: Dir, c2: u32|
                (inode as int) < self.blocks() && #[trigger] stored_as(
                    self.disk(),
                    self.aspects(),
                    self.blocks(),
                    self.key(),
                    inode as u32,
                    nd2,
                ) && spec_is_dir(nd2.mode) && (nd2.data_block as int) < self.blocks() && d.wf_rec()
                    && #[trigger] stored_as(
                    self.disk(),
                    self.aspects(),
                    self.blocks(),
                    self.key(),
                    nd2.data_block,
                    d,
                ) && #[trigger] dir_contains(d.entries@, name@, c2) implies c2 == c by {
                assert(nd2.eqv(&nd));
                crate::filefmt::lemma_entries_eqv_contains(dir.entries@, d.entries@);
                assert(dir_contains(dir.entries@, name@, c2));
                assert(dir_contains(dir.entries@, name@, c));
                crate::filefmt::lemma_dir_name_unique(dir.entries@, name@, c, c2);
            }
            assert forall|nd2: INode, d: Dir|
                (inode as int) < self.blocks() && #[trigger] stored_as(
                    self.disk(),
                    self.aspects(),
                    self.blocks(),
                    self.key(),
                    inode as u32,
                    nd2,
                ) && spec_is_dir(nd2.mode) && (nd2.data_block as int) < self.blocks() && d.wf_rec()
                    && #[trigger] stored_as(
                    self.disk(),
                    self.aspects(),
                    self.blocks(),
                    self.key(),
                    nd2.data_block,
                    d,
                ) implies dir_has_name(d.entries@, name@) by {
                assert(nd2.eqv(&nd));
                crate::filefmt::lemma_entries_eqv_contains(dir.entries@, d.entries@);
                assert(dir_contains(dir.entries@, name@, c));
                let i = choose|i: int|
                    0 <= i < dir.entries@.len() && (#[trigger] dir.entries@[i]).name@ == name@
                        && dir.entries@[i].block == c;
                assert(dir_has_name(dir.entries@, name@));
            }
        }
        if c >= self.sblock.blocks {
            return Err(PinoqError::IO);
        }
        let child: INode = match self.get_from_block(c) {
            Ok(x) => x,
            Err(e) => {
                return Err(e);
            },
        };
        proof {
            assert forall|nd2: INode, d: Dir, c2: u32, child2: INode|
                (inode as int) < self.blocks() && #[trigger] stored_as(
                    self.disk(),
                    self.aspects(),
                    self.blocks(),
                    self.key(),
                    inode as u32,
                    nd2,
                ) && spec_is_dir(nd2.mode) && (nd2.data_block as int) < self.blocks() && d.wf_rec()
                    && stored_as(
                    self.disk(),
                    self.aspects(),
                    self.blocks(),
                    self.key(),
                    nd2.data_block,
                    d,
                ) && #[trigger] dir_contains(d.entries@, name@, c2) && (c2 as int) < self.blocks()
                    && #[trigger] stored_as(
                    self.disk(),
                    self.aspects(),
                    self.blocks(),
                    self.key(),
                    c2,
                    child2,
                ) implies c2 == c && child2.eqv(&child) by {
                assert(nd2.eqv(&nd));
                crate::filefmt::lemma_entries_eqv_contains(dir.entries@, d.entries@);
                assert(dir_contains(dir.entries@, name@, c));
                assert(dir_contains(dir.entries@, name@, c2));
                crate::filefmt::lemma_dir_name_unique(dir.entries@, name@, c, c2);
            }
        }
        Ok(child.as_attr(c))
    }



    /// Every entry of the directory record points at a block inside the
    /// volume that holds some readable inode.
    pub open spec fn children_listed(&self, es: Seq<DirEntry>) -> bool {
        forall|k: int|
            0 <= k < es.len() ==> ((#[trigger] es[k]).block as int) < self.blocks() && exists|
                ch: INode,
            |
                #[trigger] stored_as(
                    self.disk(),
                    self.aspects(),
                    self.blocks(),
                    self.key(),
                    es[k].block,
                    ch,
                )
    }

    /// List the directory inode `inode`: the synthetic `.` and `..` entries,
    /// then the stored entries in name order, each under its block index and
    /// with the kind read from its inode. An entry whose inode cannot be
    /// read is left out.
    pub fn list_entries(&self, inode: u64) -> (r: Result<Vec<(u64, FileKind, Vec<u8>)>, PinoqError>)
        requires
            self.wf(),
        ensures
            r matches Ok(v) ==> (v@.len() >= 2 && v@[0].0 == inode && v@[0].1
                == FileKind::Directory && v@[0].2@ == seq![46u8] && v@[1].0 == 1 && v@[1].1
                == FileKind::Directory && v@[1].2@ == seq![46u8, 46u8]),
            forall|nd: INode, d: Dir|
                (inode as int) < self.blocks() && #[trigger] stored_as(
                    self.disk(),
                    self.aspects(),
                    self.blocks(),
                    self.key(),
                    inode as u32,
                    nd,
                ) && (nd.data_block as int) < self.blocks() && d.wf_rec() && #[trigger] stored_as(
                    self.disk(),
                    self.aspects(),
                    self.blocks(),
                    self.key(),
                    nd.data_block,
                    d,
                ) && self.children_listed(d.entries@) ==> (r matches Ok(v) && v@.len() == 2
                    + d.entries@.len() && (forall|k: int|
                    0 <= k < d.entries@.len() ==> (#[trigger] v@[k + 2]).0 == d.entries@[k].block
                        as u64 && v@[k + 2].2@ == d.entries@[k].name@) && (forall|k: int, ch: INode|
                    0 <= k < d.entries@.len() && #[trigger] stored_as(
                        self.disk(),
                        self.aspects(),
                        self.blocks(),
                        self.key(),
                        d.entries@[k].block,
                        ch,
                    ) ==> v@[k + 2].1 == (if spec_is_dir(ch.mode) {
                        FileKind::Directory
                    } else {
                        FileKind::RegularFile
                    }))),
    {
        if inode >= self.sblock.blocks as u64 {
            return Err(PinoqError::IO);
        }
        let parent: INode = match self.get_from_block(inode as u32) {
            Ok(x) => x,
            Err(e) => {
                return Err(e);
            },
        };
        if parent.data_block >= self.sblock.blocks {
            return Err(PinoqError::IO);
        }
        let dir: Dir = match self.get_from_block(parent.data_block) {
            Ok(x) => x,
            Err(e) => {
                return Err(e);
            },
        };
        let mut v: Vec<(u64, FileKind, Vec<u8>)> = Vec::new();
        let mut dot: Vec<u8> = Vec::new();
        dot.push(46u8);
        let mut dotdot: Vec<u8> = Vec::new();
        dotdot.push(46u8);
        dotdot.push(46u8);
        v.push((inode, FileKind::Directory, dot));
        v.push((1u64, FileKind::Directory, dotdot));
        proof {
            assert(v@[0].2@ =~= seq![46u8]);
            assert(v@[1].2@ =~= seq![46u8, 46u8]);
        }
        let n = dir.entries.len();
        let mut k: usize = 0;
        while k < n
            invariant
                k <= n,
                self.wf(),
                n == dir.entries@.len(),
                v@.len() >= 2,
                v@[0].0 == inode && v@[0].1 == FileKind::Directory && v@[0].2@ == seq![46u8],
                v@[1].0 == 1 && v@[1].1 == FileKind::Directory && v@[1].2@ == seq![46u8, 46u8],
                self.children_listed(dir.entries@) ==> (v@.len() == 2 + k && (forall|t: int|
                    0 <= t < k ==> (#[trigger] v@[t + 2]).0 == dir.entries@[t].block as u64 && v@[t
                        + 2].2@ == dir.entries@[t].name@) && (forall|t: int, ch: INode|
                    0 <= t < k && #[trigger] stored_as(
                        self.disk(),
                        self.aspects(),
                        self.blocks(),
                        self.key(),
                        dir.entries@[t].block,
                        ch,
                    ) ==> v@[t + 2].1 == (if spec_is_dir(ch.mode) {
                        FileKind::Directory
                    } else {
                        FileKind::RegularFile
                    }))),
            decreases n - k,
        {
            let e_block = dir.entries[k].block;
            if e_block < self.sblock.blocks {
                match self.get_from_block::<INode>(e_block) {
                    Ok(child) => {
                        let kind = if child.is_dir() {
                            FileKind::Directory
                        } else {
                            FileKind::RegularFile
                        };
                        let namecopy = vstd::slice::slice_to_vec(dir.entries[k].name.as_slice());
                        v.push((e_block as u64, kind, namecopy));
                    },
                    Err(_) => {
                        proof {
                            if self.children_listed(dir.entries@) {
                                assert(exists|ch: INode|
                                    stored_as(
                                        self.disk(),
                                        self.aspects(),
                                        self.blocks(),
                                        self.key(),
                                        dir.entries@[k as int].block,
                                        ch,
                                    ));
                                let ch = choose|ch: INode|
                                    stored_as(
                                        self.disk(),
                                        self.aspects(),
                                        self.blocks(),
                                        self.key(),
                                        dir.entries@[k as int].block,
                                        ch,
                                    );
                                assert(false);
                            }
                        }
                    },
                }
            } else {
                proof {
                    if self.children_listed(dir.entries@) {
                        assert((dir.entries@[k as int].block as int) < self.blocks());
                        assert(false);
                    }
                }
            }
            k = k + 1;
        }
        proof {
            assert forall|nd: INode, d: Dir|
                (inode as int) < self.blocks() && #[trigger] stored_as(
                    self.disk(),
                    self.aspects(),
                    self.blocks(),
                    self.key(),
                    inode as u32,
                    nd,
                ) && (nd.data_block as int) < self.blocks() && d.wf_rec() && #[trigger] stored_as(
                    self.disk(),
                    self.aspects(),
                    self.blocks(),
                    self.key(),
                    nd.data_block,
                    d,
                ) && self.children_listed(d.entries@) implies (v@.len() == 2 + d.entries@.len() && (
            forall|t: int|
                0 <= t < d.entries@.len() ==> (#[trigger] v@[t + 2]).0 == d.entries@[t].block
                    as u64 && v@[t + 2].2@ == d.entries@[t].name@) && (forall|t: int, ch: INode|
                0 <= t < d.entries@.len() && #[trigger] stored_as(
                    self.disk(),
                    self.aspects(),
                    self.blocks(),
                    self.key(),
                    d.entries@[t].block,
                    ch,
                ) ==> v@[t + 2].1 == (if spec_is_dir(ch.mode) {
                    FileKind::Directory
                } else {
                    FileKind::RegularFile
                }))) by {
                assert(parent.eqv(&nd));
                crate::filefmt::lemma_entries_eqv_contains(dir.entries@, d.entries@);
                assert(crate::filefmt::entries_eqv(dir.entries@, d.entries@));
                assert(self.children_listed(dir.entries@)) by {
                    assert forall|t: int| 0 <= t < dir.entries@.len() implies ((#[trigger] dir.entries@[t]).block as int) < self.blocks() && exists|ch: INode|
                        #[trigger] stored_as(
                            self.disk(),
                            self.aspects(),
                            self.blocks(),
                            self.key(),
                            dir.entries@[t].block,
                            ch,
                        ) by {
                        assert(d.entries@[t].block == dir.entries@[t].block);
                    }
                }
            }
        }
        Ok(v)
    }

    /// Directory listing for the bridge: the entries of [`Self::list_entries`]
    /// from position `offset` on, each with its 1-based cookie, so the bridge
    /// may resume at any offset.
    pub fn readdir(&self, inode: u64, offset: u64) -> (r: Result<
        Vec<(u64, u64, FileKind, Vec<u8>)>,
        PinoqError,
    >)
        requires
            self.wf(),
        ensures
            r matches Ok(v) ==> forall|t: int|
                0 <= t < v@.len() ==> (#[trigger] v@[t]).1 == offset + t + 1,
            forall|nd: INode, d: Dir|
                (inode as int) < self.blocks() && #[trigger] stored_as(
                    self.disk(),
                    self.aspects(),
                    self.blocks(),
                    self.key(),
                    inode as u32,
                    nd,
                ) && (nd.data_block as int) < self.blocks() && d.wf_rec() && #[trigger] stored_as(
                    self.disk(),
                    self.aspects(),
                    self.blocks(),
                    self.key(),
                    nd.data_block,
                    d,
                ) && self.children_listed(d.entries@) ==> (r matches Ok(v) && v@.len() == (if 2
                    + d.entries@.len() >= offset {
                    2 + d.entries@.len() - offset
                } else {
                    0
                }) && (forall|t: int|
                    0 <= t < v@.len() && offset + t >= 2 ==> (#[trigger] v@[t]).0 == d.entries@[
                        offset + t - 2
                    ].block as u64 && v@[t].3@ == d.entries@[offset + t - 2].name@)),
    {
        let all = match self.list_entries(inode) {
            Ok(v) => v,
            Err(e) => {
                return Err(e);
            },
        };
        let mut out: Vec<(u64, u64, FileKind, Vec<u8>)> = Vec::new();
        let n = all.len();
        let mut i: usize = 0;
        while i < n
            invariant
                i <= n,
                n == all@.len(),
                out@.len() == (if i as u64 > offset {
                    i as u64 - offset
                } else {
                    0
                }),
                forall|t: int|
                    0 <= t < out@.len() ==> ((#[trigger] out@[t]).1 == offset + t + 1 && out@[t].0
                        == all@[offset + t].0 && out@[t].2 == all@[offset + t].1 && out@[t].3@
                        == all@[offset + t].2@),
            decreases n - i,
        {
            if (i as u64) >= offset {
                let e = &all[i];
                let namecopy = vstd::slice::slice_to_vec(e.2.as_slice());
                out.push((e.0, (i as u64) + 1, e.1, namecopy));
                proof {
                    assert((i as u64) + 1 == offset + (out@.len() - 1) + 1);
                }
            }
            i = i + 1;
        }
        proof {
            assert forall|nd: INode, d: Dir|
                (inode as int) < self.blocks() && #[trigger] stored_as(
                    self.disk(),
                    self.aspects(),
                    self.blocks(),
                    self.key(),
                    inode as u32,
                    nd,
                ) && (nd.data_block as int) < self.blocks() && d.wf_rec() && #[trigger] stored_as(
                    self.disk(),
                    self.aspects(),
                    self.blocks(),
                    self.key(),
                    nd.data_block,
                    d,
                ) && self.children_listed(d.entries@) implies (out@.len() == (if 2
                + d.entries@.len() >= offset {
                2 + d.entries@.len() - offset
            } else {
                0
            }) && (forall|t: int|
                0 <= t < out@.len() && offset + t >= 2 ==> (#[trigger] out@[t]).0 == d.entries@[
                    offset + t - 2
                ].block as u64 && out@[t].3@ == d.entries@[offset + t - 2].name@)) by {
                assert(all@.len() == 2 + d.entries@.len());
                assert forall|t: int|
                    0 <= t < out@.len() && offset + t >= 2 implies (#[trigger] out@[t]).0
                    == d.entries@[offset + t - 2].block as u64 && out@[t].3@ == d.entries@[offset
                    + t - 2].name@ by {
                    assert(out@[t].0 == all@[offset + t].0);
                    assert(all@[(offset + t - 2) + 2].0 == d.entries@[offset + t - 2].block
                        as u64);
                    assert(all@[(offset + t - 2) + 2].2@ == d.entries@[offset + t - 2].name@);
                }
            }
        }
        Ok(out)
    }

    /// One step of a chained read: return the payload of the block under the
    /// handle's cursor (starting from the inode's first data block on a fresh
    /// handle), and advance the cursor. At the end of the chain the payload
    /// is empty. The `offset` the bridge passes is not consulted: each call
    /// hands back exactly one block.
    pub fn read(&mut self, ino: u64, fh: u64, offset: u64) -> (r: Result<Vec<u8>, PinoqError>)
        requires
            old(self).wf(),
            old(self).fds().contains_key(fh),
        ensures
            final(self).wf(),
            Self::same_core(old(self), final(self)),
            Self::same_aspect_state(old(self), final(self)),
            final(self).disk() == old(self).disk(),
            forall|k: u64|
                k != fh ==> ((final(self).fds().contains_key(k) <==> old(self).fds().contains_key(
                    k,
                )) && (old(self).fds().contains_key(k) ==> final(self).fds()[k] == old(self).fds()[k])),
            old(self).fds()[fh] == Some(NO_BLOCK) ==> (r matches Ok(v) && v@.len() == 0 && final(self).fds() == old(self).fds()),
            forall|p: u32, blk: Block|
                old(self).fds()[fh] == Some(p) && p != NO_BLOCK && (p as int) < old(self).blocks()
                    && #[trigger] stored_as(
                    old(self).disk(),
                    old(self).aspects(),
                    old(self).blocks(),
                    old(self).key(),
                    p,
                    blk,
                ) ==> (r matches Ok(v) && v@ == blk.data@ && final(self).fds() == old(self).fds().insert(fh, Some(blk.next_block))),
            forall|nd: INode|
                old(self).fds()[fh] is None && (ino as int) < old(self).blocks()
                    && #[trigger] stored_as(
                    old(self).disk(),
                    old(self).aspects(),
                    old(self).blocks(),
                    old(self).key(),
                    ino as u32,
                    nd,
                ) && nd.data_block == NO_BLOCK ==> (r matches Ok(v) && v@.len() == 0 && final(self).fds() == old(self).fds()),
            forall|nd: INode, blk: Block|
                old(self).fds()[fh] is None && (ino as int) < old(self).blocks()
                    && #[trigger] stored_as(
                    old(self).disk(),
                    old(self).aspects(),
                    old(self).blocks(),
                    old(self).key(),
                    ino as u32,
                    nd,
                ) && nd.data_block != NO_BLOCK && (nd.data_block as int) < old(self).blocks()
                    && #[trigger] stored_as(
                    old(self).disk(),
                    old(self).aspects(),
                    old(self).blocks(),
                    old(self).key(),
                    nd.data_block,
                    blk,
                ) ==> (r matches Ok(v) && v@ == blk.data@ && final(self).fds() == old(self).fds().insert(fh, Some(blk.next_block))),
    {
        let fdcursor: Option<u32> = match self.fd_manager.get(fh) {
            Some(fd) => fd.next_block,
            None => {
                return Err(PinoqError::IO);
            },
        };
        let next_block: u32 = match fdcursor {
            Some(n) => n,
            None => {
                if ino >= self.sblock.blocks as u64 {
                    return Err(PinoqError::IO);
                }
                let nd: INode = match self.get_from_block(ino as u32) {
                    Ok(x) => x,
                    Err(e) => {
                        return Err(e);
                    },
                };
                nd.data_block
            },
        };
        if next_block == NO_BLOCK {
            return Ok(Vec::new());
        }
        if next_block >= self.sblock.blocks {
            return Err(PinoqError::IO);
        }
        let blk: Block = match self.get_from_block(next_block) {
            Ok(x) => x,
            Err(e) => {
                return Err(e);
            },
        };
        self.fd_manager.insert(fh, FileDescriptor { next_block: Some(blk.next_block) });
        Ok(blk.data)
    }

    /// Create a regular file named `name` in the directory inode `inode`:
    /// allocate a block for the new inode, bind the name in the parent
    /// directory, store parent inode, directory and fresh inode, and re-seal
    /// the aspect. The new file starts empty with no data block.
    pub fn create_entry(&mut self, inode: u64, name: &[u8]) -> (r: Result<FileAttr, PinoqError>)
        requires
            old(self).wf(),
        ensures
            final(self).wf(),
            Self::same_core(old(self), final(self)),
            final(self).key() == old(self).key(),
            final(self).cur_aspect().root_block == old(self).cur_aspect().root_block,
            final(self).fds() == old(self).fds(),
            forall|j: int|
                0 <= j < old(self).blocks() && (#[trigger] old(self).gmap()[j]) ==> final(self).gmap()[j],
            final(self).disk().subrange(0, SUPER_BLOCK_SIZE as int) == old(self).disk().subrange(
                0,
                SUPER_BLOCK_SIZE as int,
            ),
            forall|j: int|
                0 <= j < old(self).aspects() && j != old(self).cur() ==> aspect_slot_bytes(
                    final(self).disk(),
                    old(self).blocks(),
                    j,
                ) == aspect_slot_bytes(old(self).disk(), old(self).blocks(), j),
            final(self).cur_aspect().wf(),
            final(self).cur_aspect().block_map@.len() == final(self).blocks(),
            r matches Err(e) ==> (e == PinoqError::NoEnoughSpace || e == PinoqError::Serialization
                || e == PinoqError::IO),
            create_inputs_ready(
                old(self).disk(),
                old(self).aspects(),
                old(self).blocks(),
                old(self).key(),
                old(self).gmap(),
                inode,
                name@,
            ) ==> r is Ok,
            r matches Ok(attr) ==> (exists|c: u32|
                {
                    &&& (c as int) < final(self).blocks()
                    &&& !old(self).gmap()[c as int]
                    &&& (forall|j: int| 0 <= j < c ==> old(self).gmap()[j])
                    &&& final(self).gmap() == old(self).gmap().update(c as int, true)
                    &&& final(self).cur_aspect().block_map@ == old(self).cur_aspect().block_map@.update(c as int, true)
                    &&& attr == file_inode_of(final(self).super_block()).spec_attr(c)
                    &&& #[trigger] stored_as(
                        final(self).disk(),
                        final(self).aspects(),
                        final(self).blocks(),
                        final(self).key(),
                        c,
                        file_inode_of(final(self).super_block()),
                    )
                    &&& slot_seals(
                        aspect_slot_bytes(final(self).disk(), final(self).blocks(), final(self).cur()),
                        final(self).cur_aspect(),
                        final(self).password(),
                    )
                    &&& (forall|nd: INode, d: Dir|
                        (inode as int) < final(self).blocks() && old(self).gmap()[inode as int]
                            && #[trigger] stored_as(
                            old(self).disk(),
                            final(self).aspects(),
                            final(self).blocks(),
                            final(self).key(),
                            inode as u32,
                            nd,
                        ) && nd.data_block as u64 != inode && (nd.data_block as int) < final(self).blocks()
                            && old(self).gmap()[nd.data_block as int] && d.wf_rec()
                            && #[trigger] stored_as(
                            old(self).disk(),
                            final(self).aspects(),
                            final(self).blocks(),
                            final(self).key(),
                            nd.data_block,
                            d,
                        ) ==> (stored_as(
                            final(self).disk(),
                            final(self).aspects(),
                            final(self).blocks(),
                            final(self).key(),
                            inode as u32,
                            nd,
                        ) && exists|d2x: Dir|
                            {
                                &&& d2x.wf_rec()
                                &&& #[trigger] stored_as(
                                    final(self).disk(),
                                    final(self).aspects(),
                                    final(self).blocks(),
                                    final(self).key(),
                                    nd.data_block,
                                    d2x,
                                )
                                &&& dir_contains(d2x.entries@, name@, c)
                                &&& (forall|n2: Seq<u8>, b2: u32|
                                    n2 != name@ ==> (dir_contains(d2x.entries@, n2, b2)
                                        <==> dir_contains(d.entries@, n2, b2)))
                            }))
                }),
    {
        let ghost a = old(self).aspects();
        let ghost b = old(self).blocks();
        let ghost key = old(self).key();
        let ghost d0 = old(self).disk();
        let ghost old_cur = old(self).cur();
        if inode >= self.sblock.blocks as u64 {
            return Err(PinoqError::IO);
        }
        let mut node = INode::new(S_IFREG, self.sblock.uid, self.sblock.gid);
        node.block_size = BLOCK_SIZE as u32;
        node.data_block = NO_BLOCK;
        let c = match self.allocate_block() {
            Ok(i) => i,
            Err(e) => {
                proof {
                    if create_inputs_ready(d0, a, b, key, old(self).gmap(), inode, name@) {
                        let j = choose|j: int| 0 <= j < b && !(#[trigger] old(self).gmap()[j]);
                        assert(false);
                    }
                }
                return Err(e);
            },
        };
        let parent: INode = match self.get_from_block(inode as u32) {
            Ok(x) => x,
            Err(e) => {
                proof {
                    if create_inputs_ready(d0, a, b, key, old(self).gmap(), inode, name@) {
                        let nd = choose|nd: INode|
                            #[trigger] stored_as(d0, a, b, key, inode as u32, nd) && nd.data_block
                                as u64 != inode && (nd.data_block as int) < b && (exists|d: Dir|
                                d.wf_rec() && #[trigger] stored_as(d0, a, b, key, nd.data_block, d)
                                    && d.enc().len() + 12 + name@.len() <= 1007);
                        assert(false);
                    }
                }
                return Err(e);
            },
        };
        proof {
            if create_inputs_ready(d0, a, b, key, old(self).gmap(), inode, name@) {
                let nd = choose|nd: INode|
                    #[trigger] stored_as(d0, a, b, key, inode as u32, nd) && nd.data_block as u64
                        != inode && (nd.data_block as int) < b && (exists|d: Dir|
                        d.wf_rec() && #[trigger] stored_as(d0, a, b, key, nd.data_block, d)
                            && d.enc().len() + 12 + name@.len() <= 1007);
                assert(parent.eqv(&nd));
            }
        }
        if parent.data_block >= self.sblock.blocks || parent.data_block as u64 == inode {
            return Err(PinoqError::IO);
        }
        let mut dir: Dir = match self.get_from_block(parent.data_block) {
            Ok(x) => x,
            Err(e) => {
                proof {
                    if create_inputs_ready(d0, a, b, key, old(self).gmap(), inode, name@) {
                        let nd = choose|nd: INode|
                            #[trigger] stored_as(d0, a, b, key, inode as u32, nd) && nd.data_block
                                as u64 != inode && (nd.data_block as int) < b && (exists|d: Dir|
                                d.wf_rec() && #[trigger] stored_as(d0, a, b, key, nd.data_block, d)
                                    && d.enc().len() + 12 + name@.len() <= 1007);
                        assert(parent.eqv(&nd));
                        let d = choose|d: Dir|
                            d.wf_rec() && #[trigger] stored_as(d0, a, b, key, nd.data_block, d)
                                && d.enc().len() + 12 + name@.len() <= 1007;
                        assert(false);
                    }
                }
                return Err(e);
            },
        };
        let ghost dir0 = dir.entries@;
        let ghost dirpre = dir;
        dir.insert_entry(vstd::slice::slice_to_vec(name), c);
        let mut chk: Vec<u8> = Vec::new();
        dir.serialize_into(&mut chk);
        if chk.len() > 1007 {
            proof {
                if create_inputs_ready(d0, a, b, key, old(self).gmap(), inode, name@) {
                    let nd = choose|nd: INode|
                        #[trigger] stored_as(d0, a, b, key, inode as u32, nd) && nd.data_block
                            as u64 != inode && (nd.data_block as int) < b && (exists|d: Dir|
                            d.wf_rec() && #[trigger] stored_as(d0, a, b, key, nd.data_block, d)
                                && d.enc().len() + 12 + name@.len() <= 1007);
                    assert(parent.eqv(&nd));
                    let d = choose|d: Dir|
                        d.wf_rec() && #[trigger] stored_as(d0, a, b, key, nd.data_block, d)
                            && d.enc().len() + 12 + name@.len() <= 1007;
                    crate::filefmt::lemma_entries_eqv_contains(dirpre.entries@, d.entries@);
                    crate::filefmt::lemma_enc_entries_eqv(dirpre.entries@, d.entries@);
                    assert(dirpre.enc() =~= d.enc());
                    assert(dir.enc().len() <= d.enc().len() + 12 + name@.len());
                    assert(false);
                }
            }
            return Err(PinoqError::NoEnoughSpace);
        }
        proof {
            vstd::bytes::lemma_auto_spec_u32_to_from_le_bytes();
            lemma_auto_spec_u64_to_from_le_bytes();
            assert(parent.enc().len() == 28);
            assert(chk@ == dir.enc());
        }
        match self.store_to_block(&parent, inode as u32) {
            Ok(()) => (),
            Err(e) => {
                return Err(e);
            },
        };
        let ghost d1 = self.disk();
        match self.store_to_block(&dir, parent.data_block) {
            Ok(()) => (),
            Err(e) => {
                return Err(e);
            },
        };
        let ghost d2 = self.disk();
        match self.store_aspect(self.config.current.aspect) {
            Ok(()) => (),
            Err(e) => {
                return Err(e);
            },
        };
        let ghost d3 = self.disk();
        proof {
            assert(node.enc().len() == 28);
        }
        match self.store_to_block(&node, c) {
            Ok(()) => (),
            Err(e) => {
                return Err(e);
            },
        };
        proof {
            let d4 = self.disk();
            lemma_block_slot_range(a, b, inode as int);
            lemma_block_slot_range(a, b, parent.data_block as int);
            lemma_block_slot_range(a, b, c as int);
            lemma_aspect_slot_range(a, b, old_cur);
            lemma_block_slots_disjoint(a, b, inode as int, parent.data_block as int);
            // the parent inode survives the directory, aspect and node writes
            lemma_stored_bytes_preserved(
                d1,
                d2,
                a,
                b,
                key,
                inode as u32,
                parent.enc(),
                spec_block_offset(a, b, parent.data_block as int),
                spec_block_offset(a, b, parent.data_block as int) + BLOCK_SIZE,
            );
            lemma_stored_bytes_preserved(
                d2,
                d3,
                a,
                b,
                key,
                inode as u32,
                parent.enc(),
                spec_aspect_offset(b, old_cur),
                spec_aspect_offset(b, old_cur) + spec_ea_size(b),
            );
            // the directory survives the aspect write
            lemma_stored_bytes_preserved(
                d2,
                d3,
                a,
                b,
                key,
                parent.data_block,
                dir.enc(),
                spec_aspect_offset(b, old_cur),
                spec_aspect_offset(b, old_cur) + spec_ea_size(b),
            );
            // the sealed aspect slot survives the node write
            assert(aspect_slot_bytes(d4, b, old_cur) =~= aspect_slot_bytes(d3, b, old_cur));
            // every byte before the data region, outside the sealed slot, is
            // as it was
            assert forall|p: int|
                0 <= p < d0.len() && !(spec_aspect_offset(b, old_cur) <= p < spec_aspect_offset(
                    b,
                    old_cur,
                ) + spec_ea_size(b)) && p < spec_block_offset(a, b, 0) implies d4[p] == d0[p] by {}
            lemma_confined_writes(d0, d4, a, b, old_cur);
            // the new inode and the rewritten parent and directory witness
            // the ensured layout
            assert forall|nd: INode, d: Dir|
                (inode as int) < b && old(self).gmap()[inode as int] && #[trigger] stored_as(
                    d0,
                    a,
                    b,
                    key,
                    inode as u32,
                    nd,
                ) && nd.data_block as u64 != inode && (nd.data_block as int) < b && old(self).gmap()[nd.data_block as int] && d.wf_rec() && #[trigger] stored_as(
                    d0,
                    a,
                    b,
                    key,
                    nd.data_block,
                    d,
                ) implies (stored_as(d4, a, b, key, inode as u32, nd) && exists|d2x: Dir|
                {
                    &&& d2x.wf_rec()
                    &&& #[trigger] stored_as(d4, a, b, key, nd.data_block, d2x)
                    &&& dir_contains(d2x.entries@, name@, c)
                    &&& (forall|n2: Seq<u8>, b2: u32|
                        n2 != name@ ==> (dir_contains(d2x.entries@, n2, b2) <==> dir_contains(
                            d.entries@,
                            n2,
                            b2,
                        )))
                }) by {
                assert(parent.eqv(&nd));
                assert(parent.enc() == nd.enc());
                assert(c as int != inode as int && c != parent.data_block);
                lemma_block_slots_disjoint(a, b, inode as int, c as int);
                lemma_block_slots_disjoint(a, b, parent.data_block as int, c as int);
                lemma_stored_bytes_preserved(
                    d3,
                    d4,
                    a,
                    b,
                    key,
                    inode as u32,
                    parent.enc(),
                    spec_block_offset(a, b, c as int),
                    spec_block_offset(a, b, c as int) + BLOCK_SIZE,
                );
                lemma_stored_bytes_preserved(
                    d3,
                    d4,
                    a,
                    b,
                    key,
                    parent.data_block,
                    dir.enc(),
                    spec_block_offset(a, b, c as int),
                    spec_block_offset(a, b, c as int) + BLOCK_SIZE,
                );
                crate::filefmt::lemma_entries_eqv_contains(dir0, d.entries@);
                assert(dir.wf_rec());
                assert(stored_as(d4, a, b, key, nd.data_block, dir));
                assert(dir_contains(dir.entries@, name@, c));
                assert(forall|n2: Seq<u8>, b2: u32|
                    n2 != name@ ==> (dir_contains(dir.entries@, n2, b2) <==> dir_contains(
                        d.entries@,
                        n2,
                        b2,
                    )));
            }
            assert(node == file_inode_of(self.super_block()));
            assert(stored_as(d4, a, b, key, c, file_inode_of(self.super_block())));
            assert(aspect_slot_bytes(d4, b, old_cur) == aspect_slot_bytes(d3, b, old_cur));
            assert(slot_seals(
                aspect_slot_bytes(d4, b, self.cur()),
                self.cur_aspect(),
                self.password(),
            ));
            assert(self.gmap() == old(self).gmap().update(c as int, true));
        }
        Ok(node.as_attr(c))
    }

    /// Append `data` to the open file `fh` of inode `ino`: split it into
    /// chunks of at most [`RAW_BLK_SIZE`] bytes, store each chunk in a
    /// freshly allocated block chained by `next_block`, link the chain from
    /// the previous terminal block (or from the inode on a fresh handle),
    /// advance the cursor to the last block, and re-seal the aspect.
    #[verifier::rlimit(100)]
    pub fn write(&mut self, ino: u64, fh: u64, data: &[u8]) -> (r: Result<usize, PinoqError>)
        requires
            old(self).wf(),
        ensures
            final(self).wf(),
            Self::same_core(old(self), final(self)),
            final(self).key() == old(self).key(),
            final(self).cur_aspect().root_block == old(self).cur_aspect().root_block,
            forall|j: int|
                0 <= j < old(self).blocks() && (#[trigger] old(self).gmap()[j]) ==> final(self).gmap()[j],
            forall|k: u64|
                k != fh ==> ((final(self).fds().contains_key(k) <==> old(self).fds().contains_key(
                    k,
                )) && (old(self).fds().contains_key(k) ==> final(self).fds()[k] == old(self).fds()[k])),
            final(self).disk().subrange(0, SUPER_BLOCK_SIZE as int) == old(self).disk().subrange(
                0,
                SUPER_BLOCK_SIZE as int,
            ),
            forall|j: int|
                0 <= j < old(self).aspects() && j != old(self).cur() ==> aspect_slot_bytes(
                    final(self).disk(),
                    old(self).blocks(),
                    j,
                ) == aspect_slot_bytes(old(self).disk(), old(self).blocks(), j),
            r matches Ok(n) ==> n == data@.len(),
            final(self).cur_aspect().wf(),
            final(self).cur_aspect().block_map@.len() == final(self).blocks(),
            r matches Err(e) ==> (e == PinoqError::NoEnoughSpace || e == PinoqError::Serialization
                || e == PinoqError::IO),
            write_inputs_ready(
                old(self).disk(),
                old(self).aspects(),
                old(self).blocks(),
                old(self).key(),
                old(self).gmap(),
                old(self).fds(),
                ino,
                fh,
                data@.len() as int,
            ) ==> r is Ok,
            r is Ok ==> (exists|bs: Seq<u32>| #[trigger] bs.len() >= 0 && {
                let a = final(self).aspects();
                let b = final(self).blocks();
                let key = final(self).key();
                &&& bs.len() == chunk_count(data@.len() as int)
                &&& (forall|q: int|
                    0 <= q < bs.len() ==> (bs[q] as int) < b && !old(self).gmap()[bs[q] as int])
                &&& (forall|q: int, q2: int| 0 <= q < q2 < bs.len() ==> bs[q] < bs[q2])
                &&& (forall|q: int, j: int|
                    #![trigger bs[q], old(self).gmap()[j]]
                    0 <= q < bs.len() && 0 <= j < bs[q] && !old(self).gmap()[j] ==> exists|q2: int|
                        0 <= q2 < q && bs[q2] == j)
                &&& (forall|j: int|
                    0 <= j < b ==> (final(self).gmap()[j] <==> (old(self).gmap()[j] || exists|
                        q: int,
                    |
                        0 <= q < bs.len() && bs[q] == j)))
                &&& (forall|j: int|
                    0 <= j < b ==> (final(self).cur_aspect().block_map@[j] <==> (old(self).cur_aspect().block_map@[j] || exists|q: int|
                        0 <= q < bs.len() && bs[q] == j)))
                &&& (forall|q: int|
                    0 <= q < bs.len() ==> #[trigger] stored_bytes(
                        final(self).disk(),
                        a,
                        b,
                        key,
                        bs[q],
                        block_enc(chain_next(bs, q), chunk_of(data@, q)),
                    ))
                &&& final(self).fds() == old(self).fds().insert(
                    fh,
                    Some(bs[bs.len() - 1]),
                )
                &&& ((!old(self).fds().contains_key(fh) || old(self).fds()[fh] is None) ==> (
                forall|nd: INode|
                    (ino as int) < b && old(self).gmap()[ino as int] && #[trigger] stored_as(
                        old(self).disk(),
                        a,
                        b,
                        key,
                        ino as u32,
                        nd,
                    ) ==> stored_as(
                        final(self).disk(),
                        a,
                        b,
                        key,
                        ino as u32,
                        INode { data_block: bs[0], ..nd },
                    )))
                &&& (forall|p: u32, blk: Block|
                    old(self).fds().contains_key(fh) && old(self).fds()[fh] == Some(p) && (
                    p as int) < b && old(self).gmap()[p as int] && blk.data@.len()
                        <= RAW_BLK_SIZE && #[trigger] stored_as(
                        old(self).disk(),
                        a,
                        b,
                        key,
                        p,
                        blk,
                    ) ==> stored_bytes(
                        final(self).disk(),
                        a,
                        b,
                        key,
                        p,
                        block_enc(bs[0], blk.data@),
                    ))
                &&& slot_seals(
                    aspect_slot_bytes(final(self).disk(), b, final(self).cur()),
                    final(self).cur_aspect(),
                    final(self).password(),
                )
            }),
    {
        let ghost a = old(self).aspects();
        let ghost b = old(self).blocks();
        let ghost key = old(self).key();
        let ghost d0 = old(self).disk();
        let ghost old_gmap = old(self).gmap();
        let ghost old_amap = old(self).cur_aspect().block_map@;
        let ghost old_fds = old(self).fds();
        let ghost old_root = old(self).cur_aspect().root_block;
        let ghost old_sb = old(self).super_block();
        let ghost old_cur = old(self).cur();
        let ghost old_pw = old(self).password();
        let cursor: Option<u32> = match self.fd_manager.get(fh) {
            Some(fd) => fd.next_block,
            None => {
                self.fd_manager.insert(fh, FileDescriptor { next_block: None });
                None
            },
        };
        let first = match self.allocate_block() {
            Ok(i) => i,
            Err(e) => {
                proof {
                    if write_inputs_ready(
                        d0,
                        a,
                        b,
                        key,
                        old_gmap,
                        old_fds,
                        ino,
                        fh,
                        data@.len() as int,
                    ) {
                        lemma_free_count_full(old_gmap);
                    }
                }
                return Err(e);
            },
        };
        // link the new chain from the previous terminal block, or from the
        // inode on a fresh handle
        match cursor {
            Some(p) => {
                if p as u64 >= self.sblock.blocks as u64 {
                    return Err(PinoqError::IO);
                }
                let mut blk: Block = match self.get_from_block(p) {
                    Ok(x) => x,
                    Err(e) => {
                        proof {
                            if write_inputs_ready(
                                d0,
                                a,
                                b,
                                key,
                                old_gmap,
                                old_fds,
                                ino,
                                fh,
                                data@.len() as int,
                            ) {
                                let blk0 = choose|blk0: Block|
                                    #[trigger] stored_as(d0, a, b, key, p, blk0) && blk0.data@.len()
                                        <= RAW_BLK_SIZE;
                                assert(false);
                            }
                        }
                        return Err(e);
                    },
                };
                if blk.data.len() > RAW_BLK_SIZE {
                    proof {
                        if write_inputs_ready(
                            d0,
                            a,
                            b,
                            key,
                            old_gmap,
                            old_fds,
                            ino,
                            fh,
                            data@.len() as int,
                        ) {
                            let blk0 = choose|blk0: Block|
                                #[trigger] stored_as(d0, a, b, key, p, blk0) && blk0.data@.len()
                                    <= RAW_BLK_SIZE;
                            assert(blk.eqv(&blk0));
                            assert(false);
                        }
                    }
                    return Err(PinoqError::IO);
                }
                blk.next_block = first;
                proof {
                    vstd::bytes::lemma_auto_spec_u32_to_from_le_bytes();
                    lemma_auto_spec_u64_to_from_le_bytes();
                    assert(blk.enc().len() <= 1007);
                }
                match self.store_to_block(&blk, p) {
                    Ok(()) => (),
                    Err(e) => {
                        return Err(e);
                    },
                };
            },
            None => {
                if ino >= self.sblock.blocks as u64 {
                    return Err(PinoqError::IO);
                }
                let mut nd: INode = match self.get_from_block(ino as u32) {
                    Ok(x) => x,
                    Err(e) => {
                        proof {
                            if write_inputs_ready(
                                d0,
                                a,
                                b,
                                key,
                                old_gmap,
                                old_fds,
                                ino,
                                fh,
                                data@.len() as int,
                            ) {
                                let nd0 = choose|nd0: INode|
                                    #[trigger] stored_as(d0, a, b, key, ino as u32, nd0);
                                assert(false);
                            }
                        }
                        return Err(e);
                    },
                };
                nd.data_block = first;
                proof {
                    vstd::bytes::lemma_auto_spec_u32_to_from_le_bytes();
                    lemma_auto_spec_u64_to_from_le_bytes();
                    assert(nd.enc().len() == 28);
                }
                match self.store_to_block(&nd, ino as u32) {
                    Ok(()) => (),
                    Err(e) => {
                        return Err(e);
                    },
                };
            },
        };
        let ghost d_link = self.disk();
        let ghost fds_pre = self.fds();
        proof {
            // the new chain hangs off the previous terminal block or the inode
            if cursor is None {
                assert forall|nd: INode|
                    (ino as int) < b && old(self).gmap()[ino as int] && #[trigger] stored_as(
                        d0,
                        a,
                        b,
                        key,
                        ino as u32,
                        nd,
                    ) implies stored_as(
                    d_link,
                    a,
                    b,
                    key,
                    ino as u32,
                    INode { data_block: first, ..nd },
                ) by {}
            } else {
                assert forall|p: u32, blk2: Block|
                    cursor == Some(p) && (p as int) < b && old(self).gmap()[p as int]
                        && blk2.data@.len() <= RAW_BLK_SIZE && #[trigger] stored_as(
                        d0,
                        a,
                        b,
                        key,
                        p,
                        blk2,
                    ) implies stored_bytes(d_link, a, b, key, p, block_enc(first, blk2.data@)) by {
                    vstd::bytes::lemma_auto_spec_u32_to_from_le_bytes();
                    lemma_auto_spec_u64_to_from_le_bytes();
                }
            }
        }
        let total = data.len();
        let m: usize = if total == 0 {
            1
        } else {
            (total - 1) / RAW_BLK_SIZE + 1
        };
        proof {
            assert(m == chunk_count(total as int));
            if total > 0 {
                vstd::arithmetic::div_mod::lemma_fundamental_div_mod(
                    total as int - 1,
                    RAW_BLK_SIZE as int,
                );
            }
            assert((m - 1) * RAW_BLK_SIZE <= total);
        }
        let mut q: usize = 0;
        let mut current: u32 = first;
        let mut last: u32 = first;
        let ghost mut bs: Seq<u32> = seq![first];
        proof {
            assert(bs[0] == first);
            assert forall|j: int| 0 <= j < b implies (self.gmap()[j] <==> (old(self).gmap()[j]
                || exists|qq: int| 0 <= qq < bs.len() && bs[qq] == j)) by {
                if j == first as int {
                    assert(bs[0] == j);
                }
            }
            assert forall|j: int| 0 <= j < b implies (self.cur_aspect().block_map@[j] <==> (
            old_amap[j] || exists|qq: int| 0 <= qq < bs.len() && bs[qq] == j)) by {
                if j == first as int {
                    assert(bs[0] == j);
                }
            }
            assert forall|j: int| 0 <= j <= bs[bs.len() - 1] implies self.gmap()[j] by {
                assert(self.gmap() == old_gmap.update(first as int, true));
            }
            if write_inputs_ready(d0, a, b, key, old_gmap, old_fds, ino, fh, total as int) {
                lemma_free_count_update(old_gmap, first as int);
            }
        }
        while q < m
            invariant
                q <= m,
                m == chunk_count(total as int),
                total == data@.len(),
                (m - 1) * RAW_BLK_SIZE <= total,
                total <= m * RAW_BLK_SIZE,
                self.wf(),
                old(self).wf(),
                a == old(self).aspects() && b == old(self).blocks() && key == old(self).key(),
                d0 == old(self).disk(),
                old_gmap == old(self).gmap(),
                old_amap == old(self).cur_aspect().block_map@,
                old_fds == old(self).fds(),
                old_root == old(self).cur_aspect().root_block,
                old_sb == old(self).super_block(),
                old_cur == old(self).cur(),
                old_pw == old(self).password(),
                a == self.aspects() && b == self.blocks() && key == self.key(),
                self.super_block() == old_sb,
                self.cur() == old_cur,
                self.password() == old_pw,
                self.cur_aspect().root_block == old_root,
                d0.len() == self.disk().len(),
                d_link.len() == d0.len(),
                0 <= old_cur < a,
                bs[0] == first,
                self.fds() == fds_pre,
                q == m ==> last == bs[m - 1],
                fds_pre == old_fds || fds_pre == old_fds.insert(fh, None),
                (!old_fds.contains_key(fh) || old_fds[fh] is None) ==> (forall|nd: INode|
                    (ino as int) < b && old_gmap[ino as int] && #[trigger] stored_as(
                        d0,
                        a,
                        b,
                        key,
                        ino as u32,
                        nd,
                    ) ==> stored_as(
                        d_link,
                        a,
                        b,
                        key,
                        ino as u32,
                        INode { data_block: first, ..nd },
                    )),
                forall|p: u32, blk2: Block|
                    old_fds.contains_key(fh) && old_fds[fh] == Some(p) && (p as int) < b
                        && old_gmap[p as int] && blk2.data@.len() <= RAW_BLK_SIZE
                        && #[trigger] stored_as(d0, a, b, key, p, blk2) ==> stored_bytes(
                        d_link,
                        a,
                        b,
                        key,
                        p,
                        block_enc(first, blk2.data@),
                    ),
                bs.len() == (if q < m {
                    q + 1
                } else {
                    m as int
                }),
                q < m ==> current == bs[q as int],
                forall|qq: int|
                    0 <= qq < bs.len() ==> (bs[qq] as int) < b && !old_gmap[bs[qq] as int],
                forall|qq: int, q2: int| 0 <= qq < q2 < bs.len() ==> bs[qq] < bs[q2],
                forall|j: int| 0 <= j <= bs[bs.len() - 1] ==> self.gmap()[j],
                forall|qq: int, j: int|
                    #![trigger bs[qq], old_gmap[j]]
                    0 <= qq < bs.len() && 0 <= j < bs[qq] && !old_gmap[j] ==> exists|q2: int|
                        0 <= q2 < qq && bs[q2] == j,
                self.gmap().len() == b,
                self.cur_aspect().block_map@.len() == b,
                forall|j: int|
                    0 <= j < b ==> (self.gmap()[j] <==> (old_gmap[j] || exists|qq: int|
                        0 <= qq < bs.len() && bs[qq] == j)),
                forall|j: int|
                    0 <= j < b ==> (self.cur_aspect().block_map@[j] <==> (old_amap[j] || exists|
                        qq: int,
                    |
                        0 <= qq < bs.len() && bs[qq] == j)),
                write_inputs_ready(d0, a, b, key, old_gmap, old_fds, ino, fh, total as int)
                    ==> free_count(self.gmap()) + bs.len() >= m as int,
                forall|pt: int|
                    0 <= pt < d0.len() && pt < spec_block_offset(a, b, 0) ==> self.disk()[pt]
                        == d0[pt],
                forall|mm: u32|
                    (mm as int) < b && (#[trigger] old_gmap[mm as int]) ==> block_slot_bytes(
                        self.disk(),
                        a,
                        b,
                        mm as int,
                    ) == block_slot_bytes(d_link, a, b, mm as int),
                forall|qq: int|
                    0 <= qq < q ==> #[trigger] stored_bytes(
                        self.disk(),
                        a,
                        b,
                        key,
                        bs[qq],
                        block_enc(chain_next(bs, qq), chunk_of(data@, qq)),
                    ),
            decreases m - q,
        {
            proof {
                assert(q * RAW_BLK_SIZE <= (m - 1) * RAW_BLK_SIZE) by (nonlinear_arith)
                    requires
                        q < m,
                        0 < RAW_BLK_SIZE,
                ;
            }
            let start = q * RAW_BLK_SIZE;
            let end = if total - start > RAW_BLK_SIZE {
                start + RAW_BLK_SIZE
            } else {
                total
            };
            let is_last = q + 1 == m;
            proof {
                if !is_last {
                    assert((q + 1) * RAW_BLK_SIZE <= (m - 1) * RAW_BLK_SIZE) by (nonlinear_arith)
                        requires
                            q + 1 < m,
                            0 < RAW_BLK_SIZE,
                    ;
                    assert((q + 1) * RAW_BLK_SIZE == q * RAW_BLK_SIZE + RAW_BLK_SIZE)
                        by (nonlinear_arith);
                    assert(end == start + RAW_BLK_SIZE);
                } else {
                    assert(m * RAW_BLK_SIZE == (m - 1) * RAW_BLK_SIZE + RAW_BLK_SIZE)
                        by (nonlinear_arith);
                    assert(end == total);
                }
            }
            let ghost gpre = self.gmap();
            let ghost apre = self.cur_aspect().block_map@;
            proof {
                // restate the aspect-map invariant over the snapshot, so the
                // step proofs below can instantiate it
                assert(forall|j: int|
                    0 <= j < b ==> ((#[trigger] apre[j]) <==> (old_amap[j] || exists|qq: int|
                        0 <= qq < bs.len() && bs[qq] == j)));
            }
            let next: u32 = if is_last {
                NO_BLOCK
            } else {
                match self.allocate_block() {
                    Ok(i) => i,
                    Err(e) => {
                        proof {
                            lemma_confined_writes(d0, self.disk(), a, b, old_cur);
                            if write_inputs_ready(
                                d0,
                                a,
                                b,
                                key,
                                old_gmap,
                                old_fds,
                                ino,
                                fh,
                                total as int,
                            ) {
                                lemma_free_count_full(gpre);
                            }
                        }
                        return Err(e);
                    },
                }
            };
            let ghost bs0 = bs;
            proof {
                if !is_last {
                    bs = bs.push(next);
                    assert(self.gmap() == gpre.update(next as int, true));
                    assert(self.cur_aspect().block_map@ == apre.update(next as int, true));
                    assert forall|j: int| 0 <= j < b implies (self.gmap()[j] <==> (old_gmap[j]
                        || exists|qq: int| 0 <= qq < bs.len() && bs[qq] == j)) by {
                        if self.gmap()[j] {
                            if j == next as int {
                                assert(bs[bs.len() - 1] == j);
                            } else {
                                assert(gpre[j] == self.gmap()[j]);
                                if !old_gmap[j] {
                                    let qq = choose|qq: int|
                                        0 <= qq < bs0.len() && bs0[qq] == j;
                                    assert(bs[qq] == j);
                                }
                            }
                        } else {
                            if exists|qq: int| 0 <= qq < bs.len() && bs[qq] == j {
                                let qq = choose|qq: int| 0 <= qq < bs.len() && bs[qq] == j;
                                assert(qq < bs0.len() || j == next as int);
                            }
                        }
                    }
                    let anow = self.cur_aspect().block_map@;
                    assert(anow == apre.update(next as int, true));
                    assert(apre.len() == b);
                    assert forall|j: int| 0 <= j < b implies (anow[j] <==> (old_amap[j] || exists|
                        qq: int,
                    |
                        0 <= qq < bs.len() && bs[qq] == j)) by {
                        if anow[j] {
                            if j == next as int {
                                assert(bs[bs.len() - 1] == j);
                            } else {
                                assert(apre[j] == anow[j]);
                                if !old_amap[j] {
                                    assert(apre[j] <==> (old_amap[j] || exists|qq: int|
                                        0 <= qq < bs0.len() && bs0[qq] == j));
                                    let qq = choose|qq: int|
                                        0 <= qq < bs0.len() && bs0[qq] == j;
                                    assert(bs[qq] == j);
                                }
                            }
                        } else {
                            if exists|qq: int| 0 <= qq < bs.len() && bs[qq] == j {
                                let qq = choose|qq: int| 0 <= qq < bs.len() && bs[qq] == j;
                                assert(qq < bs0.len() || j == next as int);
                                if qq < bs0.len() {
                                    assert(apre[j]);
                                }
                            }
                        }
                    }
                    // the new block sits past every earlier one: everything
                    // below the last allocation is already marked in-use
                    assert forall|q1: int, q2: int| 0 <= q1 < q2 < bs.len() implies bs[q1]
                        < bs[q2] by {
                        if q2 == bs.len() - 1 {
                            assert(bs[q1] == bs0[q1]);
                            assert(bs0[q1] <= bs0[bs0.len() - 1]);
                            if next <= bs0[q1] {
                                assert(gpre[next as int]);
                            }
                        } else {
                            assert(bs[q1] == bs0[q1] && bs[q2] == bs0[q2]);
                        }
                    }
                    assert forall|j: int| 0 <= j <= bs[bs.len() - 1] implies self.gmap()[j] by {
                        if j < next as int {
                            assert(gpre[j]);
                        }
                    }
                    assert forall|qq: int, j: int|
                        #![trigger bs[qq], old_gmap[j]]
                        0 <= qq < bs.len() && 0 <= j < bs[qq] && !old_gmap[j] implies exists|
                        q2: int,
                    |
                        0 <= q2 < qq && bs[q2] == j by {
                        if qq < bs0.len() {
                            assert(bs0[qq] == bs[qq]);
                            let q2 = choose|q2: int| 0 <= q2 < qq && bs0[q2] == j;
                            assert(bs[q2] == j);
                        } else {
                            assert(bs[qq] == next);
                            assert(gpre[j]);
                            let q2 = choose|q2: int| 0 <= q2 < bs0.len() && bs0[q2] == j;
                            assert(bs[q2] == j);
                        }
                    }
                    if write_inputs_ready(d0, a, b, key, old_gmap, old_fds, ino, fh, total as int) {
                        lemma_free_count_update(gpre, next as int);
                    }
                }
            }
            let payload = vstd::slice::slice_to_vec(
                vstd::slice::slice_subrange(data, start, end),
            );
            let blk = Block { next_block: next, data: payload };
            proof {
                vstd::bytes::lemma_auto_spec_u32_to_from_le_bytes();
                lemma_auto_spec_u64_to_from_le_bytes();
                assert(blk.enc().len() <= 1007);
                assert(blk.enc() == block_enc(chain_next(bs, q as int), chunk_of(data@, q as int)))
                    by {
                    assert(chunk_of(data@, q as int) =~= data@.subrange(start as int, end as int));
                }
            }
            let ghost dpre = self.disk();
            match self.store_to_block(&blk, current) {
                Ok(()) => (),
                Err(e) => {
                    return Err(e);
                },
            };
            proof {
                lemma_block_slot_range(a, b, current as int);
                // earlier chunks, already-allocated slots, and the head of
                // the volume are untouched by this store
                assert forall|qq: int| 0 <= qq < q + 1 implies #[trigger] stored_bytes(
                    self.disk(),
                    a,
                    b,
                    key,
                    bs[qq],
                    block_enc(chain_next(bs, qq), chunk_of(data@, qq)),
                ) by {
                    if qq < q as int {
                        assert(bs[qq] == bs0[qq]);
                        assert(chain_next(bs, qq) == chain_next(bs0, qq));
                        assert(stored_bytes(
                            dpre,
                            a,
                            b,
                            key,
                            bs0[qq],
                            block_enc(chain_next(bs0, qq), chunk_of(data@, qq)),
                        ));
                        lemma_block_slots_disjoint(a, b, bs[qq] as int, current as int);
                        lemma_stored_bytes_preserved(
                            dpre,
                            self.disk(),
                            a,
                            b,
                            key,
                            bs[qq],
                            block_enc(chain_next(bs, qq), chunk_of(data@, qq)),
                            spec_block_offset(a, b, current as int),
                            spec_block_offset(a, b, current as int) + BLOCK_SIZE,
                        );
                    } else {
                        assert(chain_next(bs, qq) == next);
                    }
                }
                assert forall|mm: u32|
                    (mm as int) < b && (#[trigger] old_gmap[mm as int]) implies block_slot_bytes(
                    self.disk(),
                    a,
                    b,
                    mm as int,
                ) == block_slot_bytes(d_link, a, b, mm as int) by {
                    lemma_block_slots_disjoint(a, b, mm as int, current as int);
                    lemma_block_slot_range(a, b, mm as int);
                    assert(block_slot_bytes(self.disk(), a, b, mm as int) =~= block_slot_bytes(
                        dpre,
                        a,
                        b,
                        mm as int,
                    ));
                }
            }
            if is_last {
                last = current;
            }
            current = next;
            q = q + 1;
        }
        let ghost amap_exit = self.cur_aspect().block_map@;
        proof {
            // restate the loop's aspect-map shape over the snapshot before
            // the cursor and the seal move the state on
            assert(forall|j: int|
                0 <= j < b ==> ((#[trigger] amap_exit[j]) <==> (old_amap[j] || exists|qq: int|
                    0 <= qq < bs.len() && bs[qq] == j)));
        }
        self.fd_manager.insert(fh, FileDescriptor { next_block: Some(last) });
        let ghost d_chunks = self.disk();
        let r = self.store_aspect(self.config.current.aspect);
        match r {
            Ok(()) => {
                proof {
                    let dfin = self.disk();
                    lemma_aspect_slot_range(a, b, self.cur());
                    // the aspect seal stays clear of the data region
                    assert forall|qq: int| 0 <= qq < m implies #[trigger] stored_bytes(
                        dfin,
                        a,
                        b,
                        key,
                        bs[qq],
                        block_enc(chain_next(bs, qq), chunk_of(data@, qq)),
                    ) by {
                        lemma_block_slot_range(a, b, bs[qq] as int);
                        lemma_stored_bytes_preserved(
                            d_chunks,
                            dfin,
                            a,
                            b,
                            key,
                            bs[qq],
                            block_enc(chain_next(bs, qq), chunk_of(data@, qq)),
                            spec_aspect_offset(b, self.cur()),
                            spec_aspect_offset(b, self.cur()) + spec_ea_size(b),
                        );
                    }
                    // the link written before the chunks still stands
                    assert forall|mm: u32|
                        (mm as int) < b && (#[trigger] old(self).gmap()[mm as int])
                            implies block_slot_bytes(dfin, a, b, mm as int) == block_slot_bytes(
                        d_link,
                        a,
                        b,
                        mm as int,
                    ) by {
                        lemma_block_slot_range(a, b, mm as int);
                        assert(block_slot_bytes(dfin, a, b, mm as int) =~= block_slot_bytes(
                            d_chunks,
                            a,
                            b,
                            mm as int,
                        ));
                    }
                    // every byte before the data region, outside the sealed
                    // slot, is as it was
                    assert forall|pt: int|
                        0 <= pt < d0.len() && !(spec_aspect_offset(b, self.cur()) <= pt
                            < spec_aspect_offset(b, self.cur()) + spec_ea_size(b)) && pt
                            < spec_block_offset(a, b, 0) implies dfin[pt] == d0[pt] by {}
                    lemma_confined_writes(d0, dfin, a, b, self.cur());
                    // the chain facts transfer from the linking snapshot
                    assert forall|nd: INode|
                        (!old(self).fds().contains_key(fh) || old(self).fds()[fh] is None) && (
                        ino as int) < b && old(self).gmap()[ino as int] && #[trigger] stored_as(
                            d0,
                            a,
                            b,
                            key,
                            ino as u32,
                            nd,
                        ) implies stored_as(
                        dfin,
                        a,
                        b,
                        key,
                        ino as u32,
                        INode { data_block: bs[0], ..nd },
                    ) by {
                        assert(block_slot_bytes(dfin, a, b, ino as int) == block_slot_bytes(
                            d_link,
                            a,
                            b,
                            ino as int,
                        ));
                        lemma_stored_bytes_slot_eq(
                            d_link,
                            dfin,
                            a,
                            b,
                            key,
                            ino as u32,
                            (INode { data_block: bs[0], ..nd }).enc(),
                        );
                    }
                    assert forall|p: u32, blk2: Block|
                        old(self).fds().contains_key(fh) && old(self).fds()[fh] == Some(p) && (
                        p as int) < b && old(self).gmap()[p as int] && blk2.data@.len()
                            <= RAW_BLK_SIZE && #[trigger] stored_as(
                            d0,
                            a,
                            b,
                            key,
                            p,
                            blk2,
                        ) implies stored_bytes(dfin, a, b, key, p, block_enc(bs[0], blk2.data@)) by {
                        assert(block_slot_bytes(dfin, a, b, p as int) == block_slot_bytes(
                            d_link,
                            a,
                            b,
                            p as int,
                        ));
                        lemma_stored_bytes_slot_eq(
                            d_link,
                            dfin,
                            a,
                            b,
                            key,
                            p,
                            block_enc(bs[0], blk2.data@),
                        );
                    }
                    assert(self.fds() =~= old(self).fds().insert(fh, Some(bs[m - 1])));
                    assert(old_amap == old(self).cur_aspect().block_map@);
                    assert(self.cur_aspect().block_map@ == amap_exit);
                    assert forall|j: int|
                        0 <= j < b implies (self.cur_aspect().block_map@[j] <==> (old(self).cur_aspect().block_map@[j] || exists|qq: int|
                        0 <= qq < bs.len() && bs[qq] == j)) by {
                        assert(amap_exit[j] <==> (old_amap[j] || exists|qq: int|
                            0 <= qq < bs.len() && bs[qq] == j));
                    }
                    assert(bs.len() >= 0 && {
                        &&& bs.len() == chunk_count(data@.len() as int)
                        &&& (forall|qq: int|
                            0 <= qq < bs.len() ==> (bs[qq] as int) < b && !old(self).gmap()[bs[qq] as int])
                        &&& (forall|qq: int, q2: int| 0 <= qq < q2 < bs.len() ==> bs[qq] < bs[q2])
                        &&& (forall|qq: int, j: int|
                            #![trigger bs[qq], old(self).gmap()[j]]
                            0 <= qq < bs.len() && 0 <= j < bs[qq] && !old(self).gmap()[j]
                                ==> exists|q2: int| 0 <= q2 < qq && bs[q2] == j)
                        &&& (forall|j: int|
                            0 <= j < b ==> (self.gmap()[j] <==> (old(self).gmap()[j] || exists|
                                qq: int,
                            |
                                0 <= qq < bs.len() && bs[qq] == j)))
                        &&& (forall|j: int|
                            0 <= j < b ==> (self.cur_aspect().block_map@[j] <==> (old(self).cur_aspect().block_map@[j] || exists|qq: int|
                                0 <= qq < bs.len() && bs[qq] == j)))
                    });
                }
                Ok(total)
            },
            Err(e) => Err(e),
        }
    }

    /// Bootstrap the root directory at mount time: if the mounted aspect has
    /// no root yet, allocate a block for the root inode and one for an empty
    /// directory, write both, and re-seal the aspect. An aspect with a root
    /// is left exactly as it is.
    pub fn init_root(&mut self) -> (r: Result<(), PinoqError>)
        requires
            old(self).wf(),
        ensures
            final(self).wf(),
            Self::same_core(old(self), final(self)),
            final(self).fds() == old(self).fds(),
            final(self).key() == old(self).key(),
            r is Ok ==> final(self).cur_aspect().root_block != NO_BLOCK,
            old(self).cur_aspect().root_block != NO_BLOCK ==> r is Ok && final(self).disk() == old(self).disk() && final(self).gmap() == old(self).gmap() && final(self).cur_aspect().block_map@ == old(self).cur_aspect().block_map@ && final(self).cur_aspect().root_block == old(self).cur_aspect().root_block,
            forall|j: int|
                0 <= j < old(self).blocks() && (#[trigger] old(self).gmap()[j]) ==> final(self).gmap()[j],
            forall|j: int|
                0 <= j < old(self).blocks() && (#[trigger] old(self).cur_aspect().block_map@[j])
                    ==> final(self).cur_aspect().block_map@[j],
            final(self).cur_aspect().wf(),
            final(self).cur_aspect().block_map@.len() == final(self).blocks(),
            (old(self).cur_aspect().root_block == NO_BLOCK && r is Ok) ==> ({
                let rb = final(self).cur_aspect().root_block;
                &&& (rb as int) < final(self).blocks()
                &&& !old(self).gmap()[rb as int]
                &&& (forall|j: int| 0 <= j < rb ==> old(self).gmap()[j])
                &&& exists|db: u32|
                    (db as int) < final(self).blocks() && #[trigger] stored_as(
                        final(self).disk(),
                        final(self).aspects(),
                        final(self).blocks(),
                        final(self).key(),
                        rb,
                        root_inode_of(final(self).super_block(), db),
                    ) && stored_bytes(
                        final(self).disk(),
                        final(self).aspects(),
                        final(self).blocks(),
                        final(self).key(),
                        db,
                        empty_dir_enc(),
                    ) && rb < db && !old(self).gmap()[db as int] && (forall|j: int|
                        0 <= j < db && j != rb ==> old(self).gmap()[j]) && final(self).gmap()
                        == old(self).gmap().update(rb as int, true).update(db as int, true)
                        && final(self).cur_aspect().block_map@ == old(self).cur_aspect().block_map@.update(rb as int, true).update(db as int, true)
                &&& slot_seals(
                    aspect_slot_bytes(final(self).disk(), final(self).blocks(), final(self).cur()),
                    final(self).cur_aspect(),
                    final(self).password(),
                )
            }),
            final(self).disk().subrange(0, SUPER_BLOCK_SIZE as int) == old(self).disk().subrange(
                0,
                SUPER_BLOCK_SIZE as int,
            ),
            forall|j: int|
                0 <= j < old(self).aspects() && j != old(self).cur() ==> aspect_slot_bytes(
                    final(self).disk(),
                    old(self).blocks(),
                    j,
                ) == aspect_slot_bytes(old(self).disk(), old(self).blocks(), j),
            forall|m: u32|
                (m as int) < old(self).blocks() && (#[trigger] old(self).gmap()[m as int])
                    ==> block_slot_bytes(
                    final(self).disk(),
                    old(self).aspects(),
                    old(self).blocks(),
                    m as int,
                ) == block_slot_bytes(
                    old(self).disk(),
                    old(self).aspects(),
                    old(self).blocks(),
                    m as int,
                ),
            r matches Err(e) ==> e == PinoqError::NoEnoughSpace && old(self).cur_aspect().root_block == NO_BLOCK,
            (old(self).cur_aspect().root_block == NO_BLOCK && exists|i: int, j: int|
                #![trigger old(self).gmap()[i], old(self).gmap()[j]]
                0 <= i < j < old(self).blocks() && !old(self).gmap()[i] && !old(self).gmap()[j])
                ==> r is Ok,
    {
        if self.aspect.has_root_block() {
            return Ok(());
        }
        let root_block_index = match self.allocate_block() {
            Ok(i) => i,
            Err(e) => {
                return Err(e);
            },
        };
        let data_block_index = match self.allocate_block() {
            Ok(i) => i,
            Err(e) => {
                proof {
                    if exists|i: int, j: int|
                        #![trigger old(self).gmap()[i], old(self).gmap()[j]]
                        0 <= i < j < old(self).blocks() && !old(self).gmap()[i] && !old(self).gmap()[j] {
                        let (i, j) = choose|i: int, j: int|
                            #![trigger old(self).gmap()[i], old(self).gmap()[j]]
                            0 <= i < j < old(self).blocks() && !old(self).gmap()[i] && !old(self).gmap()[j];
                        if i == root_block_index as int {
                            assert(self.gmap()[j] == false);
                        } else {
                            assert(self.gmap()[i] == false);
                        }
                        assert(false);
                    }
                }
                return Err(e);
            },
        };
        let ghost d0 = self.disk();
        self.aspect.root_block = root_block_index;
        let mut root_node = INode::new(S_IFDIR, self.sblock.uid, self.sblock.gid);
        root_node.block_size = BLOCK_SIZE as u32;
        root_node.data_block = data_block_index;
        let directory = Dir::empty();
        proof {
            vstd::bytes::lemma_auto_spec_u32_to_from_le_bytes();
            lemma_auto_spec_u64_to_from_le_bytes();
            assert(root_node.enc().len() == 28);
            assert(directory.enc().len() == 8);
            assert(root_node == root_inode_of(self.super_block(), data_block_index));
            assert(crate::filefmt::enc_entries(directory.entries@) == Seq::<u8>::empty());
            assert(directory.enc() =~= empty_dir_enc());
        }
        match self.store_to_block(&root_node, root_block_index) {
            Ok(()) => (),
            Err(e) => {
                return Err(e);
            },
        };
        let ghost d1 = self.disk();
        match self.store_to_block(&directory, data_block_index) {
            Ok(()) => (),
            Err(e) => {
                return Err(e);
            },
        };
        let ghost d2 = self.disk();
        let r = self.store_aspect(self.config.current.aspect);
        proof {
            let a = self.aspects();
            let b = self.blocks();
            let cur = self.cur();
            let key = self.key();
            let rb = root_block_index;
            let db = data_block_index;
            let d3 = self.disk();
            lemma_block_slot_range(a, b, rb as int);
            lemma_block_slot_range(a, b, db as int);
            lemma_aspect_slot_range(a, b, cur);
            lemma_block_slots_disjoint(a, b, rb as int, db as int);
            // the root inode survives the directory write and the aspect seal
            lemma_stored_bytes_preserved(
                d1,
                d2,
                a,
                b,
                key,
                rb,
                root_inode_of(self.super_block(), db).enc(),
                spec_block_offset(a, b, db as int),
                spec_block_offset(a, b, db as int) + BLOCK_SIZE,
            );
            lemma_stored_bytes_preserved(
                d2,
                d3,
                a,
                b,
                key,
                rb,
                root_inode_of(self.super_block(), db).enc(),
                spec_aspect_offset(b, cur),
                spec_aspect_offset(b, cur) + spec_ea_size(b),
            );
            // the empty directory survives the aspect seal
            lemma_stored_bytes_preserved(
                d2,
                d3,
                a,
                b,
                key,
                db,
                empty_dir_enc(),
                spec_aspect_offset(b, cur),
                spec_aspect_offset(b, cur) + spec_ea_size(b),
            );
            // all writes stayed inside the two block slots and the current
            // aspect slot
            assert forall|p: int|
                0 <= p < d0.len() && !(spec_aspect_offset(b, cur) <= p < spec_aspect_offset(b, cur)
                    + spec_ea_size(b)) && p < spec_block_offset(a, b, 0) implies d3[p] == d0[p] by {
                lemma_block_slot_range(a, b, rb as int);
                lemma_block_slot_range(a, b, db as int);
            }
            lemma_confined_writes(d0, d3, a, b, cur);
            // the two fresh blocks witness the ensured root layout: they are
            // the two lowest free blocks, in order, now owned in both maps
            assert(rb < db) by {
                if db <= rb {
                    assert(old(self).gmap()[db as int]);
                }
            }
            assert(self.gmap() == old(self).gmap().update(rb as int, true).update(db as int, true));
            assert(self.cur_aspect().block_map@ == old(self).cur_aspect().block_map@.update(
                rb as int,
                true,
            ).update(db as int, true));
            assert(!old(self).gmap()[db as int]) by {
                assert(old(self).gmap().update(rb as int, true)[db as int] == false);
            }
            assert forall|j: int| 0 <= j < db && j != rb implies old(self).gmap()[j] by {
                assert(old(self).gmap().update(rb as int, true)[j] == true);
            }
            assert((db as int) < b && stored_as(
                d3,
                a,
                b,
                key,
                rb,
                root_inode_of(self.super_block(), db),
            ) && stored_bytes(d3, a, b, key, db, empty_dir_enc()) && rb < db && !old(self).gmap()[db as int]
                && (forall|j: int| 0 <= j < db && j != rb ==> old(self).gmap()[j]));
            // slots of blocks that were already allocated are untouched
            assert forall|m: u32|
                (m as int) < b && (#[trigger] old(self).gmap()[m as int]) implies block_slot_bytes(
                d3,
                a,
                b,
                m as int,
            ) == block_slot_bytes(d0, a, b, m as int) by {
                lemma_block_slot_range(a, b, m as int);
                lemma_block_slots_disjoint(a, b, m as int, rb as int);
                lemma_block_slots_disjoint(a, b, m as int, db as int);
                assert(block_slot_bytes(d3, a, b, m as int) =~= block_slot_bytes(
                    d0,
                    a,
                    b,
                    m as int,
                ));
            }
        }
        r
    }

    /// The lowest free block, if any: the first index clear in the global
    /// map.
    pub fn find_free_block(&self) -> (r: Option<u32>)
        requires
            self.wf(),
        ensures
            match r {
                Some(i) => (i as int) < self.blocks() && self.gmap()[i as int] == false && forall|
                    j: int,
                |
                    0 <= j < i ==> self.gmap()[j] == true,
                None => forall|j: int| 0 <= j < self.blocks() ==> self.gmap()[j] == true,
            },
    {
        let mut i: usize = 0;
        let n = self.block_map.len();
        while i < n
            invariant
                i <= n,
                n == self.gmap().len(),
                n == self.blocks(),
                self.blocks() <= u32::MAX,
                forall|j: int| 0 <= j < i ==> self.gmap()[j] == true,
            decreases n - i,
        {
            if !self.block_map[i] {
                return Some(i as u32);
            }
            i = i + 1;
        }
        None
    }

    /// Claim the lowest free block for the mounted aspect: set its bit in the
    /// global map and in the aspect's own map. The caller must persist the
    /// aspect afterwards. Fails only when no block is free.
    pub fn allocate_block(&mut self) -> (r: Result<u32, PinoqError>)
        requires
            old(self).wf(),
        ensures
            final(self).wf(),
            Self::same_core(old(self), final(self)),
            final(self).disk() == old(self).disk(),
            final(self).fds() == old(self).fds(),
            final(self).key() == old(self).key(),
            final(self).cur_aspect().root_block == old(self).cur_aspect().root_block,
            match r {
                Ok(i) => {
                    &&& (i as int) < old(self).blocks()
                    &&& old(self).gmap()[i as int] == false
                    &&& forall|j: int| 0 <= j < i ==> old(self).gmap()[j] == true
                    &&& final(self).gmap() == old(self).gmap().update(i as int, true)
                    &&& final(self).cur_aspect().block_map@ == old(self).cur_aspect().block_map@.update(i as int, true)
                },
                Err(e) => {
                    &&& e == PinoqError::NoEnoughSpace
                    &&& (forall|j: int| 0 <= j < old(self).blocks() ==> old(self).gmap()[j] == true)
                    &&& final(self).gmap() == old(self).gmap()
                    &&& final(self).cur_aspect().block_map@ == old(self).cur_aspect().block_map@
                },
            },
    {
        let idx = match self.find_free_block() {
            Some(i) => i,
            None => {
                return Err(PinoqError::NoEnoughSpace);
            },
        };
        self.block_map[idx as usize] = true;
        self.aspect.block_map[idx as usize] = true;
        Ok(idx)
    }
}

} // verus!
