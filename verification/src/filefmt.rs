//! The typed records of the on-disk format and their byte codec: superblock,
//! aspect envelope, inode, directory, data block, and the encrypted block
//! framing.
//!
//! The encoding is length-prefixed binary: fixed-width little-endian integer
//! fields, a `u64` length prefix before byte strings and sequences, and
//! directory entries in strictly increasing name order. The aspect's root
//! block is big-endian inside the aspect plaintext.

use vstd::prelude::*;

use vstd::bytes::{
    spec_u32_to_le_bytes, spec_u32_from_le_bytes, spec_u64_to_le_bytes, spec_u64_from_le_bytes,
    lemma_auto_spec_u32_to_from_le_bytes, lemma_auto_spec_u64_to_from_le_bytes,
};
use vstd::slice::{slice_subrange, slice_to_vec};

use crate::codec::{
    bytes_lt, pack_bits, push_packed_bits, push_u32_be,
    push_u32_le, push_u64_le, read_u32_le, read_u64_le, lemma_concat_part, spec_u32_to_be_bytes,
    u32_to_be_vec,
};
use crate::encryption::{aes_enc, enc_len, encrypt, decrypt, iv_of, random_key, Key, IV};
use crate::error::PinoqError;

verus! {

/// Size in bytes of one block slot in the data region.
pub const BLOCK_SIZE: usize = 1024;

/// The volume magic, "PNOQ".
pub const MAGIC: u32 = 0x504E4F51;

/// Sentinel block index: "no block" (an uninitialized root, an inode without
/// data, or the last block of a chain).
pub const NO_BLOCK: u32 = 0xFFFFFFFF;

/// Encoded size in bytes of the superblock.
pub const SUPER_BLOCK_SIZE: usize = 20;

/// POSIX mode bit for a directory.
pub const S_IFDIR: u32 = 0o040000;

/// POSIX mode bit for a regular file.
pub const S_IFREG: u32 = 0o100000;

/// A record with a deterministic byte encoding.
///
/// `deserialize_from` recovers any well-formed record whose encoding is a
/// prefix of the input: for every record `R`, decoding `R`'s encoding gives
/// `R` back.
pub trait PinoqSerialize: Sized {
    /// Structural validity of the record.
    spec fn wf_rec(&self) -> bool;

    /// Semantic equality: both records hold the same content.
    spec fn eqv(&self, other: &Self) -> bool;

    /// The record's byte encoding.
    spec fn enc(&self) -> Seq<u8>;

    /// Append the record's encoding to `out`.
    fn serialize_into(&self, out: &mut Vec<u8>)
        requires
            self.wf_rec(),
        ensures
            final(out)@ == old(out)@ + self.enc(),
    ;

    /// Decode one record from a prefix of `b`; bytes past the record are
    /// ignored. Every well-formed record whose encoding prefixes `b` is
    /// recovered exactly.
    fn deserialize_from(b: &[u8]) -> (r: Result<Self, PinoqError>)
        ensures
            r matches Ok(x) ==> x.wf_rec() && x.enc().is_prefix_of(b@),
            forall|x: Self|
                x.wf_rec() && (#[trigger] x.enc()).is_prefix_of(b@) ==> (r matches Ok(y)
                    && y.eqv(&x)),
            r matches Err(e) ==> e == PinoqError::Serialization,
    ;
}

// ---------------------------------------------------------------------------
// SuperBlock
// ---------------------------------------------------------------------------

/// The plaintext volume header.
#[derive(Debug, Clone, Copy)]
pub struct SuperBlock {
    pub magic: u32,
    pub aspects: u32,
    pub blocks: u32,
    pub uid: u32,
    pub gid: u32,
}

impl SuperBlock {
    pub fn new(aspects: u32, blocks: u32, uid: u32, gid: u32) -> (r: Self)
        ensures
            r.magic == MAGIC,
            r.aspects == aspects,
            r.blocks == blocks,
            r.uid == uid,
            r.gid == gid,
    {
        Self { magic: MAGIC, aspects, blocks, uid, gid }
    }
}

impl PinoqSerialize for SuperBlock {
    open spec fn wf_rec(&self) -> bool {
        true
    }

    open spec fn eqv(&self, other: &Self) -> bool {
        self.magic == other.magic && self.aspects == other.aspects && self.blocks == other.blocks
            && self.uid == other.uid && self.gid == other.gid
    }

    open spec fn enc(&self) -> Seq<u8> {
        spec_u32_to_le_bytes(self.magic) + spec_u32_to_le_bytes(self.aspects)
            + spec_u32_to_le_bytes(self.blocks) + spec_u32_to_le_bytes(self.uid)
            + spec_u32_to_le_bytes(self.gid)
    }

    fn serialize_into(&self, out: &mut Vec<u8>) {
        push_u32_le(out, self.magic);
        push_u32_le(out, self.aspects);
        push_u32_le(out, self.blocks);
        push_u32_le(out, self.uid);
        push_u32_le(out, self.gid);
        proof {
            assert(out@ =~= old(out)@ + self.enc());
        }
    }

    fn deserialize_from(b: &[u8]) -> (r: Result<Self, PinoqError>) {
        proof {
            lemma_auto_spec_u32_to_from_le_bytes();
        }
        if b.len() < SUPER_BLOCK_SIZE {
            return Err(PinoqError::Serialization);
        }
        let magic = read_u32_le(b, 0);
        let aspects = read_u32_le(b, 4);
        let blocks = read_u32_le(b, 8);
        let uid = read_u32_le(b, 12);
        let gid = read_u32_le(b, 16);
        let sb = SuperBlock { magic, aspects, blocks, uid, gid };
        proof {
            assert(spec_u32_to_le_bytes(magic) == b@.subrange(0, 4));
            assert(spec_u32_to_le_bytes(aspects) == b@.subrange(4, 8));
            assert(spec_u32_to_le_bytes(blocks) == b@.subrange(8, 12));
            assert(spec_u32_to_le_bytes(uid) == b@.subrange(12, 16));
            assert(spec_u32_to_le_bytes(gid) == b@.subrange(16, 20));
            assert(sb.enc() =~= b@.subrange(0, 20));
            assert(sb.enc().is_prefix_of(b@));
            assert forall|x: SuperBlock|
                x.wf_rec() && (#[trigger] x.enc()).is_prefix_of(b@) implies x.eqv(&sb) by {
                lemma_concat_part(
                    Seq::<u8>::empty(),
                    spec_u32_to_le_bytes(x.magic),
                    spec_u32_to_le_bytes(x.aspects) + spec_u32_to_le_bytes(x.blocks)
                        + spec_u32_to_le_bytes(x.uid) + spec_u32_to_le_bytes(x.gid),
                    b@,
                );
                lemma_concat_part(
                    spec_u32_to_le_bytes(x.magic),
                    spec_u32_to_le_bytes(x.aspects),
                    spec_u32_to_le_bytes(x.blocks) + spec_u32_to_le_bytes(x.uid)
                        + spec_u32_to_le_bytes(x.gid),
                    b@,
                );
                lemma_concat_part(
                    spec_u32_to_le_bytes(x.magic) + spec_u32_to_le_bytes(x.aspects),
                    spec_u32_to_le_bytes(x.blocks),
                    spec_u32_to_le_bytes(x.uid) + spec_u32_to_le_bytes(x.gid),
                    b@,
                );
                lemma_concat_part(
                    spec_u32_to_le_bytes(x.magic) + spec_u32_to_le_bytes(x.aspects)
                        + spec_u32_to_le_bytes(x.blocks),
                    spec_u32_to_le_bytes(x.uid),
                    spec_u32_to_le_bytes(x.gid),
                    b@,
                );
                lemma_concat_part(
                    spec_u32_to_le_bytes(x.magic) + spec_u32_to_le_bytes(x.aspects)
                        + spec_u32_to_le_bytes(x.blocks) + spec_u32_to_le_bytes(x.uid),
                    spec_u32_to_le_bytes(x.gid),
                    Seq::<u8>::empty(),
                    b@,
                );
                assert(x.enc() =~= Seq::<u8>::empty() + spec_u32_to_le_bytes(x.magic) + (
                spec_u32_to_le_bytes(x.aspects) + spec_u32_to_le_bytes(x.blocks)
                    + spec_u32_to_le_bytes(x.uid) + spec_u32_to_le_bytes(x.gid)));
            }
        }
        Ok(sb)
    }
}

// ---------------------------------------------------------------------------
// EncryptedBlock
// ---------------------------------------------------------------------------

/// The framed ciphertext stored in one block slot: a `u64` length prefix and
/// the ciphertext bytes.
#[derive(Debug)]
pub struct EncryptedBlock(pub Vec<u8>);

impl PinoqSerialize for EncryptedBlock {
    open spec fn wf_rec(&self) -> bool {
        true
    }

    open spec fn eqv(&self, other: &Self) -> bool {
        self.0@ == other.0@
    }

    open spec fn enc(&self) -> Seq<u8> {
        spec_u64_to_le_bytes(self.0@.len() as u64) + self.0@
    }

    fn serialize_into(&self, out: &mut Vec<u8>) {
        push_u64_le(out, self.0.len() as u64);
        let mut data = slice_to_vec(self.0.as_slice());
        out.append(&mut data);
        proof {
            assert(out@ =~= old(out)@ + self.enc());
        }
    }

    fn deserialize_from(b: &[u8]) -> (r: Result<Self, PinoqError>) {
        proof {
            lemma_auto_spec_u64_to_from_le_bytes();
        }
        let blen = b.len();
        if blen < 8 {
            return Err(PinoqError::Serialization);
        }
        let len64 = read_u64_le(b, 0);
        proof {
            assert forall|x: EncryptedBlock| (#[trigger] x.enc()).is_prefix_of(b@) implies
                x.0@.len() as u64 == len64 && x.enc().len() == 8 + x.0@.len() by {
                lemma_concat_part(
                    Seq::<u8>::empty(),
                    spec_u64_to_le_bytes(x.0@.len() as u64),
                    x.0@,
                    b@,
                );
                assert(x.enc() =~= Seq::<u8>::empty() + spec_u64_to_le_bytes(x.0@.len() as u64)
                    + x.0@);
            }
        }
        if len64 > (blen - 8) as u64 {
            return Err(PinoqError::Serialization);
        }
        let len = len64 as usize;
        let data = slice_to_vec(slice_subrange(b, 8, 8 + len));
        let eb = EncryptedBlock(data);
        proof {
            assert(eb.enc() =~= b@.subrange(0, 8 + len as int));
            assert(eb.enc().is_prefix_of(b@));
            assert forall|x: EncryptedBlock|
                x.wf_rec() && (#[trigger] x.enc()).is_prefix_of(b@) implies x.eqv(&eb) by {
                lemma_concat_part(
                    spec_u64_to_le_bytes(x.0@.len() as u64),
                    x.0@,
                    Seq::<u8>::empty(),
                    b@,
                );
                assert(x.enc() =~= spec_u64_to_le_bytes(x.0@.len() as u64) + x.0@
                    + Seq::<u8>::empty());
            }
        }
        Ok(eb)
    }
}

// ---------------------------------------------------------------------------
// Block (a chained data block)
// ---------------------------------------------------------------------------

/// One data block of a file chain: the next block's index (`NO_BLOCK` on the
/// last block) and the payload bytes.
#[derive(Debug)]
pub struct Block {
    pub next_block: u32,
    pub data: Vec<u8>,
}

impl PinoqSerialize for Block {
    open spec fn wf_rec(&self) -> bool {
        true
    }

    open spec fn eqv(&self, other: &Self) -> bool {
        self.next_block == other.next_block && self.data@ == other.data@
    }

    open spec fn enc(&self) -> Seq<u8> {
        spec_u32_to_le_bytes(self.next_block) + spec_u64_to_le_bytes(self.data@.len() as u64)
            + self.data@
    }

    fn serialize_into(&self, out: &mut Vec<u8>) {
        push_u32_le(out, self.next_block);
        push_u64_le(out, self.data.len() as u64);
        let mut data = slice_to_vec(self.data.as_slice());
        out.append(&mut data);
        proof {
            assert(out@ =~= old(out)@ + self.enc());
        }
    }

    fn deserialize_from(b: &[u8]) -> (r: Result<Self, PinoqError>) {
        proof {
            lemma_auto_spec_u32_to_from_le_bytes();
            lemma_auto_spec_u64_to_from_le_bytes();
        }
        let blen = b.len();
        if blen < 12 {
            return Err(PinoqError::Serialization);
        }
        let next_block = read_u32_le(b, 0);
        let len64 = read_u64_le(b, 4);
        proof {
            assert forall|x: Block| (#[trigger] x.enc()).is_prefix_of(b@) implies
                x.next_block == next_block && x.data@.len() as u64 == len64 && x.enc().len() == 12
                + x.data@.len() by {
                lemma_concat_part(
                    Seq::<u8>::empty(),
                    spec_u32_to_le_bytes(x.next_block),
                    spec_u64_to_le_bytes(x.data@.len() as u64) + x.data@,
                    b@,
                );
                lemma_concat_part(
                    spec_u32_to_le_bytes(x.next_block),
                    spec_u64_to_le_bytes(x.data@.len() as u64),
                    x.data@,
                    b@,
                );
                assert(x.enc() =~= Seq::<u8>::empty() + spec_u32_to_le_bytes(x.next_block) + (
                spec_u64_to_le_bytes(x.data@.len() as u64) + x.data@));
            }
        }
        if len64 > (blen - 12) as u64 {
            return Err(PinoqError::Serialization);
        }
        let len = len64 as usize;
        let data = slice_to_vec(slice_subrange(b, 12, 12 + len));
        let blk = Block { next_block, data };
        proof {
            assert(blk.enc() =~= b@.subrange(0, 12 + len as int));
            assert(blk.enc().is_prefix_of(b@));
            assert forall|x: Block|
                x.wf_rec() && (#[trigger] x.enc()).is_prefix_of(b@) implies x.eqv(&blk) by {
                lemma_concat_part(
                    spec_u32_to_le_bytes(x.next_block) + spec_u64_to_le_bytes(
                        x.data@.len() as u64,
                    ),
                    x.data@,
                    Seq::<u8>::empty(),
                    b@,
                );
                assert(x.enc() =~= spec_u32_to_le_bytes(x.next_block) + spec_u64_to_le_bytes(
                    x.data@.len() as u64,
                ) + x.data@ + Seq::<u8>::empty());
            }
        }
        Ok(blk)
    }
}

// ---------------------------------------------------------------------------
// INode
// ---------------------------------------------------------------------------

/// A file or directory inode.
#[derive(Debug, Clone, Copy)]
pub struct INode {
    pub mode: u32,
    pub size: u64,
    pub block_size: u32,
    pub uid: u32,
    pub gid: u32,
    pub data_block: u32,
}

/// Whether a POSIX mode word carries the directory bit.
pub open spec fn spec_is_dir(mode: u32) -> bool {
    mode & S_IFDIR != 0
}

impl INode {
    /// A fresh inode: all fields but the mode and the owner are zero.
    pub fn new(mode: u32, uid: u32, gid: u32) -> (r: Self)
        ensures
            r.mode == mode,
            r.uid == uid,
            r.gid == gid,
            r.size == 0,
            r.block_size == 0,
            r.data_block == 0,
    {
        Self { mode, size: 0, block_size: 0, uid, gid, data_block: 0 }
    }

    pub fn is_dir(&self) -> (r: bool)
        ensures
            r == spec_is_dir(self.mode),
    {
        self.mode & S_IFDIR != 0
    }

    /// The attributes reported to the bridge for this inode under inode
    /// number `n`.
    pub fn as_attr(&self, n: u32) -> (r: FileAttr)
        ensures
            r == self.spec_attr(n),
    {
        let kind = if self.mode & S_IFDIR != 0 {
            FileKind::Directory
        } else {
            FileKind::RegularFile
        };
        FileAttr {
            ino: n as u64,
            size: self.size,
            blocks: 1,
            kind,
            perm: 0o755,
            nlink: 1,
            uid: self.uid,
            gid: self.gid,
            rdev: 0,
            blksize: self.block_size,
            flags: 0,
        }
    }

    /// The attribute record denoted by this inode.
    pub open spec fn spec_attr(&self, n: u32) -> FileAttr {
        FileAttr {
            ino: n as u64,
            size: self.size,
            blocks: 1,
            kind: if spec_is_dir(self.mode) {
                FileKind::Directory
            } else {
                FileKind::RegularFile
            },
            perm: 0o755,
            nlink: 1,
            uid: self.uid,
            gid: self.gid,
            rdev: 0,
            blksize: self.block_size,
            flags: 0,
        }
    }
}

/// The kind of a directory entry as reported to the bridge.
#[derive(Debug, Clone, Copy, PartialEq, Eq, Structural)]
pub enum FileKind {
    Directory,
    RegularFile,
}

/// File attributes handed to the bridge: all the core knows of an inode. The
/// bridge fills in the timestamps (this filesystem does not keep any).
#[derive(Debug, Clone, Copy, PartialEq, Eq, Structural)]
pub struct FileAttr {
    pub ino: u64,
    pub size: u64,
    pub blocks: u64,
    pub kind: FileKind,
    pub perm: u16,
    pub nlink: u32,
    pub uid: u32,
    pub gid: u32,
    pub rdev: u32,
    pub blksize: u32,
    pub flags: u32,
}

impl PinoqSerialize for INode {
    open spec fn wf_rec(&self) -> bool {
        true
    }

    open spec fn eqv(&self, other: &Self) -> bool {
        self.mode == other.mode && self.size == other.size && self.block_size == other.block_size
            && self.uid == other.uid && self.gid == other.gid && self.data_block
            == other.data_block
    }

    open spec fn enc(&self) -> Seq<u8> {
        spec_u32_to_le_bytes(self.mode) + spec_u64_to_le_bytes(self.size) + spec_u32_to_le_bytes(
            self.block_size,
        ) + spec_u32_to_le_bytes(self.uid) + spec_u32_to_le_bytes(self.gid) + spec_u32_to_le_bytes(
            self.data_block,
        )
    }

    fn serialize_into(&self, out: &mut Vec<u8>) {
        push_u32_le(out, self.mode);
        push_u64_le(out, self.size);
        push_u32_le(out, self.block_size);
        push_u32_le(out, self.uid);
        push_u32_le(out, self.gid);
        push_u32_le(out, self.data_block);
        proof {
            assert(out@ =~= old(out)@ + self.enc());
        }
    }

    fn deserialize_from(b: &[u8]) -> (r: Result<Self, PinoqError>) {
        proof {
            lemma_auto_spec_u32_to_from_le_bytes();
            lemma_auto_spec_u64_to_from_le_bytes();
        }
        if b.len() < 28 {
            return Err(PinoqError::Serialization);
        }
        let mode = read_u32_le(b, 0);
        let size = read_u64_le(b, 4);
        let block_size = read_u32_le(b, 12);
        let uid = read_u32_le(b, 16);
        let gid = read_u32_le(b, 20);
        let data_block = read_u32_le(b, 24);
        let node = INode { mode, size, block_size, uid, gid, data_block };
        proof {
            assert(spec_u32_to_le_bytes(mode) == b@.subrange(0, 4));
            assert(spec_u64_to_le_bytes(size) == b@.subrange(4, 12));
            assert(spec_u32_to_le_bytes(block_size) == b@.subrange(12, 16));
            assert(spec_u32_to_le_bytes(uid) == b@.subrange(16, 20));
            assert(spec_u32_to_le_bytes(gid) == b@.subrange(20, 24));
            assert(spec_u32_to_le_bytes(data_block) == b@.subrange(24, 28));
            assert(node.enc() =~= b@.subrange(0, 28));
            assert(node.enc().is_prefix_of(b@));
            assert forall|x: INode|
                x.wf_rec() && (#[trigger] x.enc()).is_prefix_of(b@) implies x.eqv(&node) by {
                lemma_concat_part(
                    Seq::<u8>::empty(),
                    spec_u32_to_le_bytes(x.mode),
                    spec_u64_to_le_bytes(x.size) + spec_u32_to_le_bytes(x.block_size)
                        + spec_u32_to_le_bytes(x.uid) + spec_u32_to_le_bytes(x.gid)
                        + spec_u32_to_le_bytes(x.data_block),
                    b@,
                );
                lemma_concat_part(
                    spec_u32_to_le_bytes(x.mode),
                    spec_u64_to_le_bytes(x.size),
                    spec_u32_to_le_bytes(x.block_size) + spec_u32_to_le_bytes(x.uid)
                        + spec_u32_to_le_bytes(x.gid) + spec_u32_to_le_bytes(x.data_block),
                    b@,
                );
                lemma_concat_part(
                    spec_u32_to_le_bytes(x.mode) + spec_u64_to_le_bytes(x.size),
                    spec_u32_to_le_bytes(x.block_size),
                    spec_u32_to_le_bytes(x.uid) + spec_u32_to_le_bytes(x.gid)
                        + spec_u32_to_le_bytes(x.data_block),
                    b@,
                );
                lemma_concat_part(
                    spec_u32_to_le_bytes(x.mode) + spec_u64_to_le_bytes(x.size)
                        + spec_u32_to_le_bytes(x.block_size),
                    spec_u32_to_le_bytes(x.uid),
                    spec_u32_to_le_bytes(x.gid) + spec_u32_to_le_bytes(x.data_block),
                    b@,
                );
                lemma_concat_part(
                    spec_u32_to_le_bytes(x.mode) + spec_u64_to_le_bytes(x.size)
                        + spec_u32_to_le_bytes(x.block_size) + spec_u32_to_le_bytes(x.uid),
                    spec_u32_to_le_bytes(x.gid),
                    spec_u32_to_le_bytes(x.data_block),
                    b@,
                );
                lemma_concat_part(
                    spec_u32_to_le_bytes(x.mode) + spec_u64_to_le_bytes(x.size)
                        + spec_u32_to_le_bytes(x.block_size) + spec_u32_to_le_bytes(x.uid)
                        + spec_u32_to_le_bytes(x.gid),
                    spec_u32_to_le_bytes(x.data_block),
                    Seq::<u8>::empty(),
                    b@,
                );
                assert(x.enc() =~= Seq::<u8>::empty() + spec_u32_to_le_bytes(x.mode) + (
                spec_u64_to_le_bytes(x.size) + spec_u32_to_le_bytes(x.block_size)
                    + spec_u32_to_le_bytes(x.uid) + spec_u32_to_le_bytes(x.gid)
                    + spec_u32_to_le_bytes(x.data_block)));
            }
        }
        Ok(node)
    }
}

// ---------------------------------------------------------------------------
// EncryptedAspect and Aspect
// ---------------------------------------------------------------------------

/// The on-disk aspect slot: a wrap key stored in the clear, and the aspect
/// plaintext encrypted under it with the password-derived IV. The wrap key is
/// regenerated on every persist.
#[derive(Debug)]
pub struct EncryptedAspect {
    pub key: Key,
    pub encrypted_data: Vec<u8>,
}

impl PinoqSerialize for EncryptedAspect {
    open spec fn wf_rec(&self) -> bool {
        self.key.wf()
    }

    open spec fn eqv(&self, other: &Self) -> bool {
        self.key@ == other.key@ && self.encrypted_data@ == other.encrypted_data@
    }

    open spec fn enc(&self) -> Seq<u8> {
        self.key@ + spec_u64_to_le_bytes(self.encrypted_data@.len() as u64)
            + self.encrypted_data@
    }

    fn serialize_into(&self, out: &mut Vec<u8>) {
        let mut key = slice_to_vec(self.key.0.as_slice());
        out.append(&mut key);
        push_u64_le(out, self.encrypted_data.len() as u64);
        let mut data = slice_to_vec(self.encrypted_data.as_slice());
        out.append(&mut data);
        proof {
            assert(out@ =~= old(out)@ + self.enc());
        }
    }

    fn deserialize_from(b: &[u8]) -> (r: Result<Self, PinoqError>) {
        proof {
            lemma_auto_spec_u64_to_from_le_bytes();
        }
        let blen = b.len();
        if blen < 40 {
            proof {
                assert forall|x: EncryptedAspect|
                    !(x.wf_rec() && (#[trigger] x.enc()).is_prefix_of(b@)) by {
                    if x.wf_rec() && x.enc().is_prefix_of(b@) {
                        assert(x.enc().len() >= 40);
                    }
                }
            }
            return Err(PinoqError::Serialization);
        }
        let key = Key(slice_to_vec(slice_subrange(b, 0, 32)));
        let len64 = read_u64_le(b, 32);
        proof {
            assert forall|x: EncryptedAspect|
                x.wf_rec() && (#[trigger] x.enc()).is_prefix_of(b@) implies x.key@ == key@
                && x.encrypted_data@.len() as u64 == len64 && x.enc().len() == 40
                + x.encrypted_data@.len() by {
                lemma_concat_part(
                    Seq::<u8>::empty(),
                    x.key@,
                    spec_u64_to_le_bytes(x.encrypted_data@.len() as u64) + x.encrypted_data@,
                    b@,
                );
                lemma_concat_part(
                    x.key@,
                    spec_u64_to_le_bytes(x.encrypted_data@.len() as u64),
                    x.encrypted_data@,
                    b@,
                );
                assert(x.enc() =~= Seq::<u8>::empty() + x.key@ + (spec_u64_to_le_bytes(
                    x.encrypted_data@.len() as u64,
                ) + x.encrypted_data@));
                assert(x.key@ =~= b@.subrange(0, 32));
            }
        }
        if len64 > (blen - 40) as u64 {
            return Err(PinoqError::Serialization);
        }
        let len = len64 as usize;
        let encrypted_data = slice_to_vec(slice_subrange(b, 40, 40 + len));
        let ea = EncryptedAspect { key, encrypted_data };
        proof {
            assert(ea.enc() =~= b@.subrange(0, 40 + len as int));
            assert(ea.enc().is_prefix_of(b@));
            assert forall|x: EncryptedAspect|
                x.wf_rec() && (#[trigger] x.enc()).is_prefix_of(b@) implies x.eqv(&ea) by {
                lemma_concat_part(
                    x.key@ + spec_u64_to_le_bytes(x.encrypted_data@.len() as u64),
                    x.encrypted_data@,
                    Seq::<u8>::empty(),
                    b@,
                );
                assert(x.enc() =~= x.key@ + spec_u64_to_le_bytes(x.encrypted_data@.len() as u64)
                    + x.encrypted_data@ + Seq::<u8>::empty());
            }
        }
        Ok(ea)
    }
}

/// Encoded size in bytes of an aspect slot for a volume with `blocks` blocks
/// per aspect: the 32-byte wrap key, the 8-byte length prefix, and the
/// ciphertext of the `36 + ceil(blocks / 8)`-byte plaintext.
pub open spec fn spec_ea_size(blocks: int) -> int {
    40 + enc_len(36 + (blocks + 7) / 8)
}

impl EncryptedAspect {
    pub fn size_of(n: u32) -> (r: usize)
        requires
            spec_ea_size(n as int) <= usize::MAX,
        ensures
            r == spec_ea_size(n as int),
    {
        let bitmap_bytes: u64 = (n as u64 + 7) / 8;
        let cipher: u64 = ((36 + bitmap_bytes) / 16 + 1) * 16;
        (40 + cipher) as usize
    }
}

/// The in-memory plaintext of one aspect: the key that encrypts the aspect's
/// data blocks, the root directory's inode block, and the aspect's block
/// bitmap.
#[derive(Debug)]
pub struct Aspect {
    pub key: Key,
    pub root_block: u32,
    pub block_map: Vec<bool>,
}

/// `ea` seals aspect `a` under `password`: the slot's ciphertext is the
/// encryption of `a`'s plaintext under the slot's own wrap key, with the IV
/// derived from the password.
pub open spec fn sealed_as(ea: &EncryptedAspect, a: &Aspect, password: Seq<u8>) -> bool {
    ea.encrypted_data@ == aes_enc(a.plain(), ea.key@, iv_of(password))
}

impl Aspect {
    pub open spec fn wf(&self) -> bool {
        self.key.wf()
    }

    /// The plaintext sealed inside the envelope: the data key, the big-endian
    /// root block, and the packed block map.
    pub open spec fn plain(&self) -> Seq<u8> {
        self.key@ + spec_u32_to_be_bytes(self.root_block) + pack_bits(self.block_map@)
    }

    /// A fresh aspect: a random data key, no root directory yet, and no block
    /// owned.
    pub fn new(blocks: u32) -> (r: Self)
        ensures
            r.wf(),
            r.root_block == NO_BLOCK,
            r.block_map@.len() == blocks,
            forall|i: int| 0 <= i < blocks ==> r.block_map@[i] == false,
    {
        let mut block_map: Vec<bool> = Vec::new();
        let mut i: usize = 0;
        while i < blocks as usize
            invariant
                i <= blocks as usize,
                block_map@.len() == i,
                forall|j: int| 0 <= j < i ==> block_map@[j] == false,
            decreases blocks as usize - i,
        {
            block_map.push(false);
            i = i + 1;
        }
        Self { key: random_key(), root_block: NO_BLOCK, block_map }
    }

    pub fn has_root_block(&self) -> (r: bool)
        ensures
            r == (self.root_block != NO_BLOCK),
    {
        self.root_block != NO_BLOCK
    }

    /// The aspect's plaintext encoding.
    pub fn serialize(&self) -> (r: Vec<u8>)
        requires
            self.wf(),
        ensures
            r@ == self.plain(),
    {
        let mut buf = slice_to_vec(self.key.0.as_slice());
        push_u32_be(&mut buf, self.root_block);
        push_packed_bits(&mut buf, &self.block_map);
        proof {
            assert(buf@ =~= self.plain());
        }
        buf
    }

    /// Seal the aspect: encrypt its plaintext under a fresh wrap key, with
    /// the IV derived from the password. Every call draws a new wrap key, so
    /// repeated seals of one aspect give different ciphertexts.
    pub fn to_encrypted_aspect(&self, password: &[u8]) -> (r: EncryptedAspect)
        requires
            self.wf(),
            self.plain().len() <= i32::MAX - 16,
        ensures
            r.wf_rec(),
            sealed_as(&r, self, password@),
            r.encrypted_data@.len() == enc_len(self.plain().len() as int),
    {
        let key = random_key();
        let encoded = self.serialize();
        let iv = IV::from_bytes(password);
        let encrypted_data = encrypt(encoded.as_slice(), &key, &iv);
        EncryptedAspect { key, encrypted_data }
    }

    /// Open an aspect slot: decrypt the ciphertext with the stored wrap key
    /// and the password-derived IV, and split the plaintext into data key,
    /// root block and block map. A plaintext whose length does not match a
    /// `blocks`-bit map means the password was wrong: a decode error.
    ///
    /// Whatever aspect the slot seals under this password, exactly that
    /// aspect comes back. The root field is returned exactly as sealed, with
    /// no range test here: a fresh aspect legitimately carries the `NO_BLOCK`
    /// sentinel, so whether a root is usable is judged where it is followed
    /// (the mount-time bootstrap, and the block loads behind every lookup).
    pub fn from_encrypted_aspect(ea: &EncryptedAspect, password: &[u8], blocks: u32) -> (r: Result<
        Aspect,
        PinoqError,
    >)
        requires
            ea.wf_rec(),
            ea.encrypted_data@.len() <= i32::MAX - 16,
        ensures
            forall|a: Aspect|
                a.wf() && a.block_map@.len() == blocks as int && #[trigger] sealed_as(
                    ea,
                    &a,
                    password@,
                ) ==> (r matches Ok(got) && got.key@ == a.key@ && got.root_block == a.root_block
                    && got.block_map@ == a.block_map@),
            r matches Ok(got) ==> got.wf() && got.block_map@.len() == blocks as int,
            r matches Err(e) ==> e == PinoqError::Serialization,
    {
        let iv = IV::from_bytes(password);
        let d = match decrypt(ea.encrypted_data.as_slice(), &ea.key, &iv) {
            Ok(v) => v,
            Err(e) => return Err(e),
        };
        let bitmap_bytes: u64 = (blocks as u64 + 7) / 8;
        if (d.len() as u64) != 36 + bitmap_bytes {
            proof {
                assert forall|a: Aspect|
                    !(a.wf() && a.block_map@.len() == blocks as int && #[trigger] sealed_as(
                        ea,
                        &a,
                        password@,
                    )) by {
                    if a.wf() && a.block_map@.len() == blocks as int && sealed_as(
                        ea,
                        &a,
                        password@,
                    ) {
                        assert(d@ == a.plain());
                        assert(pack_bits(a.block_map@).len() == (blocks as int + 7) / 8);
                    }
                }
            }
            return Err(PinoqError::Serialization);
        }
        let key = Key(slice_to_vec(slice_subrange(d.as_slice(), 0, 32)));
        let root_block = crate::codec::read_u32_be(d.as_slice(), 32);
        let block_map = crate::codec::unpack_bits_exec(d.as_slice(), 36, blocks as usize);
        let got = Aspect { key, root_block, block_map };
        proof {
            crate::codec::lemma_u32_be_bytes_injective();
            assert forall|a: Aspect|
                a.wf() && a.block_map@.len() == blocks as int && #[trigger] sealed_as(
                    ea,
                    &a,
                    password@,
                ) implies got.key@ == a.key@ && got.root_block == a.root_block && got.block_map@
                == a.block_map@ by {
                assert(d@ == a.plain());
                lemma_concat_part(
                    Seq::<u8>::empty(),
                    a.key@,
                    spec_u32_to_be_bytes(a.root_block) + pack_bits(a.block_map@),
                    d@,
                );
                lemma_concat_part(
                    a.key@,
                    spec_u32_to_be_bytes(a.root_block),
                    pack_bits(a.block_map@),
                    d@,
                );
                lemma_concat_part(
                    a.key@ + spec_u32_to_be_bytes(a.root_block),
                    pack_bits(a.block_map@),
                    Seq::<u8>::empty(),
                    d@,
                );
                assert(d@.is_prefix_of(d@)) by {
                    assert(d@.subrange(0, d@.len() as int) =~= d@);
                }
                assert(a.plain() =~= Seq::<u8>::empty() + a.key@ + (spec_u32_to_be_bytes(
                    a.root_block,
                ) + pack_bits(a.block_map@)));
                assert(a.plain() =~= a.key@ + spec_u32_to_be_bytes(a.root_block) + pack_bits(
                    a.block_map@,
                ) + Seq::<u8>::empty());
                assert(got.key@ == a.key@);
                assert(spec_u32_to_be_bytes(a.root_block) =~= d@.subrange(32, 36));
                assert(got.root_block == a.root_block);
                assert(pack_bits(a.block_map@) =~= d@.skip(36));
                crate::codec::lemma_unpack_pack_bits(a.block_map@);
                assert(got.block_map@ == a.block_map@);
            }
        }
        Ok(got)
    }
}

// ---------------------------------------------------------------------------
// Dir
// ---------------------------------------------------------------------------

/// One directory entry: an entry name and the block index of the child inode.
#[derive(Debug)]
pub struct DirEntry {
    pub name: Vec<u8>,
    pub block: u32,
}

impl DirEntry {
    /// The encoding of one entry: length-prefixed name, then the child block.
    pub open spec fn enc_entry(&self) -> Seq<u8> {
        spec_u64_to_le_bytes(self.name@.len() as u64) + self.name@ + spec_u32_to_le_bytes(
            self.block,
        )
    }

    pub open spec fn eqv_entry(&self, other: &DirEntry) -> bool {
        self.name@ == other.name@ && self.block == other.block
    }
}

/// The encoding of a run of entries, one after another.
pub open spec fn enc_entries(es: Seq<DirEntry>) -> Seq<u8>
    decreases es.len(),
{
    if es.len() == 0 {
        Seq::empty()
    } else {
        es[0].enc_entry() + enc_entries(es.skip(1))
    }
}

/// Entry names strictly increase: the order is total, so names are unique.
pub open spec fn entries_sorted(es: Seq<DirEntry>) -> bool {
    forall|i: int, j: int|
        0 <= i < j < es.len() ==> bytes_lt(#[trigger] es[i].name@, #[trigger] es[j].name@)
}

/// Both runs hold the same entries in the same order.
pub open spec fn entries_eqv(a: Seq<DirEntry>, b: Seq<DirEntry>) -> bool {
    a.len() == b.len() && forall|i: int|
        0 <= i < a.len() ==> (#[trigger] a[i]).name@ == (#[trigger] b[i]).name@ && a[i].block
            == b[i].block
}

/// Appending an entry extends the encoding at the end.
pub proof fn lemma_enc_entries_append(es: Seq<DirEntry>, e: DirEntry)
    ensures
        enc_entries(es.push(e)) == enc_entries(es) + e.enc_entry(),
    decreases es.len(),
{
    if es.len() == 0 {
        assert(es.push(e).len() == 1);
        assert(es.push(e)[0] == e);
        assert(es.push(e).skip(1) =~= Seq::<DirEntry>::empty());
        assert(enc_entries(es.push(e).skip(1)) == Seq::<u8>::empty());
        assert(enc_entries(es) == Seq::<u8>::empty());
        assert(enc_entries(es.push(e)) == e.enc_entry() + Seq::<u8>::empty());
        assert(enc_entries(es.push(e)) =~= enc_entries(es) + e.enc_entry());
    } else {
        assert(es.push(e).skip(1) =~= es.skip(1).push(e));
        lemma_enc_entries_append(es.skip(1), e);
        assert(es.push(e)[0] == es[0]);
        assert(enc_entries(es.push(e)) == es[0].enc_entry() + (enc_entries(es.skip(1))
            + e.enc_entry()));
        assert(enc_entries(es) == es[0].enc_entry() + enc_entries(es.skip(1)));
        assert(enc_entries(es.push(e)) =~= enc_entries(es) + e.enc_entry());
    }
}

/// Each encoded entry takes at least 12 bytes.
pub proof fn lemma_enc_entries_min_len(es: Seq<DirEntry>)
    ensures
        enc_entries(es).len() >= 12 * es.len(),
    decreases es.len(),
{
    lemma_auto_spec_u32_to_from_le_bytes();
    lemma_auto_spec_u64_to_from_le_bytes();
    if es.len() > 0 {
        lemma_enc_entries_min_len(es.skip(1));
        assert(es[0].enc_entry().len() == 12 + es[0].name@.len());
        assert(es.skip(1).len() == es.len() - 1);
    }
}

/// Some entry binds `name` to child block `block`.
pub open spec fn dir_contains(es: Seq<DirEntry>, name: Seq<u8>, block: u32) -> bool {
    exists|i: int| 0 <= i < es.len() && (#[trigger] es[i]).name@ == name && es[i].block == block
}

/// Some entry carries `name`.
pub open spec fn dir_has_name(es: Seq<DirEntry>, name: Seq<u8>) -> bool {
    exists|i: int| 0 <= i < es.len() && (#[trigger] es[i]).name@ == name
}



/// Runs with the same entries encode the same bytes.
pub proof fn lemma_enc_entries_eqv(a: Seq<DirEntry>, b: Seq<DirEntry>)
    requires
        entries_eqv(a, b),
    ensures
        enc_entries(a) == enc_entries(b),
    decreases a.len(),
{
    if a.len() > 0 {
        assert(a[0].name@ == b[0].name@ && a[0].block == b[0].block);
        assert(a[0].enc_entry() == b[0].enc_entry());
        assert(entries_eqv(a.skip(1), b.skip(1)));
        lemma_enc_entries_eqv(a.skip(1), b.skip(1));
    }
}

/// Inserting an entry grows the encoding by exactly that entry.
proof fn lemma_enc_entries_insert_len(es: Seq<DirEntry>, e: DirEntry, i: int)
    requires
        0 <= i <= es.len(),
    ensures
        enc_entries(es.insert(i, e)).len() == enc_entries(es).len() + e.enc_entry().len(),
    decreases i,
{
    if i == 0 {
        assert(es.insert(0, e)[0] == e);
        assert(es.insert(0, e).skip(1) =~= es);
    } else {
        assert(es.insert(i, e)[0] == es[0]);
        assert(es.insert(i, e).skip(1) =~= es.skip(1).insert(i - 1, e));
        lemma_enc_entries_insert_len(es.skip(1), e, i - 1);
    }
}

/// Replacing an entry swaps exactly its encoding.
proof fn lemma_enc_entries_update_len(es: Seq<DirEntry>, e: DirEntry, i: int)
    requires
        0 <= i < es.len(),
    ensures
        enc_entries(es.update(i, e)).len() + es[i].enc_entry().len() == enc_entries(es).len()
            + e.enc_entry().len(),
    decreases i,
{
    if i == 0 {
        assert(es.update(0, e)[0] == e);
        assert(es.update(0, e).skip(1) =~= es.skip(1));
    } else {
        assert(es.update(i, e)[0] == es[0]);
        assert(es.update(i, e).skip(1) =~= es.skip(1).update(i - 1, e));
        lemma_enc_entries_update_len(es.skip(1), e, i - 1);
    }
}

/// Within a sorted run, a name binds at most one block.
pub proof fn lemma_dir_name_unique(es: Seq<DirEntry>, name: Seq<u8>, c1: u32, c2: u32)
    requires
        entries_sorted(es),
        dir_contains(es, name, c1),
        dir_contains(es, name, c2),
    ensures
        c1 == c2,
{
    let i = choose|i: int| 0 <= i < es.len() && (#[trigger] es[i]).name@ == name && es[i].block == c1;
    let j = choose|j: int| 0 <= j < es.len() && (#[trigger] es[j]).name@ == name && es[j].block == c2;
    if i < j {
        crate::codec::lemma_bytes_lt_asym(es[i].name@, es[j].name@);
    } else if j < i {
        crate::codec::lemma_bytes_lt_asym(es[j].name@, es[i].name@);
    }
}

/// Runs with the same entries bind the same names.
pub proof fn lemma_entries_eqv_contains(a: Seq<DirEntry>, b: Seq<DirEntry>)
    requires
        entries_eqv(a, b),
    ensures
        forall|n: Seq<u8>, c: u32| dir_contains(a, n, c) <==> dir_contains(b, n, c),
        forall|n: Seq<u8>| dir_has_name(a, n) <==> dir_has_name(b, n),
{
    assert forall|n: Seq<u8>, c: u32| dir_contains(a, n, c) <==> dir_contains(b, n, c) by {
        if dir_contains(a, n, c) {
            let i = choose|i: int|
                0 <= i < a.len() && (#[trigger] a[i]).name@ == n && a[i].block == c;
            assert(b[i].name@ == n && b[i].block == c);
        }
        if dir_contains(b, n, c) {
            let i = choose|i: int|
                0 <= i < b.len() && (#[trigger] b[i]).name@ == n && b[i].block == c;
            assert(a[i].name@ == n && a[i].block == c);
        }
    }
    assert forall|n: Seq<u8>| dir_has_name(a, n) <==> dir_has_name(b, n) by {
        if dir_has_name(a, n) {
            let i = choose|i: int| 0 <= i < a.len() && (#[trigger] a[i]).name@ == n;
            assert(b[i].name@ == n);
        }
        if dir_has_name(b, n) {
            let i = choose|i: int| 0 <= i < b.len() && (#[trigger] b[i]).name@ == n;
            assert(a[i].name@ == n);
        }
    }
}

/// A directory: an ordered mapping from entry name to the block index of the
/// child inode, held sorted by name.
#[derive(Debug)]
pub struct Dir {
    pub entries: Vec<DirEntry>,
}

impl Dir {
    /// An empty directory.
    pub fn empty() -> (r: Dir)
        ensures
            r.wf_rec(),
            r.entries@.len() == 0,
    {
        Dir { entries: Vec::new() }
    }

    /// The child block bound to `name`, if any.
    pub fn get_entry(&self, name: &[u8]) -> (r: Option<u32>)
        ensures
            match r {
                Some(c) => dir_contains(self.entries@, name@, c),
                None => !dir_has_name(self.entries@, name@),
            },
    {
        let n = self.entries.len();
        let mut i: usize = 0;
        while i < n
            invariant
                i <= n,
                n == self.entries@.len(),
                forall|j: int| 0 <= j < i ==> (#[trigger] self.entries@[j]).name@ != name@,
            decreases n - i,
        {
            let e = &self.entries[i];
            let mut namev: Vec<u8> = vstd::slice::slice_to_vec(name);
            if crate::codec::vec_bytes_eq(&e.name, &namev) {
                return Some(e.block);
            }
            i = i + 1;
        }
        None
    }

    /// The ordered position for `name`: the index of its first entry whose
    /// name is not below `name`, and whether that entry carries `name`
    /// itself.
    fn find_insert_pos(&self, name: &Vec<u8>) -> (r: (usize, bool))
        requires
            self.wf_rec(),
        ensures
            ({
                let (i, eq) = r;
                &&& i <= self.entries@.len()
                &&& forall|j: int|
                    0 <= j < i ==> bytes_lt((#[trigger] self.entries@[j]).name@, name@)
                &&& eq <==> (i < self.entries@.len() && self.entries@[i as int].name@ == name@)
                &&& (i < self.entries@.len() && !eq) ==> bytes_lt(
                    name@,
                    self.entries@[i as int].name@,
                )
            }),
    {
        let n = self.entries.len();
        let mut i: usize = 0;
        while i < n
            invariant
                i <= n,
                n == self.entries@.len(),
                forall|j: int| 0 <= j < i ==> bytes_lt((#[trigger] self.entries@[j]).name@, name@),
            decreases n - i,
        {
            let e = &self.entries[i];
            if !crate::codec::vec_bytes_lt(&e.name, name) {
                if crate::codec::vec_bytes_eq(&e.name, name) {
                    return (i, true);
                }
                proof {
                    crate::codec::lemma_bytes_lt_total(self.entries@[i as int].name@, name@);
                }
                return (i, false);
            }
            i = i + 1;
        }
        (n, false)
    }

    /// Bind `name` to `block`, replacing any earlier binding: every other
    /// binding stands, and the names stay strictly sorted.
    pub fn insert_entry(&mut self, name: Vec<u8>, block: u32)
        requires
            old(self).wf_rec(),
        ensures
            final(self).wf_rec(),
            dir_contains(final(self).entries@, name@, block),
            forall|n2: Seq<u8>, b2: u32|
                n2 != name@ ==> (dir_contains(final(self).entries@, n2, b2) <==> dir_contains(
                    old(self).entries@,
                    n2,
                    b2,
                )),
            final(self).entries@.len() == old(self).entries@.len() + (if dir_has_name(
                old(self).entries@,
                name@,
            ) {
                0int
            } else {
                1int
            }),
            final(self).enc().len() <= old(self).enc().len() + 12 + name@.len(),
    {
        proof {
            lemma_auto_spec_u32_to_from_le_bytes();
            lemma_auto_spec_u64_to_from_le_bytes();
        }
        let (i, eq) = self.find_insert_pos(&name);
        let ghost old_entries = self.entries@;
        if eq {
            self.entries.remove(i);
            self.entries.insert(i, DirEntry { name, block });
            proof {
                let es = self.entries@;
                assert(es =~= old_entries.update(i as int, es[i as int]));
                Self::lemma_update_keeps_order(old_entries, es, i as int, es[i as int].name@);
                Self::lemma_bindings_after_update(
                    old_entries,
                    es,
                    i as int,
                    es[i as int].name@,
                    block,
                );
                lemma_enc_entries_update_len(old_entries, es[i as int], i as int);
                assert(old_entries[i as int].enc_entry().len() == 12 + name@.len());
                assert(es[i as int].enc_entry().len() == 12 + name@.len());
            }
        } else {
            self.entries.insert(i, DirEntry { name, block });
            proof {
                let es = self.entries@;
                assert(es == old_entries.insert(i as int, es[i as int]));
                Self::lemma_insert_keeps_order(old_entries, es, i as int, es[i as int].name@);
                Self::lemma_bindings_after_insert(
                    old_entries,
                    es,
                    i as int,
                    es[i as int].name@,
                    block,
                );
                lemma_enc_entries_insert_len(old_entries, es[i as int], i as int);
                assert(es[i as int].enc_entry().len() == 12 + name@.len());
            }
        }
    }

    /// Replacing the entry at a position with one of the same name keeps the
    /// strict order.
    proof fn lemma_update_keeps_order(olde: Seq<DirEntry>, news: Seq<DirEntry>, i: int, name: Seq<u8>)
        requires
            entries_sorted(olde),
            0 <= i < olde.len(),
            news.len() == olde.len(),
            olde[i].name@ == name,
            news[i].name@ == name,
            forall|j: int| 0 <= j < olde.len() && j != i ==> news[j] == olde[j],
        ensures
            entries_sorted(news),
    {
    }

    /// After such a replacement, `name` is bound to the new block and every
    /// other binding stands.
    proof fn lemma_bindings_after_update(
        olde: Seq<DirEntry>,
        news: Seq<DirEntry>,
        i: int,
        name: Seq<u8>,
        block: u32,
    )
        requires
            entries_sorted(olde),
            0 <= i < olde.len(),
            news.len() == olde.len(),
            olde[i].name@ == name,
            news[i].name@ == name,
            news[i].block == block,
            forall|j: int| 0 <= j < olde.len() && j != i ==> news[j] == olde[j],
        ensures
            dir_contains(news, name, block),
            forall|n2: Seq<u8>, b2: u32|
                n2 != name ==> (dir_contains(news, n2, b2) <==> dir_contains(olde, n2, b2)),
            dir_has_name(olde, name),
    {
        assert forall|n2: Seq<u8>, b2: u32| n2 != name implies (dir_contains(news, n2, b2)
            <==> dir_contains(olde, n2, b2)) by {
            if dir_contains(news, n2, b2) {
                let j = choose|j: int|
                    0 <= j < news.len() && (#[trigger] news[j]).name@ == n2 && news[j].block == b2;
                assert(olde[j].name@ == n2 && olde[j].block == b2);
            }
            if dir_contains(olde, n2, b2) {
                let j = choose|j: int|
                    0 <= j < olde.len() && (#[trigger] olde[j]).name@ == n2 && olde[j].block == b2;
                assert(news[j].name@ == n2 && news[j].block == b2);
            }
        }
    }

    /// Inserting a fresh name at its ordered position keeps the strict order.
    proof fn lemma_insert_keeps_order(olde: Seq<DirEntry>, news: Seq<DirEntry>, i: int, name: Seq<u8>)
        requires
            entries_sorted(olde),
            0 <= i <= olde.len(),
            news == olde.insert(i, news[i]),
            news[i].name@ == name,
            forall|j: int| 0 <= j < i ==> bytes_lt((#[trigger] olde[j]).name@, name),
            i < olde.len() ==> bytes_lt(name, olde[i].name@),
        ensures
            entries_sorted(news),
    {
        assert forall|p: int, q: int| 0 <= p < q < news.len() implies bytes_lt(
            (#[trigger] news[p]).name@,
            (#[trigger] news[q]).name@,
        ) by {
            if p < i && q == i {
            } else if p == i && q > i {
                assert(news[q] == olde[q - 1]);
                if q - 1 == i {
                } else {
                    crate::codec::lemma_bytes_lt_trans(name, olde[i].name@, olde[q - 1].name@);
                }
            } else if p < i && q > i {
                assert(news[q] == olde[q - 1]);
            } else if p > i && q > i {
                assert(news[p] == olde[p - 1]);
                assert(news[q] == olde[q - 1]);
            }
        }
    }

    /// After inserting a fresh name, it is bound and every other binding
    /// stands.
    proof fn lemma_bindings_after_insert(
        olde: Seq<DirEntry>,
        news: Seq<DirEntry>,
        i: int,
        name: Seq<u8>,
        block: u32,
    )
        requires
            0 <= i <= olde.len(),
            news == olde.insert(i, news[i]),
            news[i].name@ == name,
            news[i].block == block,
            forall|j: int| 0 <= j < i ==> bytes_lt((#[trigger] olde[j]).name@, name),
            i < olde.len() ==> bytes_lt(name, olde[i].name@),
            entries_sorted(olde),
        ensures
            dir_contains(news, name, block),
            forall|n2: Seq<u8>, b2: u32|
                n2 != name ==> (dir_contains(news, n2, b2) <==> dir_contains(olde, n2, b2)),
            !dir_has_name(olde, name),
    {
        assert forall|j: int| 0 <= j < olde.len() implies (#[trigger] olde[j]).name@ != name by {
            if j < i {
                crate::codec::lemma_bytes_lt_asym(olde[j].name@, name);
            } else {
                if i < olde.len() {
                    if j == i {
                        crate::codec::lemma_bytes_lt_asym(name, olde[i].name@);
                    } else {
                        crate::codec::lemma_bytes_lt_trans(name, olde[i].name@, olde[j].name@);
                        crate::codec::lemma_bytes_lt_asym(name, olde[j].name@);
                    }
                }
            }
        }
        assert forall|n2: Seq<u8>, b2: u32| n2 != name implies (dir_contains(news, n2, b2)
            <==> dir_contains(olde, n2, b2)) by {
            if dir_contains(news, n2, b2) {
                let j = choose|j: int|
                    0 <= j < news.len() && (#[trigger] news[j]).name@ == n2 && news[j].block == b2;
                if j < i {
                    assert(olde[j].name@ == n2 && olde[j].block == b2);
                } else {
                    assert(j != i);
                    assert(olde[j - 1].name@ == n2 && olde[j - 1].block == b2);
                }
            }
            if dir_contains(olde, n2, b2) {
                let j = choose|j: int|
                    0 <= j < olde.len() && (#[trigger] olde[j]).name@ == n2 && olde[j].block == b2;
                if j < i {
                    assert(news[j].name@ == n2 && news[j].block == b2);
                } else {
                    assert(news[j + 1].name@ == n2 && news[j + 1].block == b2);
                }
            }
        }
    }
}

impl PinoqSerialize for Dir {
    open spec fn wf_rec(&self) -> bool {
        entries_sorted(self.entries@)
    }

    open spec fn eqv(&self, other: &Self) -> bool {
        entries_eqv(self.entries@, other.entries@)
    }

    open spec fn enc(&self) -> Seq<u8> {
        spec_u64_to_le_bytes(self.entries@.len() as u64) + enc_entries(self.entries@)
    }

    fn serialize_into(&self, out: &mut Vec<u8>) {
        push_u64_le(out, self.entries.len() as u64);
        let ghost base = out@;
        let n = self.entries.len();
        let mut i: usize = 0;
        while i < n
            invariant
                i <= n,
                n == self.entries@.len(),
                out@ == base + enc_entries(self.entries@.take(i as int)),
            decreases n - i,
        {
            let e = &self.entries[i];
            push_u64_le(out, e.name.len() as u64);
            let mut name = slice_to_vec(e.name.as_slice());
            out.append(&mut name);
            push_u32_le(out, e.block);
            proof {
                let es = self.entries@;
                assert(es.take(i + 1) =~= es.take(i as int).push(es[i as int]));
                lemma_enc_entries_append(es.take(i as int), es[i as int]);
                assert(out@ =~= base + enc_entries(es.take(i + 1)));
            }
            i = i + 1;
        }
        proof {
            assert(self.entries@.take(n as int) =~= self.entries@);
            assert(out@ =~= old(out)@ + self.enc());
        }
    }

    fn deserialize_from(b: &[u8]) -> (r: Result<Self, PinoqError>) {
        proof {
            lemma_auto_spec_u32_to_from_le_bytes();
            lemma_auto_spec_u64_to_from_le_bytes();
        }
        let blen = b.len();
        if blen < 8 {
            return Err(PinoqError::Serialization);
        }
        let count = read_u64_le(b, 0);
        proof {
            assert forall|x: Dir| x.wf_rec() && (#[trigger] x.enc()).is_prefix_of(b@) implies
                x.entries@.len() == count as int && enc_entries(x.entries@.skip(0)).is_prefix_of(
                b@.skip(8),
            ) by {
                lemma_enc_entries_min_len(x.entries@);
                assert(x.entries@.skip(0) =~= x.entries@);
                lemma_concat_part(
                    Seq::<u8>::empty(),
                    spec_u64_to_le_bytes(x.entries@.len() as u64),
                    enc_entries(x.entries@),
                    b@,
                );
                lemma_concat_part(
                    spec_u64_to_le_bytes(x.entries@.len() as u64),
                    enc_entries(x.entries@),
                    Seq::<u8>::empty(),
                    b@,
                );
                assert(x.enc() =~= Seq::<u8>::empty() + spec_u64_to_le_bytes(
                    x.entries@.len() as u64,
                ) + enc_entries(x.entries@));
                assert(x.enc() =~= spec_u64_to_le_bytes(x.entries@.len() as u64) + enc_entries(
                    x.entries@,
                ) + Seq::<u8>::empty());
                assert(enc_entries(x.entries@) =~= b@.skip(8).subrange(
                    0,
                    enc_entries(x.entries@).len() as int,
                ));
            }
        }
        let mut entries: Vec<DirEntry> = Vec::new();
        let mut pos: usize = 8;
        let mut k: u64 = 0;
        proof {
            assert(b@.subrange(8, 8) =~= enc_entries(entries@));
        }
        while k < count
            invariant
                8 <= pos <= blen,
                blen == b@.len(),
                k <= count,
                entries@.len() == k,
                entries_sorted(entries@),
                b@.subrange(8, pos as int) == enc_entries(entries@),
                pos == 8 + enc_entries(entries@).len(),
                forall|x: Dir|
                    x.wf_rec() && (#[trigger] x.enc()).is_prefix_of(b@) ==> {
                        &&& x.entries@.len() == count as int
                        &&& entries_eqv(entries@, x.entries@.take(k as int))
                        &&& enc_entries(x.entries@.skip(k as int)).is_prefix_of(
                            b@.skip(pos as int),
                        )
                    },
            decreases count - k,
        {
            proof {
                lemma_auto_spec_u32_to_from_le_bytes();
                lemma_auto_spec_u64_to_from_le_bytes();
                assert forall|x: Dir| x.wf_rec() && (#[trigger] x.enc()).is_prefix_of(b@) implies {
                    &&& x.entries@.skip(k as int).len() > 0
                    &&& enc_entries(x.entries@.skip(k as int)) == x.entries@[k as int].enc_entry()
                        + enc_entries(x.entries@.skip(k as int + 1))
                } by {
                    assert(x.entries@.skip(k as int)[0] == x.entries@[k as int]);
                    assert(x.entries@.skip(k as int).skip(1) =~= x.entries@.skip(k as int + 1));
                }
            }
            if blen - pos < 12 {
                proof {
                    assert forall|x: Dir|
                        !(x.wf_rec() && (#[trigger] x.enc()).is_prefix_of(b@)) by {
                        if x.wf_rec() && x.enc().is_prefix_of(b@) {
                            let ex = x.entries@[k as int];
                            let rest = enc_entries(x.entries@.skip(k as int + 1));
                            assert(enc_entries(x.entries@.skip(k as int)) == ex.enc_entry()
                                + rest);
                            assert(spec_u64_to_le_bytes(ex.name@.len() as u64).len() == 8);
                            assert(spec_u32_to_le_bytes(ex.block).len() == 4);
                            assert(ex.enc_entry().len() >= 12);
                            assert(b@.skip(pos as int).len() >= ex.enc_entry().len()
                                + rest.len());
                        }
                    }
                }
                return Err(PinoqError::Serialization);
            }
            let namelen = read_u64_le(b, pos);
            proof {
                assert(b@.subrange(pos as int, pos as int + 8) =~= b@.skip(pos as int).subrange(
                    0,
                    8,
                ));
                assert forall|x: Dir| x.wf_rec() && (#[trigger] x.enc()).is_prefix_of(b@) implies {
                    &&& x.entries@[k as int].name@.len() as u64 == namelen
                    &&& x.entries@[k as int].enc_entry().len() == 12 + x.entries@[
                        k as int
                    ].name@.len()
                } by {
                    let ex = x.entries@[k as int];
                    assert(spec_u64_to_le_bytes(ex.name@.len() as u64).len() == 8);
                    assert(spec_u32_to_le_bytes(ex.block).len() == 4);
                    lemma_concat_part(
                        Seq::<u8>::empty(),
                        spec_u64_to_le_bytes(ex.name@.len() as u64),
                        ex.name@ + spec_u32_to_le_bytes(ex.block) + enc_entries(
                            x.entries@.skip(k as int + 1),
                        ),
                        b@.skip(pos as int),
                    );
                    assert(ex.enc_entry() + enc_entries(x.entries@.skip(k as int + 1)) =~= Seq::<
                        u8,
                    >::empty() + spec_u64_to_le_bytes(ex.name@.len() as u64) + (ex.name@
                        + spec_u32_to_le_bytes(ex.block) + enc_entries(
                        x.entries@.skip(k as int + 1),
                    )));
                }
            }
            if namelen > (blen - pos - 12) as u64 {
                return Err(PinoqError::Serialization);
            }
            let nlen = namelen as usize;
            let name = slice_to_vec(slice_subrange(b, pos + 8, pos + 8 + nlen));
            let block = read_u32_le(b, pos + 8 + nlen);
            proof {
                assert(b@.subrange(pos as int + 8, pos as int + 8 + nlen as int)
                    =~= b@.skip(pos as int).subrange(8, 8 + nlen as int));
                assert(b@.subrange(pos as int + 8 + nlen as int, pos as int + 12 + nlen as int)
                    =~= b@.skip(pos as int).subrange(8 + nlen as int, 12 + nlen as int));
                assert forall|x: Dir| x.wf_rec() && (#[trigger] x.enc()).is_prefix_of(b@) implies {
                    &&& x.entries@[k as int].name@ == name@
                    &&& x.entries@[k as int].block == block
                } by {
                    let ex = x.entries@[k as int];
                    lemma_concat_part(
                        spec_u64_to_le_bytes(ex.name@.len() as u64),
                        ex.name@,
                        spec_u32_to_le_bytes(ex.block) + enc_entries(
                            x.entries@.skip(k as int + 1),
                        ),
                        b@.skip(pos as int),
                    );
                    lemma_concat_part(
                        spec_u64_to_le_bytes(ex.name@.len() as u64) + ex.name@,
                        spec_u32_to_le_bytes(ex.block),
                        enc_entries(x.entries@.skip(k as int + 1)),
                        b@.skip(pos as int),
                    );
                    assert(ex.enc_entry() + enc_entries(x.entries@.skip(k as int + 1))
                        =~= spec_u64_to_le_bytes(ex.name@.len() as u64) + ex.name@ + (
                    spec_u32_to_le_bytes(ex.block) + enc_entries(x.entries@.skip(k as int + 1))));
                    assert(ex.enc_entry() + enc_entries(x.entries@.skip(k as int + 1))
                        =~= spec_u64_to_le_bytes(ex.name@.len() as u64) + ex.name@
                        + spec_u32_to_le_bytes(ex.block) + enc_entries(
                        x.entries@.skip(k as int + 1),
                    ));
                    assert(ex.name@ =~= name@);
                }
            }
            if entries.len() > 0 {
                let last = entries.len() - 1;
                if !crate::codec::vec_bytes_lt(&entries[last].name, &name) {
                    proof {
                        assert forall|x: Dir|
                            !(x.wf_rec() && (#[trigger] x.enc()).is_prefix_of(b@)) by {
                            if x.wf_rec() && x.enc().is_prefix_of(b@) {
                                assert(entries@[last as int].name@ == x.entries@.take(
                                    k as int,
                                )[last as int].name@);
                                assert(bytes_lt(x.entries@[last as int].name@, x.entries@[
                                    k as int].name@));
                            }
                        }
                    }
                    return Err(PinoqError::Serialization);
                }
            }
            let ghost old_entries = entries@;
            let ghost old_pos = pos as int;
            entries.push(DirEntry { name, block });
            pos = pos + 12 + nlen;
            proof {
                let e = entries@[k as int];
                assert(entries@ =~= old_entries.push(e));
                lemma_enc_entries_append(old_entries, e);
                // order against every earlier entry, through the last one
                assert forall|i: int| 0 <= i < k implies bytes_lt(
                    #[trigger] entries@[i].name@,
                    e.name@,
                ) by {
                    if i < k as int - 1 {
                        crate::codec::lemma_bytes_lt_trans(
                            entries@[i].name@,
                            old_entries[k as int - 1].name@,
                            e.name@,
                        );
                    }
                }
                assert(entries_sorted(entries@));
                assert(e.enc_entry() =~= b@.subrange(old_pos, pos as int));
                assert(b@.subrange(8, pos as int) =~= enc_entries(old_entries) + e.enc_entry());
                // carry the completeness invariant one entry further
                assert forall|x: Dir| x.wf_rec() && (#[trigger] x.enc()).is_prefix_of(b@) implies {
                    &&& entries_eqv(entries@, x.entries@.take(k as int + 1))
                    &&& enc_entries(x.entries@.skip(k as int + 1)).is_prefix_of(
                        b@.skip(pos as int),
                    )
                } by {
                    assert(x.entries@.take(k as int + 1) =~= x.entries@.take(k as int).push(
                        x.entries@[k as int],
                    ));
                    let rest = enc_entries(x.entries@.skip(k as int + 1));
                    assert(enc_entries(x.entries@.skip(k as int)) == x.entries@[
                        k as int].enc_entry() + rest);
                    lemma_concat_part(
                        x.entries@[k as int].enc_entry(),
                        rest,
                        Seq::<u8>::empty(),
                        b@.skip(old_pos),
                    );
                    assert(x.entries@[k as int].enc_entry() + rest =~= x.entries@[
                        k as int].enc_entry() + rest + Seq::<u8>::empty());
                    assert(rest =~= b@.skip(old_pos).subrange(
                        12 + nlen as int,
                        12 + nlen as int + rest.len() as int,
                    ));
                    assert(rest =~= b@.skip(pos as int).subrange(0, rest.len() as int));
                }
            }
            k = k + 1;
        }
        let dir = Dir { entries };
        proof {
            assert(dir.enc() =~= b@.subrange(0, pos as int));
            assert(dir.enc().is_prefix_of(b@));
            assert forall|x: Dir|
                x.wf_rec() && (#[trigger] x.enc()).is_prefix_of(b@) implies dir.eqv(&x) by {
                assert(x.entries@.take(k as int) =~= x.entries@);
            }
        }
        Ok(dir)
    }
}

// ---------------------------------------------------------------------------
// Encrypted block framing
// ---------------------------------------------------------------------------

/// The IV bound to block index `n`: the big-endian index, zero-padded.
pub open spec fn block_iv(n: u32) -> Seq<u8> {
    iv_of(spec_u32_to_be_bytes(n))
}

/// Encode `t` and encrypt it under `key` with the IV bound to block index
/// `n`.
pub fn to_encrypted_block<T: PinoqSerialize>(t: &T, key: &Key, n: u32) -> (r: Result<
    EncryptedBlock,
    PinoqError,
>)
    requires
        t.wf_rec(),
        key.wf(),
        t.enc().len() <= i32::MAX - 16,
    ensures
        r matches Ok(eb) && eb.0@ == aes_enc(t.enc(), key@, block_iv(n)) && eb.0@.len() == enc_len(
            t.enc().len() as int,
        ),
{
    let mut buf: Vec<u8> = Vec::new();
    t.serialize_into(&mut buf);
    let ivv = IV::from_bytes(u32_to_be_vec(n).as_slice());
    let enc_buf = encrypt(buf.as_slice(), key, &ivv);
    Ok(EncryptedBlock(enc_buf))
}

/// Decrypt an encrypted block under `key` with the IV bound to block index
/// `n` and decode the record inside. Whatever record the ciphertext is the
/// encryption of, exactly that record comes back.
pub fn from_encrypted_block<T: PinoqSerialize>(eb: &EncryptedBlock, key: &Key, n: u32) -> (r:
    Result<T, PinoqError>)
    requires
        key.wf(),
        eb.0@.len() <= i32::MAX - 16,
    ensures
        forall|t: T|
            t.wf_rec() && eb.0@ == aes_enc(#[trigger] t.enc(), key@, block_iv(n)) ==> (r matches Ok(
                y,
            ) && y.eqv(&t)),
        r matches Ok(y) ==> y.wf_rec(),
        r matches Err(e) ==> e == PinoqError::Serialization,
{
    let ivv = IV::from_bytes(u32_to_be_vec(n).as_slice());
    let buf = match decrypt(eb.0.as_slice(), key, &ivv) {
        Ok(v) => v,
        Err(e) => return Err(e),
    };
    let r = T::deserialize_from(buf.as_slice());
    proof {
        assert forall|t: T|
            t.wf_rec() && eb.0@ == aes_enc(#[trigger] t.enc(), key@, block_iv(n)) implies (
        r matches Ok(y) && y.eqv(&t)) by {
            assert(buf@ == t.enc());
            assert(t.enc().is_prefix_of(buf@)) by {
                assert(t.enc().subrange(0, t.enc().len() as int) =~= t.enc());
            }
        }
    }
    r
}

} // verus!
