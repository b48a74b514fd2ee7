//! Pinoq: a user-space encrypted filesystem that stores several independent,
//! password-gated "aspects" inside one backing volume.
//!
//! The crate covers the on-disk container and the aspect-scoped filesystem on
//! top of it: the block codec, the crypto envelope around each aspect, the
//! volume layout arithmetic, and the filesystem semantics (lookup, readdir,
//! create, open, read, write) over a memory-mapped volume.

pub mod codec;
pub mod config;
pub mod encryption;
pub mod error;
pub mod filefmt;
pub mod fs;
pub mod volume;

use vstd::prelude::*;

use vstd::arithmetic::mul::lemma_mul_inequality;

use crate::filefmt::{spec_ea_size, EncryptedAspect, BLOCK_SIZE, SUPER_BLOCK_SIZE};

verus! {

/// Byte offset of aspect slot `n` in a volume with `blocks` blocks per
/// aspect: the slots follow the superblock, one encoded aspect apart.
pub open spec fn spec_aspect_offset(blocks: int, n: int) -> int {
    SUPER_BLOCK_SIZE + n * spec_ea_size(blocks)
}

/// Byte offset of block slot `n`: the data region follows the aspect table,
/// one `BLOCK_SIZE` slot per block.
pub open spec fn spec_block_offset(aspects: int, blocks: int, n: int) -> int {
    SUPER_BLOCK_SIZE + aspects * spec_ea_size(blocks) + n * BLOCK_SIZE
}

/// Total length in bytes of a volume: the data region ends after its
/// `blocks`-th slot.
pub open spec fn spec_volume_len(aspects: int, blocks: int) -> int {
    spec_block_offset(aspects, blocks, blocks)
}

/// An encoded aspect slot never exceeds a gigabyte, for any block count.
pub proof fn lemma_ea_size_bounds(blocks: int)
    requires
        0 <= blocks <= u32::MAX,
    ensures
        40 < spec_ea_size(blocks) < 0x40000000,
{
}

pub fn get_aspect_offset(blocks: u32, n: u32) -> (r: usize)
    requires
        spec_aspect_offset(blocks as int, n as int) <= usize::MAX,
    ensures
        r == spec_aspect_offset(blocks as int, n as int),
{
    proof {
        lemma_ea_size_bounds(blocks as int);
        lemma_mul_inequality(n as int, 0x1_0000_0000, spec_ea_size(blocks as int));
    }
    let ea = EncryptedAspect::size_of(blocks) as u64;
    let off: u64 = (SUPER_BLOCK_SIZE as u64) + (n as u64) * ea;
    off as usize
}

pub fn get_block_offset(aspects: u32, blocks: u32, n: u32) -> (r: usize)
    requires
        spec_block_offset(aspects as int, blocks as int, n as int) <= usize::MAX,
    ensures
        r == spec_block_offset(aspects as int, blocks as int, n as int),
{
    proof {
        lemma_ea_size_bounds(blocks as int);
        lemma_mul_inequality(aspects as int, 0x1_0000_0000, spec_ea_size(blocks as int));
    }
    let ea = EncryptedAspect::size_of(blocks) as u64;
    let off: u64 = (SUPER_BLOCK_SIZE as u64) + (aspects as u64) * ea + (n as u64) * (
    BLOCK_SIZE as u64);
    off as usize
}

/// The first aspect slot sits right after the superblock.
pub proof fn lemma_aspect_offset_first(blocks: int)
    ensures
        spec_aspect_offset(blocks, 0) == SUPER_BLOCK_SIZE,
{
}

/// Consecutive aspect slots lie exactly one encoded aspect apart.
pub proof fn lemma_aspect_offset_step(blocks: int, n: int)
    ensures
        spec_aspect_offset(blocks, n + 1) - spec_aspect_offset(blocks, n) == spec_ea_size(blocks),
{
    assert((n + 1) * spec_ea_size(blocks) == n * spec_ea_size(blocks) + spec_ea_size(blocks))
        by (nonlinear_arith);
}

/// Consecutive block slots lie exactly one block apart.
pub proof fn lemma_block_offset_step(aspects: int, blocks: int, n: int)
    ensures
        spec_block_offset(aspects, blocks, n + 1) - spec_block_offset(aspects, blocks, n)
            == BLOCK_SIZE,
{
    assert((n + 1) * BLOCK_SIZE == n * BLOCK_SIZE + BLOCK_SIZE) by (nonlinear_arith);
}

} // verus!
