//! Error kinds raised by the filesystem core, and their mapping to the
//! POSIX errno values that the userland-filesystem bridge reports.

use vstd::prelude::*;

verus! {

/// `errno` for a missing directory entry.
pub const ENOENT: i32 = 2;
/// `errno` for an I/O, decoding or decryption failure.
pub const EIO: i32 = 5;
/// `errno` for a parent that is not a directory.
pub const ENOTDIR: i32 = 20;
/// `errno` for a full volume.
pub const ENOSPC: i32 = 28;

#[derive(Debug, Clone, Copy, PartialEq, Eq, Structural)]
pub enum PinoqError {
    /// A directory lookup missed.
    NoEntry,
    /// The parent inode is not a directory.
    NoDirectory,
    /// No free block is left in the volume.
    NoEnoughSpace,
    /// The underlying volume is too small for the requested access.
    IO,
    /// Binary decoding or decryption failed.
    Serialization,
    /// The mount configuration is unusable.
    InvalidConfig,
}

impl PinoqError {
    /// The errno value reported to the bridge for this error kind.
    pub open spec fn spec_code(&self) -> i32 {
        match self {
            PinoqError::NoEntry => ENOENT,
            PinoqError::NoDirectory => ENOTDIR,
            PinoqError::NoEnoughSpace => ENOSPC,
            PinoqError::IO => EIO,
            PinoqError::Serialization => EIO,
            PinoqError::InvalidConfig => -1i32,
        }
    }

    pub fn to_code(&self) -> (r: i32)
        ensures
            r == self.spec_code(),
    {
        match self {
            PinoqError::NoEntry => ENOENT,
            PinoqError::NoDirectory => ENOTDIR,
            PinoqError::NoEnoughSpace => ENOSPC,
            PinoqError::IO => EIO,
            PinoqError::Serialization => EIO,
            PinoqError::InvalidConfig => -1,
        }
    }
}

} // verus!
