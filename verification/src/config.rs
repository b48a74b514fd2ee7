//! The mount configuration consumed by the filesystem core: the backing
//! volume, the mountpoint, and the aspect to open with its password.

use vstd::prelude::*;

verus! {

/// Which aspect to mount, and the password that opens it.
#[derive(Debug, Clone)]
pub struct Current {
    pub aspect: u32,
    pub password: Vec<u8>,
}

/// A mount configuration. The driver loads this from its configuration file;
/// the core only reads it.
#[derive(Debug, Clone)]
pub struct Config {
    pub disk: String,
    pub mount: String,
    pub current: Current,
}

} // verus!
