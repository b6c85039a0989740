//! Content-defined delta synchronization: block signatures over a basis
//! buffer, rolling-checksum delta encoding against a target buffer, and
//! patch application that reconstructs the target from basis plus delta.

use vstd::prelude::*;

pub mod checksum;
pub mod file;
pub mod laws;
pub mod utilities;
pub mod wire;

verus! {

/// Identifies the hash algorithm and stream kind of a serialized form.
#[derive(Clone, Copy, Debug, PartialEq, Eq, Structural)]
pub enum MagicNumber {
    Blake2Hash,
    Delta,
    MD5,
}

impl MagicNumber {
    /// The 32-bit tag this magic number takes in serialized headers.
    pub open spec fn value_spec(self) -> u32 {
        match self {
            MagicNumber::Blake2Hash => 0x72730137,
            MagicNumber::Delta => 0x72730236,
            MagicNumber::MD5 => 0x72730136,
        }
    }

    /// Returns the 32-bit header tag of this magic number.
    pub fn value(self) -> (r: u32)
        ensures
            r == self.value_spec(),
    {
        match self {
            MagicNumber::Blake2Hash => 0x72730137,
            MagicNumber::Delta => 0x72730236,
            MagicNumber::MD5 => 0x72730136,
        }
    }
}

/// Status and error kinds for the delta operations.
#[derive(Clone, Copy, Debug, PartialEq, Eq, Structural)]
pub enum RsyncResult {
    Done,
    Blocked,
    Running,
    Skipped,
    IOError,
    SyntaxError,
    MemoryError,
    InputEndedError,
    BadMagicError,
    UnimplementedError,
    Corrupt,
    InternalError,
    ParamError,
}

/// Read-only summary counters produced as a side output of encoding.
#[derive(Clone, Copy, Debug, PartialEq, Eq, Structural)]
pub struct RsyncStats {
    pub lit_cmds: u64,
    pub lit_bytes: u64,
    pub copy_cmds: u64,
    pub copy_bytes: u64,
    pub sig_blocks: u64,
    pub block_len: u64,
    pub in_bytes: u64,
    pub out_bytes: u64,
}

impl RsyncStats {
    pub fn new() -> (r: RsyncStats)
        ensures
            r.lit_cmds == 0,
            r.lit_bytes == 0,
            r.copy_cmds == 0,
            r.copy_bytes == 0,
            r.sig_blocks == 0,
            r.block_len == 0,
            r.in_bytes == 0,
            r.out_bytes == 0,
    {
        RsyncStats {
            lit_cmds: 0,
            lit_bytes: 0,
            copy_cmds: 0,
            copy_bytes: 0,
            sig_blocks: 0,
            block_len: 0,
            in_bytes: 0,
            out_bytes: 0,
        }
    }
}

} // verus!
