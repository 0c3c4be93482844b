//! How an external file is opened.

use vstd::prelude::*;

verus! {

/// The bit for reading.
pub const READ: u32 = 1;

/// The bit for writing.
pub const WRITE: u32 = 2;

/// The bit for creating the file if it is not there.
pub const CREATE: u32 = 4;

/// The bit for emptying the file.
pub const TRUNCATE: u32 = 8;

/// How an external file is opened.
#[derive(Clone, Copy, Debug, PartialEq, Eq, Hash, Structural)]
pub struct ExternalOpenFlags {
    /// For reading.
    pub read: bool,
    /// For writing.
    pub write: bool,
    /// Created if it is not there.
    pub create: bool,
    /// Emptied.
    pub truncate: bool,
}

impl ExternalOpenFlags {
    /// The flags as bits.
    pub open spec fn as_bits(self) -> int {
        let r: int = if self.read {
            READ as int
        } else {
            0
        };
        let w: int = if self.write {
            WRITE as int
        } else {
            0
        };
        let c: int = if self.create {
            CREATE as int
        } else {
            0
        };
        let t: int = if self.truncate {
            TRUNCATE as int
        } else {
            0
        };
        r + w + c + t
    }

    /// The flags as bits.
    pub fn bits(&self) -> (bits: u32)
        ensures
            bits == self.as_bits(),
    {
        let mut bits: u32 = 0;
        if self.read {
            bits = bits + READ;
        }
        if self.write {
            bits = bits + WRITE;
        }
        if self.create {
            bits = bits + CREATE;
        }
        if self.truncate {
            bits = bits + TRUNCATE;
        }
        bits
    }

    /// The flags that bits stand for, `None` where a bit stands for no flag.
    pub fn from_bits(bits: u32) -> (flags: Option<ExternalOpenFlags>)
        ensures
            flags is Some <==> bits < 16,
            flags matches Some(f) ==> f.as_bits() == bits,
    {
        if bits >= 16 {
            return None;
        }
        Some(
            ExternalOpenFlags {
                read: bits % 2 == 1,
                write: bits / 2 % 2 == 1,
                create: bits / 4 % 2 == 1,
                truncate: bits / 8 == 1,
            },
        )
    }
}

/// Different flags have different bits.
pub proof fn lemma_bits_are_distinct(a: ExternalOpenFlags, b: ExternalOpenFlags)
    requires
        a.as_bits() == b.as_bits(),
    ensures
        a == b,
{
}

/// Each flag has a bit of its own: reading the lowest, then writing, creating and emptying. No
/// other bit is set.
pub proof fn lemma_flags_have_bits(flags: ExternalOpenFlags)
    ensures
        0 <= flags.as_bits() < 16,
        flags.read <==> flags.as_bits() % 2 == 1,
        flags.write <==> flags.as_bits() / 2 % 2 == 1,
        flags.create <==> flags.as_bits() / 4 % 2 == 1,
        flags.truncate <==> flags.as_bits() / 8 % 2 == 1,
{
}

} // verus!
