//! Failure taxonomy of the store: short reads, checksum mismatches, malformed
//! bytes, and values the format's length words cannot carry. Absence of a key
//! is never an error.
use vstd::prelude::*;

verus! {

/// Why a table, block or index could not be read or written.
#[derive(Copy, Clone, PartialEq, Eq, Structural, Debug)]
pub enum StoreError {
    /// Fewer bytes than the layout demands: a truncated trailer, footer or run.
    Truncated,
    /// A CRC trailer did not match the bytes it covers.
    Corruption,
    /// Bytes that parse under no layout: a bad tag, magic, version or length.
    Malformed,
    /// A block or index section outgrew its 32-bit length word.
    TooLarge,
}

impl StoreError {
    /// A short description, in place of a `Display` rendering.
    pub fn describe(&self) -> (r: &'static str)
        ensures
            r@.len() > 0,
    {
        proof {
            reveal_strlit("short read");
            reveal_strlit("checksum mismatch");
            reveal_strlit("malformed bytes");
            reveal_strlit("section too large");
        }
        match self {
            StoreError::Truncated => "short read",
            StoreError::Corruption => "checksum mismatch",
            StoreError::Malformed => "malformed bytes",
            StoreError::TooLarge => "section too large",
        }
    }
}

} // verus!
