//! Errors the index engine reports.

use vstd::prelude::*;

verus! {

/// Why an index operation was refused.
#[derive(Debug, Clone, Copy, PartialEq, Eq, Structural)]
pub enum Error {
    /// The handle's UTF-8 form exceeds the one-byte length prefix (255 bytes);
    /// the insertion is rejected rather than truncated.
    HandleTooLong,
    /// A stored value does not decode in its key's namespace.
    CorruptValue,
    /// A scanned key starts with a byte that names no namespace: the store is
    /// corrupt or was written by something else.
    InvalidKeyPrefix(u8),
}

} // verus!
