//! The error values that lookup and decoding return.

use vstd::prelude::*;

verus! {

/// A symbol has no path in the tree.
pub const NOT_FOUND: u8 = 0;

/// The bit stream ended before a traversal reached a leaf.
pub const STREAM_EXHAUSTED: u8 = 1;

/// An error raised by code lookup or by stream decoding; the payload is one
/// of the codes above.
#[derive(Clone, Copy, Debug, PartialEq, Eq, Structural)]
pub struct HuffcodeError(pub u8);

impl HuffcodeError {
    /// A short human-readable description of the error.
    pub fn message(&self) -> (m: &'static str)
        ensures
            self.0 == NOT_FOUND ==> m@ == "not found"@,
            self.0 == STREAM_EXHAUSTED ==> m@ == "stream exhausted"@,
            self.0 != NOT_FOUND && self.0 != STREAM_EXHAUSTED ==> m@ == "unknown error"@,
    {
        if self.0 == NOT_FOUND {
            "not found"
        } else if self.0 == STREAM_EXHAUSTED {
            "stream exhausted"
        } else {
            "unknown error"
        }
    }
}

} // verus!
