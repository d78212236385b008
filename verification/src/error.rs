//! Why a byte string is not decoded.

use vstd::prelude::*;

verus! {

/// The reason for which a byte string was not decoded.
///
/// A message is judged by its tag first, then by its length, then by its
/// contents; a state or a list, which has no tag, by its length, then by its
/// contents. Of the reasons that apply, the first in that order is reported.
#[derive(Debug, Clone, Copy, PartialEq, Eq, Hash, Structural)]
pub enum DecodeError {
    /// The input ends before the value that it starts is complete.
    Truncated,
    /// The tag names no message.
    UnknownTag,
    /// Bytes follow the end of the value.
    TrailingBytes,
    /// An identifier announces a length other than sixteen bytes.
    BadIdLength,
    /// The text of a message is not UTF-8.
    InvalidText,
}

} // verus!
