//! The ways in which a buffer can fail to be a message.

use vstd::prelude::*;

verus! {

/// Why a buffer was refused.
#[derive(Debug, Clone, Copy, PartialEq, Eq, Structural)]
pub enum ParseError {
    /// The buffer is not valid UTF-8.
    EncodingError,
    /// The first line holds fewer than three tokens.
    MalformedStartLine,
}

} // verus!
