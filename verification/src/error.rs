//! The errors of trie operations.

use crate::link::Cid;
use vstd::prelude::*;

verus! {

/// Why a trie operation did not complete.
#[derive(Debug)]
pub enum HamtError {
    /// The path goes on after the last nibble of the digest.
    CursorOutOfBounds,
    /// A pointer to values was expected, and a link was found.
    ValuesPointerExpected,
    /// The path leads through a block that has not been loaded.
    BlockNotFound { cid: Cid },
}

/// What a `HamtError` says, with the identifier taken by its bytes.
pub enum Failure {
    CursorOutOfBounds,
    ValuesPointerExpected,
    BlockNotFound { cid: Seq<u8> },
}

impl HamtError {
    pub open spec fn view(&self) -> Failure {
        match self {
            HamtError::CursorOutOfBounds => Failure::CursorOutOfBounds,
            HamtError::ValuesPointerExpected => Failure::ValuesPointerExpected,
            HamtError::BlockNotFound { cid } => Failure::BlockNotFound { cid: cid@ },
        }
    }
}

/// What an error says is which error it is, and all the bytes of the identifier if it has one.
pub proof fn law_errors_are_told_apart(error: HamtError)
    ensures
        error@ is CursorOutOfBounds <==> error is CursorOutOfBounds,
        error@ is ValuesPointerExpected <==> error is ValuesPointerExpected,
        error@ is BlockNotFound <==> error is BlockNotFound,
        error matches HamtError::BlockNotFound { cid } ==> error@->cid == cid.bytes@,
{
}

} // verus!
