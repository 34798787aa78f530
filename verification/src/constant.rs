//! Sizes that fix the shape of the trie.

use vstd::prelude::*;

verus! {

/// The number of bytes in a key's digest.
pub const HASH_BYTE_SIZE: usize = 32;

/// The number of nibbles in a digest, which is how many levels a path can have.
pub const MAX_CURSOR_DEPTH: usize = 64;

/// The number of slots of a node, one for each value of a nibble.
pub const HAMT_BITMASK_BIT_SIZE: usize = 16;

/// The number of bytes that hold a node's bitmask.
pub const HAMT_BITMASK_BYTE_SIZE: usize = 2;

/// The number of pairs that a slot holds before they move to a node of their own.
pub const HAMT_VALUES_BUCKET_SIZE: usize = 3;

} // verus!
