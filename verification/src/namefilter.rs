//! Filters that names are added to.

use vstd::prelude::*;

verus! {

/// The number of bytes in a name filter.
pub const NAMEFILTER_BYTE_SIZE: usize = 256;

/// A Bloom filter over names, kept as the bytes that hold its bits.
#[derive(Debug)]
pub struct Namefilter {
    pub bytes: [u8; NAMEFILTER_BYTE_SIZE],
}

impl Namefilter {
    /// Creates a filter to which no name has been added, so that none of its bits is set.
    pub fn new() -> (res: Self)
        ensures
            forall|i: int| 0 <= i < NAMEFILTER_BYTE_SIZE ==> #[trigger] res.bytes@[i] == 0,
    {
        Namefilter { bytes: [0u8; 256] }
    }
}

} // verus!
