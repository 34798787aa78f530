//! Content identifiers, and links that are either identifiers or loaded values.

use vstd::prelude::*;

verus! {

/// The identifier under which a block store keeps a block, as raw bytes.
#[derive(Debug)]
pub struct Cid {
    pub bytes: Vec<u8>,
}

impl Cid {
    /// The bytes of the identifier.
    pub open spec fn view(&self) -> Seq<u8> {
        self.bytes@
    }

    /// Makes an identifier from its bytes.
    pub fn new(bytes: Vec<u8>) -> (res: Self)
        ensures
            res@ == bytes@,
    {
        Cid { bytes }
    }

    /// Tells whether two identifiers are the same.
    pub fn same_as(&self, other: &Self) -> (res: bool)
        ensures
            res == (self@ == other@),
    {
        if self.bytes.len() != other.bytes.len() {
            return false;
        }
        for i in 0..self.bytes.len()
            invariant
                self.bytes@.len() == other.bytes@.len(),
                forall|j: int| 0 <= j < i ==> self.bytes@[j] == other.bytes@[j],
        {
            if self.bytes[i] != other.bytes[i] {
                return false;
            }
        }
        assert(self@ =~= other@);
        true
    }
}

impl Clone for Cid {
    fn clone(&self) -> (res: Self)
        ensures
            res@ == self@,
    {
        Cid { bytes: self.bytes.clone() }
    }
}

impl PartialEq for Cid {
    fn eq(&self, other: &Self) -> (res: bool) {
        self.same_as(other)
    }
}

impl vstd::std_specs::cmp::PartialEqSpecImpl for Cid {
    open spec fn obeys_eq_spec() -> bool {
        true
    }

    open spec fn eq_spec(&self, other: &Self) -> bool {
        self@ == other@
    }
}

/// A reference to a value, either by its identifier or directly.
#[derive(Debug)]
pub enum Link<T> {
    /// The value is in a block store, under this identifier.
    Encoded { cid: Cid },
    /// The value is in memory. If it has been stored, its identifier may be noted.
    Decoded { value: T, noted: Option<Cid> },
}

/// The bytes of an identifier that is noted.
pub open spec fn note(cid: &Option<Cid>) -> Option<Seq<u8>> {
    match cid {
        Some(cid) => Some(cid@),
        None => None,
    }
}

/// An identifier is all of its bytes, noted or not.
pub proof fn law_identifier_is_its_bytes(a: Cid, b: Cid)
    ensures
        a@.len() == a.bytes@.len(),
        forall|i: int| 0 <= i < a.bytes@.len() ==> a@[i] == #[trigger] a.bytes@[i],
        a@ == b@ <==> a.bytes@ == b.bytes@,
        note(&Some(a)) == Some(a.bytes@),
        note(&None) is None,
{
}

/// Copies an identifier that is noted.
pub(crate) fn copy_note(cid: &Option<Cid>) -> (res: Option<Cid>)
    ensures
        note(&res) == note(cid),
{
    match cid {
        Some(cid) => Some(cid.clone()),
        None => None,
    }
}

} // verus!
