//! What a slot of a node points to: a bucket of pairs, or another node.

use crate::hash::{digest_before, digest_less, digests_equal, AsBytes, HashOutput, Hasher};
use crate::link::{copy_note, note, Link};
use crate::node::Node;
use crate::tree::{greater_index, lemma_greater_index, lemma_match_index, match_index, Branch};
use crate::tree::Entry;
use std::rc::Rc;
use vstd::prelude::*;

verus! {

/// A key and its value.
#[derive(Debug)]
pub struct Pair<K, V> {
    pub key: K,
    pub value: V,
}

impl<K, V> Pair<K, V> {
    /// Makes a pair of a key and a value.
    pub fn new(key: K, value: V) -> (res: Self)
        ensures
            res.key == key,
            res.value == value,
    {
        Pair { key, value }
    }
}

impl<K: Clone, V: Clone> Clone for Pair<K, V> {
    fn clone(&self) -> (res: Self)
        ensures
            cloned(self.key, res.key),
            cloned(self.value, res.value),
    {
        Pair { key: self.key.clone(), value: self.value.clone() }
    }
}

/// What a slot in use holds. Pairs are shared between the versions of a node.
#[derive(Debug)]
pub enum Pointer<K, V, H: Hasher> {
    /// A bucket of pairs.
    Values(Vec<Rc<Pair<K, V>>>),
    /// A link to a node one level down.
    Link(Link<Rc<Node<K, V, H>>>),
}

/// The entry that a pair makes under the hash function `H`.
pub open spec fn entry<K: AsBytes, V, H: Hasher>(pair: &Pair<K, V>) -> Entry<K, V> {
    Entry { digest: H::digest(pair.key.bytes()), pair: *pair }
}

/// The entry of a pair is the pair itself, at the digest of all the bytes of its key.
pub proof fn law_entry<K: AsBytes, V, H: Hasher>(pair: &Pair<K, V>)
    ensures
        entry::<K, V, H>(pair).pair == *pair,
        entry::<K, V, H>(pair).digest == H::digest(pair.key.bytes()),
{
}

/// The entries of a bucket.
pub open spec fn entries<K: AsBytes, V, H: Hasher>(values: Seq<Rc<Pair<K, V>>>) -> Seq<
    Entry<K, V>,
> {
    Seq::new(values.len(), |i: int| entry::<K, V, H>(&*values[i]))
}

impl<K: AsBytes, V, H: Hasher> Pointer<K, V, H> {
    /// The branch of the trie that the pointer stands for.
    pub open spec fn view(&self) -> Branch<K, V>
        decreases self,
    {
        match self {
            Pointer::Values(values) => Branch::Values(entries::<K, V, H>(values@)),
            Pointer::Link(Link::Encoded { cid }) => Branch::Block(cid@),
            Pointer::Link(Link::Decoded { value, noted }) => Branch::Subtree(
                value.view(),
                note(noted),
            ),
        }
    }
}

impl<K, V, H: Hasher> Pointer<K, V, H> {
    /// Holds if the nodes that can be reached without loading a block are well-formed.
    pub open spec fn wf(&self) -> bool
        decreases self,
    {
        match self {
            Pointer::Link(Link::Decoded { value, .. }) => value.wf(),
            _ => true,
        }
    }

    /// Holds if the two pointers hold the same pairs, the same identifier, or the same node with
    /// the same identifier noted.
    pub open spec fn same_as(&self, other: &Self) -> bool {
        match (self, other) {
            (Pointer::Values(a), Pointer::Values(b)) => a@ == b@,
            (
                Pointer::Link(Link::Encoded { cid: a }),
                Pointer::Link(Link::Encoded { cid: b }),
            ) => a@ == b@,
            (
                Pointer::Link(Link::Decoded { value: a, noted: c }),
                Pointer::Link(Link::Decoded { value: b, noted: d }),
            ) => a == b && note(c) == note(d),
            _ => false,
        }
    }
}

impl<K, V, H: Hasher> Clone for Pointer<K, V, H> {
    fn clone(&self) -> (res: Self)
        ensures
            res.same_as(self),
            res.wf() == self.wf(),
    {
        match self {
            Pointer::Values(values) => Pointer::Values(share_values(values)),
            Pointer::Link(Link::Encoded { cid }) => Pointer::Link(
                Link::Encoded { cid: cid.clone() },
            ),
            Pointer::Link(Link::Decoded { value, noted }) => Pointer::Link(
                Link::Decoded { value: Rc::clone(value), noted: copy_note(noted) },
            ),
        }
    }
}

/// Makes a bucket that shares its pairs with another.
pub(crate) fn share_values<K, V>(values: &Vec<Rc<Pair<K, V>>>) -> (res: Vec<Rc<Pair<K, V>>>)
    ensures
        res@ == values@,
{
    let mut res: Vec<Rc<Pair<K, V>>> = Vec::with_capacity(values.len());
    for i in 0..values.len()
        invariant
            res@ == values@.take(i as int),
    {
        res.push(Rc::clone(&values[i]));
    }
    assert(res@ =~= values@);
    res
}

/// Returns the position of the first pair whose key has the given digest, or the length of
/// the bucket if there is none.
pub(crate) fn position_of<K: AsBytes, V, H: Hasher>(
    values: &Vec<Rc<Pair<K, V>>>,
    digest: &HashOutput,
) -> (res: usize)
    ensures
        res == match_index(entries::<K, V, H>(values@), digest@),
        res <= values@.len(),
{
    let ghost vs = entries::<K, V, H>(values@);
    for i in 0..values.len()
        invariant
            vs == entries::<K, V, H>(values@),
            forall|j: int| 0 <= j < i ==> (#[trigger] vs[j]).digest != digest@,
    {
        let hash: HashOutput = H::hash(&values[i].key);
        assert(vs[i as int].digest == hash@);
        if digests_equal(&hash, digest) {
            proof {
                lemma_match_index(vs, digest@);
            }
            return i;
        }
    }
    proof {
        lemma_match_index(vs, digest@);
    }
    values.len()
}

/// Returns the position of the first pair whose key has a digest after the given one, or the
/// length of the bucket if there is none.
pub(crate) fn position_after<K: AsBytes, V, H: Hasher>(
    values: &Vec<Rc<Pair<K, V>>>,
    digest: &HashOutput,
) -> (res: usize)
    ensures
        res == greater_index(entries::<K, V, H>(values@), digest@),
        res <= values@.len(),
{
    let ghost vs = entries::<K, V, H>(values@);
    for i in 0..values.len()
        invariant
            vs == entries::<K, V, H>(values@),
            forall|j: int| 0 <= j < i ==> !digest_less(digest@, (#[trigger] vs[j]).digest),
    {
        let hash: HashOutput = H::hash(&values[i].key);
        assert(vs[i as int].digest == hash@);
        if digest_before(digest, &hash) {
            proof {
                lemma_greater_index(vs, digest@);
            }
            return i;
        }
    }
    proof {
        lemma_greater_index(vs, digest@);
    }
    values.len()
}

/// Pointers that hold the same stand for the same branch.
pub proof fn lemma_same_pointers<K: AsBytes, V, H: Hasher>(
    a: Pointer<K, V, H>,
    b: Pointer<K, V, H>,
)
    requires
        a.same_as(&b),
    ensures
        a@ == b@,
        a.wf() == b.wf(),
{
}

} // verus!
