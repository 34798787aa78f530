//! The form in which a node is written to a block.

use crate::bitmask::{bits, byte_bits, mask_bytes, mask_from_bytes, rank, BitMaskType};
use crate::constant::HAMT_BITMASK_BIT_SIZE;
use crate::hash::{AsBytes, Hasher};
use crate::link::{note, Cid, Link};
use crate::node::Node;
use crate::pointer::{lemma_same_pointers, share_values, Pair, Pointer};
use std::marker::PhantomData;
use std::rc::Rc;
use vstd::prelude::*;

verus! {

/// A node as its block holds it: the bytes of the bitmask, then the pointers.
#[derive(Debug)]
pub struct NodeIpld<K, V> {
    pub bitmask: BitMaskType,
    pub pointers: Vec<PointerIpld<K, V>>,
}

/// A pointer as a block holds it. A node one level down is held by its identifier.
#[derive(Debug)]
pub enum PointerIpld<K, V> {
    Values(Vec<Rc<Pair<K, V>>>),
    Link(Cid),
}

/// What is to be done next to write a node to a block.
#[derive(Debug)]
pub enum EncodeStep<K, V> {
    /// This block of a node further down has to be stored first, and its identifier noted.
    StoreBlock(NodeIpld<K, V>),
    /// The node is ready to be written.
    Encoded(NodeIpld<K, V>),
}

/// Holds if a pointer leads to a node in memory for which no identifier is noted.
pub open spec fn unstored<K, V, H: Hasher>(pointer: Pointer<K, V, H>) -> bool {
    pointer matches Pointer::Link(Link::Decoded { noted: None, .. })
}

/// The position of the first pointer to a node in memory for which no identifier is noted, or
/// the number of pointers if there is none.
pub open spec fn first_unstored<K, V, H: Hasher>(pointers: Seq<Pointer<K, V, H>>) -> int
    decreases pointers.len(),
{
    if pointers.len() == 0 {
        0
    } else {
        let k = first_unstored(pointers.drop_last());
        if k < pointers.len() - 1 || unstored(pointers.last()) {
            k
        } else {
            pointers.len() as int
        }
    }
}

/// Holds if an identifier is known for each node that the pointers lead to.
pub open spec fn all_stored<K, V, H: Hasher>(pointers: Seq<Pointer<K, V, H>>) -> bool {
    first_unstored(pointers) == pointers.len()
}

/// What makes a position that of the first pointer to a node without an identifier.
pub proof fn lemma_first_unstored<K, V, H: Hasher>(pointers: Seq<Pointer<K, V, H>>)
    ensures
        0 <= first_unstored(pointers) <= pointers.len(),
        forall|j: int| 0 <= j < first_unstored(pointers) ==> !unstored(#[trigger] pointers[j]),
        first_unstored(pointers) < pointers.len() ==> unstored(pointers[first_unstored(pointers)]),
    decreases pointers.len(),
{
    if pointers.len() > 0 {
        let rest = pointers.drop_last();
        lemma_first_unstored(rest);
        assert forall|j: int| 0 <= j < first_unstored(pointers) implies !unstored(
            #[trigger] pointers[j],
        ) by {
            if j < rest.len() {
                assert(rest[j] == pointers[j]);
            }
        }
    }
}

/// A position with those properties is that of the first pointer to a node without an
/// identifier.
proof fn lemma_is_first_unstored<K, V, H: Hasher>(pointers: Seq<Pointer<K, V, H>>, k: int)
    requires
        0 <= k <= pointers.len(),
        forall|j: int| 0 <= j < k ==> !unstored(#[trigger] pointers[j]),
        k < pointers.len() ==> unstored(pointers[k]),
    ensures
        first_unstored(pointers) == k,
{
    lemma_first_unstored(pointers);
}

/// Holds if `form` is how a block holds `pointer`.
pub open spec fn encodes_pointer<K, V, H: Hasher>(
    pointer: Pointer<K, V, H>,
    form: PointerIpld<K, V>,
) -> bool {
    match (pointer, form) {
        (Pointer::Values(values), PointerIpld::Values(written)) => values@ == written@,
        (Pointer::Link(Link::Encoded { cid }), PointerIpld::Link(written)) => cid@ == written@,
        (Pointer::Link(Link::Decoded { noted, .. }), PointerIpld::Link(written)) => note(&noted)
            == Some(written@),
        _ => false,
    }
}

/// Holds if `form` is how a block holds `node`.
pub open spec fn encodes_node<K, V, H: Hasher>(
    node: &Node<K, V, H>,
    form: NodeIpld<K, V>,
) -> bool {
    &&& byte_bits(form.bitmask@) == node.used()
    &&& form.pointers@.len() == node.pointers@.len()
    &&& forall|i: int|
        0 <= i < node.pointers@.len() ==> encodes_pointer(
            #[trigger] node.pointers@[i],
            form.pointers@[i],
        )
}

/// Holds if `form` is how a block holds the first node to be stored, at or below `node`: the
/// one that is reached by the first links to nodes without an identifier.
pub open spec fn encodes_first<K, V, H: Hasher>(
    node: &Node<K, V, H>,
    form: NodeIpld<K, V>,
) -> bool
    decreases node,
{
    let k = first_unstored(node.pointers@);
    if 0 <= k < node.pointers@.len() {
        match node.pointers@[k] {
            Pointer::Link(Link::Decoded { value, .. }) => encodes_first(&*value, form),
            _ => false,
        }
    } else {
        encodes_node(node, form)
    }
}

/// Holds if `after` is `before`, with `cid` noted for the first node below it that is to be
/// stored, if there is one.
pub open spec fn notes_first<K, V, H: Hasher>(
    before: &Node<K, V, H>,
    cid: Seq<u8>,
    after: &Node<K, V, H>,
) -> bool
    decreases before,
{
    let k = first_unstored(before.pointers@);
    &&& after.used() == before.used()
    &&& after.pointers@.len() == before.pointers@.len()
    &&& forall|i: int|
        0 <= i < before.pointers@.len() && i != k ==> (#[trigger] after.pointers@[i]).same_as(
            &before.pointers@[i],
        )
    &&& 0 <= k < before.pointers@.len() ==> match (before.pointers@[k], after.pointers@[k]) {
        (
            Pointer::Link(Link::Decoded { value: child, .. }),
            Pointer::Link(Link::Decoded { value, noted }),
        ) => if all_stored(child.pointers@) {
            value == child && note(&noted) == Some(cid)
        } else {
            note(&noted) is None && notes_first(&*child, cid, &*value)
        },
        _ => false,
    }
}

impl<K, V, H: Hasher> Node<K, V, H> {
    /// Returns the position of the first pointer to a node in memory for which no identifier is
    /// noted, or the number of pointers if there is none.
    fn position_unstored(&self) -> (res: usize)
        ensures
            res == first_unstored(self.pointers@),
            res <= self.pointers@.len(),
    {
        for i in 0..self.pointers.len()
            invariant
                forall|j: int| 0 <= j < i ==> !unstored(#[trigger] self.pointers@[j]),
        {
            if let Pointer::Link(Link::Decoded { noted: None, .. }) = &self.pointers[i] {
                proof {
                    lemma_is_first_unstored(self.pointers@, i as int);
                }
                return i;
            }
        }
        proof {
            lemma_is_first_unstored(self.pointers@, self.pointers@.len() as int);
        }
        self.pointers.len()
    }

    /// Converts a node to the form in which its block holds it. The nodes below it that are in
    /// memory and have no identifier noted have to be stored before that: while there are any,
    /// the result is the block of the first of them.
    pub fn to_ipld(&self) -> (res: EncodeStep<K, V>)
        ensures
            match res {
                EncodeStep::StoreBlock(form) => !all_stored(self.pointers@) && encodes_first(
                    self,
                    form,
                ),
                EncodeStep::Encoded(form) => all_stored(self.pointers@) && encodes_node(
                    self,
                    form,
                ),
            },
        decreases self,
    {
        let mut pointers: Vec<PointerIpld<K, V>> = Vec::with_capacity(self.pointers.len());
        for i in 0..self.pointers.len()
            invariant
                forall|j: int| 0 <= j < i ==> !unstored(#[trigger] self.pointers@[j]),
                pointers@.len() == i,
                forall|j: int|
                    0 <= j < i ==> encodes_pointer(#[trigger] self.pointers@[j], pointers@[j]),
        {
            let form = match &self.pointers[i] {
                Pointer::Values(values) => PointerIpld::Values(share_values(values)),
                Pointer::Link(Link::Encoded { cid }) => PointerIpld::Link(cid.clone()),
                Pointer::Link(Link::Decoded { noted: Some(cid), .. }) => PointerIpld::Link(
                    cid.clone(),
                ),
                Pointer::Link(Link::Decoded { value, noted: None }) => {
                    proof {
                        lemma_is_first_unstored(self.pointers@, i as int);
                        reveal_with_fuel(encodes_first, 2);
                    }
                    let child: &Node<K, V, H> = &**value;
                    return match child.to_ipld() {
                        EncodeStep::StoreBlock(form) => EncodeStep::StoreBlock(form),
                        EncodeStep::Encoded(form) => EncodeStep::StoreBlock(form),
                    };
                },
            };
            pointers.push(form);
        }
        proof {
            lemma_is_first_unstored(self.pointers@, self.pointers@.len() as int);
        }
        EncodeStep::Encoded(NodeIpld { bitmask: mask_bytes(&self.bitmask), pointers })
    }

    /// Notes the identifier of the block that `to_ipld` wants stored. Nothing changes if it
    /// wants none.
    pub fn note_cid(&mut self, cid: Cid)
        ensures
            notes_first(old(self), cid@, final(self)),
            final(self).wf() == old(self).wf(),
    {
        *self = self.with_note(cid);
    }

    /// Returns a version of the node in which the identifier is noted.
    fn with_note(&self, cid: Cid) -> (res: Self)
        ensures
            notes_first(self, cid@, &res),
            res.wf() == self.wf(),
        decreases self,
    {
        let mut res: Self = self.clone();
        let k: usize = self.position_unstored();
        proof {
            lemma_first_unstored(self.pointers@);
        }
        if k < self.pointers.len() {
            if let Pointer::Link(Link::Decoded { value, .. }) = &self.pointers[k] {
                let child: &Node<K, V, H> = &**value;
                let link = if child.position_unstored() < child.pointers.len() {
                    Link::Decoded { value: Rc::new(child.with_note(cid)), noted: None }
                } else {
                    Link::Decoded { value: Rc::clone(value), noted: Some(cid) }
                };
                res.pointers.set(k, Pointer::Link(link));
            }
        }
        assert forall|i: int| 0 <= i < self.pointers@.len() implies (
        #[trigger] res.pointers@[i]).wf() == self.pointers@[i].wf() by {}
        proof {
            if self.wf() {
                assert forall|i: int| 0 <= i < res.pointers@.len() implies (
                #[trigger] res.pointers@[i]).wf() by {
                    assert(self.pointers@[i].wf());
                }
            }
            if res.wf() {
                assert forall|i: int| 0 <= i < self.pointers@.len() implies (
                #[trigger] self.pointers@[i]).wf() by {
                    assert(res.pointers@[i].wf());
                }
            }
        }
        res
    }

    /// Makes a node of the form in which its block holds it. Links are left to be followed
    /// when they are needed. Nothing ensures that the pointers are as many as the slots in
    /// use.
    pub fn from_ipld(form: NodeIpld<K, V>) -> (res: Self)
        ensures
            decodes_node(form, &res),
            res.wf() == (form.pointers@.len() == rank(
                byte_bits(form.bitmask@),
                HAMT_BITMASK_BIT_SIZE as int,
            )),
    {
        let mut pointers: Vec<Pointer<K, V, H>> = Vec::with_capacity(form.pointers.len());
        for i in 0..form.pointers.len()
            invariant
                pointers@.len() == i,
                forall|j: int|
                    0 <= j < i ==> decodes_pointer(#[trigger] form.pointers@[j], pointers@[j]),
        {
            let pointer = match &form.pointers[i] {
                PointerIpld::Values(values) => Pointer::Values(share_values(values)),
                PointerIpld::Link(cid) => Pointer::Link(Link::Encoded { cid: cid.clone() }),
            };
            pointers.push(pointer);
        }
        let res = Node { bitmask: mask_from_bytes(form.bitmask), pointers, hasher: PhantomData };
        assert forall|i: int| 0 <= i < res.pointers@.len() implies (
        #[trigger] res.pointers@[i]).wf() by {
            assert(decodes_pointer(form.pointers@[i], res.pointers@[i]));
        }
        res
    }

    /// Tells whether this node, and each that can be reached from it without loading a block,
    /// has one pointer for each slot in use.
    pub fn is_well_formed(&self) -> (res: bool)
        ensures
            res == self.wf(),
        decreases self,
    {
        let bitmask = mask_bytes(&self.bitmask);
        assert(self.used() == byte_bits(bitmask@));
        if self.bitmask.count_ones() != self.pointers.len() {
            return false;
        }
        for i in 0..self.pointers.len()
            invariant
                forall|j: int| 0 <= j < i ==> (#[trigger] self.pointers@[j]).wf(),
        {
            match &self.pointers[i] {
                Pointer::Link(Link::Decoded { value, .. }) => {
                    let child: &Node<K, V, H> = &**value;
                    if !child.is_well_formed() {
                        assert(!self.pointers@[i as int].wf());
                        return false;
                    }
                },
                _ => {},
            }
        }
        true
    }
}

/// The number of nodes to be stored that the first `n` pointers of a node lead to.
pub open spec fn unstored_count<K, V, H: Hasher>(node: &Node<K, V, H>, n: int) -> int
    decreases node, n,
{
    if n <= 0 || n > node.pointers@.len() {
        0
    } else {
        unstored_count(node, n - 1) + match node.pointers@[n - 1] {
            Pointer::Link(Link::Decoded { value, noted: None }) => 1 + unstored_count(
                &*value,
                value.pointers@.len() as int,
            ),
            _ => 0,
        }
    }
}

/// A count of nodes to be stored is a natural number, and zero if there are none.
proof fn lemma_unstored_count<K, V, H: Hasher>(node: &Node<K, V, H>, n: int)
    requires
        0 <= n <= node.pointers@.len(),
    ensures
        unstored_count(node, n) >= 0,
        unstored_count(node, n) == 0 <==> forall|j: int|
            0 <= j < n ==> !unstored(#[trigger] node.pointers@[j]),
    decreases node, n,
{
    if n > 0 {
        lemma_unstored_count(node, n - 1);
        if let Pointer::Link(Link::Decoded { value, noted: None }) = node.pointers@[n - 1] {
            lemma_unstored_count(&*value, value.pointers@.len() as int);
            assert(unstored(node.pointers@[n - 1]));
        }
    }
}

/// Each block that is stored and noted leaves one block less to be stored, and when there is
/// none left the node is ready to be written.
pub proof fn law_encoding_ends<K, V, H: Hasher>(
    before: &Node<K, V, H>,
    cid: Seq<u8>,
    after: &Node<K, V, H>,
)
    requires
        notes_first(before, cid, after),
    ensures
        ({
            let m = unstored_count(before, before.pointers@.len() as int);
            let n = unstored_count(after, after.pointers@.len() as int);
            &&& m >= 0
            &&& m == 0 <==> all_stored(before.pointers@)
            &&& m > 0 ==> n == m - 1
        }),
{
    let len = before.pointers@.len() as int;
    lemma_first_unstored(before.pointers@);
    lemma_unstored_count(before, len);
    if first_unstored(before.pointers@) < len {
        lemma_noting_counts(before, cid, after, len);
    }
}

/// Noting an identifier takes one off the counts of nodes to be stored, from the pointer on that
/// leads to the node.
proof fn lemma_noting_counts<K, V, H: Hasher>(
    before: &Node<K, V, H>,
    cid: Seq<u8>,
    after: &Node<K, V, H>,
    n: int,
)
    requires
        notes_first(before, cid, after),
        0 <= n <= before.pointers@.len(),
    ensures
        unstored_count(after, n) == unstored_count(before, n) - if first_unstored(before.pointers@)
            < n {
            1int
        } else {
            0
        },
    decreases before, n,
{
    let k = first_unstored(before.pointers@);
    lemma_first_unstored(before.pointers@);
    if n > 0 {
        lemma_noting_counts(before, cid, after, n - 1);
        if n - 1 != k {
            assert(after.pointers@[n - 1].same_as(&before.pointers@[n - 1]));
        } else {
            reveal_with_fuel(notes_first, 2);
            let child = before.pointers@[k]->Link_0->value;
            let len = child.pointers@.len() as int;
            lemma_first_unstored(child.pointers@);
            lemma_unstored_count(&*child, len);
            if !all_stored(child.pointers@) {
                let grown = after.pointers@[k]->Link_0->value;
                lemma_noting_counts(&*child, cid, &*grown, len);
                assert(after.pointers@[k] matches Pointer::Link(
                    Link::Decoded { value, noted: None },
                ) && value == grown);
            }
        }
    }
}

/// Holds if `pointer` is what `form` stands for, with a link left to be followed.
pub open spec fn decodes_pointer<K, V, H: Hasher>(
    form: PointerIpld<K, V>,
    pointer: Pointer<K, V, H>,
) -> bool {
    match (form, pointer) {
        (PointerIpld::Values(written), Pointer::Values(values)) => values@ == written@,
        (PointerIpld::Link(written), Pointer::Link(Link::Encoded { cid })) => cid@ == written@,
        _ => false,
    }
}

/// Holds if `node` is what `form` stands for, with links left to be followed.
pub open spec fn decodes_node<K, V, H: Hasher>(
    form: NodeIpld<K, V>,
    node: &Node<K, V, H>,
) -> bool {
    &&& node.used() == byte_bits(form.bitmask@)
    &&& node.pointers@.len() == form.pointers@.len()
    &&& forall|i: int|
        0 <= i < form.pointers@.len() ==> decodes_pointer(
            #[trigger] form.pointers@[i],
            node.pointers@[i],
        )
}

/// Nothing below a node has to be stored exactly if it has no link to a node in memory without
/// an identifier.
pub proof fn law_all_stored<K, V, H: Hasher>(pointers: Seq<Pointer<K, V, H>>)
    ensures
        all_stored(pointers) <==> forall|i: int|
            0 <= i < pointers.len() ==> !((#[trigger] pointers[i]) matches Pointer::Link(
                Link::Decoded { noted: None, .. },
            )),
{
    lemma_first_unstored(pointers);
    if all_stored(pointers) {
        assert forall|i: int| 0 <= i < pointers.len() implies !((
        #[trigger] pointers[i]) matches Pointer::Link(Link::Decoded { noted: None, .. })) by {
            assert(!unstored(pointers[i]));
        }
    }
}

/// A block says, bit by bit from the least significant one of the first byte, which slots are in
/// use, and holds the pointers in their order: all the pairs of a bucket in their order, and all
/// the bytes of the identifier of a node one level down, which is noted if the node is in memory.
pub proof fn law_block_holds_the_node<K, V, H: Hasher>(
    node: &Node<K, V, H>,
    form: NodeIpld<K, V>,
)
    requires
        encodes_node(node, form),
    ensures
        bits(node.bitmask).len() == 16,
        forall|i: int|
            0 <= i < 16 ==> #[trigger] bits(node.bitmask)[i] == ((form.bitmask@[i / 8] >> ((i
                % 8) as u8)) & 1 == 1),
        form.pointers@.len() == node.pointers@.len(),
        forall|i: int|
            0 <= i < node.pointers@.len() ==> match #[trigger] node.pointers@[i] {
                Pointer::Values(values) => form.pointers@[i] matches PointerIpld::Values(written)
                    && written@ == values@,
                Pointer::Link(Link::Encoded { cid }) => form.pointers@[i] matches PointerIpld::Link(
                    written,
                ) && written.bytes@ == cid.bytes@,
                Pointer::Link(Link::Decoded { noted, .. }) => form.pointers@[i] matches
                    PointerIpld::Link(written) && noted is Some && written.bytes@
                    == noted->0.bytes@,
            },
{
    assert forall|i: int| 0 <= i < 16 implies #[trigger] bits(node.bitmask)[i] == ((
    form.bitmask@[i / 8] >> ((i % 8) as u8)) & 1 == 1) by {
        assert(byte_bits(form.bitmask@)[i] == bits(node.bitmask)[i]);
    }
    assert forall|i: int| 0 <= i < node.pointers@.len() implies match #[trigger] node.pointers@[i] {
        Pointer::Values(values) => form.pointers@[i] matches PointerIpld::Values(written)
            && written@ == values@,
        Pointer::Link(Link::Encoded { cid }) => form.pointers@[i] matches PointerIpld::Link(written)
            && written.bytes@ == cid.bytes@,
        Pointer::Link(Link::Decoded { noted, .. }) => form.pointers@[i] matches PointerIpld::Link(
            written,
        ) && noted is Some && written.bytes@ == noted->0.bytes@,
    } by {
        assert(encodes_pointer(node.pointers@[i], form.pointers@[i]));
    }
}

/// A node that is made of a block has the slots in use that the bits of the block say, and the
/// pointers of the block in their order: all the pairs of a bucket in their order, and links by
/// all the bytes of an identifier.
pub proof fn law_node_holds_the_block<K, V, H: Hasher>(
    form: NodeIpld<K, V>,
    node: &Node<K, V, H>,
)
    requires
        decodes_node(form, node),
    ensures
        bits(node.bitmask).len() == 16,
        forall|i: int|
            0 <= i < 16 ==> #[trigger] bits(node.bitmask)[i] == ((form.bitmask@[i / 8] >> ((i
                % 8) as u8)) & 1 == 1),
        node.pointers@.len() == form.pointers@.len(),
        forall|i: int|
            0 <= i < form.pointers@.len() ==> match #[trigger] form.pointers@[i] {
                PointerIpld::Values(written) => node.pointers@[i] matches Pointer::Values(values)
                    && values@ == written@,
                PointerIpld::Link(written) => node.pointers@[i] matches Pointer::Link(
                    Link::Encoded { cid },
                ) && cid.bytes@ == written.bytes@,
            },
{
    assert forall|i: int| 0 <= i < 16 implies #[trigger] bits(node.bitmask)[i] == ((
    form.bitmask@[i / 8] >> ((i % 8) as u8)) & 1 == 1) by {
        assert(byte_bits(form.bitmask@)[i] == bits(node.bitmask)[i]);
    }
    assert forall|i: int| 0 <= i < form.pointers@.len() implies match #[trigger] form.pointers@[i] {
        PointerIpld::Values(written) => node.pointers@[i] matches Pointer::Values(values)
            && values@ == written@,
        PointerIpld::Link(written) => node.pointers@[i] matches Pointer::Link(Link::Encoded { cid })
            && cid.bytes@ == written.bytes@,
    } by {
        assert(decodes_pointer(form.pointers@[i], node.pointers@[i]));
    }
}

/// Holds if a node links to `child` in memory without noting an identifier.
pub open spec fn has_unstored_child<K, V, H: Hasher>(
    node: &Node<K, V, H>,
    child: Rc<Node<K, V, H>>,
) -> bool {
    exists|i: int|
        0 <= i < node.pointers@.len() && (#[trigger] node.pointers@[i] matches Pointer::Link(
            Link::Decoded { value, noted: None },
        ) && value == child)
}

/// The block that has to be stored is that of a node further down, which is reached by links to
/// nodes in memory without an identifier and has no such links itself.
pub proof fn law_block_to_store_is_further_down<K, V, H: Hasher>(
    node: &Node<K, V, H>,
    form: NodeIpld<K, V>,
) -> (chain: Seq<Rc<Node<K, V, H>>>)
    requires
        !all_stored(node.pointers@),
        encodes_first(node, form),
    ensures
        chain.len() > 0,
        has_unstored_child(node, chain[0]),
        forall|k: int|
            0 <= k < chain.len() - 1 ==> has_unstored_child(&*#[trigger] chain[k], chain[k + 1]),
        all_stored(chain.last().pointers@),
        encodes_node(&*chain.last(), form),
    decreases node,
{
    lemma_first_unstored(node.pointers@);
    let i = first_unstored(node.pointers@);
    let child = node.pointers@[i]->Link_0->value;
    assert(node.pointers@[i] matches Pointer::Link(Link::Decoded { value, noted: None }) && value
        == child);
    assert(has_unstored_child(node, child));
    reveal_with_fuel(encodes_first, 2);
    if all_stored(child.pointers@) {
        seq![child]
    } else {
        let rest = law_block_to_store_is_further_down(&*child, form);
        let chain = seq![child] + rest;
        assert forall|k: int| 0 <= k < chain.len() - 1 implies has_unstored_child(
            &*#[trigger] chain[k],
            chain[k + 1],
        ) by {
            if k > 0 {
                assert(chain[k] == rest[k - 1] && chain[k + 1] == rest[k]);
            } else {
                assert(chain[1] == rest[0]);
            }
        }
        assert(chain.last() == rest.last());
        chain
    }
}

/// Noting an identifier changes one link only: the slots in use and the other pointers stay as
/// they are, and so does the node that the identifier is noted for. Nothing changes if nothing
/// has to be stored.
pub proof fn law_noting_changes_one_link<K: AsBytes, V, H: Hasher>(
    before: &Node<K, V, H>,
    cid: Seq<u8>,
    after: &Node<K, V, H>,
) -> (k: int)
    requires
        notes_first(before, cid, after),
    ensures
        bits(after.bitmask) == bits(before.bitmask),
        after.pointers@.len() == before.pointers@.len(),
        forall|i: int|
            0 <= i < before.pointers@.len() && i != k ==> (#[trigger] after.pointers@[i])@
                == before.pointers@[i]@,
        !all_stored(before.pointers@) ==> {
            &&& 0 <= k < before.pointers@.len()
            &&& before.pointers@[k] matches Pointer::Link(
                Link::Decoded { value: child, noted: None },
            ) && after.pointers@[k] matches Pointer::Link(Link::Decoded { value, noted })
                && if all_stored(child.pointers@) {
                value == child && noted is Some && noted->0.bytes@ == cid
            } else {
                noted is None
            }
        },
        all_stored(before.pointers@) ==> after@ == before@,
{
    lemma_first_unstored(before.pointers@);
    let k = first_unstored(before.pointers@);
    assert forall|i: int| 0 <= i < before.pointers@.len() && i != k implies (
    #[trigger] after.pointers@[i])@ == before.pointers@[i]@ by {
        lemma_same_pointers(after.pointers@[i], before.pointers@[i]);
    }
    if all_stored(before.pointers@) {
        assert(after@.slots =~= before@.slots);
    }
    k
}

} // verus!
