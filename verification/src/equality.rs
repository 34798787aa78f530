//! Equality of nodes.

use crate::bitmask::{lemma_rank_monotonic, lemma_rank_selects, masks_equal, rank};
use crate::constant::{HAMT_BITMASK_BIT_SIZE, HASH_BYTE_SIZE};
use crate::error::Failure;
use crate::hash::{AsBytes, Hasher};
use crate::identity::{form, identifier, notes_among, right_notes, Form};
use crate::ipld::{decodes_node, decodes_pointer, encodes_node, encodes_pointer, NodeIpld};
use crate::laws::{canonical_root, law_contents_determine_trie, law_remove_absent};
use crate::link::{note, Link};
use crate::loading::in_memory;
use crate::node::Node;
use crate::pointer::{entries, Pair, Pointer};
use crate::tree::{find, remove, Blocks, Entry};
use crate::unique::same_contents;
use std::rc::Rc;
use vstd::prelude::*;
use vstd::std_specs::cmp::{PartialEqSpec, PartialEqSpecImpl};

verus! {

/// Holds if `==` can give `res` on the two values.
pub open spec fn eq_gives<T: PartialEq>(a: &T, b: &T, res: bool) -> bool {
    call_ensures(T::eq, (a, b), res)
}

/// Holds if comparing the keys and then the values of two pairs can give `res`.
pub open spec fn pairs_compared<K: PartialEq, V: PartialEq>(
    a: &Pair<K, V>,
    b: &Pair<K, V>,
    res: bool,
) -> bool {
    if res {
        eq_gives(&a.key, &b.key, true) && eq_gives(&a.value, &b.value, true)
    } else {
        eq_gives(&a.key, &b.key, false) || eq_gives(&a.value, &b.value, false)
    }
}

/// Holds if comparing the pairs of two buckets in turn can give `res`.
pub open spec fn buckets_compared<K: PartialEq, V: PartialEq>(
    v: Seq<Rc<Pair<K, V>>>,
    w: Seq<Rc<Pair<K, V>>>,
    res: bool,
) -> bool {
    if v.len() != w.len() {
        !res
    } else if res {
        forall|i: int| 0 <= i < v.len() ==> pairs_compared(&*#[trigger] v[i], &*w[i], true)
    } else {
        exists|i: int| 0 <= i < v.len() && pairs_compared(&*#[trigger] v[i], &*w[i], false)
    }
}

/// Holds if comparing two pointers can give `res`: by their pairs, by the identifiers, or by the
/// nodes if both are in memory. A link to a node in memory has the identifier that is noted for
/// it.
pub open spec fn pointers_compared<K: PartialEq, V: PartialEq, H: Hasher>(
    a: &Pointer<K, V, H>,
    b: &Pointer<K, V, H>,
    res: bool,
) -> bool
    decreases a,
{
    match (a, b) {
        (Pointer::Values(v), Pointer::Values(w)) => buckets_compared(v@, w@, res),
        (Pointer::Link(Link::Encoded { cid: c }), Pointer::Link(Link::Encoded { cid: e })) => res
            == (c@ == e@),
        (
            Pointer::Link(Link::Decoded { value: m, .. }),
            Pointer::Link(Link::Decoded { value: n, .. }),
        ) => nodes_compared(&**m, &**n, res),
        (
            Pointer::Link(Link::Encoded { cid: c }),
            Pointer::Link(Link::Decoded { noted, .. }),
        ) => res == (note(noted) == Some(c@)),
        (
            Pointer::Link(Link::Decoded { noted, .. }),
            Pointer::Link(Link::Encoded { cid: e }),
        ) => res == (note(noted) == Some(e@)),
        _ => !res,
    }
}

/// Holds if comparing two nodes can give `res`: by the slots in use, then by the pointers.
pub open spec fn nodes_compared<K: PartialEq, V: PartialEq, H: Hasher>(
    a: &Node<K, V, H>,
    b: &Node<K, V, H>,
    res: bool,
) -> bool
    decreases a,
{
    if a.used() != b.used() || a.pointers@.len() != b.pointers@.len() {
        !res
    } else if res {
        forall|i: int|
            0 <= i < a.pointers@.len() ==> pointers_compared(
                &#[trigger] a.pointers@[i],
                &b.pointers@[i],
                true,
            )
    } else {
        exists|i: int|
            0 <= i < a.pointers@.len() && pointers_compared(
                &#[trigger] a.pointers@[i],
                &b.pointers@[i],
                false,
            )
    }
}

/// Holds if `==` finds both the keys and the values equal.
pub open spec fn pairs_eq<K: PartialEq, V: PartialEq>(a: &Pair<K, V>, b: &Pair<K, V>) -> bool {
    a.key.eq_spec(&b.key) && a.value.eq_spec(&b.value)
}

/// Holds if two pointers hold equal pairs in the same order, the same identifier, or equal
/// nodes. A link to a node in memory has the identifier that is noted for it.
pub open spec fn pointers_eq<K: PartialEq, V: PartialEq, H: Hasher>(
    a: &Pointer<K, V, H>,
    b: &Pointer<K, V, H>,
) -> bool
    decreases a,
{
    match (a, b) {
        (Pointer::Values(v), Pointer::Values(w)) => {
            &&& v@.len() == w@.len()
            &&& forall|i: int| 0 <= i < v@.len() ==> pairs_eq(&*#[trigger] v@[i], &*w@[i])
        },
        (Pointer::Link(Link::Encoded { cid: c }), Pointer::Link(Link::Encoded { cid: e })) => c@
            == e@,
        (
            Pointer::Link(Link::Decoded { value: m, .. }),
            Pointer::Link(Link::Decoded { value: n, .. }),
        ) => nodes_eq(&**m, &**n),
        (
            Pointer::Link(Link::Encoded { cid: c }),
            Pointer::Link(Link::Decoded { noted, .. }),
        ) => note(noted) == Some(c@),
        (
            Pointer::Link(Link::Decoded { noted, .. }),
            Pointer::Link(Link::Encoded { cid: e }),
        ) => note(noted) == Some(e@),
        _ => false,
    }
}

/// Holds if two nodes have the same slots in use, and equal pointers.
pub open spec fn nodes_eq<K: PartialEq, V: PartialEq, H: Hasher>(
    a: &Node<K, V, H>,
    b: &Node<K, V, H>,
) -> bool
    decreases a,
{
    &&& a.used() == b.used()
    &&& a.pointers@.len() == b.pointers@.len()
    &&& forall|i: int|
        0 <= i < a.pointers@.len() ==> pointers_eq(&#[trigger] a.pointers@[i], &b.pointers@[i])
}

/// A comparison of nodes gives what the meanings of `==` on keys and values make of it, where
/// they have one.
proof fn lemma_nodes_compared<K: PartialEq, V: PartialEq, H: Hasher>(
    a: &Node<K, V, H>,
    b: &Node<K, V, H>,
    res: bool,
)
    requires
        K::obeys_eq_spec() && V::obeys_eq_spec(),
        nodes_compared(a, b, res),
    ensures
        res == nodes_eq(a, b),
    decreases a,
{
    if a.used() == b.used() && a.pointers@.len() == b.pointers@.len() {
        if res {
            assert forall|i: int| 0 <= i < a.pointers@.len() implies pointers_eq(
                &#[trigger] a.pointers@[i],
                &b.pointers@[i],
            ) by {
                lemma_pointers_compared(&a.pointers@[i], &b.pointers@[i], true);
            }
        } else {
            let i = choose|i: int|
                0 <= i < a.pointers@.len() && pointers_compared(
                    &#[trigger] a.pointers@[i],
                    &b.pointers@[i],
                    false,
                );
            lemma_pointers_compared(&a.pointers@[i], &b.pointers@[i], false);
        }
    }
}

/// A comparison of pointers gives what the meanings of `==` on keys and values make of it, where
/// they have one.
proof fn lemma_pointers_compared<K: PartialEq, V: PartialEq, H: Hasher>(
    a: &Pointer<K, V, H>,
    b: &Pointer<K, V, H>,
    res: bool,
)
    requires
        K::obeys_eq_spec() && V::obeys_eq_spec(),
        pointers_compared(a, b, res),
    ensures
        res == pointers_eq(a, b),
    decreases a,
{
    match (a, b) {
        (Pointer::Values(v), Pointer::Values(w)) => {
            if v@.len() == w@.len() {
                if res {
                    assert forall|i: int| 0 <= i < v@.len() implies pairs_eq(
                        &*#[trigger] v@[i],
                        &*w@[i],
                    ) by {
                        assert(pairs_compared(&*v@[i], &*w@[i], true));
                    }
                } else {
                    let i = choose|i: int|
                        0 <= i < v@.len() && pairs_compared(&*#[trigger] v@[i], &*w@[i], false);
                    assert(!pairs_eq(&*v@[i], &*w@[i]));
                }
            }
        },
        (
            Pointer::Link(Link::Decoded { value: m, .. }),
            Pointer::Link(Link::Decoded { value: n, .. }),
        ) => {
            lemma_nodes_compared(&**m, &**n, res);
        },
        _ => {},
    }
}

/// Tells whether two pairs have equal keys and equal values.
fn pairs_equal<K: PartialEq, V: PartialEq>(a: &Pair<K, V>, b: &Pair<K, V>) -> (res: bool)
    ensures
        pairs_compared(a, b, res),
{
    a.key == b.key && a.value == b.value
}

/// Tells whether two buckets hold equal pairs in the same order.
fn buckets_equal<K: PartialEq, V: PartialEq>(
    v: &Vec<Rc<Pair<K, V>>>,
    w: &Vec<Rc<Pair<K, V>>>,
) -> (res: bool)
    ensures
        buckets_compared(v@, w@, res),
{
    if v.len() != w.len() {
        return false;
    }
    for i in 0..v.len()
        invariant
            v@.len() == w@.len(),
            forall|j: int| 0 <= j < i ==> pairs_compared(&*#[trigger] v@[j], &*w@[j], true),
    {
        if !pairs_equal(&*v[i], &*w[i]) {
            assert(pairs_compared(&*v@[i as int], &*w@[i as int], false));
            return false;
        }
    }
    true
}

/// Tells whether two pointers hold the same.
fn pointers_equal<K: PartialEq, V: PartialEq, H: Hasher>(
    a: &Pointer<K, V, H>,
    b: &Pointer<K, V, H>,
) -> (res: bool)
    ensures
        pointers_compared(a, b, res),
    decreases a,
{
    match (a, b) {
        (Pointer::Values(v), Pointer::Values(w)) => buckets_equal(v, w),
        (Pointer::Link(Link::Encoded { cid: c }), Pointer::Link(Link::Encoded { cid: e })) =>
            c.same_as(e),
        (
            Pointer::Link(Link::Decoded { value: m, .. }),
            Pointer::Link(Link::Decoded { value: n, .. }),
        ) => nodes_equal(&**m, &**n),
        (
            Pointer::Link(Link::Encoded { cid: c }),
            Pointer::Link(Link::Decoded { noted: Some(noted), .. }),
        ) => noted.same_as(c),
        (
            Pointer::Link(Link::Decoded { noted: Some(noted), .. }),
            Pointer::Link(Link::Encoded { cid: e }),
        ) => noted.same_as(e),
        _ => false,
    }
}

/// Tells whether two nodes hold the same.
fn nodes_equal<K: PartialEq, V: PartialEq, H: Hasher>(
    a: &Node<K, V, H>,
    b: &Node<K, V, H>,
) -> (res: bool)
    ensures
        nodes_compared(a, b, res),
    decreases a,
{
    if !masks_equal(&a.bitmask, &b.bitmask) {
        return false;
    }
    if a.pointers.len() != b.pointers.len() {
        return false;
    }
    for i in 0..a.pointers.len()
        invariant
            a.used() == b.used(),
            a.pointers@.len() == b.pointers@.len(),
            forall|j: int|
                0 <= j < i ==> pointers_compared(
                    &#[trigger] a.pointers@[j],
                    &b.pointers@[j],
                    true,
                ),
    {
        if !pointers_equal(&a.pointers[i], &b.pointers[i]) {
            assert(pointers_compared(&a.pointers@[i as int], &b.pointers@[i as int], false));
            return false;
        }
    }
    true
}

impl<K: PartialEq, V: PartialEq> PartialEq for Pair<K, V> {
    fn eq(&self, other: &Self) -> (res: bool)
        ensures
            pairs_compared(self, other, res),
    {
        pairs_equal(self, other)
    }
}

impl<K: PartialEq, V: PartialEq> PartialEqSpecImpl for Pair<K, V> {
    open spec fn obeys_eq_spec() -> bool {
        K::obeys_eq_spec() && V::obeys_eq_spec()
    }

    open spec fn eq_spec(&self, other: &Self) -> bool {
        pairs_eq(self, other)
    }
}

impl<K: PartialEq, V: PartialEq, H: Hasher> PartialEq for Pointer<K, V, H> {
    fn eq(&self, other: &Self) -> (res: bool)
        ensures
            pointers_compared(self, other, res),
    {
        let res = pointers_equal(self, other);
        proof {
            if K::obeys_eq_spec() && V::obeys_eq_spec() {
                lemma_pointers_compared(self, other, res);
            }
        }
        res
    }
}

impl<K: PartialEq, V: PartialEq, H: Hasher> PartialEqSpecImpl for Pointer<K, V, H> {
    open spec fn obeys_eq_spec() -> bool {
        K::obeys_eq_spec() && V::obeys_eq_spec()
    }

    open spec fn eq_spec(&self, other: &Self) -> bool {
        pointers_eq(self, other)
    }
}

impl<K: PartialEq, V: PartialEq, H: Hasher> PartialEq for Node<K, V, H> {
    fn eq(&self, other: &Self) -> (res: bool)
        ensures
            nodes_compared(self, other, res),
    {
        let res = nodes_equal(self, other);
        proof {
            if K::obeys_eq_spec() && V::obeys_eq_spec() {
                lemma_nodes_compared(self, other, res);
            }
        }
        res
    }
}

impl<K: PartialEq, V: PartialEq, H: Hasher> PartialEqSpecImpl for Node<K, V, H> {
    open spec fn obeys_eq_spec() -> bool {
        K::obeys_eq_spec() && V::obeys_eq_spec()
    }

    open spec fn eq_spec(&self, other: &Self) -> bool {
        nodes_eq(self, other)
    }
}

/// Holds if `==` never tells a value from itself.
pub open spec fn eq_is_reflexive<T: PartialEq>() -> bool {
    forall|a: T, res: bool| #[trigger] eq_gives(&a, &a, res) ==> res
}

/// Holds if `==` only finds values equal that are the same.
pub open spec fn eq_is_sound<T: PartialEq>() -> bool {
    forall|a: T, b: T| #[trigger] eq_gives(&a, &b, true) ==> a == b
}

/// Holds if a value means the same as itself to `==`.
pub open spec fn means_itself<T: PartialEq>() -> bool {
    forall|a: T| #[trigger] a.eq_spec(&a)
}

/// Strings, byte strings and numbers are equal to themselves.
pub proof fn lemma_eq_is_reflexive()
    ensures
        eq_is_reflexive::<String>(),
        eq_is_reflexive::<Vec<u8>>(),
        eq_is_reflexive::<u64>(),
{
}

/// Numbers that are found equal are the same.
pub proof fn lemma_eq_is_sound()
    ensures
        eq_is_sound::<u8>(),
        eq_is_sound::<u64>(),
        eq_is_sound::<bool>(),
{
}

/// Holds if two pointers hold the same pairs in the same order, the same identifier, or nodes
/// that match. A link to a node in memory has the identifier that is noted for it.
pub open spec fn pointers_match<K, V, H: Hasher>(
    a: &Pointer<K, V, H>,
    b: &Pointer<K, V, H>,
) -> bool
    decreases a,
{
    match (a, b) {
        (Pointer::Values(v), Pointer::Values(w)) => v@ == w@,
        (Pointer::Link(Link::Encoded { cid: c }), Pointer::Link(Link::Encoded { cid: e })) => c@
            == e@,
        (
            Pointer::Link(Link::Decoded { value: m, .. }),
            Pointer::Link(Link::Decoded { value: n, .. }),
        ) => nodes_match(&**m, &**n),
        (
            Pointer::Link(Link::Encoded { cid: c }),
            Pointer::Link(Link::Decoded { noted, .. }),
        ) => note(noted) == Some(c@),
        (
            Pointer::Link(Link::Decoded { noted, .. }),
            Pointer::Link(Link::Encoded { cid: e }),
        ) => note(noted) == Some(e@),
        _ => false,
    }
}

/// Holds if two nodes have the same slots in use, and pointers that match.
pub open spec fn nodes_match<K, V, H: Hasher>(a: &Node<K, V, H>, b: &Node<K, V, H>) -> bool
    decreases a,
{
    &&& a.used() == b.used()
    &&& a.pointers@.len() == b.pointers@.len()
    &&& forall|i: int|
        0 <= i < a.pointers@.len() ==> pointers_match(&#[trigger] a.pointers@[i], &b.pointers@[i])
}

/// Nodes that match are equal: `==` cannot find them different, if it never tells a key or a
/// value from itself, and they are equal by its meaning, if keys and values are equal to
/// themselves by its meaning.
pub proof fn law_matching_nodes_are_equal<K: PartialEq, V: PartialEq, H: Hasher>(
    a: &Node<K, V, H>,
    b: &Node<K, V, H>,
)
    requires
        nodes_match(a, b),
    ensures
        eq_is_reflexive::<K>() && eq_is_reflexive::<V>() ==> !nodes_compared(a, b, false),
        means_itself::<K>() && means_itself::<V>() ==> nodes_eq(a, b),
    decreases a,
{
    assert forall|i: int| 0 <= i < a.pointers@.len() implies {
        &&& eq_is_reflexive::<K>() && eq_is_reflexive::<V>() ==> !pointers_compared(
            &#[trigger] a.pointers@[i],
            &b.pointers@[i],
            false,
        )
        &&& means_itself::<K>() && means_itself::<V>() ==> pointers_eq(
            &a.pointers@[i],
            &b.pointers@[i],
        )
    } by {
        let p = a.pointers@[i];
        let q = b.pointers@[i];
        assert(pointers_match(&p, &q));
        match (p, q) {
            (Pointer::Values(v), Pointer::Values(w)) => {
                if eq_is_reflexive::<K>() && eq_is_reflexive::<V>() {
                    assert(!buckets_compared(v@, w@, false));
                }
            },
            (
                Pointer::Link(Link::Decoded { value: m, .. }),
                Pointer::Link(Link::Decoded { value: n, .. }),
            ) => {
                law_matching_nodes_are_equal(&*m, &*n);
            },
            _ => {},
        }
    }
}

/// What is read back equals what was written: the node that is made of the block of a node
/// matches the node, either way round.
pub proof fn law_written_equals_read<K: PartialEq, V: PartialEq, H: Hasher>(
    node: &Node<K, V, H>,
    ipld: NodeIpld<K, V>,
    read: &Node<K, V, H>,
)
    requires
        encodes_node(node, ipld),
        decodes_node(ipld, read),
    ensures
        nodes_match(node, read),
        nodes_match(read, node),
        eq_is_reflexive::<K>() && eq_is_reflexive::<V>() ==> !nodes_compared(node, read, false)
            && !nodes_compared(read, node, false),
        means_itself::<K>() && means_itself::<V>() ==> nodes_eq(node, read) && nodes_eq(read, node),
{
    assert forall|i: int| 0 <= i < node.pointers@.len() implies pointers_match(
        &#[trigger] node.pointers@[i],
        &read.pointers@[i],
    ) && pointers_match(&read.pointers@[i], &node.pointers@[i]) by {
        assert(encodes_pointer(node.pointers@[i], ipld.pointers@[i]));
        assert(decodes_pointer(ipld.pointers@[i], read.pointers@[i]));
    }
    law_matching_nodes_are_equal(node, read);
    law_matching_nodes_are_equal(read, node);
}

/// A node with strings for keys and numbers for values is found equal to what is read back.
pub proof fn law_strings_and_numbers_read_back<H: Hasher>(
    node: &Node<String, u64, H>,
    ipld: NodeIpld<String, u64>,
    read: &Node<String, u64, H>,
    res: bool,
)
    requires
        encodes_node(node, ipld),
        decodes_node(ipld, read),
        nodes_compared(node, read, res) || nodes_compared(read, node, res),
    ensures
        res,
{
    lemma_eq_is_reflexive();
    law_written_equals_read(node, ipld, read);
}

/// Well-formed nodes that stand for the same trie match.
pub proof fn law_nodes_of_one_trie_are_equal<K: PartialEq + AsBytes, V: PartialEq, H: Hasher>(
    a: &Node<K, V, H>,
    b: &Node<K, V, H>,
)
    requires
        a.wf(),
        b.wf(),
        a@ == b@,
    ensures
        nodes_match(a, b),
        eq_is_reflexive::<K>() && eq_is_reflexive::<V>() ==> !nodes_compared(a, b, false),
        means_itself::<K>() && means_itself::<V>() ==> nodes_eq(a, b),
{
    lemma_nodes_of_one_trie_match(a, b);
    law_matching_nodes_are_equal(a, b);
}

/// Nodes that are held in memory as a whole, whose tries are canonical and in which every lookup
/// finds the same, stand for the same trie and are equal.
pub proof fn law_nodes_of_one_content_are_equal<K: PartialEq + AsBytes, V: PartialEq, H: Hasher>(
    a: &Node<K, V, H>,
    b: &Node<K, V, H>,
    blocks: Blocks<K, V>,
)
    requires
        a.wf(),
        b.wf(),
        in_memory(a@),
        in_memory(b@),
        canonical_root(a@, blocks),
        canonical_root(b@, blocks),
        same_contents(a@, b@, blocks, 0),
    ensures
        a@ == b@,
        nodes_match(a, b),
        eq_is_reflexive::<K>() && eq_is_reflexive::<V>() ==> !nodes_compared(a, b, false),
        means_itself::<K>() && means_itself::<V>() ==> nodes_eq(a, b),
{
    law_contents_determine_trie(a@, b@, blocks);
    law_nodes_of_one_trie_are_equal(a, b);
}

/// Removing a digest that a node in memory does not hold gives a node that is equal to it.
pub proof fn law_irrelevant_remove_gives_equal_node<
    K: PartialEq + AsBytes,
    V: PartialEq,
    H: Hasher,
>(node: &Node<K, V, H>, after: &Node<K, V, H>, blocks: Blocks<K, V>, h: Seq<u8>)
    requires
        node.wf(),
        after.wf(),
        in_memory(node@),
        canonical_root(node@, blocks),
        h.len() == HASH_BYTE_SIZE,
        find(node@, blocks, h, 0) == Ok::<Option<Entry<K, V>>, Failure>(None),
        remove(node@, blocks, h, 0) matches Ok((t, _)) && after@ == t,
    ensures
        after@ == node@,
        nodes_match(node, after),
        eq_is_reflexive::<K>() && eq_is_reflexive::<V>() ==> !nodes_compared(node, after, false),
        means_itself::<K>() && means_itself::<V>() ==> nodes_eq(node, after),
{
    law_remove_absent(node@, blocks, h);
    law_nodes_of_one_trie_are_equal(node, after);
}

/// Well-formed nodes that stand for the same trie match.
proof fn lemma_nodes_of_one_trie_match<K: AsBytes, V, H: Hasher>(
    a: &Node<K, V, H>,
    b: &Node<K, V, H>,
)
    requires
        a.wf(),
        b.wf(),
        a@ == b@,
    ensures
        nodes_match(a, b),
    decreases a,
{
    let n = HAMT_BITMASK_BIT_SIZE as int;
    assert forall|i: int| 0 <= i < n implies a.used()[i] == b.used()[i] by {
        lemma_rank_monotonic(a.used(), 0, i);
        lemma_rank_monotonic(b.used(), 0, i);
        lemma_rank_monotonic(a.used(), i, n);
        lemma_rank_monotonic(b.used(), i, n);
        assert(a@.slots[i] is Some == a.used()[i]);
        assert(b@.slots[i] is Some == b.used()[i]);
    }
    assert(a.used() =~= b.used());
    assert forall|r: int| 0 <= r < a.pointers@.len() implies pointers_match(
        &#[trigger] a.pointers@[r],
        &b.pointers@[r],
    ) by {
        let i = lemma_rank_selects(a.used(), n, r);
        let p = a.pointers@[r];
        let q = b.pointers@[r];
        assert(a@.slots[i] == Some(p@));
        assert(b@.slots[i] == Some(q@));
        assert(p.wf() && q.wf());
        match (p, q) {
            (Pointer::Values(v), Pointer::Values(w)) => {
                let es = entries::<K, V, H>(v@);
                let fs = entries::<K, V, H>(w@);
                assert(es.len() == fs.len());
                assert forall|j: int| 0 <= j < v@.len() implies v@[j] == w@[j] by {
                    assert(es[j] == fs[j]);
                }
                assert(v@ =~= w@);
            },
            (
                Pointer::Link(Link::Decoded { value: m, .. }),
                Pointer::Link(Link::Decoded { value: n, .. }),
            ) => {
                lemma_nodes_of_one_trie_match(&*m, &*n);
            },
            _ => {},
        }
    }
}

/// Buckets that are found equal stand for the same branch, if `==` only finds keys and values
/// equal that are the same.
proof fn lemma_equal_buckets<K: PartialEq + AsBytes, V: PartialEq, H: Hasher>(
    a: &Pointer<K, V, H>,
    b: &Pointer<K, V, H>,
)
    requires
        eq_is_sound::<K>(),
        eq_is_sound::<V>(),
        a is Values,
        pointers_compared(a, b, true),
    ensures
        a@ == b@,
{
    let es = entries::<K, V, H>(a->Values_0@);
    let fs = entries::<K, V, H>(b->Values_0@);
    assert forall|i: int| 0 <= i < es.len() implies es[i] == fs[i] by {
        assert(pairs_compared(&*a->Values_0@[i], &*b->Values_0@[i], true));
    }
    assert(es =~= fs);
}

/// Nodes that `==` finds equal stand for the same trie, if no identifiers are noted in them and
/// `==` only finds keys and values equal that are the same.
pub proof fn law_equal_nodes_are_one_trie<K: PartialEq + AsBytes, V: PartialEq, H: Hasher>(
    a: &Node<K, V, H>,
    b: &Node<K, V, H>,
)
    requires
        eq_is_sound::<K>(),
        eq_is_sound::<V>(),
        a.wf(),
        b.wf(),
        notes_among(a@, Set::empty()),
        notes_among(b@, Set::empty()),
        nodes_compared(a, b, true),
    ensures
        a@ == b@,
    decreases a,
{
    let n = HAMT_BITMASK_BIT_SIZE as int;
    assert forall|i: int| 0 <= i < n implies #[trigger] a@.slots[i] == b@.slots[i] by {
        let r = rank(a.used(), i);
        lemma_rank_monotonic(a.used(), 0, i);
        lemma_rank_monotonic(a.used(), i, n);
        if a.used()[i] {
            let p = a.pointers@[r];
            let q = b.pointers@[r];
            assert(pointers_compared(&p, &q, true));
            assert(a@.slots[i] == Some(p@));
            assert(b@.slots[i] == Some(q@));
            assert(p.wf() && q.wf());
            if p is Values {
                lemma_equal_buckets(&p, &q);
            } else if p->Link_0 is Decoded && q->Link_0 is Decoded {
                law_equal_nodes_are_one_trie(&*p->Link_0->value, &*q->Link_0->value);
            }
        }
    }
    assert(a@.slots =~= b@.slots);
}

/// Nodes that `==` finds equal have the same block and the same identifier, if the identifiers
/// that are noted are right and `==` only finds keys and values equal that are the same.
pub proof fn law_equal_nodes_have_one_identifier<
    K: PartialEq + AsBytes,
    V: PartialEq,
    H: Hasher,
>(a: &Node<K, V, H>, b: &Node<K, V, H>, cid_of: spec_fn(Form<K, V>) -> Seq<u8>)
    requires
        eq_is_sound::<K>(),
        eq_is_sound::<V>(),
        notes_among(a@, right_notes(cid_of)),
        notes_among(b@, right_notes(cid_of)),
        nodes_compared(a, b, true),
    ensures
        form(a@, cid_of) == form(b@, cid_of),
        identifier(a@, cid_of) == identifier(b@, cid_of),
    decreases a,
{
    let f = form(a@, cid_of);
    let g = form(b@, cid_of);
    assert forall|i: int| 0 <= i < HAMT_BITMASK_BIT_SIZE implies f.slots[i] == g.slots[i] by {
        let r = rank(a.used(), i);
        if a.used()[i] && 0 <= r < a.pointers@.len() {
            let p = a.pointers@[r];
            let q = b.pointers@[r];
            assert(pointers_compared(&p, &q, true));
            assert(a@.slots[i] == Some(p@));
            assert(b@.slots[i] == Some(q@));
            if p is Values {
                lemma_equal_buckets(&p, &q);
            } else if p->Link_0 is Decoded && q->Link_0 is Decoded {
                law_equal_nodes_have_one_identifier(
                    &*p->Link_0->value,
                    &*q->Link_0->value,
                    cid_of,
                );
            }
        } else {
            assert(a@.slots[i] is None);
            assert(b@.slots[i] is None);
        }
    }
    assert(f.slots =~= g.slots);
}

} // verus!
