//! The nodes of the trie.

use crate::bitmask::{bits, copy_mask, lemma_rank_monotonic, lemma_rank_update, lemma_rank_zero};
use crate::bitmask::{mask_bit, ones_before, rank, set_mask_bit, zero_mask, BitMask};
use crate::constant::{HAMT_BITMASK_BIT_SIZE, HAMT_VALUES_BUCKET_SIZE, HASH_BYTE_SIZE};
use crate::constant::MAX_CURSOR_DEPTH;
use crate::error::{Failure, HamtError};
use crate::hash::{lemma_nibble_bound, AsBytes, HashNibbles, HashOutput, Hasher, Sha3_256};
use crate::link::Link;
use crate::pointer::{entries, entry, lemma_same_pointers, position_after, position_of};
use crate::pointer::{share_values, Pair, Pointer};
use crate::store::NodeStore;
use crate::tree::{bucket_entries, collapse, find, insert, insert_all, only_values, remove};
use crate::tree::{sort_entries, target, unloaded, unused, walk_end, Blocks, Branch, Entry};
use crate::tree::Tree;
use std::marker::PhantomData;
use std::rc::Rc;
use vstd::prelude::*;

verus! {

/// A node of the trie. The bitmask tells which slots are in use, and the pointers are those
/// of the slots in use, in the order of the slots.
#[derive(Debug)]
pub struct Node<K, V, H: Hasher = Sha3_256> {
    pub bitmask: BitMask,
    pub pointers: Vec<Pointer<K, V, H>>,
    pub hasher: PhantomData<H>,
}

impl<K, V, H: Hasher> Node<K, V, H> {
    /// Which slots are in use.
    pub open spec fn used(&self) -> Seq<bool> {
        bits(self.bitmask)
    }

    /// Holds if this node, and each that can be reached from it without loading a block, has
    /// one pointer for each slot in use.
    pub open spec fn wf(&self) -> bool
        decreases self,
    {
        &&& self.used().len() == HAMT_BITMASK_BIT_SIZE
        &&& self.pointers@.len() == rank(self.used(), HAMT_BITMASK_BIT_SIZE as int)
        &&& forall|i: int| 0 <= i < self.pointers@.len() ==> (#[trigger] self.pointers@[i]).wf()
    }
}

impl<K: AsBytes, V, H: Hasher> Node<K, V, H> {
    /// The trie that the node stands for.
    pub open spec fn view(&self) -> Tree<K, V>
        decreases self,
    {
        let b = self.used();
        Tree {
            slots: Seq::new(
                HAMT_BITMASK_BIT_SIZE as nat,
                |i: int|
                    if b[i] && 0 <= rank(b, i) < self.pointers@.len() {
                        Some(self.pointers@[rank(b, i)].view())
                    } else {
                        None
                    },
            ),
        }
    }
}

impl<K, V, H: Hasher> Clone for Node<K, V, H> {
    fn clone(&self) -> (res: Self)
        ensures
            res.used() == self.used(),
            res.pointers@.len() == self.pointers@.len(),
            forall|i: int|
                0 <= i < self.pointers@.len() ==> (#[trigger] res.pointers@[i]).same_as(
                    &self.pointers@[i],
                ) && res.pointers@[i].wf() == self.pointers@[i].wf(),
    {
        let mut pointers: Vec<Pointer<K, V, H>> = Vec::with_capacity(HAMT_BITMASK_BIT_SIZE);
        for i in 0..self.pointers.len()
            invariant
                pointers@.len() == i,
                forall|j: int|
                    0 <= j < i ==> (#[trigger] pointers@[j]).same_as(&self.pointers@[j])
                        && pointers@[j].wf() == self.pointers@[j].wf(),
        {
            pointers.push(self.pointers[i].clone());
        }
        Node { bitmask: copy_mask(&self.bitmask), pointers, hasher: PhantomData }
    }
}

impl<K, V, H: Hasher> Node<K, V, H> {
    /// Calculates the value index from the bitmask index.
    pub fn get_value_index(&self, bit_index: usize) -> (res: usize)
        requires
            bit_index <= HAMT_BITMASK_BIT_SIZE,
        ensures
            res == rank(self.used(), bit_index as int),
            self.wf() ==> res <= self.pointers@.len(),
            self.wf() && bit_index < HAMT_BITMASK_BIT_SIZE && self.used()[bit_index as int]
                ==> res < self.pointers@.len(),
    {
        proof {
            lemma_rank_monotonic(
                self.used(),
                bit_index as int,
                HAMT_BITMASK_BIT_SIZE as int,
            );
        }
        ones_before(&self.bitmask, bit_index)
    }
}

impl<K: AsBytes, V, H: Hasher> Node<K, V, H> {
    /// Returns a version of the node in which one more slot is in use.
    fn insert_pointer(&self, bit_index: usize, pointer: Pointer<K, V, H>) -> (res: Self)
        requires
            self.wf(),
            pointer.wf(),
            bit_index < HAMT_BITMASK_BIT_SIZE,
            !self.used()[bit_index as int],
        ensures
            res.wf(),
            res@ == self@.with(bit_index as int, Some(pointer@)),
    {
        let value_index = self.get_value_index(bit_index);
        let mut node = self.clone();
        node.pointers.insert(value_index, pointer);
        set_mask_bit(&mut node.bitmask, bit_index, true);
        proof {
            let b = self.used();
            let n = bit_index as int;
            lemma_rank_update(b, n, true, HAMT_BITMASK_BIT_SIZE as int);
            assert forall|i: int| 0 <= i < node.pointers@.len() implies (
            #[trigger] node.pointers@[i]).wf() by {
                if i < value_index {
                    assert(self.pointers@[i].wf());
                } else if i > value_index {
                    assert(self.pointers@[i - 1].wf());
                }
            }
            assert forall|i: int| 0 <= i < HAMT_BITMASK_BIT_SIZE implies (
            #[trigger] node@.slots[i]) == self@.with(n, Some(pointer@)).slots[i] by {
                lemma_rank_update(b, n, true, i);
                if i < n {
                    lemma_rank_monotonic(b, i, n);
                    if b[i] {
                        lemma_same_pointers(node.pointers@[rank(b, i)], self.pointers@[rank(b, i)]);
                    }
                } else if i > n {
                    lemma_rank_monotonic(b, n, i);
                    lemma_rank_monotonic(b, i, HAMT_BITMASK_BIT_SIZE as int);
                    if b[i] {
                        lemma_same_pointers(
                            node.pointers@[rank(b, i) + 1],
                            self.pointers@[rank(b, i)],
                        );
                    }
                } else {
                    lemma_rank_monotonic(b, n, HAMT_BITMASK_BIT_SIZE as int);
                }
            }
            assert(node@.slots =~= self@.with(n, Some(pointer@)).slots);
        }
        node
    }

    /// Returns a version of the node in which a slot in use has another pointer.
    fn replace_pointer(&self, bit_index: usize, pointer: Pointer<K, V, H>) -> (res: Self)
        requires
            self.wf(),
            pointer.wf(),
            bit_index < HAMT_BITMASK_BIT_SIZE,
            self.used()[bit_index as int],
        ensures
            res.wf(),
            res@ == self@.with(bit_index as int, Some(pointer@)),
    {
        let value_index: usize = self.get_value_index(bit_index);
        let mut node = self.clone();
        node.pointers.set(value_index, pointer);
        proof {
            let b = self.used();
            let n = bit_index as int;
            assert forall|i: int| 0 <= i < node.pointers@.len() implies (
            #[trigger] node.pointers@[i]).wf() by {
                assert(self.pointers@[i].wf());
            }
            assert forall|i: int| 0 <= i < HAMT_BITMASK_BIT_SIZE implies (
            #[trigger] node@.slots[i]) == self@.with(n, Some(pointer@)).slots[i] by {
                if i != n && b[i] {
                    if i < n {
                        lemma_rank_monotonic(b, i, n);
                    } else {
                        lemma_rank_monotonic(b, n, i);
                    }
                    lemma_rank_monotonic(b, i, HAMT_BITMASK_BIT_SIZE as int);
                    lemma_same_pointers(node.pointers@[rank(b, i)], self.pointers@[rank(b, i)]);
                }
            }
            assert(node@.slots =~= self@.with(n, Some(pointer@)).slots);
        }
        node
    }

    /// Returns a version of the node in which a slot is no longer in use.
    fn remove_pointer(&self, bit_index: usize) -> (res: Self)
        requires
            self.wf(),
            bit_index < HAMT_BITMASK_BIT_SIZE,
            self.used()[bit_index as int],
        ensures
            res.wf(),
            res@ == self@.with(bit_index as int, None),
    {
        let value_index: usize = self.get_value_index(bit_index);
        let mut node = self.clone();
        set_mask_bit(&mut node.bitmask, bit_index, false);
        let _ = node.pointers.remove(value_index);
        proof {
            let b = self.used();
            let n = bit_index as int;
            lemma_rank_update(b, n, false, HAMT_BITMASK_BIT_SIZE as int);
            assert forall|i: int| 0 <= i < node.pointers@.len() implies (
            #[trigger] node.pointers@[i]).wf() by {
                if i < value_index {
                    assert(self.pointers@[i].wf());
                } else {
                    assert(self.pointers@[i + 1].wf());
                }
            }
            assert forall|i: int| 0 <= i < HAMT_BITMASK_BIT_SIZE implies (
            #[trigger] node@.slots[i]) == self@.with(n, None).slots[i] by {
                lemma_rank_update(b, n, false, i);
                if i < n {
                    lemma_rank_monotonic(b, i, n);
                    if b[i] {
                        lemma_same_pointers(node.pointers@[rank(b, i)], self.pointers@[rank(b, i)]);
                    }
                } else if i > n {
                    lemma_rank_monotonic(b, n, i);
                    lemma_rank_monotonic(b, i, HAMT_BITMASK_BIT_SIZE as int);
                    if b[i] {
                        lemma_same_pointers(
                            node.pointers@[rank(b, i) - 1],
                            self.pointers@[rank(b, i)],
                        );
                    }
                }
            }
            assert(node@.slots =~= self@.with(n, None).slots);
        }
        node
    }

    /// What the slot at `bit_index` holds, by the bitmask and the pointers.
    proof fn lemma_slot(&self, bit_index: int)
        requires
            self.wf(),
            0 <= bit_index < HAMT_BITMASK_BIT_SIZE,
        ensures
            !self.used()[bit_index] ==> self@.slots[bit_index] is None,
            self.used()[bit_index] ==> {
                let r = rank(self.used(), bit_index);
                &&& 0 <= r < self.pointers@.len()
                &&& self@.slots[bit_index] == Some(self.pointers@[r]@)
                &&& self.pointers@[r].wf()
            },
    {
        lemma_rank_monotonic(self.used(), bit_index, HAMT_BITMASK_BIT_SIZE as int);
        lemma_rank_monotonic(self.used(), 0, bit_index);
    }
}

/// Holds if a lookup's result is the expected one, the pair being that of the entry.
pub open spec fn gives_pair<K, V>(
    res: Result<Option<&Pair<K, V>>, HamtError>,
    expected: Result<Option<Entry<K, V>>, Failure>,
) -> bool {
    match (res, expected) {
        (Ok(None), Ok(None)) => true,
        (Ok(Some(pair)), Ok(Some(e))) => *pair == e.pair,
        (Err(error), Err(failure)) => error@ == failure,
        _ => false,
    }
}

/// Holds if a lookup's result is the expected one, the value being that of the entry.
pub open spec fn gives_value<K, V>(
    res: Result<Option<&V>, HamtError>,
    expected: Result<Option<Entry<K, V>>, Failure>,
) -> bool {
    match (res, expected) {
        (Ok(None), Ok(None)) => true,
        (Ok(Some(value)), Ok(Some(e))) => *value == e.pair.value,
        (Err(error), Err(failure)) => error@ == failure,
        _ => false,
    }
}

/// Holds if an update's result is a well-formed node for the expected trie, or the expected
/// failure.
pub open spec fn gives_node<K: AsBytes, V, H: Hasher>(
    res: Result<Rc<Node<K, V, H>>, HamtError>,
    expected: Result<Tree<K, V>, Failure>,
) -> bool {
    match (res, expected) {
        (Ok(node), Ok(t)) => node.wf() && node@ == t,
        (Err(error), Err(failure)) => error@ == failure,
        _ => false,
    }
}

impl<K: AsBytes, V, H: Hasher> Node<K, V, H> {
    /// Sets a new value at the given key.
    pub fn set(
        self: &Rc<Self>,
        key: K,
        value: V,
        store: &NodeStore<K, V, H>,
    ) -> (res: Result<Rc<Self>, HamtError>)
        requires
            self.wf(),
            store.wf(),
        ensures
            H::digest(key.bytes()).len() == HASH_BYTE_SIZE,
            gives_node(
                res,
                insert(
                    self@,
                    store@,
                    H::digest(key.bytes()),
                    0,
                    entry::<K, V, H>(&Pair { key, value }),
                ),
            ),
    {
        let hash: HashOutput = H::hash(&key);
        self.set_value(&mut HashNibbles::new(&hash), key, value, store)
    }

    /// Gets the value at the given key.
    pub fn get<'a>(
        self: &'a Rc<Self>,
        key: &K,
        store: &'a NodeStore<K, V, H>,
    ) -> (res: Result<Option<&'a V>, HamtError>)
        requires
            self.wf(),
            store.wf(),
        ensures
            H::digest(key.bytes()).len() == HASH_BYTE_SIZE,
            gives_value(res, find(self@, store@, H::digest(key.bytes()), 0)),
    {
        let hash: HashOutput = H::hash(key);
        self.get_by_hash(&hash, store)
    }

    /// Removes the value at the given key.
    pub fn remove(
        self: &Rc<Self>,
        key: &K,
        store: &NodeStore<K, V, H>,
    ) -> (res: Result<(Rc<Self>, Option<Pair<K, V>>), HamtError>) where K: Clone, V: Clone
        requires
            self.wf(),
            store.wf(),
        ensures
            H::digest(key.bytes()).len() == HASH_BYTE_SIZE,
            gives_removed_pair(res, remove(self@, store@, H::digest(key.bytes()), 0)),
    {
        let hash: HashOutput = H::hash(key);
        self.remove_value(&mut HashNibbles::new(&hash), store)
    }

    /// Gets the value at the key matching the provided hash.
    pub fn get_by_hash<'a>(
        self: &'a Rc<Self>,
        hash: &HashOutput,
        store: &'a NodeStore<K, V, H>,
    ) -> (res: Result<Option<&'a V>, HamtError>)
        requires
            self.wf(),
            store.wf(),
        ensures
            gives_value(res, find(self@, store@, hash@, 0)),
    {
        match self.get_value(&mut HashNibbles::new(hash), store) {
            Ok(Some(pair)) => Ok(Some(&pair.value)),
            Ok(None) => Ok(None),
            Err(error) => Err(error),
        }
    }

    /// Removes the value at the key matching the provided hash.
    pub fn remove_by_hash(
        self: &Rc<Self>,
        hash: &HashOutput,
        store: &NodeStore<K, V, H>,
    ) -> (res: Result<(Rc<Self>, Option<V>), HamtError>) where V: Clone
        requires
            self.wf(),
            store.wf(),
        ensures
            gives_removed_value(res, remove(self@, store@, hash@, 0)),
    {
        match self.remove_pair(&mut HashNibbles::new(hash), store) {
            Ok((node, Some(pair))) => Ok((node, Some(pair.value.clone()))),
            Ok((node, None)) => Ok((node, None)),
            Err(error) => Err(error),
        }
    }

    /// Sets a value at a key, along the digest that is walked. The digest need not be that of
    /// the key.
    pub fn set_value(
        self: &Rc<Self>,
        hashnibbles: &mut HashNibbles,
        key: K,
        value: V,
        store: &NodeStore<K, V, H>,
    ) -> (res: Result<Rc<Self>, HamtError>)
        requires
            self.wf(),
            store.wf(),
        ensures
            final(hashnibbles).digest@ == old(hashnibbles).digest@,
            final(hashnibbles).cursor == walk_end(
                self@,
                store@,
                old(hashnibbles).digest@,
                old(hashnibbles).cursor as int,
            ),
            gives_node(
                res,
                insert(
                    self@,
                    store@,
                    old(hashnibbles).digest@,
                    old(hashnibbles).cursor as int,
                    entry::<K, V, H>(&Pair { key, value }),
                ),
            ),
    {
        self.set_pair(hashnibbles, Rc::new(Pair::new(key, value)), store)
    }

    /// Removes the pair whose key has the digest that is walked.
    pub fn remove_value(
        self: &Rc<Self>,
        hashnibbles: &mut HashNibbles,
        store: &NodeStore<K, V, H>,
    ) -> (res: Result<(Rc<Self>, Option<Pair<K, V>>), HamtError>) where K: Clone, V: Clone
        requires
            self.wf(),
            store.wf(),
        ensures
            final(hashnibbles).digest@ == old(hashnibbles).digest@,
            final(hashnibbles).cursor == walk_end(
                self@,
                store@,
                old(hashnibbles).digest@,
                old(hashnibbles).cursor as int,
            ),
            gives_removed_pair(
                res,
                remove(
                    self@,
                    store@,
                    old(hashnibbles).digest@,
                    old(hashnibbles).cursor as int,
                ),
            ),
    {
        match self.remove_pair(hashnibbles, store) {
            Ok((node, Some(pair))) => Ok((node, Some((*pair).clone()))),
            Ok((node, None)) => Ok((node, None)),
            Err(error) => Err(error),
        }
    }
}

impl<K, V, H: Hasher> Node<K, V, H> {
    /// Checks if the node is empty.
    pub fn is_empty(&self) -> (res: bool)
        ensures
            res == forall|i: int| 0 <= i < HAMT_BITMASK_BIT_SIZE ==> !#[trigger] self.used()[i],
    {
        proof {
            lemma_rank_zero(self.used(), HAMT_BITMASK_BIT_SIZE as int);
        }
        self.bitmask.count_ones() == 0
    }

    /// Returns the count of the values in all the values pointer of a node.
    pub fn count_values(&self) -> (res: Result<usize, HamtError>)
        requires
            values_count(self.pointers@, self.pointers@.len() as int) <= usize::MAX,
        ensures
            match res {
                Ok(n) => {
                    &&& forall|i: int|
                        0 <= i < self.pointers@.len() ==> #[trigger] self.pointers@[i] is Values
                    &&& n == values_count(self.pointers@, self.pointers@.len() as int)
                },
                Err(error) => {
                    &&& error@ == Failure::ValuesPointerExpected
                    &&& exists|i: int|
                        0 <= i < self.pointers@.len() && #[trigger] self.pointers@[i] is Link
                },
            },
    {
        let mut len: usize = 0;
        for i in 0..self.pointers.len()
            invariant
                values_count(self.pointers@, self.pointers@.len() as int) <= usize::MAX,
                len == values_count(self.pointers@, i as int),
                forall|j: int| 0 <= j < i ==> #[trigger] self.pointers@[j] is Values,
        {
            match &self.pointers[i] {
                Pointer::Values(values) => {
                    proof {
                        lemma_values_count_grows(
                            self.pointers@,
                            i + 1,
                            self.pointers@.len() as int,
                        );
                    }
                    len = len + values.len();
                },
                Pointer::Link(_) => {
                    assert(self.pointers@[i as int] is Link);
                    return Err(HamtError::ValuesPointerExpected);
                },
            }
        }
        Ok(len)
    }
}

/// The number of pairs in the buckets among the first `n` pointers.
pub open spec fn values_count<K, V, H: Hasher>(pointers: Seq<Pointer<K, V, H>>, n: int) -> int
    decreases n,
{
    if n <= 0 {
        0
    } else {
        values_count(pointers, n - 1) + match pointers[n - 1] {
            Pointer::Values(values) => values@.len() as int,
            Pointer::Link(_) => 0,
        }
    }
}

/// More pointers hold no fewer pairs.
proof fn lemma_values_count_grows<K, V, H: Hasher>(
    pointers: Seq<Pointer<K, V, H>>,
    m: int,
    n: int,
)
    requires
        0 <= m <= n,
    ensures
        values_count(pointers, m) <= values_count(pointers, n),
    decreases n,
{
    if m < n {
        lemma_values_count_grows(pointers, m, n - 1);
    }
}

impl<K: AsBytes, V, H: Hasher> Node<K, V, H> {
    /// Returns the node that a link leads to.
    fn resolve_link<'a>(
        link: &'a Link<Rc<Self>>,
        store: &'a NodeStore<K, V, H>,
    ) -> (res: Result<&'a Rc<Self>, HamtError>)
        requires
            Pointer::Link(*link).wf(),
            store.wf(),
        ensures
            match res {
                Ok(node) => node.wf() && target(Pointer::Link(*link)@, store@) == Some(node@),
                Err(error) => target(Pointer::Link(*link)@, store@) is None && error@
                    == unloaded(Pointer::Link(*link)@),
            },
    {
        match link {
            Link::Decoded { value, .. } => Ok(value),
            Link::Encoded { cid } => match store.get(cid) {
                Some(node) => Ok(node),
                None => Err(HamtError::BlockNotFound { cid: cid.clone() }),
            },
        }
    }

    /// Gets the pair whose key has the digest that is walked.
    pub fn get_value<'a>(
        self: &'a Rc<Self>,
        hashnibbles: &mut HashNibbles,
        store: &'a NodeStore<K, V, H>,
    ) -> (res: Result<Option<&'a Pair<K, V>>, HamtError>)
        requires
            self.wf(),
            store.wf(),
        ensures
            final(hashnibbles).digest@ == old(hashnibbles).digest@,
            final(hashnibbles).cursor == walk_end(
                self@,
                store@,
                old(hashnibbles).digest@,
                old(hashnibbles).cursor as int,
            ),
            gives_pair(
                res,
                find(
                    self@,
                    store@,
                    old(hashnibbles).digest@,
                    old(hashnibbles).cursor as int,
                ),
            ),
        decreases MAX_CURSOR_DEPTH - old(hashnibbles).cursor,
    {
        let bit_index: usize = match hashnibbles.try_next() {
            Ok(n) => n,
            Err(error) => return Err(error),
        };
        proof {
            lemma_nibble_bound(old(hashnibbles).digest@, old(hashnibbles).cursor as int);
            self.lemma_slot(bit_index as int);
        }
        // If the bit is not set yet, return None.
        if !mask_bit(&self.bitmask, bit_index) {
            return Ok(None);
        }
        let value_index: usize = self.get_value_index(bit_index);
        match &self.pointers[value_index] {
            Pointer::Values(values) => {
                let i: usize = position_of::<K, V, H>(values, hashnibbles.digest);
                if i < values.len() {
                    Ok(Some(&*values[i]))
                } else {
                    Ok(None)
                }
            },
            Pointer::Link(link) => match Self::resolve_link(link, store) {
                Ok(child) => child.get_value(hashnibbles, store),
                Err(error) => Err(error),
            },
        }
    }

    /// Sets a pair that may be shared with other nodes, along the digest that is walked.
    fn set_pair(
        self: &Rc<Self>,
        hashnibbles: &mut HashNibbles,
        pair: Rc<Pair<K, V>>,
        store: &NodeStore<K, V, H>,
    ) -> (res: Result<Rc<Self>, HamtError>)
        requires
            self.wf(),
            store.wf(),
        ensures
            final(hashnibbles).digest@ == old(hashnibbles).digest@,
            final(hashnibbles).cursor == walk_end(
                self@,
                store@,
                old(hashnibbles).digest@,
                old(hashnibbles).cursor as int,
            ),
            gives_node(
                res,
                insert(
                    self@,
                    store@,
                    old(hashnibbles).digest@,
                    old(hashnibbles).cursor as int,
                    entry::<K, V, H>(&*pair),
                ),
            ),
        decreases MAX_CURSOR_DEPTH - old(hashnibbles).cursor, 0nat,
    {
        let bit_index: usize = match hashnibbles.try_next() {
            Ok(n) => n,
            Err(error) => return Err(error),
        };
        proof {
            lemma_nibble_bound(old(hashnibbles).digest@, old(hashnibbles).cursor as int);
            self.lemma_slot(bit_index as int);
        }
        let ghost e = entry::<K, V, H>(&*pair);
        // If the bit is not set yet, insert a new pointer.
        if !mask_bit(&self.bitmask, bit_index) {
            let values: Vec<Rc<Pair<K, V>>> = vec![pair];
            assert(entries::<K, V, H>(values@) =~= seq![e]);
            return Ok(Rc::new(self.insert_pointer(bit_index, Pointer::Values(values))));
        }
        let value_index: usize = self.get_value_index(bit_index);
        match &self.pointers[value_index] {
            Pointer::Values(values) => {
                let ghost vs = entries::<K, V, H>(values@);
                let i: usize = position_of::<K, V, H>(values, hashnibbles.digest);
                if i < values.len() {
                    // If the key is already present, update the value.
                    let mut values: Vec<Rc<Pair<K, V>>> = share_values(values);
                    values.set(i, pair);
                    assert(entries::<K, V, H>(values@) =~= vs.update(i as int, e));
                    Ok(Rc::new(self.replace_pointer(bit_index, Pointer::Values(values))))
                } else if values.len() < HAMT_VALUES_BUCKET_SIZE {
                    // Otherwise, insert the new value in order if the bucket is not full.
                    let index: usize = position_after::<K, V, H>(values, hashnibbles.digest);
                    let mut values: Vec<Rc<Pair<K, V>>> = share_values(values);
                    values.insert(index, pair);
                    assert(entries::<K, V, H>(values@) =~= vs.insert(index as int, e));
                    Ok(Rc::new(self.replace_pointer(bit_index, Pointer::Values(values))))
                } else {
                    // If the bucket is full, a node one level down takes its pairs.
                    let mut pairs: Vec<Rc<Pair<K, V>>> = share_values(values);
                    pairs.push(pair);
                    assert(entries::<K, V, H>(pairs@) =~= vs.push(e));
                    match Self::set_all(&pairs, hashnibbles.get_cursor(), store) {
                        Ok(sub_node) => {
                            let link = Link::Decoded { value: sub_node, noted: None };
                            let pointer = Pointer::Link(link);
                            Ok(Rc::new(self.replace_pointer(bit_index, pointer)))
                        },
                        Err(error) => Err(error),
                    }
                }
            },
            Pointer::Link(link) => {
                let child = match Self::resolve_link(link, store) {
                    Ok(child) => child,
                    Err(error) => return Err(error),
                };
                match child.set_pair(hashnibbles, pair, store) {
                    Ok(child) => {
                        let pointer = Pointer::Link(Link::Decoded { value: child, noted: None });
                        Ok(Rc::new(self.replace_pointer(bit_index, pointer)))
                    },
                    Err(error) => Err(error),
                }
            },
        }
    }

    /// Makes a node of the given pairs, each set along its own digest from `cursor` on.
    fn set_all(
        pairs: &Vec<Rc<Pair<K, V>>>,
        cursor: usize,
        store: &NodeStore<K, V, H>,
    ) -> (res: Result<Rc<Self>, HamtError>)
        requires
            store.wf(),
        ensures
            gives_node(
                res,
                insert_all(
                    Tree::empty(),
                    store@,
                    entries::<K, V, H>(pairs@),
                    cursor as int,
                ),
            ),
        decreases MAX_CURSOR_DEPTH - cursor, 1nat,
    {
        let ghost es = entries::<K, V, H>(pairs@);
        let mut sub_node: Rc<Self> = Rc::new(Node::default());
        proof {
            lemma_default_is_empty(&*sub_node);
            assert(es.take(0) =~= Seq::empty());
        }
        for i in 0..pairs.len()
            invariant
                store.wf(),
                es == entries::<K, V, H>(pairs@),
                sub_node.wf(),
                insert_all(Tree::empty(), store@, es.take(i as int), cursor as int) == Ok::<
                    Tree<K, V>,
                    Failure,
                >(sub_node@),
        {
            let pair: Rc<Pair<K, V>> = Rc::clone(&pairs[i]);
            let hash: HashOutput = H::hash(&pair.key);
            let mut hashnibbles = HashNibbles::with_cursor(&hash, cursor);
            proof {
                assert(es.take(i + 1).drop_last() =~= es.take(i as int));
                assert(es.take(i + 1).last() == entry::<K, V, H>(&*pair));
            }
            match sub_node.set_pair(&mut hashnibbles, pair, store) {
                Ok(node) => sub_node = node,
                Err(error) => {
                    proof {
                        lemma_insert_all_fails(
                            Tree::empty(),
                            store@,
                            es,
                            cursor as int,
                            i + 1,
                        );
                    }
                    return Err(error);
                },
            }
        }
        assert(es.take(pairs@.len() as int) =~= es);
        Ok(sub_node)
    }
}

/// Holds if a removal's result is a well-formed node for the expected trie with the pair of
/// the expected entry, or the expected failure.
pub open spec fn gives_removal<K: AsBytes, V, H: Hasher>(
    res: Result<(Rc<Node<K, V, H>>, Option<Rc<Pair<K, V>>>), HamtError>,
    expected: Result<(Tree<K, V>, Option<Entry<K, V>>), Failure>,
) -> bool {
    match (res, expected) {
        (Ok((node, None)), Ok((t, None))) => node.wf() && node@ == t,
        (Ok((node, Some(pair))), Ok((t, Some(e)))) => node.wf() && node@ == t && *pair == e.pair,
        (Err(error), Err(failure)) => error@ == failure,
        _ => false,
    }
}

/// Holds if a removal's result is a well-formed node for the expected trie with a clone of
/// the expected entry's pair, or the expected failure.
pub open spec fn gives_removed_pair<K: AsBytes + Clone, V: Clone, H: Hasher>(
    res: Result<(Rc<Node<K, V, H>>, Option<Pair<K, V>>), HamtError>,
    expected: Result<(Tree<K, V>, Option<Entry<K, V>>), Failure>,
) -> bool {
    match (res, expected) {
        (Ok((node, None)), Ok((t, None))) => node.wf() && node@ == t,
        (Ok((node, Some(pair))), Ok((t, Some(e)))) => {
            &&& node.wf()
            &&& node@ == t
            &&& cloned(e.pair.key, pair.key)
            &&& cloned(e.pair.value, pair.value)
        },
        (Err(error), Err(failure)) => error@ == failure,
        _ => false,
    }
}

/// Holds if a removal's result is a well-formed node for the expected trie with a clone of
/// the expected entry's value, or the expected failure.
pub open spec fn gives_removed_value<K: AsBytes, V: Clone, H: Hasher>(
    res: Result<(Rc<Node<K, V, H>>, Option<V>), HamtError>,
    expected: Result<(Tree<K, V>, Option<Entry<K, V>>), Failure>,
) -> bool {
    match (res, expected) {
        (Ok((node, None)), Ok((t, None))) => node.wf() && node@ == t,
        (Ok((node, Some(value))), Ok((t, Some(e)))) => {
            &&& node.wf()
            &&& node@ == t
            &&& cloned(e.pair.value, value)
        },
        (Err(error), Err(failure)) => error@ == failure,
        _ => false,
    }
}

impl<K: AsBytes, V, H: Hasher> Node<K, V, H> {
    /// Returns what is to stand in the slot above a node that something was removed from:
    /// nothing if the node is empty, a bucket if its pairs fit one, else a link to it.
    fn canonicalize(self: Rc<Self>) -> (res: Option<Pointer<K, V, H>>)
        requires
            self.wf(),
        ensures
            match res {
                Some(pointer) => pointer.wf() && collapse(self@) == Some(pointer@),
                None => collapse(self@) is None,
            },
    {
        let ghost t = self@;
        let ghost b = self.used();
        proof {
            lemma_rank_zero(b, HAMT_BITMASK_BIT_SIZE as int);
        }
        if self.pointers.len() == 0 {
            return None;
        }
        proof {
            let i = choose|i: int| 0 <= i < HAMT_BITMASK_BIT_SIZE && b[i];
            self.lemma_slot(i);
            assert(t.slots[i] is Some);
        }
        let mut sorted: Vec<Rc<Pair<K, V>>> = Vec::with_capacity(HAMT_VALUES_BUCKET_SIZE);
        let mut k: usize = 0;
        assert(entries::<K, V, H>(sorted@) =~= Seq::empty());
        for i in 0..HAMT_BITMASK_BIT_SIZE
            invariant
                self.wf(),
                t == self@,
                b == self.used(),
                !unused(t),
                k == rank(b, i as int),
                only_values(t, i as int),
                sorted@.len() == bucket_entries(t, i as int).len(),
                sorted@.len() <= HAMT_VALUES_BUCKET_SIZE,
                entries::<K, V, H>(sorted@) == sort_entries(bucket_entries(t, i as int)),
        {
            proof {
                self.lemma_slot(i as int);
                lemma_rank_monotonic(b, 0, i as int);
            }
            if mask_bit(&self.bitmask, i) {
                match &self.pointers[k] {
                    Pointer::Values(values) => {
                        let ghost vs = entries::<K, V, H>(values@);
                        let ghost before = bucket_entries(t, i as int);
                        if values.len() > HAMT_VALUES_BUCKET_SIZE - sorted.len() {
                            proof {
                                assert(bucket_entries(t, i + 1).len() == before.len() + vs.len());
                                lemma_bucket_entries_grow(
                                    t,
                                    i + 1,
                                    HAMT_BITMASK_BIT_SIZE as int,
                                );
                            }
                            let link = Link::Decoded { value: self, noted: None };
                            return Some(Pointer::Link(link));
                        }
                        assert(before + vs.take(0) =~= before);
                        for j in 0..values.len()
                            invariant
                                vs == entries::<K, V, H>(values@),
                                sorted@.len() == before.len() + j,
                                entries::<K, V, H>(sorted@) == sort_entries(
                                    before + vs.take(j as int),
                                ),
                        {
                            let pair: Rc<Pair<K, V>> = Rc::clone(&values[j]);
                            let hash: HashOutput = H::hash(&pair.key);
                            let index: usize = position_after::<K, V, H>(&sorted, &hash);
                            proof {
                                let next = before + vs.take(j + 1);
                                assert(next.drop_last() =~= before + vs.take(j as int));
                                assert(next.last() == entry::<K, V, H>(&*pair));
                                assert(entries::<K, V, H>(
                                    sorted@.insert(index as int, pair),
                                ) =~= entries::<K, V, H>(sorted@).insert(
                                    index as int,
                                    entry::<K, V, H>(&*pair),
                                ));
                            }
                            sorted.insert(index, pair);
                        }
                        assert(vs.take(values@.len() as int) =~= vs);
                    },
                    Pointer::Link(_) => {
                        assert(!only_values(t, HAMT_BITMASK_BIT_SIZE as int)) by {
                            assert(t.slots[i as int] is Some);
                        }
                        let link = Link::Decoded { value: self, noted: None };
                        return Some(Pointer::Link(link));
                    },
                }
                k = k + 1;
            }
        }
        Some(Pointer::Values(sorted))
    }

    /// Removes the pair whose key has the digest that is walked, and returns it as it is
    /// shared with other nodes.
    fn remove_pair(
        self: &Rc<Self>,
        hashnibbles: &mut HashNibbles,
        store: &NodeStore<K, V, H>,
    ) -> (res: Result<(Rc<Self>, Option<Rc<Pair<K, V>>>), HamtError>)
        requires
            self.wf(),
            store.wf(),
        ensures
            final(hashnibbles).digest@ == old(hashnibbles).digest@,
            final(hashnibbles).cursor == walk_end(
                self@,
                store@,
                old(hashnibbles).digest@,
                old(hashnibbles).cursor as int,
            ),
            gives_removal(
                res,
                remove(
                    self@,
                    store@,
                    old(hashnibbles).digest@,
                    old(hashnibbles).cursor as int,
                ),
            ),
        decreases MAX_CURSOR_DEPTH - old(hashnibbles).cursor,
    {
        let bit_index: usize = match hashnibbles.try_next() {
            Ok(n) => n,
            Err(error) => return Err(error),
        };
        proof {
            lemma_nibble_bound(old(hashnibbles).digest@, old(hashnibbles).cursor as int);
            self.lemma_slot(bit_index as int);
        }
        // If the bit is not set yet, return None.
        if !mask_bit(&self.bitmask, bit_index) {
            return Ok((Rc::clone(self), None));
        }
        let value_index: usize = self.get_value_index(bit_index);
        match &self.pointers[value_index] {
            Pointer::Values(values) => {
                let ghost vs = entries::<K, V, H>(values@);
                let i: usize = position_of::<K, V, H>(values, hashnibbles.digest);
                if i >= values.len() {
                    // If the key doesn't match, return without removing.
                    return Ok((Rc::clone(self), None));
                }
                let pair: Rc<Pair<K, V>> = Rc::clone(&values[i]);
                if values.len() == 1 {
                    // If there is only one value, we can remove the entire pointer.
                    Ok((Rc::new(self.remove_pointer(bit_index)), Some(pair)))
                } else {
                    // Otherwise, remove just the value.
                    let mut values: Vec<Rc<Pair<K, V>>> = share_values(values);
                    let _ = values.remove(i);
                    assert(entries::<K, V, H>(values@) =~= vs.remove(i as int));
                    let node = self.replace_pointer(bit_index, Pointer::Values(values));
                    Ok((Rc::new(node), Some(pair)))
                }
            },
            Pointer::Link(link) => {
                let child = match Self::resolve_link(link, store) {
                    Ok(child) => child,
                    Err(error) => return Err(error),
                };
                match child.remove_pair(hashnibbles, store) {
                    Ok((child, Some(pair))) => {
                        // If something has been deleted, put the pointer in its canonical form.
                        let node = match child.canonicalize() {
                            Some(pointer) => self.replace_pointer(bit_index, pointer),
                            // The child is empty now, so its pointer goes.
                            None => self.remove_pointer(bit_index),
                        };
                        Ok((Rc::new(node), Some(pair)))
                    },
                    Ok((child, None)) => {
                        let pointer = Pointer::Link(Link::Decoded { value: child, noted: None });
                        Ok((Rc::new(self.replace_pointer(bit_index, pointer)), None))
                    },
                    Err(error) => Err(error),
                }
            },
        }
    }
}

/// The entries of more slots are no fewer.
proof fn lemma_bucket_entries_grow<K, V>(t: Tree<K, V>, m: int, n: int)
    requires
        0 <= m <= n,
    ensures
        bucket_entries(t, m).len() <= bucket_entries(t, n).len(),
    decreases n,
{
    if m < n {
        lemma_bucket_entries_grow(t, m, n - 1);
    }
}

impl<K, V, H: Hasher> Default for Node<K, V, H> {
    fn default() -> (res: Self)
        ensures
            res.wf(),
            res.used() == Seq::new(HAMT_BITMASK_BIT_SIZE as nat, |i: int| false),
            res.pointers@.len() == 0,
    {
        let res = Node {
            bitmask: zero_mask(),
            pointers: Vec::with_capacity(HAMT_BITMASK_BIT_SIZE),
            hasher: PhantomData,
        };
        proof {
            lemma_rank_zero(res.used(), HAMT_BITMASK_BIT_SIZE as int);
        }
        res
    }
}

/// A node without pointers stands for the trie that holds nothing.
pub proof fn lemma_default_is_empty<K: AsBytes, V, H: Hasher>(node: &Node<K, V, H>)
    requires
        node.pointers@.len() == 0,
    ensures
        node@ == Tree::<K, V>::empty(),
{
    assert(node@.slots =~= Tree::<K, V>::empty().slots);
}

/// Once an entry cannot be set, setting more of them fails in the same way.
proof fn lemma_insert_all_fails<K, V>(
    t: Tree<K, V>,
    blocks: Blocks<K, V>,
    es: Seq<Entry<K, V>>,
    c: int,
    n: int,
)
    requires
        0 <= n <= es.len(),
        insert_all(t, blocks, es.take(n), c) is Err,
    ensures
        insert_all(t, blocks, es, c) == insert_all(t, blocks, es.take(n), c),
    decreases es.len(),
{
    if n == es.len() {
        assert(es.take(n) =~= es);
    } else {
        assert(es.drop_last().take(n) =~= es.take(n));
        lemma_insert_all_fails(t, blocks, es.drop_last(), c, n);
    }
}

/// What the trie of a well-formed node has in a slot is what the node's pointer for that slot
/// holds, and nothing if its bit is not set: the pairs of a bucket in their order, each at the
/// digest of its key, the bytes of an identifier, or the trie of a node in memory with the
/// identifier that is noted for it.
pub proof fn law_slots_are_what_pointers_hold<K: AsBytes, V, H: Hasher>(
    node: &Node<K, V, H>,
    i: int,
)
    requires
        node.wf(),
        0 <= i < HAMT_BITMASK_BIT_SIZE,
    ensures
        node@.slots.len() == HAMT_BITMASK_BIT_SIZE,
        bits(node.bitmask).len() == HAMT_BITMASK_BIT_SIZE,
        !bits(node.bitmask)[i] ==> node@.slots[i] is None,
        bits(node.bitmask)[i] ==> {
            let r = rank(bits(node.bitmask), i);
            &&& 0 <= r < node.pointers@.len()
            &&& match node.pointers@[r] {
                Pointer::Values(values) => node@.slots[i] matches Some(Branch::Values(vs))
                    && vs.len() == values@.len() && forall|j: int|
                    0 <= j < values@.len() ==> {
                        &&& (#[trigger] vs[j]).pair == *values@[j]
                        &&& vs[j].digest == H::digest(values@[j].key.bytes())
                    },
                Pointer::Link(Link::Encoded { cid }) => node@.slots[i] == Some(
                    Branch::<K, V>::Block(cid.bytes@),
                ),
                Pointer::Link(Link::Decoded { value, noted }) => node@.slots[i] == Some(
                    Branch::Subtree(
                        value@,
                        match noted {
                            Some(cid) => Some(cid.bytes@),
                            None => None,
                        },
                    ),
                ),
            }
        },
{
    node.lemma_slot(i);
}

/// A node is well-formed if it has as many pointers as bits set, and the nodes in memory that it
/// links to are well-formed.
pub proof fn law_well_formed<K, V, H: Hasher>(node: &Node<K, V, H>)
    ensures
        node.wf() <==> {
            &&& bits(node.bitmask).len() == HAMT_BITMASK_BIT_SIZE
            &&& node.pointers@.len() == rank(bits(node.bitmask), HAMT_BITMASK_BIT_SIZE as int)
            &&& forall|i: int|
                0 <= i < node.pointers@.len() ==> match #[trigger] node.pointers@[i] {
                    Pointer::Link(Link::Decoded { value, .. }) => value.wf(),
                    _ => true,
                }
        },
{
    if node.wf() {
        assert forall|i: int| 0 <= i < node.pointers@.len() implies match
            #[trigger] node.pointers@[i] {
            Pointer::Link(Link::Decoded { value, .. }) => value.wf(),
            _ => true,
        } by {
            assert(node.pointers@[i].wf());
        }
    } else if bits(node.bitmask).len() == HAMT_BITMASK_BIT_SIZE && node.pointers@.len() == rank(
        bits(node.bitmask),
        HAMT_BITMASK_BIT_SIZE as int,
    ) {
        let i = choose|i: int|
            0 <= i < node.pointers@.len() && !(#[trigger] node.pointers@[i]).wf();
        assert(node.pointers@[i] is Link);
    }
}

/// The count of values of more pointers adds the pairs of the last one, if it is a bucket.
pub proof fn law_values_are_counted_once<K, V, H: Hasher>(
    pointers: Seq<Pointer<K, V, H>>,
    pointer: Pointer<K, V, H>,
)
    ensures
        values_count(Seq::<Pointer<K, V, H>>::empty(), 0) == 0,
        values_count(pointers.push(pointer), (pointers.len() + 1) as int) == values_count(
            pointers,
            pointers.len() as int,
        ) + match pointer {
            Pointer::Values(values) => values@.len() as int,
            Pointer::Link(_) => 0,
        },
{
    lemma_values_count_of_first(pointers, pointers.push(pointer), pointers.len() as int);
}

/// The count of values of the first pointers depends on these alone.
proof fn lemma_values_count_of_first<K, V, H: Hasher>(
    a: Seq<Pointer<K, V, H>>,
    b: Seq<Pointer<K, V, H>>,
    n: int,
)
    requires
        forall|i: int| 0 <= i < n ==> a[i] == b[i],
    ensures
        values_count(a, n) == values_count(b, n),
    decreases n,
{
    if n > 0 {
        lemma_values_count_of_first(a, b, n - 1);
    }
}

} // verus!
