//! The nodes that have been loaded from a block store.

use crate::hash::{AsBytes, Hasher, Sha3_256};
use crate::link::Cid;
use crate::node::Node;
use crate::tree::Blocks;
use std::rc::Rc;
use vstd::prelude::*;

verus! {

/// Nodes that have been loaded from a block store, by the identifiers of their blocks. An
/// operation that comes to a link whose node is not here fails with the identifier, and
/// succeeds when it is tried again with that node put here.
#[derive(Debug)]
pub struct NodeStore<K, V, H: Hasher = Sha3_256> {
    pub nodes: Vec<(Cid, Rc<Node<K, V, H>>)>,
}

/// The blocks that a list of identifiers and nodes stands for.
pub open spec fn blocks_of<K: AsBytes, V, H: Hasher>(
    nodes: Seq<(Cid, Rc<Node<K, V, H>>)>,
) -> Blocks<K, V>
    decreases nodes.len(),
{
    if nodes.len() == 0 {
        Map::empty()
    } else {
        blocks_of(nodes.drop_last()).insert(nodes.last().0@, nodes.last().1@)
    }
}

impl<K, V, H: Hasher> NodeStore<K, V, H> {
    /// Holds if each identifier occurs once and every node is well-formed.
    pub open spec fn wf(&self) -> bool {
        &&& distinct(self.nodes@)
        &&& forall|i: int| 0 <= i < self.nodes@.len() ==> (#[trigger] self.nodes@[i]).1.wf()
    }
}

/// Holds if no identifier occurs twice.
pub open spec fn distinct<K, V, H: Hasher>(nodes: Seq<(Cid, Rc<Node<K, V, H>>)>) -> bool {
    forall|i: int, j: int|
        0 <= i < j < nodes.len() ==> (#[trigger] nodes[i]).0@ != (#[trigger] nodes[j]).0@
}

impl<K: AsBytes, V, H: Hasher> NodeStore<K, V, H> {
    /// The blocks that have been loaded.
    pub open spec fn view(&self) -> Blocks<K, V> {
        blocks_of(self.nodes@)
    }

    /// Returns the node of the block with the given identifier, if it has been loaded.
    pub fn get(&self, cid: &Cid) -> (res: Option<&Rc<Node<K, V, H>>>)
        requires
            self.wf(),
        ensures
            match res {
                Some(node) => self@.contains_key(cid@) && self@[cid@] == node@ && node.wf(),
                None => !self@.contains_key(cid@),
            },
    {
        proof {
            lemma_blocks_of(self.nodes@);
        }
        match self.position(cid) {
            Some(i) => {
                assert(self.nodes@[i as int].1.wf());
                Some(&self.nodes[i].1)
            },
            None => None,
        }
    }

    /// Puts a node under an identifier, in place of the one that was there.
    pub fn put(&mut self, cid: Cid, node: Rc<Node<K, V, H>>)
        requires
            old(self).wf(),
            node.wf(),
        ensures
            final(self).wf(),
            final(self)@ == old(self)@.insert(cid@, node@),
    {
        let ghost before = self.nodes@;
        match self.position(&cid) {
            Some(i) => {
                self.nodes.set(i, (cid, node));
                proof {
                    lemma_replaced(before, self.nodes@, i as int);
                }
            },
            None => {
                self.nodes.push((cid, node));
                assert(self.nodes@.drop_last() =~= before);
            },
        }
    }

    /// Returns where the given identifier is listed, if it is.
    fn position(&self, cid: &Cid) -> (res: Option<usize>)
        ensures
            match res {
                Some(i) => i < self.nodes@.len() && self.nodes@[i as int].0@ == cid@,
                None => forall|j: int|
                    0 <= j < self.nodes@.len() ==> (#[trigger] self.nodes@[j]).0@ != cid@,
            },
    {
        for i in 0..self.nodes.len()
            invariant
                forall|j: int| 0 <= j < i ==> (#[trigger] self.nodes@[j]).0@ != cid@,
        {
            if self.nodes[i].0.same_as(cid) {
                return Some(i);
            }
        }
        None
    }
}

/// Replacing the node of a listed identifier changes the blocks at that identifier.
proof fn lemma_replaced<K: AsBytes, V, H: Hasher>(
    before: Seq<(Cid, Rc<Node<K, V, H>>)>,
    after: Seq<(Cid, Rc<Node<K, V, H>>)>,
    i: int,
)
    requires
        distinct(before),
        0 <= i < before.len(),
        after == before.update(i, after[i]),
        after[i].0@ == before[i].0@,
    ensures
        distinct(after),
        blocks_of(after) == blocks_of(before).insert(after[i].0@, after[i].1@),
{
    assert forall|a: int, b: int| 0 <= a < b < after.len() implies (#[trigger] after[a]).0@ != (
    #[trigger] after[b]).0@ by {
        assert(before[a].0@ != before[b].0@);
    }
    lemma_blocks_of(before);
    lemma_blocks_of(after);
    let expected = blocks_of(before).insert(after[i].0@, after[i].1@);
    assert forall|c: Seq<u8>| blocks_of(after).contains_key(c) == #[trigger] expected.contains_key(
        c,
    ) by {
        if blocks_of(after).contains_key(c) {
            let k = choose|k: int| 0 <= k < after.len() && (#[trigger] after[k]).0@ == c;
            assert(before[k].0@ == c);
        }
        if blocks_of(before).contains_key(c) {
            let k = choose|k: int| 0 <= k < before.len() && (#[trigger] before[k]).0@ == c;
            assert(after[k].0@ == c);
        }
    }
    assert forall|c: Seq<u8>| blocks_of(after).contains_key(c) implies blocks_of(after)[c]
        == #[trigger] expected[c] by {
        let k = choose|k: int| 0 <= k < after.len() && (#[trigger] after[k]).0@ == c;
        if k != i {
            assert(before[k].0@ == c);
            assert(after[k].0@ != after[i].0@);
        }
    }
    assert(blocks_of(after) =~= expected);
}

impl<K, V, H: Hasher> Default for NodeStore<K, V, H> {
    fn default() -> (res: Self)
        ensures
            res.wf(),
            res.nodes@.len() == 0,
    {
        NodeStore { nodes: Vec::new() }
    }
}

/// A store has a node under the identifiers that are listed, by all of their bytes, and under no
/// others.
pub proof fn law_store_has_what_is_listed<K: AsBytes, V, H: Hasher>(
    store: &NodeStore<K, V, H>,
    bytes: Seq<u8>,
)
    requires
        store.wf(),
    ensures
        store@.contains_key(bytes) <==> exists|j: int|
            0 <= j < store.nodes@.len() && (#[trigger] store.nodes@[j]).0.bytes@ == bytes,
        forall|j: int|
            0 <= j < store.nodes@.len() && (#[trigger] store.nodes@[j]).0.bytes@ == bytes
                ==> store@[bytes] == store.nodes@[j].1@,
{
    lemma_blocks_of(store.nodes@);
    if store@.contains_key(bytes) {
        let j = choose|j: int|
            0 <= j < store.nodes@.len() && (#[trigger] store.nodes@[j]).0@ == bytes;
        assert(store.nodes@[j].0.bytes@ == bytes);
    }
    assert forall|j: int|
        0 <= j < store.nodes@.len() && (#[trigger] store.nodes@[j]).0.bytes@ == bytes implies
        store@.contains_key(bytes) && store@[bytes] == store.nodes@[j].1@ by {
        assert(store@.contains_key(store.nodes@[j].0@));
    }
}

/// What the blocks of a list are: those that are listed.
proof fn lemma_blocks_of<K: AsBytes, V, H: Hasher>(nodes: Seq<(Cid, Rc<Node<K, V, H>>)>)
    requires
        distinct(nodes),
    ensures
        forall|j: int|
            0 <= j < nodes.len() ==> blocks_of(nodes).contains_key((#[trigger] nodes[j]).0@)
                && blocks_of(nodes)[nodes[j].0@] == nodes[j].1@,
        forall|c: Seq<u8>| #[trigger]
            blocks_of(nodes).contains_key(c) ==> exists|j: int|
                0 <= j < nodes.len() && (#[trigger] nodes[j]).0@ == c,
    decreases nodes.len(),
{
    if nodes.len() > 0 {
        let rest = nodes.drop_last();
        assert forall|i: int, j: int| 0 <= i < j < rest.len() implies (
        #[trigger] rest[i]).0@ != (#[trigger] rest[j]).0@ by {
            assert(nodes[i].0@ != nodes[j].0@);
        }
        lemma_blocks_of(rest);
        assert forall|j: int| 0 <= j < nodes.len() implies blocks_of(nodes).contains_key(
            (#[trigger] nodes[j]).0@,
        ) && blocks_of(nodes)[nodes[j].0@] == nodes[j].1@ by {
            if j < rest.len() {
                assert(rest[j] == nodes[j]);
                assert(nodes[j].0@ != nodes[nodes.len() - 1].0@);
            }
        }
        assert forall|c: Seq<u8>| #[trigger] blocks_of(nodes).contains_key(c) implies exists|
            j: int,
        |
            0 <= j < nodes.len() && (#[trigger] nodes[j]).0@ == c by {
            if c == nodes.last().0@ {
                assert(nodes[nodes.len() - 1].0@ == c);
            } else {
                assert(blocks_of(rest).contains_key(c));
                let j = choose|j: int| 0 <= j < rest.len() && (#[trigger] rest[j]).0@ == c;
                assert(nodes[j].0@ == c);
            }
        }
    }
}

} // verus!
