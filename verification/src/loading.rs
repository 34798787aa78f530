//! What holds of tries whose nodes may not be in canonical form or not be loaded.

use crate::bitmask::rank;
use crate::constant::{HAMT_BITMASK_BIT_SIZE, HAMT_VALUES_BUCKET_SIZE, MAX_CURSOR_DEPTH};
use crate::error::Failure;
use crate::hash::{lemma_nibble_bound, nibble, AsBytes, Hasher};
use crate::link::{Cid, Link};
use crate::node::Node;
use crate::pointer::{entries, entry, Pair, Pointer};
use crate::store::{blocks_of, NodeStore};
use crate::tree::{find, greater_index, insert, insert_all, lemma_greater_index, lemma_match_index};
use crate::tree::{match_index, remove, target, Blocks, Branch, Entry, Tree};
use crate::unique::expand;
use std::rc::Rc;
use vstd::prelude::*;

verus! {

/// Holds if every node that a walk from `t` can reach has the number of slots of a node.
pub open spec fn shaped<K, V>(t: Tree<K, V>, blocks: Blocks<K, V>, c: int) -> bool
    decreases MAX_CURSOR_DEPTH - c,
{
    &&& t.slots.len() == HAMT_BITMASK_BIT_SIZE
    &&& c < MAX_CURSOR_DEPTH ==> forall|i: int|
        0 <= i < HAMT_BITMASK_BIT_SIZE && #[trigger] t.slots[i] is Some && target(
            t.slots[i]->0,
            blocks,
        ) is Some ==> shaped(target(t.slots[i]->0, blocks)->0, blocks, c + 1)
}

/// The tries of nodes have the number of slots of a node everywhere.
pub proof fn lemma_nodes_are_shaped<K: AsBytes, V, H: Hasher>(
    node: &Node<K, V, H>,
    nodes: Seq<(Cid, Rc<Node<K, V, H>>)>,
    c: int,
)
    ensures
        shaped(node@, blocks_of(nodes), c),
    decreases MAX_CURSOR_DEPTH - c,
{
    let t = node@;
    let blocks = blocks_of(nodes);
    if c < MAX_CURSOR_DEPTH {
        assert forall|i: int|
            0 <= i < HAMT_BITMASK_BIT_SIZE && #[trigger] t.slots[i] is Some && target(
                t.slots[i]->0,
                blocks,
            ) is Some implies shaped(target(t.slots[i]->0, blocks)->0, blocks, c + 1) by {
            let r = rank(node.used(), i);
            match node.pointers@[r] {
                Pointer::Values(_) => {},
                Pointer::Link(Link::Decoded { value, .. }) => {
                    lemma_nodes_are_shaped(&*value, nodes, c + 1);
                },
                Pointer::Link(Link::Encoded { cid }) => {
                    let k = lemma_block_is_listed(nodes, cid@);
                    lemma_nodes_are_shaped(&*nodes[k].1, nodes, c + 1);
                },
            }
        }
    }
}

/// A block of a list is the node of one of the list's items.
proof fn lemma_block_is_listed<K: AsBytes, V, H: Hasher>(
    nodes: Seq<(Cid, Rc<Node<K, V, H>>)>,
    cid: Seq<u8>,
) -> (k: int)
    requires
        blocks_of(nodes).contains_key(cid),
    ensures
        0 <= k < nodes.len(),
        blocks_of(nodes)[cid] == nodes[k].1@,
    decreases nodes.len(),
{
    if nodes.last().0@ == cid {
        nodes.len() - 1
    } else {
        lemma_block_is_listed(nodes.drop_last(), cid)
    }
}

/// Changing a slot to hold a bucket or a node with the right number of slots.
proof fn lemma_shaped_with<K, V>(
    t: Tree<K, V>,
    blocks: Blocks<K, V>,
    c: int,
    i: int,
    branch: Branch<K, V>,
)
    requires
        c < MAX_CURSOR_DEPTH,
        shaped(t, blocks, c),
        0 <= i < HAMT_BITMASK_BIT_SIZE,
        target(branch, blocks) matches Some(child) ==> shaped(child, blocks, c + 1),
    ensures
        shaped(t.with(i, Some(branch)), blocks, c),
{
    let u = t.with(i, Some(branch));
    assert forall|k: int|
        0 <= k < HAMT_BITMASK_BIT_SIZE && #[trigger] u.slots[k] is Some && target(
            u.slots[k]->0,
            blocks,
        ) is Some implies shaped(target(u.slots[k]->0, blocks)->0, blocks, c + 1) by {
        if k != i {
            assert(u.slots[k] == t.slots[k]);
        }
    }
}

/// An entry that is set along its own digest is found there.
proof fn lemma_set_is_found<K, V>(
    t: Tree<K, V>,
    blocks: Blocks<K, V>,
    c: int,
    e: Entry<K, V>,
)
    requires
        shaped(t, blocks, c),
    ensures
        insert(t, blocks, e.digest, c, e) matches Ok(u) ==> shaped(u, blocks, c) && find(
            u,
            blocks,
            e.digest,
            c,
        ) == Ok::<_, Failure>(Some(e)),
    decreases MAX_CURSOR_DEPTH - c, 0nat,
{
    if insert(t, blocks, e.digest, c, e) is Ok {
        let h = e.digest;
        let i = nibble(h, c);
        lemma_nibble_bound(h, c);
        let u = insert(t, blocks, h, c, e)->Ok_0;
        match t.slots[i] {
            None => {
                let ws = seq![e];
                lemma_match_index(ws, h);
                assert(ws[0].digest == h);
                lemma_shaped_with(t, blocks, c, i, Branch::Values(ws));
            },
            Some(Branch::Values(vs)) => {
                lemma_match_index(vs, h);
                let j = match_index(vs, h);
                if j < vs.len() {
                    let ws = vs.update(j, e);
                    lemma_match_index(ws, h);
                    assert(ws[j].digest == h);
                    assert(match_index(ws, h) == j) by {
                        if match_index(ws, h) < j {
                            assert(ws[match_index(ws, h)] == vs[match_index(ws, h)]);
                        }
                    }
                    lemma_shaped_with(t, blocks, c, i, Branch::Values(ws));
                } else if vs.len() < HAMT_VALUES_BUCKET_SIZE {
                    let g = greater_index(vs, h);
                    lemma_greater_index(vs, h);
                    let ws = vs.insert(g, e);
                    lemma_match_index(ws, h);
                    assert(ws[g].digest == h);
                    assert(match_index(ws, h) == g) by {
                        if match_index(ws, h) < g {
                            assert(ws[match_index(ws, h)] == vs[match_index(ws, h)]);
                        }
                    }
                    lemma_shaped_with(t, blocks, c, i, Branch::Values(ws));
                } else {
                    lemma_all_set_are_shaped(blocks, c + 1, vs.push(e));
                    let child = insert_all(Tree::empty(), blocks, vs.push(e), c + 1)->Ok_0;
                    lemma_shaped_with(t, blocks, c, i, Branch::Subtree(child, None));
                }
            },
            Some(branch) => {
                let child = target(branch, blocks)->0;
                lemma_set_is_found(child, blocks, c + 1, e);
                let grown = insert(child, blocks, h, c + 1, e)->Ok_0;
                lemma_shaped_with(t, blocks, c, i, Branch::Subtree(grown, None));
            },
        }
    }
}

/// Entries set in turn keep the number of slots, and the last one of them is found.
pub proof fn lemma_all_set_are_shaped<K, V>(blocks: Blocks<K, V>, c: int, es: Seq<Entry<K, V>>)
    ensures
        insert_all(Tree::empty(), blocks, es, c) matches Ok(u) ==> shaped(u, blocks, c) && (
        es.len() > 0 ==> find(u, blocks, es.last().digest, c) == Ok::<_, Failure>(
            Some(es.last()),
        )),
    decreases MAX_CURSOR_DEPTH - c, es.len() + 1,
{
    if es.len() > 0 {
        lemma_all_set_are_shaped(blocks, c, es.drop_last());
        if insert_all(Tree::empty(), blocks, es.drop_last(), c) is Ok {
            let t = insert_all(Tree::empty(), blocks, es.drop_last(), c)->Ok_0;
            lemma_set_is_found(t, blocks, c, es.last());
        }
    }
}

/// What has been set at a key is what is got at that key, in any node, canonical or not.
pub proof fn law_set_then_get<K: AsBytes, V, H: Hasher>(
    node: &Node<K, V, H>,
    store: &NodeStore<K, V, H>,
    pair: &Pair<K, V>,
)
    ensures
        ({
            let e = entry::<K, V, H>(pair);
            insert(node@, store@, e.digest, 0, e) matches Ok(u) ==> find(
                u,
                store@,
                e.digest,
                0,
            ) == Ok::<_, Failure>(Some(e))
        }),
{
    lemma_nodes_are_shaped(node, store.nodes@, 0);
    lemma_set_is_found(node@, store@, 0, entry::<K, V, H>(pair));
}

/// A walk fails for want of a block only if that block is not loaded.
pub proof fn law_missing_block_is_not_loaded<K, V>(
    t: Tree<K, V>,
    blocks: Blocks<K, V>,
    path: Seq<u8>,
    c: int,
)
    ensures
        find(t, blocks, path, c) matches Err(Failure::BlockNotFound { cid })
            ==> !blocks.contains_key(cid),
    decreases MAX_CURSOR_DEPTH - c,
{
    if c < MAX_CURSOR_DEPTH {
        if let Some(branch) = t.slots[nibble(path, c)] {
            if target(branch, blocks) is Some {
                law_missing_block_is_not_loaded(target(branch, blocks)->0, blocks, path, c + 1);
            }
        }
    }
}

/// A setting fails for want of a block only if that block is not loaded.
pub proof fn law_missing_block_of_setting_is_not_loaded<K, V>(
    t: Tree<K, V>,
    blocks: Blocks<K, V>,
    path: Seq<u8>,
    c: int,
    e: Entry<K, V>,
)
    ensures
        insert(t, blocks, path, c, e) matches Err(Failure::BlockNotFound { cid })
            ==> !blocks.contains_key(cid),
    decreases MAX_CURSOR_DEPTH - c, 0nat,
{
    if c < MAX_CURSOR_DEPTH {
        match t.slots[nibble(path, c)] {
            None => {},
            Some(Branch::Values(vs)) => {
                if match_index(vs, path) >= vs.len() && vs.len() >= HAMT_VALUES_BUCKET_SIZE {
                    lemma_missing_block_of_settings(Tree::empty(), blocks, vs.push(e), c + 1);
                }
            },
            Some(branch) => {
                if target(branch, blocks) is Some {
                    law_missing_block_of_setting_is_not_loaded(
                        target(branch, blocks)->0,
                        blocks,
                        path,
                        c + 1,
                        e,
                    );
                }
            },
        }
    }
}

/// Settings in turn fail for want of a block only if that block is not loaded.
proof fn lemma_missing_block_of_settings<K, V>(
    t: Tree<K, V>,
    blocks: Blocks<K, V>,
    es: Seq<Entry<K, V>>,
    c: int,
)
    ensures
        insert_all(t, blocks, es, c) matches Err(Failure::BlockNotFound { cid })
            ==> !blocks.contains_key(cid),
    decreases MAX_CURSOR_DEPTH - c, es.len() + 1,
{
    if es.len() > 0 {
        lemma_missing_block_of_settings(t, blocks, es.drop_last(), c);
        if insert_all(t, blocks, es.drop_last(), c) is Ok {
            law_missing_block_of_setting_is_not_loaded(
                insert_all(t, blocks, es.drop_last(), c)->Ok_0,
                blocks,
                es.last().digest,
                c,
                es.last(),
            );
        }
    }
}

/// The operations walk alike: a removal fails where a lookup fails and in the same way, and so
/// does a setting where a lookup fails.
pub proof fn law_failures_agree<K, V>(
    t: Tree<K, V>,
    blocks: Blocks<K, V>,
    path: Seq<u8>,
    c: int,
    e: Entry<K, V>,
)
    ensures
        find(t, blocks, path, c) is Err <==> remove(t, blocks, path, c) is Err,
        find(t, blocks, path, c) matches Err(failure) ==> remove(t, blocks, path, c) == Err::<
            (Tree<K, V>, Option<Entry<K, V>>),
            Failure,
        >(failure) && insert(t, blocks, path, c, e) == Err::<Tree<K, V>, Failure>(failure),
    decreases MAX_CURSOR_DEPTH - c,
{
    if c < MAX_CURSOR_DEPTH {
        if let Some(branch) = t.slots[nibble(path, c)] {
            if target(branch, blocks) is Some {
                law_failures_agree(target(branch, blocks)->0, blocks, path, c + 1, e);
            }
        }
    }
}

/// Holds if a result is a failure for want of a block.
pub open spec fn wants_block<T>(res: Result<T, Failure>) -> bool {
    res is Err && res->Err_0 is BlockNotFound
}

/// Loading more blocks does not change what a lookup gives, unless it wanted a block.
pub proof fn law_loading_keeps_lookups<K, V>(
    t: Tree<K, V>,
    blocks: Blocks<K, V>,
    more: Blocks<K, V>,
    path: Seq<u8>,
    c: int,
)
    requires
        blocks.submap_of(more),
        !wants_block(find(t, blocks, path, c)),
    ensures
        find(t, more, path, c) == find(t, blocks, path, c),
    decreases MAX_CURSOR_DEPTH - c,
{
    if c < MAX_CURSOR_DEPTH {
        if let Some(branch) = t.slots[nibble(path, c)] {
            if target(branch, blocks) is Some {
                assert(target(branch, more) == target(branch, blocks));
                law_loading_keeps_lookups(
                    target(branch, blocks)->0,
                    blocks,
                    more,
                    path,
                    c + 1,
                );
            }
        }
    }
}

/// Loading more blocks does not change what a removal gives, unless it wanted a block.
pub proof fn law_loading_keeps_removals<K, V>(
    t: Tree<K, V>,
    blocks: Blocks<K, V>,
    more: Blocks<K, V>,
    path: Seq<u8>,
    c: int,
)
    requires
        blocks.submap_of(more),
        !wants_block(remove(t, blocks, path, c)),
    ensures
        remove(t, more, path, c) == remove(t, blocks, path, c),
    decreases MAX_CURSOR_DEPTH - c,
{
    if c < MAX_CURSOR_DEPTH {
        if let Some(branch) = t.slots[nibble(path, c)] {
            if target(branch, blocks) is Some {
                assert(target(branch, more) == target(branch, blocks));
                law_loading_keeps_removals(
                    target(branch, blocks)->0,
                    blocks,
                    more,
                    path,
                    c + 1,
                );
            }
        }
    }
}

/// Loading more blocks does not change what a setting gives, unless it wanted a block.
pub proof fn law_loading_keeps_settings<K, V>(
    t: Tree<K, V>,
    blocks: Blocks<K, V>,
    more: Blocks<K, V>,
    path: Seq<u8>,
    c: int,
    e: Entry<K, V>,
)
    requires
        blocks.submap_of(more),
        !wants_block(insert(t, blocks, path, c, e)),
    ensures
        insert(t, more, path, c, e) == insert(t, blocks, path, c, e),
    decreases MAX_CURSOR_DEPTH - c, 0nat,
{
    if c < MAX_CURSOR_DEPTH {
        match t.slots[nibble(path, c)] {
            None => {},
            Some(Branch::Values(vs)) => {
                if match_index(vs, path) >= vs.len() && vs.len()
                    >= HAMT_VALUES_BUCKET_SIZE {
                    lemma_loading_keeps_all(Tree::empty(), blocks, more, vs.push(e), c + 1);
                }
            },
            Some(branch) => {
                if target(branch, blocks) is Some {
                    assert(target(branch, more) == target(branch, blocks));
                    law_loading_keeps_settings(
                        target(branch, blocks)->0,
                        blocks,
                        more,
                        path,
                        c + 1,
                        e,
                    );
                }
            },
        }
    }
}

/// Loading more blocks does not change what settings in turn give, unless one wanted a block.
proof fn lemma_loading_keeps_all<K, V>(
    t: Tree<K, V>,
    blocks: Blocks<K, V>,
    more: Blocks<K, V>,
    es: Seq<Entry<K, V>>,
    c: int,
)
    requires
        blocks.submap_of(more),
        !wants_block(insert_all(t, blocks, es, c)),
    ensures
        insert_all(t, more, es, c) == insert_all(t, blocks, es, c),
    decreases MAX_CURSOR_DEPTH - c, es.len() + 1,
{
    if es.len() > 0 {
        lemma_loading_keeps_all(t, blocks, more, es.drop_last(), c);
        if insert_all(t, blocks, es.drop_last(), c) is Ok {
            law_loading_keeps_settings(
                insert_all(t, blocks, es.drop_last(), c)->Ok_0,
                blocks,
                more,
                es.last().digest,
                c,
                es.last(),
            );
        }
    }
}

/// What a lookup finds in a node, and what a removal takes out, is a pair whose key has the
/// digest that was searched.
pub proof fn law_found_key_has_digest<K: AsBytes, V, H: Hasher>(
    node: &Node<K, V, H>,
    store: &NodeStore<K, V, H>,
    h: Seq<u8>,
    c: int,
)
    ensures
        find(node@, store@, h, c) matches Ok(Some(e)) ==> H::digest(e.pair.key.bytes()) == h,
        remove(node@, store@, h, c) matches Ok((_, Some(e))) ==> H::digest(e.pair.key.bytes())
            == h,
{
    lemma_found_key_has_digest(node, store.nodes@, h, c);
}

/// What is found in a node or removed from it has a key with the digest that was searched.
proof fn lemma_found_key_has_digest<K: AsBytes, V, H: Hasher>(
    node: &Node<K, V, H>,
    nodes: Seq<(Cid, Rc<Node<K, V, H>>)>,
    h: Seq<u8>,
    c: int,
)
    ensures
        find(node@, blocks_of(nodes), h, c) matches Ok(Some(e)) ==> H::digest(e.pair.key.bytes())
            == h,
        remove(node@, blocks_of(nodes), h, c) matches Ok((_, Some(e))) ==> H::digest(
            e.pair.key.bytes(),
        ) == h,
    decreases MAX_CURSOR_DEPTH - c,
{
    if c < MAX_CURSOR_DEPTH {
        lemma_nibble_bound(h, c);
        let i = nibble(h, c);
        let r = rank(node.used(), i);
        if node@.slots[i] is Some {
            match node.pointers@[r] {
                Pointer::Values(values) => {
                    let vs = entries::<K, V, H>(values@);
                    lemma_match_index(vs, h);
                },
                Pointer::Link(Link::Decoded { value, .. }) => {
                    lemma_found_key_has_digest(&*value, nodes, h, c + 1);
                },
                Pointer::Link(Link::Encoded { cid }) => {
                    if blocks_of(nodes).contains_key(cid@) {
                        let k = lemma_block_is_listed(nodes, cid@);
                        lemma_found_key_has_digest(&*nodes[k].1, nodes, h, c + 1);
                    }
                },
            }
        }
    }
}

/// Holds if a trie is held in memory as a whole: each of its nodes has the slots of a node, none
/// is to be loaded, and no identifiers are noted.
pub open spec fn in_memory<K, V>(t: Tree<K, V>) -> bool
    decreases t,
{
    &&& t.slots.len() == HAMT_BITMASK_BIT_SIZE
    &&& forall|i: int|
        0 <= i < t.slots.len() ==> match #[trigger] t.slots[i] {
            Some(Branch::Subtree(child, noted)) => noted is None && in_memory(child),
            Some(Branch::Block(_)) => false,
            _ => true,
        }
}

/// Expanding the blocks of a trie that is held in memory changes nothing.
pub proof fn law_in_memory_is_expanded<K, V>(t: Tree<K, V>, blocks: Blocks<K, V>, d: int)
    requires
        in_memory(t),
    ensures
        expand(t, blocks, d) == t,
    decreases MAX_CURSOR_DEPTH - d,
{
    let u = expand(t, blocks, d);
    assert forall|i: int| 0 <= i < t.slots.len() implies u.slots[i] == t.slots[i] by {
        if let Some(Branch::Subtree(child, _)) = t.slots[i] {
            if d < MAX_CURSOR_DEPTH {
                law_in_memory_is_expanded(child, blocks, d + 1);
            }
        }
    }
    assert(u.slots =~= t.slots);
}

/// Changing a slot to hold what is held in memory.
proof fn lemma_in_memory_with<K, V>(t: Tree<K, V>, i: int, slot: Option<Branch<K, V>>)
    requires
        in_memory(t),
        0 <= i < HAMT_BITMASK_BIT_SIZE,
        match slot {
            Some(Branch::Subtree(child, noted)) => noted is None && in_memory(child),
            Some(Branch::Block(_)) => false,
            _ => true,
        },
    ensures
        in_memory(t.with(i, slot)),
{
    let u = t.with(i, slot);
    assert forall|k: int| 0 <= k < u.slots.len() implies match #[trigger] u.slots[k] {
        Some(Branch::Subtree(child, noted)) => noted is None && in_memory(child),
        Some(Branch::Block(_)) => false,
        _ => true,
    } by {
        if k != i {
            assert(u.slots[k] == t.slots[k]);
        }
    }
}

/// Setting an entry in a trie that is held in memory leaves it in memory.
pub proof fn law_set_stays_in_memory<K, V>(
    t: Tree<K, V>,
    blocks: Blocks<K, V>,
    path: Seq<u8>,
    c: int,
    e: Entry<K, V>,
)
    requires
        in_memory(t),
    ensures
        insert(t, blocks, path, c, e) matches Ok(u) ==> in_memory(u),
    decreases MAX_CURSOR_DEPTH - c, 0nat,
{
    if insert(t, blocks, path, c, e) is Ok {
        lemma_nibble_bound(path, c);
        let i = nibble(path, c);
        match t.slots[i] {
            Some(Branch::Values(vs)) if match_index(vs, path) >= vs.len() && vs.len()
                >= HAMT_VALUES_BUCKET_SIZE => {
                lemma_all_set_stay_in_memory(blocks, vs.push(e), c + 1);
            },
            Some(Branch::Subtree(child, _)) => {
                law_set_stays_in_memory(child, blocks, path, c + 1, e);
            },
            _ => {},
        }
        let u = insert(t, blocks, path, c, e)->Ok_0;
        lemma_in_memory_with(t, i, u.slots[i]);
    }
}

/// Setting entries in turn, from nothing, makes a trie that is held in memory.
proof fn lemma_all_set_stay_in_memory<K, V>(blocks: Blocks<K, V>, es: Seq<Entry<K, V>>, c: int)
    ensures
        insert_all(Tree::empty(), blocks, es, c) matches Ok(u) ==> in_memory(u),
    decreases MAX_CURSOR_DEPTH - c, es.len() + 1,
{
    if es.len() > 0 {
        lemma_all_set_stay_in_memory(blocks, es.drop_last(), c);
        if let Ok(t) = insert_all(Tree::empty(), blocks, es.drop_last(), c) {
            law_set_stays_in_memory(t, blocks, es.last().digest, c, es.last());
        }
    }
}

/// Removing a digest from a trie that is held in memory leaves it in memory.
pub proof fn law_remove_stays_in_memory<K, V>(
    t: Tree<K, V>,
    blocks: Blocks<K, V>,
    path: Seq<u8>,
    c: int,
)
    requires
        in_memory(t),
    ensures
        remove(t, blocks, path, c) matches Ok((u, _)) ==> in_memory(u),
    decreases MAX_CURSOR_DEPTH - c,
{
    if remove(t, blocks, path, c) is Ok {
        lemma_nibble_bound(path, c);
        let i = nibble(path, c);
        if let Some(Branch::Subtree(child, _)) = t.slots[i] {
            law_remove_stays_in_memory(child, blocks, path, c + 1);
        }
        let u = remove(t, blocks, path, c)->Ok_0.0;
        if u != t {
            lemma_in_memory_with(t, i, u.slots[i]);
        }
    }
}

} // verus!
