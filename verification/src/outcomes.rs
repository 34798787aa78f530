//! What callers can rely on, stated of the results that calls return.

use crate::constant::{HASH_BYTE_SIZE, MAX_CURSOR_DEPTH};
use crate::error::HamtError;
use crate::hash::{nibble, AsBytes, Hasher};
use crate::laws::{canonical_root, law_lookup_is_sound, law_remove, law_set};
use crate::loading::{law_found_key_has_digest, law_set_then_get};
use crate::node::{gives_node, gives_pair, gives_removed_pair, gives_removed_value, gives_value};
use crate::node::Node;
use crate::pointer::{entry, Pair};
use crate::store::NodeStore;
use crate::tree::{find, insert, remove, Blocks, Branch, Entry, Tree};
use crate::walk::{is_walk, law_lookup_loads_what_is_needed, law_wanted_block_is_on_the_walk};
use std::rc::Rc;
use vstd::prelude::*;

verus! {

/// Getting a key after setting it gives the value that was set, in any node.
pub proof fn law_get_gives_what_was_set<K: AsBytes, V, H: Hasher>(
    node: &Node<K, V, H>,
    store: &NodeStore<K, V, H>,
    pair: &Pair<K, V>,
    after: Rc<Node<K, V, H>>,
    got: Result<Option<&V>, HamtError>,
)
    requires
        gives_node(
            Ok(after),
            insert(
                node@,
                store@,
                H::digest(pair.key.bytes()),
                0,
                entry::<K, V, H>(pair),
            ),
        ),
        gives_value(got, find(after@, store@, H::digest(pair.key.bytes()), 0)),
    ensures
        after.wf(),
        got matches Ok(Some(value)) && *value == pair.value,
{
    law_set_then_get(node, store, pair);
}

/// Getting a key gives the same before and after another key is set, if their digests differ.
pub proof fn law_set_leaves_other_keys<K: AsBytes, V, H: Hasher>(
    node: &Node<K, V, H>,
    store: &NodeStore<K, V, H>,
    pair: &Pair<K, V>,
    key: &K,
    after: Rc<Node<K, V, H>>,
    got: Result<Option<&V>, HamtError>,
    then: Result<Option<&V>, HamtError>,
)
    requires
        canonical_root(node@, store@),
        H::digest(key.bytes()).len() == HASH_BYTE_SIZE,
        H::digest(pair.key.bytes()).len() == HASH_BYTE_SIZE,
        H::digest(key.bytes()) != H::digest(pair.key.bytes()),
        gives_node(
            Ok(after),
            insert(
                node@,
                store@,
                H::digest(pair.key.bytes()),
                0,
                entry::<K, V, H>(pair),
            ),
        ),
        gives_value(got, find(node@, store@, H::digest(key.bytes()), 0)),
        gives_value(then, find(after@, store@, H::digest(key.bytes()), 0)),
    ensures
        match (got, then) {
            (Ok(None), Ok(None)) => true,
            (Ok(Some(a)), Ok(Some(b))) => *a == *b,
            _ => false,
        },
{
    law_set(node@, store@, entry::<K, V, H>(pair));
    law_lookup_is_sound(node@, store@, H::digest(key.bytes()));
}

/// Removing a key returns clones of the pair that was there, or nothing if there was none.
/// Afterwards getting that key gives nothing, and getting a key with another digest gives what
/// it gave before.
pub proof fn law_remove_takes_out_one_key<K: AsBytes + Clone, V: Clone, H: Hasher>(
    node: &Node<K, V, H>,
    store: &NodeStore<K, V, H>,
    key: &K,
    other: &K,
    after: Rc<Node<K, V, H>>,
    removed: Option<Pair<K, V>>,
    found: Result<Option<&Pair<K, V>>, HamtError>,
    gone: Result<Option<&V>, HamtError>,
    got: Result<Option<&V>, HamtError>,
    then: Result<Option<&V>, HamtError>,
)
    requires
        canonical_root(node@, store@),
        H::digest(key.bytes()).len() == HASH_BYTE_SIZE,
        H::digest(other.bytes()).len() == HASH_BYTE_SIZE,
        H::digest(key.bytes()) != H::digest(other.bytes()),
        gives_removed_pair(
            Ok((after, removed)),
            remove(node@, store@, H::digest(key.bytes()), 0),
        ),
        gives_pair(found, find(node@, store@, H::digest(key.bytes()), 0)),
        gives_value(gone, find(after@, store@, H::digest(key.bytes()), 0)),
        gives_value(got, find(node@, store@, H::digest(other.bytes()), 0)),
        gives_value(then, find(after@, store@, H::digest(other.bytes()), 0)),
    ensures
        after.wf(),
        match (found, removed) {
            (Ok(None), None) => true,
            (Ok(Some(a)), Some(b)) => cloned(a.key, b.key) && cloned(a.value, b.value),
            _ => false,
        },
        gone matches Ok(None),
        match (got, then) {
            (Ok(None), Ok(None)) => true,
            (Ok(Some(a)), Ok(Some(b))) => *a == *b,
            _ => false,
        },
{
    law_remove(node@, store@, H::digest(key.bytes()));
    law_lookup_is_sound(node@, store@, H::digest(other.bytes()));
}

/// Removing by hash returns a clone of the value that getting by the same hash gives, of a key
/// that has this hash, in any node.
pub proof fn law_remove_by_hash_takes_out_what_is_got<K: AsBytes, V: Clone, H: Hasher>(
    node: &Node<K, V, H>,
    store: &NodeStore<K, V, H>,
    hash: Seq<u8>,
    after: Rc<Node<K, V, H>>,
    removed: Option<V>,
    got: Result<Option<&V>, HamtError>,
    found: Result<Option<&Pair<K, V>>, HamtError>,
    e: Entry<K, V>,
)
    requires
        gives_removed_value(Ok((after, removed)), remove(node@, store@, hash, 0)),
        gives_value(got, find(node@, store@, hash, 0)),
        gives_pair(found, find(node@, store@, hash, 0)),
    ensures
        after.wf(),
        match (found, got, removed) {
            (Ok(None), Ok(None), None) => true,
            (Ok(Some(pair)), Ok(Some(a)), Some(b)) => {
                &&& H::digest(pair.key.bytes()) == hash
                &&& *a == pair.value
                &&& cloned(*a, b)
            },
            _ => false,
        },
{
    law_lookup_loads_what_is_needed(node@, store@, hash, 0, e);
    law_found_key_has_digest(node, store, hash, 0);
}

/// A lookup that fails for want of a block fails with the identifier that stands where the walk
/// has come to: all of its bytes are those in the slot of the last node that the walk comes
/// through, and the store does not have that block.
pub proof fn law_failed_get_wants_the_next_block<K: AsBytes, V, H: Hasher>(
    node: &Node<K, V, H>,
    store: &NodeStore<K, V, H>,
    hash: Seq<u8>,
    got: Result<Option<&V>, HamtError>,
) -> (nodes: Seq<Tree<K, V>>)
    requires
        gives_value(got, find(node@, store@, hash, 0)),
        got matches Err(HamtError::BlockNotFound { .. }),
    ensures
        is_walk(nodes, node@, store@, hash, 0),
        got matches Err(HamtError::BlockNotFound { cid }) && {
            &&& nodes.last().slots[nibble(hash, nodes.len() - 1)] == Some(
                Branch::<K, V>::Block(cid.bytes@),
            )
            &&& !store@.contains_key(cid.bytes@)
        },
{
    let cid = got->Err_0->cid;
    law_wanted_block_is_on_the_walk(node@, store@, hash, 0, cid@)
}

/// Setting and removing a key fail for want of a block exactly if getting it does, and want the
/// same block. Where getting it succeeds, so does removing it, and setting it fails at most
/// because a full bucket cannot be divided before the digests end.
pub proof fn law_operations_want_the_same_blocks<K: AsBytes + Clone, V: Clone, H: Hasher>(
    node: &Node<K, V, H>,
    store: &NodeStore<K, V, H>,
    pair: &Pair<K, V>,
    got: Result<Option<&V>, HamtError>,
    set: Result<Rc<Node<K, V, H>>, HamtError>,
    removed: Result<(Rc<Node<K, V, H>>, Option<Pair<K, V>>), HamtError>,
)
    requires
        gives_value(got, find(node@, store@, H::digest(pair.key.bytes()), 0)),
        gives_node(
            set,
            insert(
                node@,
                store@,
                H::digest(pair.key.bytes()),
                0,
                entry::<K, V, H>(pair),
            ),
        ),
        gives_removed_pair(removed, remove(node@, store@, H::digest(pair.key.bytes()), 0)),
    ensures
        match got {
            Ok(value) => {
                &&& removed matches Ok((_, taken)) && (taken is Some <==> value is Some)
                &&& match set {
                    Ok(_) => true,
                    Err(HamtError::CursorOutOfBounds) => value is None,
                    Err(_) => false,
                }
            },
            Err(HamtError::BlockNotFound { cid }) => {
                &&& set matches Err(HamtError::BlockNotFound { cid: other }) && other.bytes@
                    == cid.bytes@
                &&& removed matches Err(HamtError::BlockNotFound { cid: other }) && other.bytes@
                    == cid.bytes@
            },
            Err(HamtError::CursorOutOfBounds) => {
                &&& set matches Err(HamtError::CursorOutOfBounds)
                &&& removed matches Err(HamtError::CursorOutOfBounds)
            },
            Err(HamtError::ValuesPointerExpected) => false,
        },
{
    let h = H::digest(pair.key.bytes());
    law_lookup_loads_what_is_needed(node@, store@, h, 0, entry::<K, V, H>(pair));
    lemma_lookup_failures(node@, store@, h, 0);
}

/// A lookup fails for want of a block or at the end of the digest.
proof fn lemma_lookup_failures<K, V>(
    t: Tree<K, V>,
    blocks: Blocks<K, V>,
    path: Seq<u8>,
    c: int,
)
    ensures
        find(t, blocks, path, c) matches Err(failure) ==> !(failure is ValuesPointerExpected),
    decreases MAX_CURSOR_DEPTH - c,
{
    if c < MAX_CURSOR_DEPTH {
        match t.slots[nibble(path, c)] {
            Some(Branch::Block(cid)) => {
                lemma_lookup_failures(blocks[cid], blocks, path, c + 1);
            },
            Some(Branch::Subtree(child, _)) => {
                lemma_lookup_failures(child, blocks, path, c + 1);
            },
            _ => {},
        }
    }
}

} // verus!
