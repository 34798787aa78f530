//! The walk along a digest, step by step: where it goes on, where it ends, and what each
//! operation does there. Nothing here asks for a canonical trie.

use crate::canonical::{canonical, canonical_slot};
use crate::constant::{HAMT_BITMASK_BIT_SIZE, HAMT_VALUES_BUCKET_SIZE, MAX_CURSOR_DEPTH};
use crate::error::Failure;
use crate::hash::{digest_less, lemma_digest_less_asymmetric, lemma_nibble_bound, nibble};
use crate::hash::lemma_digest_less_transitive;
use crate::loading::{in_memory, law_missing_block_is_not_loaded, law_set_stays_in_memory};
use crate::tree::{bucket_entries, collapse, find, greater_index, insert, insert_all, remove};
use crate::tree::{lemma_greater_index, lemma_match_index, match_index, sort_entries};
use crate::tree::{walk_end, Blocks, Branch, Entry, Tree};
use vstd::prelude::*;

verus! {

/// Holds if what a slot holds leads to the node `next`: it is that node, or the identifier of a
/// block that is loaded and holds it.
pub open spec fn leads<K, V>(
    slot: Option<Branch<K, V>>,
    blocks: Blocks<K, V>,
    next: Tree<K, V>,
) -> bool {
    match slot {
        Some(Branch::Subtree(child, _)) => child == next,
        Some(Branch::Block(cid)) => blocks.contains_key(cid) && blocks[cid] == next,
        _ => false,
    }
}

/// Holds if `nodes` are those that a walk along `path` from `t` comes through one after the
/// other, the first nibble being the one at `c`.
pub open spec fn is_walk<K, V>(
    nodes: Seq<Tree<K, V>>,
    t: Tree<K, V>,
    blocks: Blocks<K, V>,
    path: Seq<u8>,
    c: int,
) -> bool {
    &&& nodes.len() > 0
    &&& nodes[0] == t
    &&& c + nodes.len() <= MAX_CURSOR_DEPTH
    &&& forall|k: int|
        0 <= k < nodes.len() - 1 ==> leads(
            (#[trigger] nodes[k]).slots[nibble(path, c + k)],
            blocks,
            nodes[k + 1],
        )
}

/// Below a node, an operation is the same operation on the node that the walk comes to next.
/// What it makes of that node stands in the slot afterwards, with no identifier noted, and every
/// other slot stays as it is. After a removal the slot holds what is left of the node.
pub proof fn law_walk_goes_on<K, V>(
    t: Tree<K, V>,
    next: Tree<K, V>,
    blocks: Blocks<K, V>,
    path: Seq<u8>,
    c: int,
    e: Entry<K, V>,
)
    requires
        c < MAX_CURSOR_DEPTH,
        leads(t.slots[nibble(path, c)], blocks, next),
    ensures
        find(t, blocks, path, c) == find(next, blocks, path, c + 1),
        walk_end(t, blocks, path, c) == walk_end(next, blocks, path, c + 1),
        match (insert(t, blocks, path, c, e), insert(next, blocks, path, c + 1, e)) {
            (Ok(u), Ok(child)) => u.slots == t.slots.update(
                nibble(path, c),
                Some(Branch::Subtree(child, None)),
            ),
            (Err(f), Err(g)) => f == g,
            _ => false,
        },
        match (remove(t, blocks, path, c), remove(next, blocks, path, c + 1)) {
            (Ok((u, None)), Ok((child, None))) => u.slots == t.slots.update(
                nibble(path, c),
                Some(Branch::Subtree(child, None)),
            ),
            (Ok((u, Some(a))), Ok((child, Some(b)))) => a == b && u.slots == t.slots.update(
                nibble(path, c),
                collapse(child),
            ),
            (Err(f), Err(g)) => f == g,
            _ => false,
        },
{
}

/// Where the walk ends at a slot that is not in use, nothing is found or removed, and an entry
/// that is set is a bucket of its own. No other slot changes.
pub proof fn law_walk_ends_at_nothing<K, V>(
    t: Tree<K, V>,
    blocks: Blocks<K, V>,
    path: Seq<u8>,
    c: int,
    e: Entry<K, V>,
)
    requires
        c < MAX_CURSOR_DEPTH,
        t.slots[nibble(path, c)] is None,
    ensures
        find(t, blocks, path, c) == Ok::<Option<Entry<K, V>>, Failure>(None),
        walk_end(t, blocks, path, c) == c + 1,
        insert(t, blocks, path, c, e) matches Ok(u) && u.slots == t.slots.update(
            nibble(path, c),
            Some(Branch::Values(seq![e])),
        ),
        remove(t, blocks, path, c) == Ok::<_, Failure>((t, None::<Entry<K, V>>)),
{
}

/// Where the walk comes to a block that is not loaded, every operation fails with the
/// identifier of that block.
pub proof fn law_walk_ends_at_block<K, V>(
    t: Tree<K, V>,
    blocks: Blocks<K, V>,
    path: Seq<u8>,
    c: int,
    e: Entry<K, V>,
    cid: Seq<u8>,
)
    requires
        c < MAX_CURSOR_DEPTH,
        t.slots[nibble(path, c)] == Some(Branch::<K, V>::Block(cid)),
        !blocks.contains_key(cid),
    ensures
        find(t, blocks, path, c) == Err::<Option<Entry<K, V>>, _>(Failure::BlockNotFound { cid }),
        walk_end(t, blocks, path, c) == c + 1,
        insert(t, blocks, path, c, e) == Err::<Tree<K, V>, _>(Failure::BlockNotFound { cid }),
        remove(t, blocks, path, c) == Err::<(Tree<K, V>, Option<Entry<K, V>>), _>(
            Failure::BlockNotFound { cid },
        ),
{
}

/// Where all nibbles have been taken, every operation fails.
pub proof fn law_walk_ends_with_digest<K, V>(
    t: Tree<K, V>,
    blocks: Blocks<K, V>,
    path: Seq<u8>,
    c: int,
    e: Entry<K, V>,
)
    requires
        c >= MAX_CURSOR_DEPTH,
    ensures
        find(t, blocks, path, c) == Err::<Option<Entry<K, V>>, _>(Failure::CursorOutOfBounds),
        walk_end(t, blocks, path, c) == c,
        insert(t, blocks, path, c, e) == Err::<Tree<K, V>, _>(Failure::CursorOutOfBounds),
        remove(t, blocks, path, c) == Err::<(Tree<K, V>, Option<Entry<K, V>>), _>(
            Failure::CursorOutOfBounds,
        ),
{
}

/// Where the walk ends at a bucket that has the digest, at `j` for the first time, the entry
/// there is found, replaced or removed. The others stay in their order, a bucket whose only
/// entry is removed goes, and no other slot changes.
pub proof fn law_walk_ends_at_entry<K, V>(
    t: Tree<K, V>,
    vs: Seq<Entry<K, V>>,
    j: int,
    blocks: Blocks<K, V>,
    path: Seq<u8>,
    c: int,
    e: Entry<K, V>,
)
    requires
        c < MAX_CURSOR_DEPTH,
        t.slots[nibble(path, c)] == Some(Branch::Values(vs)),
        0 <= j < vs.len(),
        vs[j].digest == path,
        forall|k: int| 0 <= k < j ==> (#[trigger] vs[k]).digest != path,
    ensures
        find(t, blocks, path, c) == Ok::<_, Failure>(Some(vs[j])),
        walk_end(t, blocks, path, c) == c + 1,
        insert(t, blocks, path, c, e) matches Ok(u) && u.slots == t.slots.update(
            nibble(path, c),
            Some(Branch::Values(vs.update(j, e))),
        ),
        remove(t, blocks, path, c) matches Ok((u, removed)) && removed == Some(vs[j]) && u.slots
            == t.slots.update(
            nibble(path, c),
            if vs.len() == 1 {
                None
            } else {
                Some(Branch::Values(vs.remove(j)))
            },
        ),
{
    lemma_match_index(vs, path);
}

/// Where the walk ends at a bucket without the digest, nothing is found or removed. An entry
/// that is set goes before the first entry with a greater digest if there is room, and otherwise
/// the bucket gives way to a node that takes its entries and the new one, in turn and along
/// their own digests. No other slot changes.
pub proof fn law_walk_ends_at_other_entries<K, V>(
    t: Tree<K, V>,
    vs: Seq<Entry<K, V>>,
    blocks: Blocks<K, V>,
    path: Seq<u8>,
    c: int,
    e: Entry<K, V>,
)
    requires
        c < MAX_CURSOR_DEPTH,
        t.slots[nibble(path, c)] == Some(Branch::Values(vs)),
        forall|k: int| 0 <= k < vs.len() ==> (#[trigger] vs[k]).digest != path,
    ensures
        find(t, blocks, path, c) == Ok::<Option<Entry<K, V>>, Failure>(None),
        walk_end(t, blocks, path, c) == c + 1,
        remove(t, blocks, path, c) == Ok::<_, Failure>((t, None::<Entry<K, V>>)),
        vs.len() < HAMT_VALUES_BUCKET_SIZE ==> forall|g: int|
            #![trigger vs.insert(g, e)]
            {
                &&& 0 <= g <= vs.len()
                &&& forall|k: int|
                    0 <= k < g ==> !digest_less(path, (#[trigger] vs[k]).digest)
                &&& g < vs.len() ==> digest_less(path, vs[g].digest)
            } ==> (insert(t, blocks, path, c, e) matches Ok(u) && u.slots == t.slots.update(
                nibble(path, c),
                Some(Branch::Values(vs.insert(g, e))),
            )),
        vs.len() >= HAMT_VALUES_BUCKET_SIZE ==> match (
            insert(t, blocks, path, c, e),
            insert_all(Tree::empty(), blocks, vs.push(e), c + 1),
        ) {
            (Ok(u), Ok(child)) => u.slots == t.slots.update(
                nibble(path, c),
                Some(Branch::Subtree(child, None)),
            ),
            (Err(f), Err(g)) => f == g,
            _ => false,
        },
{
    lemma_match_index(vs, path);
    lemma_greater_index(vs, path);
}

/// Setting entries in turn is setting them one after the other.
pub proof fn law_set_in_turn<K, V>(
    t: Tree<K, V>,
    blocks: Blocks<K, V>,
    es: Seq<Entry<K, V>>,
    e: Entry<K, V>,
    c: int,
)
    ensures
        insert_all(t, blocks, Seq::empty(), c) == Ok::<_, Failure>(t),
        insert_all(t, blocks, es, c) matches Ok(u) ==> insert_all(t, blocks, es.push(e), c)
            == insert(u, blocks, e.digest, c, e),
        insert_all(t, blocks, es, c) is Err ==> insert_all(t, blocks, es.push(e), c)
            == insert_all(t, blocks, es, c),
{
    assert(es.push(e).drop_last() =~= es);
}

/// What is left of a node after a removal: nothing of a node without slots in use, a bucket of
/// all its entries in the order of their digests if it leads to no other node and they fit one,
/// and otherwise the node.
pub proof fn law_collapse<K, V>(t: Tree<K, V>)
    ensures
        collapse(t) is None <==> forall|i: int|
            0 <= i < HAMT_BITMASK_BIT_SIZE ==> #[trigger] t.slots[i] is None,
        match collapse(t) {
            None => true,
            Some(Branch::Values(ws)) => {
                &&& forall|i: int|
                    0 <= i < HAMT_BITMASK_BIT_SIZE ==> (#[trigger] t.slots[i] is None
                        || t.slots[i]->0 is Values)
                &&& ws.len() <= HAMT_VALUES_BUCKET_SIZE
                &&& ws.to_multiset() == bucket_entries(
                    t,
                    HAMT_BITMASK_BIT_SIZE as int,
                ).to_multiset()
                &&& forall|i: int, j: int|
                    0 <= i < j < ws.len() ==> !digest_less(
                        (#[trigger] ws[j]).digest,
                        (#[trigger] ws[i]).digest,
                    )
            },
            Some(Branch::Subtree(u, noted)) => {
                &&& u == t
                &&& noted is None
                &&& (bucket_entries(t, HAMT_BITMASK_BIT_SIZE as int).len()
                    > HAMT_VALUES_BUCKET_SIZE || exists|i: int|
                    0 <= i < HAMT_BITMASK_BIT_SIZE && #[trigger] t.slots[i] is Some
                        && !(t.slots[i]->0 is Values))
            },
            Some(Branch::Block(_)) => false,
        },
{
    lemma_sorted(bucket_entries(t, HAMT_BITMASK_BIT_SIZE as int));
}

/// The entries of a node without those of the nodes below it: slot by slot, each bucket in its
/// order.
pub proof fn law_bucket_entries<K, V>(t: Tree<K, V>, n: int)
    requires
        0 <= n,
    ensures
        bucket_entries(t, 0) == Seq::<Entry<K, V>>::empty(),
        bucket_entries(t, n + 1) == bucket_entries(t, n) + (match t.slots[n] {
            Some(Branch::Values(vs)) => vs,
            _ => Seq::empty(),
        }),
{
    assert(bucket_entries(t, n) + Seq::<Entry<K, V>>::empty() =~= bucket_entries(t, n));
}

/// Sorting keeps the entries and puts them in the order of their digests.
proof fn lemma_sorted<K, V>(vs: Seq<Entry<K, V>>)
    ensures
        sort_entries(vs).len() == vs.len(),
        sort_entries(vs).to_multiset() == vs.to_multiset(),
        forall|i: int, j: int|
            0 <= i < j < vs.len() ==> !digest_less(
                (#[trigger] sort_entries(vs)[j]).digest,
                (#[trigger] sort_entries(vs)[i]).digest,
            ),
    decreases vs.len(),
{
    broadcast use vstd::seq_lib::group_to_multiset_ensures;

    if vs.len() > 0 {
        let rest = sort_entries(vs.drop_last());
        let e = vs.last();
        lemma_sorted(vs.drop_last());
        lemma_greater_index(rest, e.digest);
        let g = greater_index(rest, e.digest);
        let ws = rest.insert(g, e);
        assert(vs =~= vs.drop_last().push(e));
        assert(ws.to_multiset() == rest.to_multiset().insert(e)) by {
            vstd::seq_lib::to_multiset_insert(rest, g, e);
        }
        assert forall|i: int, j: int| 0 <= i < j < ws.len() implies !digest_less(
            (#[trigger] ws[j]).digest,
            (#[trigger] ws[i]).digest,
        ) by {
            let a = if i < g {
                i
            } else {
                i - 1
            };
            let b = if j < g {
                j
            } else {
                j - 1
            };
            if i == g {
                if digest_less(ws[j].digest, e.digest) {
                    lemma_digest_less_asymmetric(e.digest, rest[g].digest);
                    if g < b {
                        lemma_digest_less_transitive(ws[j].digest, e.digest, rest[g].digest);
                    } else {
                        lemma_digest_less_asymmetric(rest[g].digest, e.digest);
                    }
                }
            } else if j == g {
                assert(ws[i] == rest[i]);
            } else {
                assert(ws[i] == rest[a] && ws[j] == rest[b]);
            }
        }
    }
}

/// The block that a lookup asks for is the one that the walk has come to: the last of the nodes
/// that it comes through holds that identifier in the slot of its nibble, and the block is not
/// loaded.
pub proof fn law_wanted_block_is_on_the_walk<K, V>(
    t: Tree<K, V>,
    blocks: Blocks<K, V>,
    path: Seq<u8>,
    c: int,
    cid: Seq<u8>,
) -> (nodes: Seq<Tree<K, V>>)
    requires
        find(t, blocks, path, c) == Err::<Option<Entry<K, V>>, _>(Failure::BlockNotFound { cid }),
    ensures
        is_walk(nodes, t, blocks, path, c),
        nodes.last().slots[nibble(path, c + nodes.len() - 1)] == Some(Branch::<K, V>::Block(cid)),
        !blocks.contains_key(cid),
        walk_end(t, blocks, path, c) == c + nodes.len(),
    decreases MAX_CURSOR_DEPTH - c,
{
    match t.slots[nibble(path, c)] {
        Some(Branch::Block(other)) if !blocks.contains_key(other) => seq![t],
        slot => {
            let next = match slot {
                Some(Branch::Block(other)) => blocks[other],
                Some(Branch::Subtree(child, _)) => child,
                _ => t,
            };
            let rest = law_wanted_block_is_on_the_walk(next, blocks, path, c + 1, cid);
            let nodes = seq![t] + rest;
            assert forall|k: int| 0 <= k < nodes.len() - 1 implies leads(
                (#[trigger] nodes[k]).slots[nibble(path, c + k)],
                blocks,
                nodes[k + 1],
            ) by {
                if k > 0 {
                    assert(nodes[k] == rest[k - 1]);
                    assert(nodes[k + 1] == rest[k]);
                    assert(c + k == c + 1 + (k - 1));
                } else {
                    assert(nodes[1] == rest[0]);
                }
            }
            assert(nodes.last() == rest.last());
            assert(c + nodes.len() - 1 == c + 1 + rest.len() - 1);
            nodes
        },
    }
}

/// The block that a lookup asks for in a partly loaded canonical trie is one of the trie's
/// blocks, and not one of those that are loaded.
pub proof fn law_wanted_block_is_to_be_had<K, V>(
    t: Tree<K, V>,
    blocks: Blocks<K, V>,
    all: Blocks<K, V>,
    prefix: Seq<int>,
    path: Seq<u8>,
    cid: Seq<u8>,
)
    requires
        canonical(t, all, prefix),
        blocks.submap_of(all),
        find(t, blocks, path, prefix.len() as int) == Err::<Option<Entry<K, V>>, _>(
            Failure::BlockNotFound { cid },
        ),
    ensures
        all.contains_key(cid),
        !blocks.contains_key(cid),
    decreases MAX_CURSOR_DEPTH - prefix.len(),
{
    let c = prefix.len() as int;
    lemma_nibble_bound(path, c);
    let i = nibble(path, c);
    let slot = t.slots[i];
    assert(canonical_slot(slot, all, prefix.push(i)));
    match slot {
        Some(Branch::Block(other)) if !blocks.contains_key(other) => {},
        Some(Branch::Block(other)) => {
            assert(all[other] == blocks[other]);
            law_wanted_block_is_to_be_had(blocks[other], blocks, all, prefix.push(i), path, cid);
        },
        Some(Branch::Subtree(child, _)) => {
            law_wanted_block_is_to_be_had(child, blocks, all, prefix.push(i), path, cid);
        },
        _ => {},
    }
}

/// A walk takes at least one nibble, if there is one left, and never more than there are.
pub proof fn law_walk_takes_nibbles<K, V>(
    t: Tree<K, V>,
    blocks: Blocks<K, V>,
    path: Seq<u8>,
    c: int,
)
    requires
        c < MAX_CURSOR_DEPTH,
    ensures
        c < walk_end(t, blocks, path, c) <= MAX_CURSOR_DEPTH,
    decreases MAX_CURSOR_DEPTH - c,
{
    reveal_with_fuel(walk_end, 2);
    if c + 1 < MAX_CURSOR_DEPTH {
        match t.slots[nibble(path, c)] {
            Some(Branch::Block(cid)) => {
                law_walk_takes_nibbles(blocks[cid], blocks, path, c + 1);
            },
            Some(Branch::Subtree(child, _)) => {
                law_walk_takes_nibbles(child, blocks, path, c + 1);
            },
            _ => {},
        }
    }
}

/// Loading the block that a lookup asked for lets the walk go on: it comes to a further node, or
/// to the end of the digest.
pub proof fn law_loading_makes_progress<K, V>(
    t: Tree<K, V>,
    blocks: Blocks<K, V>,
    path: Seq<u8>,
    c: int,
    cid: Seq<u8>,
    node: Tree<K, V>,
)
    requires
        find(t, blocks, path, c) == Err::<Option<Entry<K, V>>, _>(Failure::BlockNotFound { cid }),
    ensures
        ({
            let before = walk_end(t, blocks, path, c);
            let after = walk_end(t, blocks.insert(cid, node), path, c);
            after > before || before == MAX_CURSOR_DEPTH == after
        }),
        find(t, blocks.insert(cid, node), path, c) != Err::<Option<Entry<K, V>>, _>(
            Failure::BlockNotFound { cid },
        ),
    decreases MAX_CURSOR_DEPTH - c,
{
    reveal_with_fuel(walk_end, 2);
    let more = blocks.insert(cid, node);
    law_missing_block_is_not_loaded(t, more, path, c);
    let _ = law_wanted_block_is_on_the_walk(t, blocks, path, c, cid);
    match t.slots[nibble(path, c)] {
        Some(Branch::Block(other)) => {
            if blocks.contains_key(other) {
                law_loading_makes_progress(blocks[other], blocks, path, c + 1, cid, node);
            } else if c + 1 < MAX_CURSOR_DEPTH {
                law_walk_takes_nibbles(node, more, path, c + 1);
            }
        },
        Some(Branch::Subtree(child, _)) => {
            law_loading_makes_progress(child, blocks, path, c + 1, cid, node);
        },
        _ => {},
    }
}

/// Setting and removing need no block that a lookup along the same path does not need. Where a
/// lookup succeeds, a removal succeeds and takes out what the lookup finds, and a setting
/// succeeds too, if the lookup finds something, and fails otherwise only where a full bucket
/// cannot be divided before the digests end.
pub proof fn law_lookup_loads_what_is_needed<K, V>(
    t: Tree<K, V>,
    blocks: Blocks<K, V>,
    path: Seq<u8>,
    c: int,
    e: Entry<K, V>,
)
    ensures
        find(t, blocks, path, c) matches Ok(found) ==> {
            &&& remove(t, blocks, path, c) matches Ok((_, removed)) && removed == found
            &&& match insert(t, blocks, path, c, e) {
                Ok(_) => true,
                Err(Failure::CursorOutOfBounds) => found is None,
                Err(_) => false,
            }
        },
        find(t, blocks, path, c) matches Err(failure) ==> {
            &&& remove(t, blocks, path, c) == Err::<(Tree<K, V>, Option<Entry<K, V>>), _>(failure)
            &&& insert(t, blocks, path, c, e) == Err::<Tree<K, V>, _>(failure)
        },
    decreases MAX_CURSOR_DEPTH - c,
{
    if c < MAX_CURSOR_DEPTH {
        match t.slots[nibble(path, c)] {
            Some(Branch::Values(vs)) => {
                lemma_set_in_turn_fails_at_end(blocks, vs.push(e), c + 1);
            },
            Some(Branch::Block(cid)) => {
                if blocks.contains_key(cid) {
                    law_lookup_loads_what_is_needed(blocks[cid], blocks, path, c + 1, e);
                }
            },
            Some(Branch::Subtree(child, _)) => {
                law_lookup_loads_what_is_needed(child, blocks, path, c + 1, e);
            },
            None => {},
        }
    }
}

/// Setting an entry in a trie that is held in memory fails only at the end of the digest.
proof fn lemma_set_fails_at_end<K, V>(
    t: Tree<K, V>,
    blocks: Blocks<K, V>,
    path: Seq<u8>,
    c: int,
    e: Entry<K, V>,
)
    requires
        in_memory(t),
    ensures
        insert(t, blocks, path, c, e) matches Err(failure) ==> failure is CursorOutOfBounds,
    decreases MAX_CURSOR_DEPTH - c, 0nat,
{
    if c < MAX_CURSOR_DEPTH {
        lemma_nibble_bound(path, c);
        match t.slots[nibble(path, c)] {
            Some(Branch::Values(vs)) => {
                lemma_set_in_turn_fails_at_end(blocks, vs.push(e), c + 1);
            },
            Some(Branch::Subtree(child, _)) => {
                lemma_set_fails_at_end(child, blocks, path, c + 1, e);
            },
            _ => {},
        }
    }
}

/// Setting entries in turn, from nothing, makes a trie in memory or fails at the end of a
/// digest.
proof fn lemma_set_in_turn_fails_at_end<K, V>(blocks: Blocks<K, V>, es: Seq<Entry<K, V>>, c: int)
    ensures
        match insert_all(Tree::empty(), blocks, es, c) {
            Ok(u) => in_memory(u),
            Err(failure) => failure is CursorOutOfBounds,
        },
    decreases MAX_CURSOR_DEPTH - c, es.len() + 1,
{
    if es.len() > 0 {
        lemma_set_in_turn_fails_at_end(blocks, es.drop_last(), c);
        if let Ok(t) = insert_all(Tree::empty(), blocks, es.drop_last(), c) {
            lemma_set_fails_at_end(t, blocks, es.last().digest, c, es.last());
            law_set_stays_in_memory(t, blocks, es.last().digest, c, es.last());
        }
    }
}

} // verus!
