//! The mathematical model of the trie, and what each operation does to it.

use crate::constant::{HAMT_BITMASK_BIT_SIZE, HAMT_VALUES_BUCKET_SIZE, MAX_CURSOR_DEPTH};
use crate::error::Failure;
use crate::hash::{digest_less, nibble};
use crate::pointer::Pair;
use vstd::prelude::*;

verus! {

/// A pair together with the digest of its key.
pub struct Entry<K, V> {
    pub digest: Seq<u8>,
    pub pair: Pair<K, V>,
}

/// A node of the trie: for each value of a nibble, what is found there.
pub struct Tree<K, V> {
    pub slots: Seq<Option<Branch<K, V>>>,
}

/// What a slot in use holds.
pub enum Branch<K, V> {
    /// A bucket of pairs.
    Values(Seq<Entry<K, V>>),
    /// A node one level down, and the identifier of its block if that is noted.
    Subtree(Tree<K, V>, Option<Seq<u8>>),
    /// The identifier of the block that holds a node one level down.
    Block(Seq<u8>),
}

/// The nodes that have been loaded from a block store, by identifier.
pub type Blocks<K, V> = Map<Seq<u8>, Tree<K, V>>;

impl<K, V> Tree<K, V> {
    /// The node that holds nothing.
    pub open spec fn empty() -> Self {
        Tree { slots: Seq::new(HAMT_BITMASK_BIT_SIZE as nat, |i: int| None) }
    }

    /// The node with one slot changed.
    pub open spec fn with(self, i: int, slot: Option<Branch<K, V>>) -> Self {
        Tree { slots: self.slots.update(i, slot) }
    }
}

/// The node that a branch leads to, if it leads to one that is loaded.
pub open spec fn target<K, V>(branch: Branch<K, V>, blocks: Blocks<K, V>) -> Option<Tree<K, V>> {
    match branch {
        Branch::Values(_) => None,
        Branch::Subtree(t, _) => Some(t),
        Branch::Block(cid) => if blocks.contains_key(cid) {
            Some(blocks[cid])
        } else {
            None
        },
    }
}

/// The failure to follow a branch whose node is not loaded.
pub open spec fn unloaded<K, V>(branch: Branch<K, V>) -> Failure {
    Failure::BlockNotFound { cid: branch->Block_0 }
}

/// The position of the first entry with the given digest, or the length if there is none.
pub open spec fn match_index<K, V>(vs: Seq<Entry<K, V>>, digest: Seq<u8>) -> int
    decreases vs.len(),
{
    if vs.len() == 0 {
        0
    } else {
        let k = match_index(vs.drop_last(), digest);
        if k < vs.len() - 1 || vs.last().digest == digest {
            k
        } else {
            vs.len() as int
        }
    }
}

/// The position of the first entry whose digest comes after the given one, or the length if
/// there is none.
pub open spec fn greater_index<K, V>(vs: Seq<Entry<K, V>>, digest: Seq<u8>) -> int
    decreases vs.len(),
{
    if vs.len() == 0 {
        0
    } else {
        let k = greater_index(vs.drop_last(), digest);
        if k < vs.len() - 1 || digest_less(digest, vs.last().digest) {
            k
        } else {
            vs.len() as int
        }
    }
}

/// The entries in the order of their digests, built up by inserting them one at a time.
pub open spec fn sort_entries<K, V>(vs: Seq<Entry<K, V>>) -> Seq<Entry<K, V>>
    decreases vs.len(),
{
    if vs.len() == 0 {
        Seq::empty()
    } else {
        let rest = sort_entries(vs.drop_last());
        rest.insert(greater_index(rest, vs.last().digest), vs.last())
    }
}

/// What a walk along `path` finds below `t`, the next nibble being the one at `c`: the first
/// entry with that digest in the bucket where the walk ends.
pub open spec fn find<K, V>(
    t: Tree<K, V>,
    blocks: Blocks<K, V>,
    path: Seq<u8>,
    c: int,
) -> Result<Option<Entry<K, V>>, Failure>
    decreases MAX_CURSOR_DEPTH - c,
{
    if c >= MAX_CURSOR_DEPTH {
        Err(Failure::CursorOutOfBounds)
    } else {
        match t.slots[nibble(path, c)] {
            None => Ok(None),
            Some(Branch::Values(vs)) => Ok(
                if match_index(vs, path) < vs.len() {
                    Some(vs[match_index(vs, path)])
                } else {
                    None
                },
            ),
            Some(branch) => match target(branch, blocks) {
                Some(child) => find(child, blocks, path, c + 1),
                None => Err(unloaded(branch)),
            },
        }
    }
}

/// Where the cursor stands after a walk along `path` from `c`: past the nibble of the last
/// node that the walk reaches.
pub open spec fn walk_end<K, V>(
    t: Tree<K, V>,
    blocks: Blocks<K, V>,
    path: Seq<u8>,
    c: int,
) -> int
    decreases MAX_CURSOR_DEPTH - c,
{
    if c >= MAX_CURSOR_DEPTH {
        c
    } else {
        match t.slots[nibble(path, c)] {
            None => c + 1,
            Some(branch) => match target(branch, blocks) {
                Some(child) => walk_end(child, blocks, path, c + 1),
                None => c + 1,
            },
        }
    }
}

/// The trie after `e` is set along `path`. A bucket that holds the digest has that entry
/// replaced, one with room takes the entry in order, and a full one gives way to a node one
/// level down that takes its entries and then `e`, each along its own digest. The nodes that
/// the walk leads through have no identifier noted afterwards.
pub open spec fn insert<K, V>(
    t: Tree<K, V>,
    blocks: Blocks<K, V>,
    path: Seq<u8>,
    c: int,
    e: Entry<K, V>,
) -> Result<Tree<K, V>, Failure>
    decreases MAX_CURSOR_DEPTH - c, 0nat,
{
    if c >= MAX_CURSOR_DEPTH {
        Err(Failure::CursorOutOfBounds)
    } else {
        let i = nibble(path, c);
        match t.slots[i] {
            None => Ok(t.with(i, Some(Branch::Values(seq![e])))),
            Some(Branch::Values(vs)) => if match_index(vs, path) < vs.len() {
                Ok(t.with(i, Some(Branch::Values(vs.update(match_index(vs, path), e)))))
            } else if vs.len() < HAMT_VALUES_BUCKET_SIZE {
                Ok(t.with(i, Some(Branch::Values(vs.insert(greater_index(vs, path), e)))))
            } else {
                match insert_all(Tree::empty(), blocks, vs.push(e), c + 1) {
                    Ok(child) => Ok(t.with(i, Some(Branch::Subtree(child, None)))),
                    Err(failure) => Err(failure),
                }
            },
            Some(branch) => match target(branch, blocks) {
                Some(child) => match insert(child, blocks, path, c + 1, e) {
                    Ok(child) => Ok(t.with(i, Some(Branch::Subtree(child, None)))),
                    Err(failure) => Err(failure),
                },
                None => Err(unloaded(branch)),
            },
        }
    }
}

/// The trie after all of `es` are set, in turn, each along its own digest.
pub open spec fn insert_all<K, V>(
    t: Tree<K, V>,
    blocks: Blocks<K, V>,
    es: Seq<Entry<K, V>>,
    c: int,
) -> Result<Tree<K, V>, Failure>
    decreases MAX_CURSOR_DEPTH - c, es.len(),
{
    if es.len() == 0 {
        Ok(t)
    } else {
        match insert_all(t, blocks, es.drop_last(), c) {
            Ok(t) => insert(t, blocks, es.last().digest, c, es.last()),
            Err(failure) => Err(failure),
        }
    }
}

/// The entries in the first `n` slots of a node, without those of the nodes below it.
pub open spec fn bucket_entries<K, V>(t: Tree<K, V>, n: int) -> Seq<Entry<K, V>>
    decreases n,
{
    if n <= 0 {
        Seq::empty()
    } else {
        match t.slots[n - 1] {
            Some(Branch::Values(vs)) => bucket_entries(t, n - 1) + vs,
            _ => bucket_entries(t, n - 1),
        }
    }
}

/// Holds if none of the first `n` slots leads to a node one level down.
pub open spec fn only_values<K, V>(t: Tree<K, V>, n: int) -> bool {
    forall|i: int| 0 <= i < n && #[trigger] t.slots[i] is Some ==> t.slots[i]->0 is Values
}

/// Holds if no slot is in use.
pub open spec fn unused<K, V>(t: Tree<K, V>) -> bool {
    forall|i: int| 0 <= i < HAMT_BITMASK_BIT_SIZE ==> #[trigger] t.slots[i] is None
}

/// What the slot above a node holds when something has been removed from the node. An unused
/// node leaves nothing, one whose entries fit a bucket leaves that bucket, and any other
/// stays.
pub open spec fn collapse<K, V>(t: Tree<K, V>) -> Option<Branch<K, V>> {
    let all = bucket_entries(t, HAMT_BITMASK_BIT_SIZE as int);
    if unused(t) {
        None
    } else if only_values(t, HAMT_BITMASK_BIT_SIZE as int) && all.len()
        <= HAMT_VALUES_BUCKET_SIZE {
        Some(Branch::Values(sort_entries(all)))
    } else {
        Some(Branch::Subtree(t, None))
    }
}

/// The trie after the first entry with the digest `path` is removed from the bucket where the
/// walk along `path` ends, and that entry.
pub open spec fn remove<K, V>(
    t: Tree<K, V>,
    blocks: Blocks<K, V>,
    path: Seq<u8>,
    c: int,
) -> Result<(Tree<K, V>, Option<Entry<K, V>>), Failure>
    decreases MAX_CURSOR_DEPTH - c,
{
    if c >= MAX_CURSOR_DEPTH {
        Err(Failure::CursorOutOfBounds)
    } else {
        let i = nibble(path, c);
        match t.slots[i] {
            None => Ok((t, None)),
            Some(Branch::Values(vs)) => {
                let j = match_index(vs, path);
                if j >= vs.len() {
                    Ok((t, None))
                } else if vs.len() == 1 {
                    Ok((t.with(i, None), Some(vs[j])))
                } else {
                    Ok((t.with(i, Some(Branch::Values(vs.remove(j)))), Some(vs[j])))
                }
            },
            Some(branch) => match target(branch, blocks) {
                Some(child) => match remove(child, blocks, path, c + 1) {
                    Ok((child, None)) => Ok(
                        (t.with(i, Some(Branch::Subtree(child, None))), None),
                    ),
                    Ok((child, Some(e))) => Ok((t.with(i, collapse(child)), Some(e))),
                    Err(failure) => Err(failure),
                },
                None => Err(unloaded(branch)),
            },
        }
    }
}

/// What makes a position the first one with a given digest.
pub proof fn lemma_match_index<K, V>(vs: Seq<Entry<K, V>>, digest: Seq<u8>)
    ensures
        0 <= match_index(vs, digest) <= vs.len(),
        forall|j: int|
            0 <= j < match_index(vs, digest) ==> (#[trigger] vs[j]).digest != digest,
        match_index(vs, digest) < vs.len() ==> vs[match_index(vs, digest)].digest == digest,
    decreases vs.len(),
{
    if vs.len() > 0 {
        let rest = vs.drop_last();
        lemma_match_index(rest, digest);
        assert forall|j: int| 0 <= j < match_index(vs, digest) implies (
        #[trigger] vs[j]).digest != digest by {
            if j < rest.len() {
                assert(rest[j] == vs[j]);
            }
        }
    }
}

/// What makes a position the first one whose digest comes after a given one.
pub proof fn lemma_greater_index<K, V>(vs: Seq<Entry<K, V>>, digest: Seq<u8>)
    ensures
        0 <= greater_index(vs, digest) <= vs.len(),
        forall|j: int|
            0 <= j < greater_index(vs, digest) ==> !digest_less(
                digest,
                (#[trigger] vs[j]).digest,
            ),
        greater_index(vs, digest) < vs.len() ==> digest_less(
            digest,
            vs[greater_index(vs, digest)].digest,
        ),
    decreases vs.len(),
{
    if vs.len() > 0 {
        let rest = vs.drop_last();
        lemma_greater_index(rest, digest);
        assert forall|j: int| 0 <= j < greater_index(vs, digest) implies !digest_less(
            digest,
            (#[trigger] vs[j]).digest,
        ) by {
            if j < rest.len() {
                assert(rest[j] == vs[j]);
            }
        }
    }
}

} // verus!
