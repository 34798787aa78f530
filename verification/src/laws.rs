//! What holds of the operations together.
//!
//! A trie is reached from the root, so the laws speak of walks that start at the first nibble.
//! Digests have as many bytes as a hash function gives.

use crate::bitmask::{lemma_rank_monotonic, lemma_rank_selects, rank};
use crate::canonical::{canonical, lemma_found, size, slot_size, slots_size};
use crate::constant::{HAMT_BITMASK_BIT_SIZE, HASH_BYTE_SIZE};
use crate::error::Failure;
use crate::hash::{AsBytes, Hasher};
use crate::identity::{content_addressed, form, identifier, lemma_expand_keeps_form, Form};
use crate::loading::{in_memory, law_in_memory_is_expanded, law_loading_keeps_removals};
use crate::loading::{law_loading_keeps_settings, law_remove_stays_in_memory};
use crate::loading::{law_set_stays_in_memory, wants_block};
use crate::node::{lemma_default_is_empty, values_count, Node};
use crate::preserve::{differs_at, lemma_empty, lemma_insert, lemma_remove};
use crate::tree::{find, insert, only_values, remove, Blocks, Entry, Tree};
use crate::unique::{expand, lemma_unique, same_contents};
use vstd::prelude::*;

verus! {

/// Holds if a trie is in canonical form, as seen from its root.
pub open spec fn canonical_root<K, V>(t: Tree<K, V>, blocks: Blocks<K, V>) -> bool {
    canonical(t, blocks, Seq::empty())
}

/// A new node is empty, in canonical form and held in memory as a whole.
pub proof fn law_default_is_canonical<K: AsBytes, V, H: Hasher>(
    node: &Node<K, V, H>,
    blocks: Blocks<K, V>,
)
    requires
        node.pointers@.len() == 0,
    ensures
        canonical_root(node@, blocks),
        in_memory(node@),
        size(node@, blocks, 0) == 0,
        forall|h: Seq<u8>| #[trigger]
            find(node@, blocks, h, 0) == Ok::<Option<Entry<K, V>>, Failure>(None),
{
    lemma_default_is_empty(node);
    lemma_empty::<K, V>(blocks, Seq::empty());
}

/// `count_values` succeeds on a node exactly if there are no nodes below it, and then counts the
/// entries of its trie.
pub proof fn law_count_values<K: AsBytes, V, H: Hasher>(
    node: &Node<K, V, H>,
    blocks: Blocks<K, V>,
    d: int,
)
    requires
        node.wf(),
    ensures
        (forall|r: int| 0 <= r < node.pointers@.len() ==> #[trigger] node.pointers@[r] is Values)
            <==> only_values(node@, HAMT_BITMASK_BIT_SIZE as int),
        only_values(node@, HAMT_BITMASK_BIT_SIZE as int) ==> values_count(
            node.pointers@,
            node.pointers@.len() as int,
        ) == size(node@, blocks, d),
{
    let n = HAMT_BITMASK_BIT_SIZE as int;
    let t = node@;
    let b = node.used();
    assert forall|i: int| 0 <= i < n && b[i] implies #[trigger] t.slots[i] == Some(
        node.pointers@[rank(b, i)]@,
    ) by {
        lemma_rank_monotonic(b, 0, i);
        lemma_rank_monotonic(b, i, n);
    }
    if only_values(t, n) {
        assert forall|r: int| 0 <= r < node.pointers@.len() implies
            #[trigger] node.pointers@[r] is Values by {
            let i = lemma_rank_selects(b, n, r);
            assert(t.slots[i] is Some);
        }
        lemma_count_values(node, blocks, d, n);
    } else {
        let i = choose|i: int|
            0 <= i < n && #[trigger] t.slots[i] is Some && !(t.slots[i]->0 is Values);
        assert(b[i]);
        assert(!(node.pointers@[rank(b, i)] is Values));
        lemma_rank_monotonic(b, 0, i);
        lemma_rank_monotonic(b, i, n);
    }
}

/// Counting the pairs behind the first pointers counts the entries in the first slots.
proof fn lemma_count_values<K: AsBytes, V, H: Hasher>(
    node: &Node<K, V, H>,
    blocks: Blocks<K, V>,
    d: int,
    n: int,
)
    requires
        node.wf(),
        0 <= n <= HAMT_BITMASK_BIT_SIZE,
        only_values(node@, n),
    ensures
        values_count(node.pointers@, rank(node.used(), n)) == slots_size(node@, blocks, d, n),
    decreases n,
{
    if n > 0 {
        let b = node.used();
        let slot = node@.slots[n - 1];
        assert(only_values(node@, n - 1)) by {
            assert forall|i: int| 0 <= i < n - 1 && #[trigger] node@.slots[i] is Some implies
                node@.slots[i]->0 is Values by {}
        }
        lemma_count_values(node, blocks, d, n - 1);
        lemma_rank_monotonic(b, 0, n - 1);
        lemma_rank_monotonic(b, n - 1, HAMT_BITMASK_BIT_SIZE as int);
        assert(slots_size(node@, blocks, d, n) == slots_size(node@, blocks, d, n - 1)
            + slot_size(slot, blocks, d));
        if b[n - 1] {
            assert(slot == Some(node.pointers@[rank(b, n - 1)]@));
            assert(slot->0 is Values);
        }
    }
}

/// In a canonical trie a lookup succeeds, and an entry that it finds has the digest that was
/// looked up.
pub proof fn law_lookup_is_sound<K, V>(t: Tree<K, V>, blocks: Blocks<K, V>, h: Seq<u8>)
    requires
        canonical_root(t, blocks),
        h.len() == HASH_BYTE_SIZE,
    ensures
        find(t, blocks, h, 0) matches Ok(found) && (found matches Some(e) ==> e.digest == h),
{
    lemma_found(t, blocks, Seq::empty(), h);
}

/// Setting an entry in a canonical trie succeeds and keeps it canonical. Afterwards a lookup of
/// its digest finds it, every other lookup finds what it found before, and the trie has one
/// entry more unless the digest was there before.
pub proof fn law_set<K, V>(t: Tree<K, V>, blocks: Blocks<K, V>, e: Entry<K, V>)
    requires
        canonical_root(t, blocks),
        e.digest.len() == HASH_BYTE_SIZE,
    ensures
        insert(t, blocks, e.digest, 0, e) matches Ok(u) && {
            &&& canonical_root(u, blocks)
            &&& differs_at(t, u, blocks, 0, e.digest, Some(e))
            &&& find(u, blocks, e.digest, 0) == Ok::<_, Failure>(Some(e))
            &&& forall|h: Seq<u8>|
                h.len() == HASH_BYTE_SIZE && h != e.digest ==> #[trigger] find(u, blocks, h, 0)
                    == find(t, blocks, h, 0)
            &&& size(u, blocks, 0) == size(t, blocks, 0) + if find(
                t,
                blocks,
                e.digest,
                0,
            )->Ok_0 is Some {
                0int
            } else {
                1
            }
        },
{
    lemma_insert(t, blocks, Seq::empty(), e);
}

/// Removing a digest from a canonical trie succeeds and keeps it canonical. What is removed is
/// what a lookup found, afterwards a lookup of the digest finds nothing, every other lookup
/// finds what it found before, and the trie has one entry less if there was one to remove.
pub proof fn law_remove<K, V>(t: Tree<K, V>, blocks: Blocks<K, V>, h: Seq<u8>)
    requires
        canonical_root(t, blocks),
        h.len() == HASH_BYTE_SIZE,
    ensures
        remove(t, blocks, h, 0) matches Ok((u, removed)) && {
            &&& find(t, blocks, h, 0) == Ok::<_, Failure>(removed)
            &&& canonical_root(u, blocks)
            &&& differs_at(t, u, blocks, 0, h, None)
            &&& find(u, blocks, h, 0) == Ok::<Option<Entry<K, V>>, Failure>(None)
            &&& forall|k: Seq<u8>|
                k.len() == HASH_BYTE_SIZE && k != h ==> #[trigger] find(u, blocks, k, 0) == find(
                    t,
                    blocks,
                    k,
                    0,
                )
            &&& size(u, blocks, 0) == size(t, blocks, 0) - if removed is Some {
                1int
            } else {
                0
            }
        },
{
    lemma_remove(t, blocks, Seq::empty(), h);
}

/// Setting an entry in a canonical trie of which only some blocks are loaded does what it does
/// when all of them are, unless it asks for a block.
pub proof fn law_set_partly_loaded<K, V>(
    t: Tree<K, V>,
    loaded: Blocks<K, V>,
    blocks: Blocks<K, V>,
    e: Entry<K, V>,
)
    requires
        canonical_root(t, blocks),
        loaded.submap_of(blocks),
        e.digest.len() == HASH_BYTE_SIZE,
        !wants_block(insert(t, loaded, e.digest, 0, e)),
    ensures
        insert(t, loaded, e.digest, 0, e) matches Ok(u) && {
            &&& canonical_root(u, blocks)
            &&& differs_at(t, u, blocks, 0, e.digest, Some(e))
            &&& find(u, blocks, e.digest, 0) == Ok::<_, Failure>(Some(e))
            &&& forall|h: Seq<u8>|
                h.len() == HASH_BYTE_SIZE && h != e.digest ==> #[trigger] find(u, blocks, h, 0)
                    == find(t, blocks, h, 0)
        },
{
    law_loading_keeps_settings(t, loaded, blocks, e.digest, 0, e);
    law_set(t, blocks, e);
}

/// Removing a digest from a canonical trie of which only some blocks are loaded does what it
/// does when all of them are, unless it asks for a block.
pub proof fn law_remove_partly_loaded<K, V>(
    t: Tree<K, V>,
    loaded: Blocks<K, V>,
    blocks: Blocks<K, V>,
    h: Seq<u8>,
)
    requires
        canonical_root(t, blocks),
        loaded.submap_of(blocks),
        h.len() == HASH_BYTE_SIZE,
        !wants_block(remove(t, loaded, h, 0)),
    ensures
        remove(t, loaded, h, 0) matches Ok((u, removed)) && {
            &&& find(t, blocks, h, 0) == Ok::<_, Failure>(removed)
            &&& canonical_root(u, blocks)
            &&& differs_at(t, u, blocks, 0, h, None)
            &&& find(u, blocks, h, 0) == Ok::<Option<Entry<K, V>>, Failure>(None)
            &&& forall|k: Seq<u8>|
                k.len() == HASH_BYTE_SIZE && k != h ==> #[trigger] find(u, blocks, k, 0) == find(
                    t,
                    blocks,
                    k,
                    0,
                )
        },
{
    law_loading_keeps_removals(t, loaded, blocks, h, 0);
    law_remove(t, blocks, h);
}

/// Canonical tries in which every lookup finds the same are the same, whichever of their nodes
/// are in memory and whichever are to be loaded. If both are held in memory as a whole, nothing
/// has to be expanded for that.
pub proof fn law_contents_determine_trie<K, V>(
    a: Tree<K, V>,
    b: Tree<K, V>,
    blocks: Blocks<K, V>,
)
    requires
        canonical_root(a, blocks),
        canonical_root(b, blocks),
        same_contents(a, b, blocks, 0),
    ensures
        expand(a, blocks, 0) == expand(b, blocks, 0),
        in_memory(a) && in_memory(b) ==> a == b,
{
    lemma_unique(a, b, blocks, Seq::empty());
    if in_memory(a) && in_memory(b) {
        law_in_memory_is_expanded(a, blocks, 0);
        law_in_memory_is_expanded(b, blocks, 0);
    }
}

/// An operation on a trie that is held in memory leaves it in memory.
pub proof fn law_operation_stays_in_memory<K, V>(
    t: Tree<K, V>,
    blocks: Blocks<K, V>,
    op: Operation<K, V>,
)
    requires
        in_memory(t),
    ensures
        apply(t, blocks, op) matches Ok(u) ==> in_memory(u),
{
    match op {
        Operation::Insert(e) => law_set_stays_in_memory(t, blocks, e.digest, 0, e),
        Operation::Remove(h) => law_remove_stays_in_memory(t, blocks, h, 0),
    }
}

/// Operations on a trie that is held in memory leave it in memory.
pub proof fn law_operations_stay_in_memory<K, V>(
    t: Tree<K, V>,
    blocks: Blocks<K, V>,
    ops: Seq<Operation<K, V>>,
)
    requires
        in_memory(t),
    ensures
        apply_all(t, blocks, ops) matches Ok(u) ==> in_memory(u),
    decreases ops.len(),
{
    if ops.len() > 0 {
        law_operations_stay_in_memory(t, blocks, ops.drop_last());
        if let Ok(u) = apply_all(t, blocks, ops.drop_last()) {
            law_operation_stays_in_memory(u, blocks, ops.last());
        }
    }
}

/// Canonical tries in which every lookup finds the same have the same block and the same
/// identifier.
pub proof fn law_contents_determine_identifier<K, V>(
    a: Tree<K, V>,
    b: Tree<K, V>,
    blocks: Blocks<K, V>,
    cid_of: spec_fn(Form<K, V>) -> Seq<u8>,
)
    requires
        canonical_root(a, blocks),
        canonical_root(b, blocks),
        same_contents(a, b, blocks, 0),
        content_addressed(blocks, cid_of),
    ensures
        form(a, cid_of) == form(b, cid_of),
        identifier(a, cid_of) == identifier(b, cid_of),
{
    law_contents_determine_trie(a, b, blocks);
    lemma_expand_keeps_form(a, blocks, 0, cid_of);
    lemma_expand_keeps_form(b, blocks, 0, cid_of);
}

/// Setting an entry a second time changes nothing. This law and those that follow hold up to
/// which nodes are loaded and which identifiers are noted; of a trie that is held in memory as a
/// whole they hold exactly.
pub proof fn law_set_twice<K, V>(t: Tree<K, V>, blocks: Blocks<K, V>, e: Entry<K, V>)
    requires
        canonical_root(t, blocks),
        e.digest.len() == HASH_BYTE_SIZE,
    ensures
        insert(t, blocks, e.digest, 0, e) matches Ok(u) && insert(
            u,
            blocks,
            e.digest,
            0,
            e,
        ) matches Ok(w) && expand(u, blocks, 0) == expand(w, blocks, 0) && (in_memory(t) ==> w
            == u),
{
    law_set(t, blocks, e);
    let u = insert(t, blocks, e.digest, 0, e)->Ok_0;
    law_set(u, blocks, e);
    let w = insert(u, blocks, e.digest, 0, e)->Ok_0;
    if in_memory(t) {
        law_set_stays_in_memory(t, blocks, e.digest, 0, e);
        law_set_stays_in_memory(u, blocks, e.digest, 0, e);
    }
    law_contents_determine_trie(u, w, blocks);
}

/// Of two entries set at one digest, the second stays.
pub proof fn law_set_overwrites<K, V>(
    t: Tree<K, V>,
    blocks: Blocks<K, V>,
    a: Entry<K, V>,
    b: Entry<K, V>,
)
    requires
        canonical_root(t, blocks),
        a.digest.len() == HASH_BYTE_SIZE,
        a.digest == b.digest,
    ensures
        insert(t, blocks, a.digest, 0, a) matches Ok(u) && insert(
            u,
            blocks,
            b.digest,
            0,
            b,
        ) matches Ok(w) && insert(t, blocks, b.digest, 0, b) matches Ok(x) && expand(
            w,
            blocks,
            0,
        ) == expand(x, blocks, 0) && (in_memory(t) ==> w == x),
{
    law_set(t, blocks, a);
    law_set(t, blocks, b);
    let u = insert(t, blocks, a.digest, 0, a)->Ok_0;
    law_set(u, blocks, b);
    let w = insert(u, blocks, b.digest, 0, b)->Ok_0;
    let x = insert(t, blocks, b.digest, 0, b)->Ok_0;
    assert forall|h: Seq<u8>| h.len() == HASH_BYTE_SIZE implies #[trigger] find(w, blocks, h, 0)
        == find(x, blocks, h, 0) by {
        assert(find(u, blocks, h, 0) == if h == a.digest {
            Ok(Some(a))
        } else {
            find(t, blocks, h, 0)
        });
    }
    if in_memory(t) {
        law_set_stays_in_memory(t, blocks, a.digest, 0, a);
        law_set_stays_in_memory(u, blocks, b.digest, 0, b);
        law_set_stays_in_memory(t, blocks, b.digest, 0, b);
    }
    law_contents_determine_trie(w, x, blocks);
}

/// Removing a digest a second time changes nothing and removes nothing.
pub proof fn law_remove_twice<K, V>(t: Tree<K, V>, blocks: Blocks<K, V>, h: Seq<u8>)
    requires
        canonical_root(t, blocks),
        h.len() == HASH_BYTE_SIZE,
    ensures
        remove(t, blocks, h, 0) matches Ok((u, _)) && remove(u, blocks, h, 0) matches Ok(
            (w, again),
        ) && again is None && expand(u, blocks, 0) == expand(w, blocks, 0) && (in_memory(t) ==> w
            == u),
{
    law_remove(t, blocks, h);
    let u = remove(t, blocks, h, 0)->Ok_0.0;
    law_remove(u, blocks, h);
    let w = remove(u, blocks, h, 0)->Ok_0.0;
    assert(find(u, blocks, h, 0) == Ok::<Option<Entry<K, V>>, Failure>(None));
    if in_memory(t) {
        law_remove_stays_in_memory(t, blocks, h, 0);
        law_remove_stays_in_memory(u, blocks, h, 0);
    }
    law_contents_determine_trie(u, w, blocks);
}

/// Removing a digest that is not there changes nothing.
pub proof fn law_remove_absent<K, V>(t: Tree<K, V>, blocks: Blocks<K, V>, h: Seq<u8>)
    requires
        canonical_root(t, blocks),
        h.len() == HASH_BYTE_SIZE,
        find(t, blocks, h, 0) == Ok::<Option<Entry<K, V>>, Failure>(None),
    ensures
        remove(t, blocks, h, 0) matches Ok((u, removed)) && removed is None && expand(
            u,
            blocks,
            0,
        ) == expand(t, blocks, 0) && size(u, blocks, 0) == size(t, blocks, 0) && (in_memory(t)
            ==> u == t),
{
    law_remove(t, blocks, h);
    let u = remove(t, blocks, h, 0)->Ok_0.0;
    if in_memory(t) {
        law_remove_stays_in_memory(t, blocks, h, 0);
    }
    law_contents_determine_trie(u, t, blocks);
}

/// Removing an entry that was set where nothing was before undoes the setting.
pub proof fn law_remove_undoes_set<K, V>(t: Tree<K, V>, blocks: Blocks<K, V>, e: Entry<K, V>)
    requires
        canonical_root(t, blocks),
        e.digest.len() == HASH_BYTE_SIZE,
        find(t, blocks, e.digest, 0) == Ok::<Option<Entry<K, V>>, Failure>(None),
    ensures
        insert(t, blocks, e.digest, 0, e) matches Ok(u) && remove(
            u,
            blocks,
            e.digest,
            0,
        ) matches Ok((w, removed)) && removed == Some(e) && expand(w, blocks, 0) == expand(
            t,
            blocks,
            0,
        ) && (in_memory(t) ==> w == t),
{
    law_set(t, blocks, e);
    let u = insert(t, blocks, e.digest, 0, e)->Ok_0;
    law_remove(u, blocks, e.digest);
    let w = remove(u, blocks, e.digest, 0)->Ok_0.0;
    assert(find(u, blocks, e.digest, 0) == Ok::<Option<Entry<K, V>>, Failure>(Some(e)));
    assert forall|h: Seq<u8>| h.len() == HASH_BYTE_SIZE implies #[trigger] find(w, blocks, h, 0)
        == find(t, blocks, h, 0) by {
        assert(find(u, blocks, h, 0) == if h == e.digest {
            Ok(Some(e))
        } else {
            find(t, blocks, h, 0)
        });
    }
    if in_memory(t) {
        law_set_stays_in_memory(t, blocks, e.digest, 0, e);
        law_remove_stays_in_memory(u, blocks, e.digest, 0);
    }
    law_contents_determine_trie(w, t, blocks);
}

/// Setting an entry again that was removed undoes the removal.
pub proof fn law_set_undoes_remove<K, V>(t: Tree<K, V>, blocks: Blocks<K, V>, e: Entry<K, V>)
    requires
        canonical_root(t, blocks),
        e.digest.len() == HASH_BYTE_SIZE,
        find(t, blocks, e.digest, 0) == Ok::<Option<Entry<K, V>>, Failure>(Some(e)),
    ensures
        remove(t, blocks, e.digest, 0) matches Ok((u, removed)) && {
            &&& removed == Some(e)
            &&& insert(u, blocks, e.digest, 0, e) matches Ok(w) && expand(w, blocks, 0) == expand(
                t,
                blocks,
                0,
            ) && (in_memory(t) ==> w == t)
        },
{
    law_remove(t, blocks, e.digest);
    let u = remove(t, blocks, e.digest, 0)->Ok_0.0;
    law_set(u, blocks, e);
    let w = insert(u, blocks, e.digest, 0, e)->Ok_0;
    assert forall|h: Seq<u8>| h.len() == HASH_BYTE_SIZE implies #[trigger] find(w, blocks, h, 0)
        == find(t, blocks, h, 0) by {
        assert(find(u, blocks, h, 0) == if h == e.digest {
            Ok(None)
        } else {
            find(t, blocks, h, 0)
        });
    }
    if in_memory(t) {
        law_remove_stays_in_memory(t, blocks, e.digest, 0);
        law_set_stays_in_memory(u, blocks, e.digest, 0, e);
    }
    law_contents_determine_trie(w, t, blocks);
}

/// A change to a trie.
pub enum Operation<K, V> {
    /// Sets an entry at its digest.
    Insert(Entry<K, V>),
    /// Removes what is at a digest.
    Remove(Seq<u8>),
}

impl<K, V> Operation<K, V> {
    /// The digest that the operation is about.
    pub open spec fn digest(self) -> Seq<u8> {
        match self {
            Operation::Insert(e) => e.digest,
            Operation::Remove(h) => h,
        }
    }

    /// Holds if doing the two operations in either order comes to the same: they are about
    /// different digests, or set the same entry, or both remove.
    pub open spec fn can_be_swapped_with(self, other: Self) -> bool {
        match (self, other) {
            (Operation::Insert(a), Operation::Insert(b)) => a.digest != b.digest || a == b,
            (Operation::Remove(_), Operation::Remove(_)) => true,
            _ => self.digest() != other.digest(),
        }
    }
}

/// The trie after an operation.
pub open spec fn apply<K, V>(
    t: Tree<K, V>,
    blocks: Blocks<K, V>,
    op: Operation<K, V>,
) -> Result<Tree<K, V>, Failure> {
    match op {
        Operation::Insert(e) => insert(t, blocks, e.digest, 0, e),
        Operation::Remove(h) => match remove(t, blocks, h, 0) {
            Ok((u, _)) => Ok(u),
            Err(failure) => Err(failure),
        },
    }
}

/// The trie after operations, done in turn.
pub open spec fn apply_all<K, V>(
    t: Tree<K, V>,
    blocks: Blocks<K, V>,
    ops: Seq<Operation<K, V>>,
) -> Result<Tree<K, V>, Failure>
    decreases ops.len(),
{
    if ops.len() == 0 {
        Ok(t)
    } else {
        match apply_all(t, blocks, ops.drop_last()) {
            Ok(t) => apply(t, blocks, ops.last()),
            Err(failure) => Err(failure),
        }
    }
}

/// A map after an operation.
pub open spec fn map_apply<K, V>(
    m: Map<Seq<u8>, Entry<K, V>>,
    op: Operation<K, V>,
) -> Map<Seq<u8>, Entry<K, V>> {
    match op {
        Operation::Insert(e) => m.insert(e.digest, e),
        Operation::Remove(h) => m.remove(h),
    }
}

/// A map after operations, done in turn.
pub open spec fn map_apply_all<K, V>(
    m: Map<Seq<u8>, Entry<K, V>>,
    ops: Seq<Operation<K, V>>,
) -> Map<Seq<u8>, Entry<K, V>>
    decreases ops.len(),
{
    if ops.len() == 0 {
        m
    } else {
        map_apply(map_apply_all(m, ops.drop_last()), ops.last())
    }
}

/// Holds if every lookup in the trie finds what the map has.
pub open spec fn represents<K, V>(
    t: Tree<K, V>,
    blocks: Blocks<K, V>,
    m: Map<Seq<u8>, Entry<K, V>>,
) -> bool {
    forall|h: Seq<u8>|
        h.len() == HASH_BYTE_SIZE ==> #[trigger] find(t, blocks, h, 0) == Ok::<_, Failure>(
            if m.contains_key(h) {
                Some(m[h])
            } else {
                None
            },
        )
}

/// Holds if the digests of all of the operations have the length of a digest.
pub open spec fn proper<K, V>(ops: Seq<Operation<K, V>>) -> bool {
    forall|i: int| 0 <= i < ops.len() ==> (#[trigger] ops[i]).digest().len() == HASH_BYTE_SIZE
}

/// A trie is a map: operations on a canonical trie succeed, keep it canonical, and do to what
/// is found in it what they do to a map.
pub proof fn law_trie_is_map<K, V>(
    t: Tree<K, V>,
    blocks: Blocks<K, V>,
    m: Map<Seq<u8>, Entry<K, V>>,
    ops: Seq<Operation<K, V>>,
)
    requires
        canonical_root(t, blocks),
        represents(t, blocks, m),
        proper(ops),
    ensures
        apply_all(t, blocks, ops) matches Ok(u) && canonical_root(u, blocks) && represents(
            u,
            blocks,
            map_apply_all(m, ops),
        ),
    decreases ops.len(),
{
    if ops.len() > 0 {
        let rest = ops.drop_last();
        let op = ops.last();
        assert forall|i: int| 0 <= i < rest.len() implies (
        #[trigger] rest[i]).digest().len() == HASH_BYTE_SIZE by {
            assert(rest[i] == ops[i]);
        }
        law_trie_is_map(t, blocks, m, rest);
        let s = apply_all(t, blocks, rest)->Ok_0;
        let n = map_apply_all(m, rest);
        assert(ops[ops.len() - 1].digest().len() == HASH_BYTE_SIZE);
        match op {
            Operation::Insert(e) => {
                law_set(s, blocks, e);
            },
            Operation::Remove(h) => {
                law_remove(s, blocks, h);
            },
        }
        let u = apply(s, blocks, op)->Ok_0;
        let k = map_apply(n, op);
        assert forall|h: Seq<u8>| h.len() == HASH_BYTE_SIZE implies #[trigger] find(
            u,
            blocks,
            h,
            0,
        ) == Ok::<_, Failure>(
            if k.contains_key(h) {
                Some(k[h])
            } else {
                None
            },
        ) by {
            assert(find(s, blocks, h, 0) == Ok::<_, Failure>(
                if n.contains_key(h) {
                    Some(n[h])
                } else {
                    None
                },
            ));
        }
    }
}

/// Tries do not depend on their history: operations that make the same map of an empty map make
/// the same trie of an empty trie, with the same identifier.
pub proof fn law_history_independence<K, V>(
    blocks: Blocks<K, V>,
    ops: Seq<Operation<K, V>>,
    others: Seq<Operation<K, V>>,
    cid_of: spec_fn(Form<K, V>) -> Seq<u8>,
)
    requires
        proper(ops),
        proper(others),
        map_apply_all(Map::empty(), ops) == map_apply_all(Map::empty(), others),
    ensures
        apply_all(Tree::empty(), blocks, ops) matches Ok(a) && apply_all(
            Tree::empty(),
            blocks,
            others,
        ) matches Ok(b) && a == b && identifier(a, cid_of) == identifier(b, cid_of),
{
    lemma_empty::<K, V>(blocks, Seq::empty());
    law_trie_is_map(Tree::empty(), blocks, Map::empty(), ops);
    law_trie_is_map(Tree::empty(), blocks, Map::empty(), others);
    let a = apply_all(Tree::empty(), blocks, ops)->Ok_0;
    let b = apply_all(Tree::empty(), blocks, others)->Ok_0;
    let m = map_apply_all(Map::empty(), ops);
    assert forall|h: Seq<u8>| h.len() == HASH_BYTE_SIZE implies #[trigger] find(a, blocks, h, 0)
        == find(b, blocks, h, 0) by {
        assert(find(b, blocks, h, 0) == Ok::<_, Failure>(
            if m.contains_key(h) {
                Some(m[h])
            } else {
                None
            },
        ));
    }
    law_operations_stay_in_memory(Tree::empty(), blocks, ops);
    law_operations_stay_in_memory(Tree::empty(), blocks, others);
    law_contents_determine_trie(a, b, blocks);
}

/// Swapping two operations next to each other that can be swapped makes the same trie, with the
/// same identifier, whatever comes before and after them.
pub proof fn law_swapped_operations<K, V>(
    blocks: Blocks<K, V>,
    before: Seq<Operation<K, V>>,
    a: Operation<K, V>,
    b: Operation<K, V>,
    after: Seq<Operation<K, V>>,
    cid_of: spec_fn(Form<K, V>) -> Seq<u8>,
)
    requires
        proper(before),
        proper(after),
        a.digest().len() == HASH_BYTE_SIZE,
        b.digest().len() == HASH_BYTE_SIZE,
        a.can_be_swapped_with(b),
    ensures
        apply_all(Tree::empty(), blocks, before + seq![a, b] + after) matches Ok(s) && apply_all(
            Tree::empty(),
            blocks,
            before + seq![b, a] + after,
        ) matches Ok(t) && s == t && identifier(s, cid_of) == identifier(t, cid_of),
{
    let ops = before + seq![a, b] + after;
    let others = before + seq![b, a] + after;
    lemma_proper_swapped(before, a, b, after);
    lemma_proper_swapped(before, b, a, after);
    lemma_swapped_map(Map::empty(), before, a, b, after);
    law_history_independence(blocks, ops, others, cid_of);
}

/// Operations with digests of the right length make a list of such operations.
proof fn lemma_proper_swapped<K, V>(
    before: Seq<Operation<K, V>>,
    a: Operation<K, V>,
    b: Operation<K, V>,
    after: Seq<Operation<K, V>>,
)
    requires
        proper(before),
        proper(after),
        a.digest().len() == HASH_BYTE_SIZE,
        b.digest().len() == HASH_BYTE_SIZE,
    ensures
        proper(before + seq![a, b] + after),
{
    let ops = before + seq![a, b] + after;
    assert forall|i: int| 0 <= i < ops.len() implies (#[trigger] ops[i]).digest().len()
        == HASH_BYTE_SIZE by {
        if i < before.len() {
            assert(ops[i] == before[i]);
        } else if i >= before.len() + 2 {
            assert(ops[i] == after[i - before.len() - 2]);
        }
    }
}

/// Swapping two operations next to each other that can be swapped makes the same map.
proof fn lemma_swapped_map<K, V>(
    m: Map<Seq<u8>, Entry<K, V>>,
    before: Seq<Operation<K, V>>,
    a: Operation<K, V>,
    b: Operation<K, V>,
    after: Seq<Operation<K, V>>,
)
    requires
        a.can_be_swapped_with(b),
    ensures
        map_apply_all(m, before + seq![a, b] + after) == map_apply_all(
            m,
            before + seq![b, a] + after,
        ),
    decreases after.len(),
{
    let ops = before + seq![a, b] + after;
    let others = before + seq![b, a] + after;
    if after.len() > 0 {
        assert(ops.drop_last() =~= before + seq![a, b] + after.drop_last());
        assert(others.drop_last() =~= before + seq![b, a] + after.drop_last());
        lemma_swapped_map(m, before, a, b, after.drop_last());
    } else {
        let n = map_apply_all(m, before);
        assert(ops.drop_last() =~= before.push(a));
        assert(ops.drop_last().drop_last() =~= before);
        assert(others.drop_last() =~= before.push(b));
        assert(others.drop_last().drop_last() =~= before);
        assert(map_apply_all(m, ops) == map_apply(map_apply(n, a), b)) by {
            assert(map_apply_all(m, ops.drop_last()) == map_apply(n, a));
        }
        assert(map_apply_all(m, others) == map_apply(map_apply(n, b), a)) by {
            assert(map_apply_all(m, others.drop_last()) == map_apply(n, b));
        }
        assert(map_apply(map_apply(n, a), b) =~= map_apply(map_apply(n, b), a));
    }
}

} // verus!
