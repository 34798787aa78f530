//! What the block of a trie says, and the identifier that it has for that.

use crate::bitmask::{byte_bits, rank};
use crate::canonical::{canonical, canonical_slot};
use crate::constant::{HAMT_BITMASK_BIT_SIZE, HAMT_VALUES_BUCKET_SIZE, MAX_CURSOR_DEPTH};
use crate::hash::{lemma_nibble_bound, nibble, AsBytes, Hasher};
use crate::ipld::{all_stored, decodes_node, decodes_pointer, encodes_first, encodes_node};
use crate::ipld::{encodes_pointer, first_unstored, lemma_first_unstored, notes_first};
use crate::ipld::{NodeIpld, PointerIpld};
use crate::loading::{lemma_all_set_are_shaped, shaped};
use crate::node::Node;
use crate::pointer::{entries, lemma_same_pointers, Pair, Pointer};
use crate::tree::{find, insert, insert_all, match_index, remove, target, Blocks, Branch, Entry};
use crate::tree::Tree;
use crate::unique::expand;
use vstd::prelude::*;

verus! {

/// What a block says of a node: for each slot, what is written for it.
pub struct Form<K, V> {
    pub slots: Seq<Option<FormBranch<K, V>>>,
}

/// What a block says of a slot in use.
pub enum FormBranch<K, V> {
    Values(Seq<Pair<K, V>>),
    Link(Seq<u8>),
}

/// The pairs of a bucket.
pub open spec fn pairs<K, V>(vs: Seq<Entry<K, V>>) -> Seq<Pair<K, V>> {
    Seq::new(vs.len(), |i: int| vs[i].pair)
}

/// What the block of a trie says, where `cid_of` gives the identifiers of blocks. It does not
/// depend on which identifiers are noted.
pub open spec fn form<K, V>(
    t: Tree<K, V>,
    cid_of: spec_fn(Form<K, V>) -> Seq<u8>,
) -> Form<K, V>
    decreases t,
{
    Form {
        slots: Seq::new(
            t.slots.len(),
            |i: int|
                if 0 <= i < t.slots.len() {
                    match t.slots[i] {
                        None => None,
                        Some(Branch::Values(vs)) => Some(FormBranch::Values(pairs(vs))),
                        Some(Branch::Subtree(child, _)) => Some(
                            FormBranch::Link(cid_of(form(child, cid_of))),
                        ),
                        Some(Branch::Block(cid)) => Some(FormBranch::Link(cid)),
                    }
                } else {
                    None
                },
        ),
    }
}

/// The identifier of the block of a trie.
pub open spec fn identifier<K, V>(
    t: Tree<K, V>,
    cid_of: spec_fn(Form<K, V>) -> Seq<u8>,
) -> Seq<u8> {
    cid_of(form(t, cid_of))
}

/// Tries with identifiers that may be noted for them.
pub type Notes<K, V> = Set<(Tree<K, V>, Seq<u8>)>;

/// Holds if each identifier that is noted in a trie is one that `notes` has for the node that
/// it is noted for.
pub open spec fn notes_among<K, V>(t: Tree<K, V>, notes: Notes<K, V>) -> bool
    decreases t,
{
    forall|i: int|
        0 <= i < t.slots.len() ==> match #[trigger] t.slots[i] {
            Some(Branch::Subtree(child, noted)) => {
                &&& noted matches Some(cid) ==> notes.contains((child, cid))
                &&& notes_among(child, notes)
            },
            _ => true,
        }
}

/// The tries with the identifiers of their blocks.
pub open spec fn right_notes<K, V>(cid_of: spec_fn(Form<K, V>) -> Seq<u8>) -> Notes<K, V> {
    Set::new(|note: (Tree<K, V>, Seq<u8>)| note.1 == identifier(note.0, cid_of))
}

/// Holds if each node is loaded under the identifier of its block.
pub open spec fn content_addressed<K, V>(
    blocks: Blocks<K, V>,
    cid_of: spec_fn(Form<K, V>) -> Seq<u8>,
) -> bool {
    forall|cid: Seq<u8>| #[trigger]
        blocks.contains_key(cid) ==> identifier(blocks[cid], cid_of) == cid
}

/// The trie with the nodes one level down replaced by the identifiers that are noted for them.
pub open spec fn sealed<K, V>(t: Tree<K, V>) -> Tree<K, V> {
    Tree {
        slots: Seq::new(
            t.slots.len(),
            |i: int|
                match t.slots[i] {
                    Some(Branch::Subtree(_, Some(cid))) => Some(Branch::Block(cid)),
                    slot => slot,
                },
        ),
    }
}

/// Holds if the nodes below a trie for which identifiers are noted are in the block store, as
/// they are read back from it.
pub open spec fn stored<K, V>(t: Tree<K, V>, blocks: Blocks<K, V>) -> bool
    decreases t,
{
    forall|i: int|
        0 <= i < t.slots.len() ==> match #[trigger] t.slots[i] {
            Some(Branch::Subtree(child, noted)) => {
                &&& noted matches Some(cid) ==> blocks.contains_key(cid) && blocks[cid] == sealed(
                    child,
                )
                &&& stored(child, blocks)
            },
            _ => true,
        }
}

/// The trie without the identifiers that are noted.
pub open spec fn without_notes<K, V>(t: Tree<K, V>) -> Tree<K, V>
    decreases t,
{
    Tree {
        slots: Seq::new(
            t.slots.len(),
            |i: int|
                if 0 <= i < t.slots.len() {
                    match t.slots[i] {
                        Some(Branch::Subtree(child, _)) => Some(
                            Branch::Subtree(without_notes(child), None),
                        ),
                        slot => slot,
                    }
                } else {
                    None
                },
        ),
    }
}

/// What a form says, by slot.
pub open spec fn form_of<K, V>(ipld: NodeIpld<K, V>) -> Form<K, V> {
    let b = byte_bits(ipld.bitmask@);
    Form {
        slots: Seq::new(
            HAMT_BITMASK_BIT_SIZE as nat,
            |i: int|
                if b[i] && 0 <= rank(b, i) < ipld.pointers@.len() {
                    Some(
                        match ipld.pointers@[rank(b, i)] {
                            PointerIpld::Values(values) => FormBranch::Values(
                                Seq::new(values@.len(), |j: int| *values@[j]),
                            ),
                            PointerIpld::Link(cid) => FormBranch::Link(cid@),
                        },
                    )
                } else {
                    None
                },
        ),
    }
}

/// Loading a node under its identifier instead of holding it changes no block and so no
/// identifier.
pub proof fn lemma_expand_keeps_form<K, V>(
    t: Tree<K, V>,
    blocks: Blocks<K, V>,
    d: int,
    cid_of: spec_fn(Form<K, V>) -> Seq<u8>,
)
    requires
        content_addressed(blocks, cid_of),
    ensures
        form(expand(t, blocks, d), cid_of) == form(t, cid_of),
    decreases MAX_CURSOR_DEPTH - d,
{
    let u = expand(t, blocks, d);
    let f = form(u, cid_of);
    let g = form(t, cid_of);
    assert forall|i: int| 0 <= i < t.slots.len() implies f.slots[i] == g.slots[i] by {
        match t.slots[i] {
            None => {},
            Some(branch) => {
                if target(branch, blocks) is Some && d < MAX_CURSOR_DEPTH {
                    lemma_expand_keeps_form(target(branch, blocks)->0, blocks, d + 1, cid_of);
                }
            },
        }
    }
    assert(f.slots =~= g.slots);
}

/// `to_ipld` writes the block of the node's trie: what it makes of a node that is ready to be
/// written says what `form` says, if the identifiers that are noted are right.
pub proof fn law_to_ipld_writes_form<K: AsBytes, V, H: Hasher>(
    node: &Node<K, V, H>,
    ipld: NodeIpld<K, V>,
    cid_of: spec_fn(Form<K, V>) -> Seq<u8>,
)
    requires
        encodes_node(node, ipld),
        notes_among(node@, right_notes(cid_of)),
    ensures
        form_of(ipld) == form(node@, cid_of),
{
    let b = node.used();
    let f = form_of(ipld);
    let g = form(node@, cid_of);
    assert forall|i: int| 0 <= i < HAMT_BITMASK_BIT_SIZE implies f.slots[i] == g.slots[i] by {
        let r = rank(b, i);
        if b[i] && 0 <= r < node.pointers@.len() {
            let pointer = node.pointers@[r];
            assert(encodes_pointer(pointer, ipld.pointers@[r]));
            assert(node@.slots[i] == Some(pointer@));
            if let Pointer::Values(values) = pointer {
                let written = ipld.pointers@[r]->Values_0;
                assert(Seq::new(written@.len(), |j: int| *written@[j]) =~= pairs(
                    entries::<K, V, H>(values@),
                ));
            }
        } else {
            assert(node@.slots[i] is None);
        }
    }
    assert(f.slots =~= g.slots);
}

/// Noting the identifier of the block that had to be stored leaves the notes right.
pub proof fn law_noting_keeps_notes_right<K: AsBytes, V, H: Hasher>(
    before: &Node<K, V, H>,
    ipld: NodeIpld<K, V>,
    after: &Node<K, V, H>,
    cid_of: spec_fn(Form<K, V>) -> Seq<u8>,
)
    requires
        notes_among(before@, right_notes(cid_of)),
        encodes_first(before, ipld),
        notes_first(before, cid_of(form_of(ipld)), after),
    ensures
        notes_among(after@, right_notes(cid_of)),
    decreases before,
{
    let notes = right_notes(cid_of);
    let b = before.used();
    let k = first_unstored(before.pointers@);
    lemma_first_unstored(before.pointers@);
    assert forall|i: int| 0 <= i < HAMT_BITMASK_BIT_SIZE implies match #[trigger] after@.slots[i] {
        Some(Branch::Subtree(child, noted)) => {
            &&& noted matches Some(cid) ==> notes.contains((child, cid))
            &&& notes_among(child, notes)
        },
        _ => true,
    } by {
        let r = rank(b, i);
        if b[i] && 0 <= r < before.pointers@.len() {
            assert(before@.slots[i] == Some(before.pointers@[r]@));
            assert(after@.slots[i] == Some(after.pointers@[r]@));
            if r == k {
                let child = before.pointers@[k]->Link_0->value;
                reveal_with_fuel(encodes_first, 2);
                if all_stored(child.pointers@) {
                    law_to_ipld_writes_form(&*child, ipld, cid_of);
                } else {
                    let grown = after.pointers@[k]->Link_0->value;
                    law_noting_keeps_notes_right(&*child, ipld, &*grown, cid_of);
                }
            } else {
                lemma_same_pointers(after.pointers@[r], before.pointers@[r]);
            }
        }
    }
}

/// Noting an identifier changes nothing but the notes.
pub proof fn law_noting_keeps_trie<K: AsBytes, V, H: Hasher>(
    before: &Node<K, V, H>,
    cid: Seq<u8>,
    after: &Node<K, V, H>,
)
    requires
        notes_first(before, cid, after),
    ensures
        without_notes(after@) == without_notes(before@),
    decreases before,
{
    let b = before.used();
    let k = first_unstored(before.pointers@);
    lemma_first_unstored(before.pointers@);
    let f = without_notes(after@);
    let g = without_notes(before@);
    assert forall|i: int| 0 <= i < HAMT_BITMASK_BIT_SIZE implies f.slots[i] == g.slots[i] by {
        let r = rank(b, i);
        if b[i] && 0 <= r < before.pointers@.len() {
            assert(before@.slots[i] == Some(before.pointers@[r]@));
            assert(after@.slots[i] == Some(after.pointers@[r]@));
            if r == k {
                let child = before.pointers@[k]->Link_0->value;
                if !all_stored(child.pointers@) {
                    law_noting_keeps_trie(&*child, cid, &*after.pointers@[k]->Link_0->value);
                }
            } else {
                lemma_same_pointers(after.pointers@[r], before.pointers@[r]);
            }
        } else {
            assert(after@.slots[i] is None);
            assert(before@.slots[i] is None);
        }
    }
    assert(f.slots =~= g.slots);
}

/// What is found in a trie does not depend on which identifiers are noted.
pub proof fn law_notes_do_not_change_contents<K, V>(
    a: Tree<K, V>,
    b: Tree<K, V>,
    blocks: Blocks<K, V>,
    h: Seq<u8>,
    c: int,
)
    requires
        shaped(a, blocks, c),
        without_notes(a) == without_notes(b),
    ensures
        find(a, blocks, h, c) == find(b, blocks, h, c),
    decreases MAX_CURSOR_DEPTH - c,
{
    if c < MAX_CURSOR_DEPTH {
        lemma_nibble_bound(h, c);
        let i = nibble(h, c);
        assert(without_notes(a).slots[i] == without_notes(b).slots[i]);
        assert(without_notes(a).slots.len() == a.slots.len());
        assert(without_notes(b).slots.len() == b.slots.len());
        if let Some(Branch::Subtree(child, _)) = a.slots[i] {
            law_notes_do_not_change_contents(child, b.slots[i]->0->Subtree_0, blocks, h, c + 1);
        }
    }
}

/// The block and the identifier of a trie do not depend on which identifiers are noted.
pub proof fn law_notes_do_not_change_identifier<K, V>(
    a: Tree<K, V>,
    b: Tree<K, V>,
    cid_of: spec_fn(Form<K, V>) -> Seq<u8>,
)
    requires
        without_notes(a) == without_notes(b),
    ensures
        form(a, cid_of) == form(b, cid_of),
        identifier(a, cid_of) == identifier(b, cid_of),
    decreases a,
{
    let f = form(a, cid_of);
    let g = form(b, cid_of);
    assert(without_notes(a).slots.len() == a.slots.len());
    assert(without_notes(b).slots.len() == b.slots.len());
    assert forall|i: int| 0 <= i < a.slots.len() implies f.slots[i] == g.slots[i] by {
        assert(without_notes(a).slots[i] == without_notes(b).slots[i]);
        if let Some(Branch::Subtree(child, _)) = a.slots[i] {
            law_notes_do_not_change_identifier(child, b.slots[i]->0->Subtree_0, cid_of);
        }
    }
    assert(f.slots =~= g.slots);
}

/// Changing a slot to hold what has the right notes.
proof fn lemma_notes_with<K, V>(
    t: Tree<K, V>,
    i: int,
    slot: Option<Branch<K, V>>,
    notes: Notes<K, V>,
)
    requires
        notes_among(t, notes),
        0 <= i < t.slots.len(),
        slot matches Some(Branch::Subtree(child, noted)) ==> noted is None && notes_among(
            child,
            notes,
        ),
    ensures
        notes_among(t.with(i, slot), notes),
{
    let u = t.with(i, slot);
    assert forall|k: int| 0 <= k < u.slots.len() implies match #[trigger] u.slots[k] {
        Some(Branch::Subtree(child, noted)) => {
            &&& noted matches Some(cid) ==> notes.contains((child, cid))
            &&& notes_among(child, notes)
        },
        _ => true,
    } by {
        if k != i {
            assert(u.slots[k] == t.slots[k]);
        }
    }
}

/// Setting an entry notes no identifier: those that are noted afterwards were noted for the
/// same node before, in the trie or in a block that is loaded.
pub proof fn law_set_notes_nothing<K, V>(
    t: Tree<K, V>,
    blocks: Blocks<K, V>,
    path: Seq<u8>,
    c: int,
    e: Entry<K, V>,
    notes: Notes<K, V>,
)
    requires
        shaped(t, blocks, c),
        notes_among(t, notes),
        forall|cid: Seq<u8>| #[trigger]
            blocks.contains_key(cid) ==> notes_among(blocks[cid], notes),
    ensures
        insert(t, blocks, path, c, e) matches Ok(u) ==> notes_among(u, notes),
    decreases MAX_CURSOR_DEPTH - c, 0nat,
{
    if insert(t, blocks, path, c, e) is Ok {
        lemma_nibble_bound(path, c);
        let i = nibble(path, c);
        match t.slots[i] {
            Some(Branch::Values(vs)) if match_index(vs, path) >= vs.len() && vs.len()
                >= HAMT_VALUES_BUCKET_SIZE => {
                lemma_all_set_note_nothing(blocks, vs.push(e), c + 1, notes);
            },
            Some(branch) if !(branch is Values) => {
                law_set_notes_nothing(
                    target(branch, blocks)->0,
                    blocks,
                    path,
                    c + 1,
                    e,
                    notes,
                );
            },
            _ => {},
        }
        let u = insert(t, blocks, path, c, e)->Ok_0;
        lemma_notes_with(t, i, u.slots[i], notes);
    }
}

/// Setting entries in turn, from nothing, notes no identifier.
proof fn lemma_all_set_note_nothing<K, V>(
    blocks: Blocks<K, V>,
    es: Seq<Entry<K, V>>,
    c: int,
    notes: Notes<K, V>,
)
    requires
        forall|cid: Seq<u8>| #[trigger]
            blocks.contains_key(cid) ==> notes_among(blocks[cid], notes),
    ensures
        insert_all(Tree::empty(), blocks, es, c) matches Ok(u) ==> notes_among(u, notes),
    decreases MAX_CURSOR_DEPTH - c, es.len() + 1,
{
    if es.len() > 0 {
        lemma_all_set_note_nothing(blocks, es.drop_last(), c, notes);
        lemma_all_set_are_shaped(blocks, c, es.drop_last());
        if let Ok(t) = insert_all(Tree::empty(), blocks, es.drop_last(), c) {
            law_set_notes_nothing(t, blocks, es.last().digest, c, es.last(), notes);
        }
    }
}

/// Removing a digest notes no identifier: those that are noted afterwards were noted for the
/// same node before, in the trie or in a block that is loaded.
pub proof fn law_remove_notes_nothing<K, V>(
    t: Tree<K, V>,
    blocks: Blocks<K, V>,
    path: Seq<u8>,
    c: int,
    notes: Notes<K, V>,
)
    requires
        shaped(t, blocks, c),
        notes_among(t, notes),
        forall|cid: Seq<u8>| #[trigger]
            blocks.contains_key(cid) ==> notes_among(blocks[cid], notes),
    ensures
        remove(t, blocks, path, c) matches Ok((u, _)) ==> notes_among(u, notes),
    decreases MAX_CURSOR_DEPTH - c,
{
    if remove(t, blocks, path, c) is Ok {
        lemma_nibble_bound(path, c);
        let i = nibble(path, c);
        if let Some(branch) = t.slots[i] {
            if !(branch is Values) {
                law_remove_notes_nothing(target(branch, blocks)->0, blocks, path, c + 1, notes);
            }
            let u = remove(t, blocks, path, c)->Ok_0.0;
            if u != t {
                lemma_notes_with(t, i, u.slots[i], notes);
            }
        }
    }
}

/// Reading back the block of a node gives the node, with each child in memory replaced by its
/// identifier: what `from_ipld` makes of what `to_ipld` wrote.
pub proof fn law_from_ipld_reads_back<K: AsBytes, V, H: Hasher>(
    node: &Node<K, V, H>,
    ipld: NodeIpld<K, V>,
    read: &Node<K, V, H>,
)
    requires
        encodes_node(node, ipld),
        decodes_node(ipld, read),
    ensures
        node.wf() ==> read.wf(),
        read@ == sealed(node@),
{
    let b = node.used();
    assert forall|i: int| 0 <= i < read.pointers@.len() implies (
    #[trigger] read.pointers@[i]).wf() by {
        assert(decodes_pointer(ipld.pointers@[i], read.pointers@[i]));
    }
    let want = sealed(node@);
    assert forall|i: int| 0 <= i < HAMT_BITMASK_BIT_SIZE implies read@.slots[i]
        == want.slots[i] by {
        let r = rank(b, i);
        if b[i] && 0 <= r < node.pointers@.len() {
            assert(encodes_pointer(node.pointers@[r], ipld.pointers@[r]));
            assert(decodes_pointer(ipld.pointers@[r], read.pointers@[r]));
            assert(node@.slots[i] == Some(node.pointers@[r]@));
            assert(read@.slots[i] == Some(read.pointers@[r]@));
        } else {
            assert(node@.slots[i] is None);
        }
    }
    assert(read@.slots =~= want.slots);
}

/// Storing the block that has to be stored and noting its identifier leaves all nodes with an
/// identifier stored, where the block store reads back under the identifier what was written.
pub proof fn law_noting_keeps_stored<K: AsBytes, V, H: Hasher>(
    before: &Node<K, V, H>,
    ipld: NodeIpld<K, V>,
    read: &Node<K, V, H>,
    cid: Seq<u8>,
    after: &Node<K, V, H>,
    blocks: Blocks<K, V>,
)
    requires
        stored(before@, blocks),
        encodes_first(before, ipld),
        decodes_node(ipld, read),
        blocks.contains_key(cid),
        blocks[cid] == read@,
        notes_first(before, cid, after),
    ensures
        stored(after@, blocks),
    decreases before,
{
    let b = before.used();
    let k = first_unstored(before.pointers@);
    lemma_first_unstored(before.pointers@);
    assert forall|i: int| 0 <= i < HAMT_BITMASK_BIT_SIZE implies match #[trigger] after@.slots[i] {
        Some(Branch::Subtree(child, noted)) => {
            &&& noted matches Some(cid) ==> blocks.contains_key(cid) && blocks[cid] == sealed(child)
            &&& stored(child, blocks)
        },
        _ => true,
    } by {
        let r = rank(b, i);
        if b[i] && 0 <= r < before.pointers@.len() {
            assert(before@.slots[i] == Some(before.pointers@[r]@));
            assert(after@.slots[i] == Some(after.pointers@[r]@));
            if r == k {
                let child = before.pointers@[k]->Link_0->value;
                reveal_with_fuel(encodes_first, 2);
                if all_stored(child.pointers@) {
                    law_from_ipld_reads_back(&*child, ipld, read);
                } else {
                    let grown = after.pointers@[k]->Link_0->value;
                    law_noting_keeps_stored(&*child, ipld, read, cid, &*grown, blocks);
                }
            } else {
                lemma_same_pointers(after.pointers@[r], before.pointers@[r]);
            }
        }
    }
}

/// The node that is read back has the block that was written, and so its identifier, if the
/// identifiers that are noted are right.
pub proof fn law_reading_back_keeps_identifier<K, V>(
    t: Tree<K, V>,
    cid_of: spec_fn(Form<K, V>) -> Seq<u8>,
)
    requires
        notes_among(t, right_notes(cid_of)),
    ensures
        form(sealed(t), cid_of) == form(t, cid_of),
        identifier(sealed(t), cid_of) == identifier(t, cid_of),
{
    let f = form(sealed(t), cid_of);
    let g = form(t, cid_of);
    assert forall|i: int| 0 <= i < t.slots.len() implies f.slots[i] == g.slots[i] by {
        match t.slots[i] {
            Some(Branch::Subtree(child, Some(cid))) => {
                assert(sealed(t).slots[i] == Some(Branch::<K, V>::Block(cid)));
                assert(right_notes(cid_of).contains((child, cid)));
            },
            slot => {
                assert(sealed(t).slots[i] == slot);
            },
        }
    }
    assert(f.slots =~= g.slots);
}

/// What is found in a trie that is read back from a block store is what was found in the trie
/// that was stored.
pub proof fn law_reading_back_keeps_contents<K, V>(
    t: Tree<K, V>,
    blocks: Blocks<K, V>,
    h: Seq<u8>,
    c: int,
)
    requires
        shaped(t, blocks, c),
        stored(t, blocks),
    ensures
        find(sealed(t), blocks, h, c) == find(t, blocks, h, c),
    decreases MAX_CURSOR_DEPTH - c,
{
    if c < MAX_CURSOR_DEPTH {
        lemma_nibble_bound(h, c);
        let i = nibble(h, c);
        match t.slots[i] {
            Some(Branch::Subtree(child, Some(cid))) => {
                assert(sealed(t).slots[i] == Some(Branch::<K, V>::Block(cid)));
                law_reading_back_keeps_contents(child, blocks, h, c + 1);
            },
            slot => {
                assert(sealed(t).slots[i] == slot);
            },
        }
    }
}

/// A canonical trie that is read back from a block store is the trie that was stored, once its
/// blocks are expanded.
pub proof fn law_reading_back_keeps_trie<K, V>(
    t: Tree<K, V>,
    blocks: Blocks<K, V>,
    prefix: Seq<int>,
)
    requires
        canonical(t, blocks, prefix),
        stored(t, blocks),
    ensures
        expand(sealed(t), blocks, prefix.len() as int) == expand(t, blocks, prefix.len() as int),
    decreases MAX_CURSOR_DEPTH - prefix.len(),
{
    let d = prefix.len() as int;
    let s = sealed(t);
    let x = expand(s, blocks, d);
    let y = expand(t, blocks, d);
    assert forall|i: int| 0 <= i < t.slots.len() implies x.slots[i] == y.slots[i] by {
        assert(canonical_slot(t.slots[i], blocks, prefix.push(i)));
        match t.slots[i] {
            Some(Branch::Subtree(child, Some(cid))) => {
                assert(s.slots[i] == Some(Branch::<K, V>::Block(cid)));
                assert(target(s.slots[i]->0, blocks) == Some(sealed(child)));
                law_reading_back_keeps_trie(child, blocks, prefix.push(i));
            },
            slot => {
                assert(s.slots[i] == slot);
            },
        }
    }
    assert(x.slots =~= y.slots);
}

} // verus!
