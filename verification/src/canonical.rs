//! The canonical form of a trie, and how the operations keep it.
//!
//! A trie is canonical if each entry stands where its digest leads, buckets are in order and
//! hold no more than they may, and there is a node one level down only where a bucket would
//! not do.

use crate::constant::{HAMT_BITMASK_BIT_SIZE, HAMT_VALUES_BUCKET_SIZE, HASH_BYTE_SIZE};
use crate::constant::MAX_CURSOR_DEPTH;
use crate::error::Failure;
use crate::hash::{digest_less, lemma_digest_less_asymmetric, lemma_digest_less_total};
use crate::hash::{lemma_digest_less_transitive, lemma_nibble_bound, nibble};
use crate::tree::{find, greater_index, insert, lemma_greater_index, lemma_match_index, match_index};
use crate::tree::{remove, target, unloaded, Blocks, Branch, Entry, Tree};
use vstd::prelude::*;

verus! {

/// Holds if the nibbles of a digest start with `prefix`.
pub open spec fn under(digest: Seq<u8>, prefix: Seq<int>) -> bool {
    &&& digest.len() == HASH_BYTE_SIZE
    &&& forall|k: int| 0 <= k < prefix.len() ==> #[trigger] nibble(digest, k) == prefix[k]
}

/// Holds if each entry has a digest before those of the entries after it.
pub open spec fn in_order<K, V>(vs: Seq<Entry<K, V>>) -> bool {
    forall|i: int, j: int|
        0 <= i < j < vs.len() ==> digest_less(
            (#[trigger] vs[i]).digest,
            (#[trigger] vs[j]).digest,
        )
}

/// Holds if no two entries have the same digest.
pub open spec fn no_repeats<K, V>(vs: Seq<Entry<K, V>>) -> bool {
    forall|i: int, j: int|
        0 <= i < j < vs.len() ==> (#[trigger] vs[i]).digest != (#[trigger] vs[j]).digest
}

/// The number of entries in what a slot of a node at depth `d` holds.
pub open spec fn slot_size<K, V>(
    slot: Option<Branch<K, V>>,
    blocks: Blocks<K, V>,
    d: int,
) -> int
    decreases MAX_CURSOR_DEPTH - d, 0int, 0nat,
{
    match slot {
        None => 0,
        Some(Branch::Values(vs)) => vs.len() as int,
        Some(branch) => match target(branch, blocks) {
            Some(child) => if d < MAX_CURSOR_DEPTH {
                slots_size(child, blocks, d + 1, HAMT_BITMASK_BIT_SIZE as int)
            } else {
                0
            },
            None => 0,
        },
    }
}

/// The number of entries in the first `n` slots of a node at depth `d`.
pub open spec fn slots_size<K, V>(
    t: Tree<K, V>,
    blocks: Blocks<K, V>,
    d: int,
    n: int,
) -> int
    decreases MAX_CURSOR_DEPTH - d, n, 1nat,
{
    if n <= 0 {
        0
    } else {
        slots_size(t, blocks, d, n - 1) + slot_size(t.slots[n - 1], blocks, d)
    }
}

/// The number of entries in a node at depth `d` and the nodes below it.
pub open spec fn size<K, V>(t: Tree<K, V>, blocks: Blocks<K, V>, d: int) -> int {
    slots_size(t, blocks, d, HAMT_BITMASK_BIT_SIZE as int)
}

/// Holds if a node that is reached along `prefix` is in canonical form. All the nodes below it
/// are loaded.
pub open spec fn canonical<K, V>(
    t: Tree<K, V>,
    blocks: Blocks<K, V>,
    prefix: Seq<int>,
) -> bool
    decreases MAX_CURSOR_DEPTH - prefix.len(), 0nat,
{
    &&& prefix.len() < MAX_CURSOR_DEPTH
    &&& t.slots.len() == HAMT_BITMASK_BIT_SIZE
    &&& forall|i: int|
        0 <= i < HAMT_BITMASK_BIT_SIZE ==> canonical_slot(
            #[trigger] t.slots[i],
            blocks,
            prefix.push(i),
        )
}

/// Holds if what a slot holds, which is reached along `prefix`, is in canonical form: a bucket
/// that is neither empty nor overfull, or a node with more entries than a bucket holds.
pub open spec fn canonical_slot<K, V>(
    slot: Option<Branch<K, V>>,
    blocks: Blocks<K, V>,
    prefix: Seq<int>,
) -> bool
    decreases MAX_CURSOR_DEPTH - prefix.len(), 1nat,
{
    match slot {
        None => true,
        Some(Branch::Values(vs)) => canonical_bucket(vs, prefix),
        Some(branch) => match target(branch, blocks) {
            Some(child) => {
                &&& prefix.len() <= MAX_CURSOR_DEPTH
                &&& canonical(child, blocks, prefix)
                &&& size(child, blocks, prefix.len() as int) > HAMT_VALUES_BUCKET_SIZE
            },
            None => false,
        },
    }
}

/// Holds if a bucket that is reached along `prefix` is in canonical form.
pub open spec fn canonical_bucket<K, V>(vs: Seq<Entry<K, V>>, prefix: Seq<int>) -> bool {
    &&& 1 <= vs.len() <= HAMT_VALUES_BUCKET_SIZE
    &&& in_order(vs)
    &&& all_under(vs, prefix)
}

/// Holds if all of the entries have digests that start with `prefix`.
pub open spec fn all_under<K, V>(vs: Seq<Entry<K, V>>, prefix: Seq<int>) -> bool {
    forall|j: int| 0 <= j < vs.len() ==> under((#[trigger] vs[j]).digest, prefix)
}

/// The first entry of a bucket with the given digest.
pub open spec fn bucket_find<K, V>(vs: Seq<Entry<K, V>>, digest: Seq<u8>) -> Option<Entry<K, V>> {
    if match_index(vs, digest) < vs.len() {
        Some(vs[match_index(vs, digest)])
    } else {
        None
    }
}

/// What a walk along `path` finds in what a slot of a node at depth `d` holds.
pub open spec fn slot_find<K, V>(
    slot: Option<Branch<K, V>>,
    blocks: Blocks<K, V>,
    path: Seq<u8>,
    d: int,
) -> Result<Option<Entry<K, V>>, Failure> {
    match slot {
        None => Ok(None),
        Some(Branch::Values(vs)) => Ok(bucket_find(vs, path)),
        Some(branch) => match target(branch, blocks) {
            Some(child) => find(child, blocks, path, d + 1),
            None => Err(unloaded(branch)),
        },
    }
}

/// An ordered bucket repeats no digest.
pub proof fn lemma_in_order_no_repeats<K, V>(vs: Seq<Entry<K, V>>)
    requires
        in_order(vs),
    ensures
        no_repeats(vs),
{
    assert forall|i: int, j: int| 0 <= i < j < vs.len() implies (#[trigger] vs[i]).digest != (
    #[trigger] vs[j]).digest by {
        lemma_digest_less_asymmetric(vs[i].digest, vs[j].digest);
    }
}

/// What is found in entries that repeat no digest: each entry at its digest, and nothing
/// elsewhere.
pub proof fn lemma_bucket_find<K, V>(vs: Seq<Entry<K, V>>, digest: Seq<u8>)
    requires
        no_repeats(vs),
    ensures
        forall|j: int|
            0 <= j < vs.len() && (#[trigger] vs[j]).digest == digest ==> bucket_find(vs, digest)
                == Some(vs[j]),
        bucket_find(vs, digest) matches Some(e) ==> e.digest == digest && exists|j: int|
            0 <= j < vs.len() && #[trigger] vs[j] == e,
{
    lemma_match_index(vs, digest);
    let k = match_index(vs, digest);
    if k < vs.len() {
        assert(vs[k] == bucket_find(vs, digest)->0);
    }
    assert forall|j: int| 0 <= j < vs.len() && (#[trigger] vs[j]).digest == digest implies
        bucket_find(vs, digest) == Some(vs[j]) by {
        assert(!(j < k));
        if k < j {
            assert(vs[k].digest == digest);
            assert(vs[k].digest != vs[j].digest);
        }
    }
}

/// Inserting an entry in order keeps the order, and adds that entry.
pub proof fn lemma_ordered_insert<K, V>(vs: Seq<Entry<K, V>>, e: Entry<K, V>)
    requires
        in_order(vs),
        e.digest.len() == HASH_BYTE_SIZE,
        forall|j: int| 0 <= j < vs.len() ==> (#[trigger] vs[j]).digest.len() == HASH_BYTE_SIZE,
        forall|j: int| 0 <= j < vs.len() ==> (#[trigger] vs[j]).digest != e.digest,
    ensures
        in_order(vs.insert(greater_index(vs, e.digest), e)),
        forall|h: Seq<u8>| #[trigger]
            bucket_find(vs.insert(greater_index(vs, e.digest), e), h) == if h == e.digest {
                Some(e)
            } else {
                bucket_find(vs, h)
            },
{
    lemma_greater_index(vs, e.digest);
    let g = greater_index(vs, e.digest);
    let ws = vs.insert(g, e);
    assert forall|i: int| 0 <= i < g implies digest_less((#[trigger] vs[i]).digest, e.digest) by {
        lemma_digest_less_total(vs[i].digest, e.digest);
    }
    assert forall|i: int| g <= i < vs.len() implies digest_less(
        e.digest,
        (#[trigger] vs[i]).digest,
    ) by {
        if i > g {
            assert(digest_less(vs[g].digest, vs[i].digest));
            lemma_digest_less_transitive(e.digest, vs[g].digest, vs[i].digest);
        }
    }
    assert forall|i: int, j: int| 0 <= i < j < ws.len() implies digest_less(
        (#[trigger] ws[i]).digest,
        (#[trigger] ws[j]).digest,
    ) by {
        let a = if i < g {
            i
        } else {
            i - 1
        };
        let b = if j < g {
            j
        } else {
            j - 1
        };
        if i == g {
            assert(ws[j] == vs[j - 1]);
        } else if j == g {
            assert(ws[i] == vs[i]);
        } else {
            assert(ws[i] == vs[a]);
            assert(ws[j] == vs[b]);
        }
    }
    lemma_in_order_no_repeats(vs);
    lemma_in_order_no_repeats(ws);
    assert forall|h: Seq<u8>| #[trigger] bucket_find(ws, h) == if h == e.digest {
        Some(e)
    } else {
        bucket_find(vs, h)
    } by {
        lemma_bucket_find(vs, h);
        lemma_bucket_find(ws, h);
        if h == e.digest {
            assert(ws[g].digest == h);
        } else {
            if bucket_find(vs, h) is Some {
                let j = choose|j: int|
                    0 <= j < vs.len() && #[trigger] vs[j] == bucket_find(vs, h)->0;
                let k = if j < g {
                    j
                } else {
                    j + 1
                };
                assert(ws[k] == vs[j]);
            }
            if bucket_find(ws, h) is Some {
                let k = choose|k: int|
                    0 <= k < ws.len() && #[trigger] ws[k] == bucket_find(ws, h)->0;
                let j = if k < g {
                    k
                } else {
                    k - 1
                };
                assert(ws[k] == vs[j]);
            }
        }
    }
}

/// Replacing the entry at a digest by another with the same digest.
pub proof fn lemma_bucket_update<K, V>(vs: Seq<Entry<K, V>>, k: int, e: Entry<K, V>)
    requires
        in_order(vs),
        0 <= k < vs.len(),
        vs[k].digest == e.digest,
    ensures
        in_order(vs.update(k, e)),
        forall|h: Seq<u8>| #[trigger]
            bucket_find(vs.update(k, e), h) == if h == e.digest {
                Some(e)
            } else {
                bucket_find(vs, h)
            },
{
    let ws = vs.update(k, e);
    assert forall|i: int, j: int| 0 <= i < j < ws.len() implies digest_less(
        (#[trigger] ws[i]).digest,
        (#[trigger] ws[j]).digest,
    ) by {
        assert(ws[i].digest == vs[i].digest && ws[j].digest == vs[j].digest);
    }
    lemma_in_order_no_repeats(vs);
    lemma_in_order_no_repeats(ws);
    assert forall|h: Seq<u8>| #[trigger] bucket_find(ws, h) == if h == e.digest {
        Some(e)
    } else {
        bucket_find(vs, h)
    } by {
        lemma_bucket_find(vs, h);
        lemma_bucket_find(ws, h);
        if h == e.digest {
            assert(ws[k].digest == h);
        } else {
            if bucket_find(vs, h) is Some {
                let j = choose|j: int|
                    0 <= j < vs.len() && #[trigger] vs[j] == bucket_find(vs, h)->0;
                assert(ws[j] == vs[j]);
            }
            if bucket_find(ws, h) is Some {
                let j = choose|j: int|
                    0 <= j < ws.len() && #[trigger] ws[j] == bucket_find(ws, h)->0;
                assert(ws[j] == vs[j]);
            }
        }
    }
}

/// Removing the entry at a digest.
pub proof fn lemma_bucket_remove<K, V>(vs: Seq<Entry<K, V>>, k: int)
    requires
        in_order(vs),
        0 <= k < vs.len(),
    ensures
        in_order(vs.remove(k)),
        forall|h: Seq<u8>| #[trigger]
            bucket_find(vs.remove(k), h) == if h == vs[k].digest {
                None
            } else {
                bucket_find(vs, h)
            },
{
    let ws = vs.remove(k);
    assert forall|i: int, j: int| 0 <= i < j < ws.len() implies digest_less(
        (#[trigger] ws[i]).digest,
        (#[trigger] ws[j]).digest,
    ) by {
        let a = if i < k {
            i
        } else {
            i + 1
        };
        let b = if j < k {
            j
        } else {
            j + 1
        };
        assert(ws[i] == vs[a] && ws[j] == vs[b]);
    }
    lemma_in_order_no_repeats(vs);
    lemma_in_order_no_repeats(ws);
    assert forall|h: Seq<u8>| #[trigger] bucket_find(ws, h) == if h == vs[k].digest {
        None
    } else {
        bucket_find(vs, h)
    } by {
        lemma_bucket_find(vs, h);
        lemma_bucket_find(ws, h);
        if bucket_find(ws, h) is Some {
            let j = choose|j: int| 0 <= j < ws.len() && #[trigger] ws[j] == bucket_find(ws, h)->0;
            let a = if j < k {
                j
            } else {
                j + 1
            };
            assert(ws[j] == vs[a]);
            if h == vs[k].digest {
                assert(bucket_find(vs, h) == Some(vs[a]));
                if a < k {
                    assert(vs[a].digest != vs[k].digest);
                } else {
                    assert(vs[k].digest != vs[a].digest);
                }
            }
        }
        if h != vs[k].digest && bucket_find(vs, h) is Some {
            let j = choose|j: int| 0 <= j < vs.len() && #[trigger] vs[j] == bucket_find(vs, h)->0;
            let a = if j < k {
                j
            } else {
                j - 1
            };
            assert(ws[a] == vs[j]);
        }
    }
}

/// What a walk finds is what it finds in the slot that its nibble selects.
pub proof fn lemma_find_in_slot<K, V>(
    t: Tree<K, V>,
    blocks: Blocks<K, V>,
    path: Seq<u8>,
    d: int,
)
    requires
        d < MAX_CURSOR_DEPTH,
    ensures
        find(t, blocks, path, d) == slot_find(t.slots[nibble(path, d)], blocks, path, d),
{
}

/// In a canonical trie a lookup succeeds, and what it finds has the digest looked for.
pub proof fn lemma_found<K, V>(
    t: Tree<K, V>,
    blocks: Blocks<K, V>,
    prefix: Seq<int>,
    h: Seq<u8>,
)
    requires
        canonical(t, blocks, prefix),
        h.len() == HASH_BYTE_SIZE,
    ensures
        find(t, blocks, h, prefix.len() as int) matches Ok(found) && (found matches Some(e)
            ==> e.digest == h && under(h, prefix)),
    decreases MAX_CURSOR_DEPTH - prefix.len(),
{
    let d = prefix.len() as int;
    lemma_nibble_bound(h, d);
    let i = nibble(h, d);
    let q = prefix.push(i);
    assert(canonical_slot(t.slots[i], blocks, q));
    match t.slots[i] {
        None => {},
        Some(Branch::Values(vs)) => {
            lemma_match_index(vs, h);
            if match_index(vs, h) < vs.len() {
                assert(under(vs[match_index(vs, h)].digest, q));
            }
        },
        Some(branch) => {
            lemma_found(target(branch, blocks)->0, blocks, q, h);
        },
    }
    if find(t, blocks, h, d)->Ok_0 is Some {
        assert forall|k: int| 0 <= k < prefix.len() implies #[trigger] nibble(h, k)
            == prefix[k] by {
            assert(nibble(h, k) == q[k]);
        }
    }
}

/// No count of entries is negative, and that of a slot is no more than that of all of them.
pub proof fn lemma_sizes<K, V>(
    t: Tree<K, V>,
    blocks: Blocks<K, V>,
    d: int,
    n: int,
)
    requires
        0 <= n,
    ensures
        0 <= slots_size(t, blocks, d, n),
        forall|i: int|
            0 <= i < n ==> 0 <= slot_size(#[trigger] t.slots[i], blocks, d) <= slots_size(
                t,
                blocks,
                d,
                n,
            ),
    decreases MAX_CURSOR_DEPTH - d, n,
{
    if n > 0 {
        lemma_sizes(t, blocks, d, n - 1);
        let slot = t.slots[n - 1];
        assert(0 <= slot_size(slot, blocks, d)) by {
            match slot {
                None => {},
                Some(Branch::Values(_)) => {},
                Some(branch) => {
                    if target(branch, blocks) is Some && d < MAX_CURSOR_DEPTH {
                        lemma_sizes(
                            target(branch, blocks)->0,
                            blocks,
                            d + 1,
                            HAMT_BITMASK_BIT_SIZE as int,
                        );
                    }
                },
            }
        }
        assert(slots_size(t, blocks, d, n) == slots_size(t, blocks, d, n - 1) + slot_size(
            slot,
            blocks,
            d,
        ));
    }
}

/// Changing a slot changes the number of entries by the difference in that slot.
pub proof fn lemma_size_with<K, V>(
    t: Tree<K, V>,
    blocks: Blocks<K, V>,
    d: int,
    i: int,
    slot: Option<Branch<K, V>>,
    n: int,
)
    requires
        0 <= i < t.slots.len(),
        0 <= n <= t.slots.len(),
    ensures
        slots_size(t.with(i, slot), blocks, d, n) == slots_size(t, blocks, d, n) + if i < n {
            slot_size(slot, blocks, d) - slot_size(t.slots[i], blocks, d)
        } else {
            0
        },
    decreases n,
{
    if n > 0 {
        lemma_size_with(t, blocks, d, i, slot, n - 1);
    }
}

/// Changing a slot of a canonical node to hold something canonical: the node stays canonical,
/// and lookups change in that slot only.
pub proof fn lemma_with_slot<K, V>(
    t: Tree<K, V>,
    blocks: Blocks<K, V>,
    prefix: Seq<int>,
    i: int,
    slot: Option<Branch<K, V>>,
)
    requires
        canonical(t, blocks, prefix),
        0 <= i < HAMT_BITMASK_BIT_SIZE,
        canonical_slot(slot, blocks, prefix.push(i)),
    ensures
        canonical(t.with(i, slot), blocks, prefix),
        size(t.with(i, slot), blocks, prefix.len() as int) == size(
            t,
            blocks,
            prefix.len() as int,
        ) + slot_size(slot, blocks, prefix.len() as int) - slot_size(
            t.slots[i],
            blocks,
            prefix.len() as int,
        ),
        forall|h: Seq<u8>| #[trigger]
            find(t.with(i, slot), blocks, h, prefix.len() as int) == if nibble(
                h,
                prefix.len() as int,
            ) == i {
                slot_find(slot, blocks, h, prefix.len() as int)
            } else {
                find(t, blocks, h, prefix.len() as int)
            },
{
    let d = prefix.len() as int;
    let u = t.with(i, slot);
    assert forall|k: int| 0 <= k < HAMT_BITMASK_BIT_SIZE implies canonical_slot(
        #[trigger] u.slots[k],
        blocks,
        prefix.push(k),
    ) by {
        if k != i {
            assert(u.slots[k] == t.slots[k]);
        }
    }
    lemma_size_with(t, blocks, d, i, slot, HAMT_BITMASK_BIT_SIZE as int);
    assert forall|h: Seq<u8>| #[trigger] find(u, blocks, h, d) == if nibble(h, d) == i {
        slot_find(slot, blocks, h, d)
    } else {
        find(t, blocks, h, d)
    } by {
        lemma_nibble_bound(h, d);
        lemma_find_in_slot(u, blocks, h, d);
        lemma_find_in_slot(t, blocks, h, d);
    }
}

} // verus!
