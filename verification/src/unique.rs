//! Proof that a canonical trie is determined by what is found in it.

use crate::canonical::{bucket_find, canonical, canonical_slot, in_order, lemma_bucket_find};
use crate::canonical::{lemma_find_in_slot, lemma_found, lemma_in_order_no_repeats, size, slot_find};
use crate::canonical::{slot_size, slots_size, under};
use crate::constant::{HAMT_BITMASK_BIT_SIZE, HAMT_VALUES_BUCKET_SIZE, HASH_BYTE_SIZE};
use crate::constant::MAX_CURSOR_DEPTH;
use crate::error::Failure;
use crate::hash::{digest_less, lemma_digest_less_asymmetric, nibble};
use crate::tree::{find, target, Blocks, Branch, Entry, Tree};
use vstd::prelude::*;

verus! {

/// The trie with each identifier of a loaded block replaced by the block's node, and without
/// the identifiers that are noted, down to the depth that a path can have.
pub open spec fn expand<K, V>(t: Tree<K, V>, blocks: Blocks<K, V>, d: int) -> Tree<K, V>
    decreases MAX_CURSOR_DEPTH - d,
{
    Tree {
        slots: Seq::new(
            t.slots.len(),
            |i: int|
                match t.slots[i] {
                    None => None,
                    Some(branch) => match target(branch, blocks) {
                        Some(child) => if d < MAX_CURSOR_DEPTH {
                            Some(Branch::Subtree(expand(child, blocks, d + 1), None))
                        } else {
                            Some(branch)
                        },
                        None => Some(branch),
                    },
                },
        ),
    }
}

/// Holds if lookups give the same in both tries.
pub open spec fn same_contents<K, V>(
    a: Tree<K, V>,
    b: Tree<K, V>,
    blocks: Blocks<K, V>,
    d: int,
) -> bool {
    forall|h: Seq<u8>|
        h.len() == HASH_BYTE_SIZE ==> #[trigger] find(a, blocks, h, d) == find(b, blocks, h, d)
}

/// Ordered buckets in which the same is found agree on their first `n` entries.
proof fn lemma_same_entries<K, V>(vs: Seq<Entry<K, V>>, ws: Seq<Entry<K, V>>, n: int)
    requires
        in_order(vs),
        in_order(ws),
        forall|j: int| 0 <= j < vs.len() ==> (#[trigger] vs[j]).digest.len() == HASH_BYTE_SIZE,
        forall|j: int| 0 <= j < ws.len() ==> (#[trigger] ws[j]).digest.len() == HASH_BYTE_SIZE,
        forall|h: Seq<u8>|
            h.len() == HASH_BYTE_SIZE ==> #[trigger] bucket_find(vs, h) == bucket_find(ws, h),
        0 <= n <= vs.len(),
        n <= ws.len(),
    ensures
        forall|j: int| 0 <= j < n ==> vs[j] == ws[j],
    decreases n,
{
    if n > 0 {
        lemma_same_entries(vs, ws, n - 1);
        let i = n - 1;
        lemma_in_order_no_repeats(vs);
        lemma_in_order_no_repeats(ws);
        lemma_bucket_find(vs, vs[i].digest);
        lemma_bucket_find(ws, vs[i].digest);
        assert(bucket_find(vs, vs[i].digest) == Some(vs[i]));
        let m = choose|m: int|
            0 <= m < ws.len() && #[trigger] ws[m] == bucket_find(ws, vs[i].digest)->0;
        lemma_bucket_find(vs, ws[i].digest);
        lemma_bucket_find(ws, ws[i].digest);
        assert(bucket_find(ws, ws[i].digest) == Some(ws[i]));
        let k = choose|k: int|
            0 <= k < vs.len() && #[trigger] vs[k] == bucket_find(vs, ws[i].digest)->0;
        assert(m >= i) by {
            if m < i {
                assert(vs[m] == ws[m]);
                assert(vs[m].digest != vs[i].digest);
            }
        }
        assert(k >= i) by {
            if k < i {
                assert(vs[k] == ws[k]);
                assert(ws[k].digest != ws[i].digest);
            }
        }
        if m > i && k > i {
            assert(digest_less(ws[i].digest, ws[m].digest));
            assert(digest_less(vs[i].digest, vs[k].digest));
            lemma_digest_less_asymmetric(ws[i].digest, ws[m].digest);
        }
    }
}

/// Ordered buckets in which the same is found are the same.
proof fn lemma_same_buckets<K, V>(vs: Seq<Entry<K, V>>, ws: Seq<Entry<K, V>>)
    requires
        in_order(vs),
        in_order(ws),
        forall|j: int| 0 <= j < vs.len() ==> (#[trigger] vs[j]).digest.len() == HASH_BYTE_SIZE,
        forall|j: int| 0 <= j < ws.len() ==> (#[trigger] ws[j]).digest.len() == HASH_BYTE_SIZE,
        forall|h: Seq<u8>|
            h.len() == HASH_BYTE_SIZE ==> #[trigger] bucket_find(vs, h) == bucket_find(ws, h),
    ensures
        vs == ws,
{
    if vs.len() <= ws.len() {
        lemma_same_entries(vs, ws, vs.len() as int);
        lemma_no_more_entries(vs, ws);
    } else {
        lemma_same_entries(vs, ws, ws.len() as int);
        lemma_no_more_entries(ws, vs);
    }
    assert(vs =~= ws);
}

/// An ordered bucket that starts with all of another in which the same is found is no longer.
proof fn lemma_no_more_entries<K, V>(vs: Seq<Entry<K, V>>, ws: Seq<Entry<K, V>>)
    requires
        in_order(vs),
        in_order(ws),
        vs.len() <= ws.len(),
        forall|j: int| 0 <= j < vs.len() ==> vs[j] == ws[j],
        forall|j: int| 0 <= j < ws.len() ==> (#[trigger] ws[j]).digest.len() == HASH_BYTE_SIZE,
        forall|h: Seq<u8>|
            h.len() == HASH_BYTE_SIZE ==> #[trigger] bucket_find(vs, h) == bucket_find(ws, h),
    ensures
        vs.len() == ws.len(),
{
    if vs.len() < ws.len() {
        let n = vs.len() as int;
        lemma_in_order_no_repeats(vs);
        lemma_in_order_no_repeats(ws);
        lemma_bucket_find(vs, ws[n].digest);
        lemma_bucket_find(ws, ws[n].digest);
        assert(bucket_find(ws, ws[n].digest) == Some(ws[n]));
        assert(bucket_find(vs, ws[n].digest) is Some);
        let k = choose|k: int|
            0 <= k < vs.len() && #[trigger] vs[k] == bucket_find(vs, ws[n].digest)->0;
        assert(ws[k].digest != ws[n].digest);
    }
}

/// As many different digests as there are entries in the first `n` slots, each found below
/// one of these slots.
pub proof fn lemma_members<K, V>(
    t: Tree<K, V>,
    blocks: Blocks<K, V>,
    prefix: Seq<int>,
    n: int,
) -> (ds: Seq<Seq<u8>>)
    requires
        canonical(t, blocks, prefix),
        0 <= n <= HAMT_BITMASK_BIT_SIZE,
    ensures
        ds.len() == slots_size(t, blocks, prefix.len() as int, n),
        ds.no_duplicates(),
        forall|j: int|
            0 <= j < ds.len() ==> {
                &&& (#[trigger] ds[j]).len() == HASH_BYTE_SIZE
                &&& nibble(ds[j], prefix.len() as int) < n
                &&& find(t, blocks, ds[j], prefix.len() as int) is Ok
                &&& find(t, blocks, ds[j], prefix.len() as int)->Ok_0 is Some
            },
    decreases MAX_CURSOR_DEPTH - prefix.len(), n,
{
    let d = prefix.len() as int;
    if n == 0 {
        Seq::empty()
    } else {
        let rest = lemma_members(t, blocks, prefix, n - 1);
        let slot = t.slots[n - 1];
        let q = prefix.push(n - 1);
        assert(canonical_slot(slot, blocks, q));
        assert(slots_size(t, blocks, d, n) == slots_size(t, blocks, d, n - 1) + slot_size(
            slot,
            blocks,
            d,
        ));
        let more = lemma_slot_members(t, blocks, prefix, n - 1);
        let ds = rest + more;
        assert forall|j: int| 0 <= j < ds.len() implies {
            &&& (#[trigger] ds[j]).len() == HASH_BYTE_SIZE
            &&& nibble(ds[j], d) < n
            &&& find(t, blocks, ds[j], d) is Ok
            &&& find(t, blocks, ds[j], d)->Ok_0 is Some
        } by {
            if j < rest.len() {
                assert(ds[j] == rest[j]);
            } else {
                assert(ds[j] == more[j - rest.len()]);
            }
        }
        assert forall|i: int, j: int|
            0 <= i < ds.len() && 0 <= j < ds.len() && i != j implies ds[i] != ds[j] by {
            if i < rest.len() {
                assert(ds[i] == rest[i]);
            } else {
                assert(ds[i] == more[i - rest.len()]);
            }
            if j < rest.len() {
                assert(ds[j] == rest[j]);
            } else {
                assert(ds[j] == more[j - rest.len()]);
            }
        }
        ds
    }
}

/// As many different digests as there are entries in slot `i`, each found below that slot.
proof fn lemma_slot_members<K, V>(
    t: Tree<K, V>,
    blocks: Blocks<K, V>,
    prefix: Seq<int>,
    i: int,
) -> (ds: Seq<Seq<u8>>)
    requires
        canonical(t, blocks, prefix),
        0 <= i < HAMT_BITMASK_BIT_SIZE,
    ensures
        ds.len() == slot_size(t.slots[i], blocks, prefix.len() as int),
        ds.no_duplicates(),
        forall|j: int|
            0 <= j < ds.len() ==> {
                &&& (#[trigger] ds[j]).len() == HASH_BYTE_SIZE
                &&& nibble(ds[j], prefix.len() as int) == i
                &&& find(t, blocks, ds[j], prefix.len() as int) is Ok
                &&& find(t, blocks, ds[j], prefix.len() as int)->Ok_0 is Some
            },
    decreases MAX_CURSOR_DEPTH - prefix.len(), 0int,
{
    let d = prefix.len() as int;
    let slot = t.slots[i];
    let q = prefix.push(i);
    assert(canonical_slot(slot, blocks, q));
    match slot {
        None => Seq::empty(),
        Some(Branch::Values(vs)) => {
            let ds = Seq::new(vs.len(), |j: int| vs[j].digest);
            lemma_in_order_no_repeats(vs);
            assert forall|a: int, b: int|
                0 <= a < ds.len() && 0 <= b < ds.len() && a != b implies ds[a] != ds[b] by {
                if a < b {
                    assert(vs[a].digest != vs[b].digest);
                } else {
                    assert(vs[b].digest != vs[a].digest);
                }
            }
            assert forall|j: int| 0 <= j < ds.len() implies {
                &&& (#[trigger] ds[j]).len() == HASH_BYTE_SIZE
                &&& nibble(ds[j], d) == i
                &&& find(t, blocks, ds[j], d) is Ok
                &&& find(t, blocks, ds[j], d)->Ok_0 is Some
            } by {
                assert(under(vs[j].digest, q));
                assert(nibble(ds[j], d) == q[d]);
                lemma_find_in_slot(t, blocks, ds[j], d);
                lemma_bucket_find(vs, ds[j]);
            }
            ds
        },
        Some(branch) => {
            let child = target(branch, blocks)->0;
            let ds = lemma_members(child, blocks, q, HAMT_BITMASK_BIT_SIZE as int);
            assert forall|j: int| 0 <= j < ds.len() implies {
                &&& (#[trigger] ds[j]).len() == HASH_BYTE_SIZE
                &&& nibble(ds[j], d) == i
                &&& find(t, blocks, ds[j], d) is Ok
                &&& find(t, blocks, ds[j], d)->Ok_0 is Some
            } by {
                lemma_found(child, blocks, q, ds[j]);
                assert(nibble(ds[j], d) == q[d]);
                lemma_find_in_slot(t, blocks, ds[j], d);
            }
            ds
        },
    }
}

/// Different digests that are all found in a bucket are no more than its entries.
proof fn lemma_count_in_bucket<K, V>(vs: Seq<Entry<K, V>>, ds: Seq<Seq<u8>>)
    requires
        in_order(vs),
        ds.no_duplicates(),
        forall|j: int| 0 <= j < ds.len() ==> bucket_find(vs, #[trigger] ds[j]) is Some,
    ensures
        ds.len() <= vs.len(),
{
    let all = Seq::new(vs.len(), |j: int| vs[j].digest);
    ds.unique_seq_to_set();
    all.lemma_cardinality_of_set();
    lemma_in_order_no_repeats(vs);
    assert forall|h: Seq<u8>| ds.to_set().contains(h) implies all.to_set().contains(h) by {
        let j = choose|j: int| 0 <= j < ds.len() && ds[j] == h;
        assert(bucket_find(vs, ds[j]) is Some);
        lemma_bucket_find(vs, h);
        let k = choose|k: int| 0 <= k < vs.len() && #[trigger] vs[k] == bucket_find(vs, h)->0;
        assert(all[k] == h);
    }
    vstd::seq_lib::seq_to_set_is_finite(all);
    vstd::set_lib::lemma_len_subset(ds.to_set(), all.to_set());
}

/// Canonical tries in which the same is found are the same, once blocks are expanded.
pub proof fn lemma_unique<K, V>(
    a: Tree<K, V>,
    b: Tree<K, V>,
    blocks: Blocks<K, V>,
    prefix: Seq<int>,
)
    requires
        canonical(a, blocks, prefix),
        canonical(b, blocks, prefix),
        same_contents(a, b, blocks, prefix.len() as int),
    ensures
        expand(a, blocks, prefix.len() as int) == expand(b, blocks, prefix.len() as int),
    decreases MAX_CURSOR_DEPTH - prefix.len(),
{
    let d = prefix.len() as int;
    let x = expand(a, blocks, d);
    let y = expand(b, blocks, d);
    assert forall|i: int| 0 <= i < HAMT_BITMASK_BIT_SIZE implies x.slots[i] == y.slots[i] by {
        let q = prefix.push(i);
        assert(canonical_slot(a.slots[i], blocks, q));
        assert(canonical_slot(b.slots[i], blocks, q));
        let ds = lemma_slot_members(a, blocks, prefix, i);
        let es = lemma_slot_members(b, blocks, prefix, i);
        assert forall|j: int| 0 <= j < ds.len() implies slot_find(
            b.slots[i],
            blocks,
            #[trigger] ds[j],
            d,
        ) is Ok && slot_find(b.slots[i], blocks, ds[j], d)->Ok_0 is Some by {
            lemma_find_in_slot(b, blocks, ds[j], d);
            assert(find(a, blocks, ds[j], d) == find(b, blocks, ds[j], d));
        }
        assert forall|j: int| 0 <= j < es.len() implies slot_find(
            a.slots[i],
            blocks,
            #[trigger] es[j],
            d,
        ) is Ok && slot_find(a.slots[i], blocks, es[j], d)->Ok_0 is Some by {
            lemma_find_in_slot(a, blocks, es[j], d);
            assert(find(a, blocks, es[j], d) == find(b, blocks, es[j], d));
        }
        match (a.slots[i], b.slots[i]) {
            (None, None) => {},
            (None, Some(_)) => {
                lemma_slot_not_empty(b.slots[i], blocks, q);
                assert(slot_find(a.slots[i], blocks, es[0], d)->Ok_0 is Some);
            },
            (Some(_), None) => {
                lemma_slot_not_empty(a.slots[i], blocks, q);
                assert(slot_find(b.slots[i], blocks, ds[0], d)->Ok_0 is Some);
            },
            (Some(Branch::Values(vs)), Some(Branch::Values(ws))) => {
                assert forall|h: Seq<u8>| h.len() == HASH_BYTE_SIZE implies
                    #[trigger] bucket_find(vs, h) == bucket_find(ws, h) by {
                    lemma_slot_contents(a, b, blocks, prefix, i, h);
                }
                assert forall|j: int| 0 <= j < vs.len() implies (
                #[trigger] vs[j]).digest.len() == HASH_BYTE_SIZE by {
                    assert(under(vs[j].digest, q));
                }
                assert forall|j: int| 0 <= j < ws.len() implies (
                #[trigger] ws[j]).digest.len() == HASH_BYTE_SIZE by {
                    assert(under(ws[j].digest, q));
                }
                lemma_same_buckets(vs, ws);
            },
            (Some(Branch::Values(vs)), Some(_)) => {
                lemma_slot_not_empty(b.slots[i], blocks, q);
                lemma_count_in_bucket(vs, es);
            },
            (Some(_), Some(Branch::Values(ws))) => {
                lemma_slot_not_empty(a.slots[i], blocks, q);
                lemma_count_in_bucket(ws, ds);
            },
            (Some(m), Some(n)) => {
                let s = target(m, blocks)->0;
                let t = target(n, blocks)->0;
                assert forall|h: Seq<u8>| h.len() == HASH_BYTE_SIZE implies #[trigger] find(
                    s,
                    blocks,
                    h,
                    d + 1,
                ) == find(t, blocks, h, d + 1) by {
                    lemma_slot_contents(a, b, blocks, prefix, i, h);
                }
                lemma_unique(s, t, blocks, q);
            },
        }
    }
    assert(x.slots =~= y.slots);
}

/// What a slot in use of a canonical node holds is not empty, and more than a bucket's worth
/// if it is a node.
proof fn lemma_slot_not_empty<K, V>(
    slot: Option<Branch<K, V>>,
    blocks: Blocks<K, V>,
    prefix: Seq<int>,
)
    requires
        prefix.len() > 0,
        canonical_slot(slot, blocks, prefix),
        slot is Some,
    ensures
        slot_size(slot, blocks, prefix.len() - 1) >= 1,
        !(slot->0 is Values) ==> slot_size(slot, blocks, prefix.len() - 1)
            > HAMT_VALUES_BUCKET_SIZE,
{
    if !(slot->0 is Values) {
        let child = target(slot->0, blocks)->0;
        assert(slot_size(slot, blocks, prefix.len() - 1) == size(
            child,
            blocks,
            prefix.len() as int,
        ));
    }
}

/// Canonical nodes in which the same is found hold slots in which the same is found.
proof fn lemma_slot_contents<K, V>(
    a: Tree<K, V>,
    b: Tree<K, V>,
    blocks: Blocks<K, V>,
    prefix: Seq<int>,
    i: int,
    h: Seq<u8>,
)
    requires
        canonical(a, blocks, prefix),
        canonical(b, blocks, prefix),
        same_contents(a, b, blocks, prefix.len() as int),
        0 <= i < HAMT_BITMASK_BIT_SIZE,
        h.len() == HASH_BYTE_SIZE,
    ensures
        slot_find(a.slots[i], blocks, h, prefix.len() as int) == slot_find(
            b.slots[i],
            blocks,
            h,
            prefix.len() as int,
        ),
{
    let d = prefix.len() as int;
    lemma_find_in_slot(a, blocks, h, d);
    lemma_find_in_slot(b, blocks, h, d);
    if nibble(h, d) == i {
        assert(find(a, blocks, h, d) == find(b, blocks, h, d));
    } else {
        lemma_other_slot(a.slots[i], blocks, prefix.push(i), h);
        lemma_other_slot(b.slots[i], blocks, prefix.push(i), h);
    }
}

/// Nothing is found in a slot along a path that does not lead there.
proof fn lemma_other_slot<K, V>(
    slot: Option<Branch<K, V>>,
    blocks: Blocks<K, V>,
    prefix: Seq<int>,
    h: Seq<u8>,
)
    requires
        prefix.len() > 0,
        canonical_slot(slot, blocks, prefix),
        h.len() == HASH_BYTE_SIZE,
        nibble(h, prefix.len() - 1) != prefix.last(),
    ensures
        slot_find(slot, blocks, h, prefix.len() - 1) == Ok::<Option<Entry<K, V>>, Failure>(None),
{
    assert(!under(h, prefix)) by {
        if under(h, prefix) {
            assert(nibble(h, prefix.len() - 1) == prefix[prefix.len() - 1]);
        }
    }
    match slot {
        None => {},
        Some(Branch::Values(vs)) => {
            lemma_in_order_no_repeats(vs);
            lemma_bucket_find(vs, h);
            if bucket_find(vs, h) is Some {
                let j = choose|j: int|
                    0 <= j < vs.len() && #[trigger] vs[j] == bucket_find(vs, h)->0;
                assert(under(vs[j].digest, prefix));
            }
        },
        Some(branch) => {
            lemma_found(target(branch, blocks)->0, blocks, prefix, h);
        },
    }
}

} // verus!
