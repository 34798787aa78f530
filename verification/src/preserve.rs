//! Proofs that the operations keep the canonical form and change lookups as they should.

use crate::canonical::{all_under, bucket_find, canonical, canonical_bucket, canonical_slot};
use crate::canonical::{in_order, lemma_bucket_find, lemma_bucket_remove, lemma_bucket_update};
use crate::canonical::{lemma_find_in_slot, lemma_found, lemma_in_order_no_repeats};
use crate::canonical::{lemma_ordered_insert, lemma_sizes, lemma_with_slot, no_repeats, size};
use crate::canonical::{slot_find, slot_size, slots_size, under};
use crate::constant::{HAMT_BITMASK_BIT_SIZE, HAMT_VALUES_BUCKET_SIZE, HASH_BYTE_SIZE};
use crate::constant::MAX_CURSOR_DEPTH;
use crate::error::Failure;
use crate::hash::{lemma_nibble_bound, lemma_nibbles_determine_digest, nibble};
use crate::tree::{bucket_entries, collapse, find, greater_index, insert, insert_all};
use crate::tree::{lemma_greater_index, lemma_match_index, match_index, only_values, remove};
use crate::tree::{sort_entries, target, unused, Blocks, Branch, Entry, Tree};
use vstd::prelude::*;

verus! {

/// Holds if, at depth `d`, `u` gives `found` for the digest `h` and what `t` gives for every
/// other digest.
pub open spec fn differs_at<K, V>(
    t: Tree<K, V>,
    u: Tree<K, V>,
    blocks: Blocks<K, V>,
    d: int,
    h: Seq<u8>,
    found: Option<Entry<K, V>>,
) -> bool {
    forall|k: Seq<u8>|
        k.len() == HASH_BYTE_SIZE ==> #[trigger] find(u, blocks, k, d) == if k == h {
            Ok(found)
        } else {
            find(t, blocks, k, d)
        }
}

/// The empty trie is canonical and holds nothing.
pub proof fn lemma_empty<K, V>(blocks: Blocks<K, V>, prefix: Seq<int>)
    requires
        prefix.len() < MAX_CURSOR_DEPTH,
    ensures
        canonical(Tree::<K, V>::empty(), blocks, prefix),
        size(Tree::<K, V>::empty(), blocks, prefix.len() as int) == 0,
        forall|h: Seq<u8>| #[trigger]
            find(Tree::<K, V>::empty(), blocks, h, prefix.len() as int) == Ok::<
                Option<Entry<K, V>>,
                Failure,
            >(None),
{
    let t = Tree::<K, V>::empty();
    lemma_empty_size(blocks, prefix.len() as int, HAMT_BITMASK_BIT_SIZE as int);
    assert forall|h: Seq<u8>| #[trigger] find(t, blocks, h, prefix.len() as int) == Ok::<
        Option<Entry<K, V>>,
        Failure,
    >(None) by {
        lemma_nibble_bound(h, prefix.len() as int);
    }
}

/// The empty trie has no entries in any of its slots.
proof fn lemma_empty_size<K, V>(blocks: Blocks<K, V>, d: int, n: int)
    requires
        0 <= n <= HAMT_BITMASK_BIT_SIZE,
    ensures
        slots_size(Tree::<K, V>::empty(), blocks, d, n) == 0,
    decreases n,
{
    if n > 0 {
        lemma_empty_size(blocks, d, n - 1);
        assert(Tree::<K, V>::empty().slots[n - 1] is None);
        assert(slot_size(Tree::<K, V>::empty().slots[n - 1], blocks, d) == 0);
    }
}

/// Setting an entry in a canonical trie.
pub proof fn lemma_insert<K, V>(
    t: Tree<K, V>,
    blocks: Blocks<K, V>,
    prefix: Seq<int>,
    e: Entry<K, V>,
)
    requires
        canonical(t, blocks, prefix),
        under(e.digest, prefix),
    ensures
        ({
            let d = prefix.len() as int;
            let before = find(t, blocks, e.digest, d);
            insert(t, blocks, e.digest, d, e) matches Ok(u) && {
                &&& canonical(u, blocks, prefix)
                &&& size(u, blocks, d) == size(t, blocks, d) + if before->Ok_0 is Some {
                    0int
                } else {
                    1
                }
                &&& differs_at(t, u, blocks, d, e.digest, Some(e))
            }
        }),
    decreases MAX_CURSOR_DEPTH - prefix.len(), 0nat,
{
    let d = prefix.len() as int;
    let h = e.digest;
    lemma_nibble_bound(h, d);
    let i = nibble(h, d);
    let q = prefix.push(i);
    assert(under(h, q));
    let slot = t.slots[i];
    assert(canonical_slot(slot, blocks, q));
    lemma_find_in_slot(t, blocks, h, d);
    match slot {
        None => {
            let vs = seq![e];
            let new = Some(Branch::Values(vs));
            assert(canonical_bucket(vs, q));
            lemma_with_slot(t, blocks, prefix, i, new);
            let u = t.with(i, new);
            assert forall|k: Seq<u8>| k.len() == HASH_BYTE_SIZE implies #[trigger] find(
                u,
                blocks,
                k,
                d,
            ) == if k == h {
                Ok(Some(e))
            } else {
                find(t, blocks, k, d)
            } by {
                lemma_find_in_slot(t, blocks, k, d);
                assert(no_repeats(vs));
                lemma_bucket_find(vs, k);
                assert(vs[0] == e);
            }
        },
        Some(Branch::Values(vs)) => {
            lemma_in_order_no_repeats(vs);
            lemma_bucket_find(vs, h);
            lemma_match_index(vs, h);
            let j = match_index(vs, h);
            if j < vs.len() {
                let ws = vs.update(j, e);
                lemma_bucket_update(vs, j, e);
                assert(canonical_bucket(ws, q));
                let new = Some(Branch::Values(ws));
                lemma_with_slot(t, blocks, prefix, i, new);
                let u = t.with(i, new);
                assert forall|k: Seq<u8>| k.len() == HASH_BYTE_SIZE implies #[trigger] find(
                    u,
                    blocks,
                    k,
                    d,
                ) == if k == h {
                    Ok(Some(e))
                } else {
                    find(t, blocks, k, d)
                } by {
                    lemma_find_in_slot(t, blocks, k, d);
                    assert(bucket_find(ws, k) == if k == h {
                        Some(e)
                    } else {
                        bucket_find(vs, k)
                    });
                }
            } else if vs.len() < HAMT_VALUES_BUCKET_SIZE {
                let g = greater_index(vs, h);
                let ws = vs.insert(g, e);
                assert forall|m: int| 0 <= m < vs.len() implies (
                #[trigger] vs[m]).digest.len() == HASH_BYTE_SIZE by {
                    assert(under(vs[m].digest, q));
                }
                lemma_greater_index(vs, h);
                lemma_ordered_insert(vs, e);
                assert forall|m: int| 0 <= m < ws.len() implies under(
                    (#[trigger] ws[m]).digest,
                    q,
                ) by {
                    if m < g {
                        assert(ws[m] == vs[m]);
                    } else if m > g {
                        assert(ws[m] == vs[m - 1]);
                    }
                }
                assert(canonical_bucket(ws, q));
                let new = Some(Branch::Values(ws));
                lemma_with_slot(t, blocks, prefix, i, new);
                let u = t.with(i, new);
                assert forall|k: Seq<u8>| k.len() == HASH_BYTE_SIZE implies #[trigger] find(
                    u,
                    blocks,
                    k,
                    d,
                ) == if k == h {
                    Ok(Some(e))
                } else {
                    find(t, blocks, k, d)
                } by {
                    lemma_find_in_slot(t, blocks, k, d);
                    assert(bucket_find(ws, k) == if k == h {
                        Some(e)
                    } else {
                        bucket_find(vs, k)
                    });
                }
            } else {
                // Two digests that differ cannot agree on all of their nibbles.
                assert(q.len() < MAX_CURSOR_DEPTH) by {
                    if q.len() == MAX_CURSOR_DEPTH {
                        assert(under(vs[0].digest, q));
                        assert forall|k: int| 0 <= k < MAX_CURSOR_DEPTH implies #[trigger] nibble(
                            vs[0].digest,
                            k,
                        ) == nibble(h, k) by {
                            assert(nibble(h, k) == q[k]);
                        }
                        lemma_nibbles_determine_digest(vs[0].digest, h);
                    }
                }
                let es = vs.push(e);
                assert(no_repeats(es));
                assert(all_under(es, q));
                lemma_insert_all(blocks, q, es);
                let child = insert_all(Tree::empty(), blocks, es, d + 1)->Ok_0;
                let new = Some(Branch::Subtree(child, None));
                assert(canonical_slot(new, blocks, q));
                lemma_with_slot(t, blocks, prefix, i, new);
                let u = t.with(i, new);
                assert forall|k: Seq<u8>| k.len() == HASH_BYTE_SIZE implies #[trigger] find(
                    u,
                    blocks,
                    k,
                    d,
                ) == if k == h {
                    Ok(Some(e))
                } else {
                    find(t, blocks, k, d)
                } by {
                    lemma_find_in_slot(t, blocks, k, d);
                    lemma_bucket_push(vs, e, k);
                    assert(find(child, blocks, k, d + 1) == Ok::<_, Failure>(
                        bucket_find(es, k),
                    ));
                }
            }
        },
        Some(branch) => {
            let child = target(branch, blocks)->0;
            lemma_insert(child, blocks, q, e);
            let grown = insert(child, blocks, h, d + 1, e)->Ok_0;
            let new = Some(Branch::Subtree(grown, None));
            assert(canonical_slot(new, blocks, q));
            lemma_with_slot(t, blocks, prefix, i, new);
            let u = t.with(i, new);
            assert forall|k: Seq<u8>| k.len() == HASH_BYTE_SIZE implies #[trigger] find(
                u,
                blocks,
                k,
                d,
            ) == if k == h {
                Ok(Some(e))
            } else {
                find(t, blocks, k, d)
            } by {
                lemma_find_in_slot(t, blocks, k, d);
                assert(find(grown, blocks, k, d + 1) == if k == h {
                    Ok(Some(e))
                } else {
                    find(child, blocks, k, d + 1)
                });
            }
            assert(slot_size(slot, blocks, d) == size(child, blocks, d + 1));
            assert(slot_size(new, blocks, d) == size(grown, blocks, d + 1));
        },
    }
}

/// What is found in entries that repeat no digest when one more is put at the end.
proof fn lemma_bucket_push<K, V>(vs: Seq<Entry<K, V>>, e: Entry<K, V>, h: Seq<u8>)
    requires
        no_repeats(vs.push(e)),
    ensures
        no_repeats(vs),
        bucket_find(vs.push(e), h) == if h == e.digest {
            Some(e)
        } else {
            bucket_find(vs, h)
        },
{
    let es = vs.push(e);
    assert forall|i: int, j: int| 0 <= i < j < vs.len() implies (#[trigger] vs[i]).digest != (
    #[trigger] vs[j]).digest by {
        assert(es[i] == vs[i] && es[j] == vs[j]);
    }
    lemma_bucket_find(vs, h);
    lemma_bucket_find(es, h);
    assert(es[vs.len() as int] == e);
    if bucket_find(vs, h) is Some {
        let j = choose|j: int| 0 <= j < vs.len() && #[trigger] vs[j] == bucket_find(vs, h)->0;
        assert(es[j] == vs[j]);
    }
    if bucket_find(es, h) is Some && h != e.digest {
        let j = choose|j: int| 0 <= j < es.len() && #[trigger] es[j] == bucket_find(es, h)->0;
        assert(es[j] == vs[j]);
    }
}

/// Setting entries that repeat no digest in an empty trie.
pub proof fn lemma_insert_all<K, V>(
    blocks: Blocks<K, V>,
    prefix: Seq<int>,
    es: Seq<Entry<K, V>>,
)
    requires
        prefix.len() < MAX_CURSOR_DEPTH,
        no_repeats(es),
        all_under(es, prefix),
    ensures
        ({
            let d = prefix.len() as int;
            insert_all(Tree::empty(), blocks, es, d) matches Ok(u) && {
                &&& canonical(u, blocks, prefix)
                &&& size(u, blocks, d) == es.len()
                &&& forall|k: Seq<u8>|
                    k.len() == HASH_BYTE_SIZE ==> #[trigger] find(u, blocks, k, d) == Ok::<
                        _,
                        Failure,
                    >(bucket_find(es, k))
            }
        }),
    decreases MAX_CURSOR_DEPTH - prefix.len(), es.len() + 1,
{
    let d = prefix.len() as int;
    if es.len() == 0 {
        lemma_empty(blocks, prefix);
    } else {
        let rest = es.drop_last();
        let e = es.last();
        assert(rest.push(e) =~= es);
        lemma_bucket_push(rest, e, e.digest);
        assert forall|j: int| 0 <= j < rest.len() implies under(
            (#[trigger] rest[j]).digest,
            prefix,
        ) by {
            assert(rest[j] == es[j]);
        }
        lemma_insert_all(blocks, prefix, rest);
        let t = insert_all(Tree::empty(), blocks, rest, d)->Ok_0;
        assert(under(es[es.len() - 1].digest, prefix));
        lemma_insert(t, blocks, prefix, e);
        let u = insert(t, blocks, e.digest, d, e)->Ok_0;
        assert(bucket_find(rest, e.digest) is None) by {
            lemma_bucket_find(rest, e.digest);
            if bucket_find(rest, e.digest) is Some {
                let j = choose|j: int|
                    0 <= j < rest.len() && #[trigger] rest[j] == bucket_find(rest, e.digest)->0;
                assert(es[j].digest != es[es.len() - 1].digest);
            }
        }
        assert(find(t, blocks, e.digest, d) == Ok::<_, Failure>(
            bucket_find(rest, e.digest),
        ));
        assert forall|k: Seq<u8>| k.len() == HASH_BYTE_SIZE implies #[trigger] find(
            u,
            blocks,
            k,
            d,
        ) == Ok::<_, Failure>(bucket_find(es, k)) by {
            lemma_bucket_push(rest, e, k);
            assert(find(t, blocks, k, d) == Ok::<_, Failure>(bucket_find(rest, k)));
        }
    }
}

/// The buckets of a canonical node without nodes below it, taken together.
proof fn lemma_bucket_entries<K, V>(
    t: Tree<K, V>,
    blocks: Blocks<K, V>,
    prefix: Seq<int>,
    n: int,
)
    requires
        canonical(t, blocks, prefix),
        0 <= n <= HAMT_BITMASK_BIT_SIZE,
        only_values(t, n),
    ensures
        ({
            let d = prefix.len() as int;
            let es = bucket_entries(t, n);
            &&& es.len() == slots_size(t, blocks, d, n)
            &&& all_under(es, prefix)
            &&& no_repeats(es)
            &&& forall|j: int|
                0 <= j < es.len() ==> 0 <= nibble((#[trigger] es[j]).digest, d) < n
            &&& forall|k: Seq<u8>| #[trigger]
                bucket_find(es, k) == if nibble(k, d) < n {
                    slot_find(t.slots[nibble(k, d)], blocks, k, d)->Ok_0
                } else {
                    None
                }
        }),
    decreases n,
{
    let d = prefix.len() as int;
    let es = bucket_entries(t, n);
    if n == 0 {
        assert forall|k: Seq<u8>| #[trigger] bucket_find(es, k) == if nibble(k, d) < n {
            slot_find(t.slots[nibble(k, d)], blocks, k, d)->Ok_0
        } else {
            None
        } by {
            lemma_nibble_bound(k, d);
        }
    } else {
        assert forall|i: int| 0 <= i < n - 1 && #[trigger] t.slots[i] is Some implies
            t.slots[i]->0 is Values by {}
        lemma_bucket_entries(t, blocks, prefix, n - 1);
        let rest = bucket_entries(t, n - 1);
        let slot = t.slots[n - 1];
        let q = prefix.push(n - 1);
        assert(canonical_slot(slot, blocks, q));
        assert(slots_size(t, blocks, d, n) == slots_size(t, blocks, d, n - 1) + slot_size(
            slot,
            blocks,
            d,
        ));
        let vs = match slot {
            Some(Branch::Values(vs)) => vs,
            _ => Seq::empty(),
        };
        assert(slot is None || slot == Some(Branch::Values(vs)));
        assert(slot_size(slot, blocks, d) == vs.len());
        assert(es =~= rest + vs);
        assert(no_repeats(vs)) by {
            if slot is Some {
                lemma_in_order_no_repeats(vs);
            }
        }
        assert forall|j: int| 0 <= j < vs.len() implies under((#[trigger] vs[j]).digest, prefix)
            && nibble(vs[j].digest, d) == n - 1 by {
            assert(under(vs[j].digest, q));
            assert(nibble(vs[j].digest, d) == q[d]);
            assert forall|m: int| 0 <= m < prefix.len() implies #[trigger] nibble(
                vs[j].digest,
                m,
            ) == prefix[m] by {
                assert(q[m] == prefix[m]);
            }
        }
        assert forall|j: int| 0 <= j < es.len() implies under((#[trigger] es[j]).digest, prefix)
            && 0 <= nibble(es[j].digest, d) < n && (j >= rest.len() ==> nibble(es[j].digest, d)
            == n - 1) && (j < rest.len() ==> nibble(es[j].digest, d) < n - 1) by {
            if j < rest.len() {
                assert(es[j] == rest[j]);
            } else {
                assert(es[j] == vs[j - rest.len()]);
            }
        }
        assert forall|i: int, j: int| 0 <= i < j < es.len() implies (#[trigger] es[i]).digest != (
        #[trigger] es[j]).digest by {
            if j < rest.len() {
                assert(es[i] == rest[i] && es[j] == rest[j]);
            } else if i >= rest.len() {
                assert(es[i] == vs[i - rest.len()] && es[j] == vs[j - rest.len()]);
            }
        }
        assert forall|k: Seq<u8>| #[trigger] bucket_find(es, k) == if nibble(k, d) < n {
            slot_find(t.slots[nibble(k, d)], blocks, k, d)->Ok_0
        } else {
            None
        } by {
            lemma_bucket_find(es, k);
            lemma_bucket_find(rest, k);
            lemma_bucket_find(vs, k);
            let expected = if bucket_find(rest, k) is Some {
                bucket_find(rest, k)
            } else {
                bucket_find(vs, k)
            };
            if bucket_find(rest, k) is Some {
                let j = choose|j: int|
                    0 <= j < rest.len() && #[trigger] rest[j] == bucket_find(rest, k)->0;
                assert(es[j] == rest[j]);
            } else if bucket_find(vs, k) is Some {
                let j = choose|j: int|
                    0 <= j < vs.len() && #[trigger] vs[j] == bucket_find(vs, k)->0;
                assert(es[rest.len() + j] == vs[j]);
            } else if bucket_find(es, k) is Some {
                let j = choose|j: int|
                    0 <= j < es.len() && #[trigger] es[j] == bucket_find(es, k)->0;
                if j < rest.len() {
                    assert(es[j] == rest[j]);
                } else {
                    assert(es[j] == vs[j - rest.len()]);
                }
            }
            assert(bucket_find(es, k) == expected);
            if bucket_find(vs, k) is Some {
                let j = choose|j: int|
                    0 <= j < vs.len() && #[trigger] vs[j] == bucket_find(vs, k)->0;
                assert(nibble(vs[j].digest, d) == n - 1);
            }
            if bucket_find(rest, k) is Some {
                let j = choose|j: int|
                    0 <= j < rest.len() && #[trigger] rest[j] == bucket_find(rest, k)->0;
                assert(nibble(rest[j].digest, d) < n - 1);
            }
        }
    }
}

/// Sorting entries that repeat no digest.
proof fn lemma_sort_entries<K, V>(vs: Seq<Entry<K, V>>, prefix: Seq<int>)
    requires
        no_repeats(vs),
        all_under(vs, prefix),
    ensures
        in_order(sort_entries(vs)),
        sort_entries(vs).len() == vs.len(),
        all_under(sort_entries(vs), prefix),
        forall|k: Seq<u8>| #[trigger] bucket_find(sort_entries(vs), k) == bucket_find(vs, k),
    decreases vs.len(),
{
    if vs.len() > 0 {
        let rest = vs.drop_last();
        let e = vs.last();
        assert(rest.push(e) =~= vs);
        lemma_bucket_push(rest, e, e.digest);
        assert forall|j: int| 0 <= j < rest.len() implies under(
            (#[trigger] rest[j]).digest,
            prefix,
        ) by {
            assert(rest[j] == vs[j]);
        }
        lemma_sort_entries(rest, prefix);
        let ws = sort_entries(rest);
        assert(under(vs[vs.len() - 1].digest, prefix));
        lemma_in_order_no_repeats(ws);
        assert forall|j: int| 0 <= j < ws.len() implies (#[trigger] ws[j]).digest
            != e.digest by {
            if ws[j].digest == e.digest {
                lemma_bucket_find(ws, e.digest);
                lemma_bucket_find(rest, e.digest);
                let m = choose|m: int|
                    0 <= m < rest.len() && #[trigger] rest[m] == bucket_find(rest, e.digest)->0;
                assert(vs[m].digest != vs[vs.len() - 1].digest);
            }
        }
        assert forall|j: int| 0 <= j < ws.len() implies (#[trigger] ws[j]).digest.len()
            == HASH_BYTE_SIZE by {
            assert(under(ws[j].digest, prefix));
        }
        lemma_greater_index(ws, e.digest);
        lemma_ordered_insert(ws, e);
        let g = greater_index(ws, e.digest);
        let sorted = ws.insert(g, e);
        assert forall|j: int| 0 <= j < sorted.len() implies under(
            (#[trigger] sorted[j]).digest,
            prefix,
        ) by {
            if j < g {
                assert(sorted[j] == ws[j]);
            } else if j > g {
                assert(sorted[j] == ws[j - 1]);
            }
        }
        assert forall|k: Seq<u8>| #[trigger] bucket_find(sorted, k) == bucket_find(vs, k) by {
            lemma_bucket_push(rest, e, k);
            assert(bucket_find(ws, k) == bucket_find(rest, k));
        }
    }
}

/// A node without a slot in use has no entries.
proof fn lemma_unused_size<K, V>(t: Tree<K, V>, blocks: Blocks<K, V>, d: int, n: int)
    requires
        unused(t),
        0 <= n <= HAMT_BITMASK_BIT_SIZE,
    ensures
        slots_size(t, blocks, d, n) == 0,
    decreases n,
{
    if n > 0 {
        lemma_unused_size(t, blocks, d, n - 1);
        assert(t.slots[n - 1] is None);
        assert(slot_size(t.slots[n - 1], blocks, d) == 0);
    }
}

/// A canonical node that is not empty collapses to something canonical that holds the same.
proof fn lemma_collapse<K, V>(t: Tree<K, V>, blocks: Blocks<K, V>, prefix: Seq<int>)
    requires
        prefix.len() > 0,
        canonical(t, blocks, prefix),
        size(t, blocks, prefix.len() as int) >= 1,
    ensures
        canonical_slot(collapse(t), blocks, prefix),
        slot_size(collapse(t), blocks, prefix.len() - 1) == size(
            t,
            blocks,
            prefix.len() as int,
        ),
        forall|k: Seq<u8>|
            k.len() == HASH_BYTE_SIZE ==> #[trigger] slot_find(
                collapse(t),
                blocks,
                k,
                prefix.len() - 1,
            ) == find(t, blocks, k, prefix.len() as int),
{
    let d = prefix.len() as int;
    let n = HAMT_BITMASK_BIT_SIZE as int;
    let all = bucket_entries(t, n);
    if unused(t) {
        lemma_unused_size(t, blocks, d, n);
    } else if only_values(t, n) {
        lemma_bucket_entries(t, blocks, prefix, n);
        if all.len() <= HAMT_VALUES_BUCKET_SIZE {
            lemma_sort_entries(all, prefix);
            assert(canonical_bucket(sort_entries(all), prefix));
            assert forall|k: Seq<u8>| k.len() == HASH_BYTE_SIZE implies #[trigger] slot_find(
                collapse(t),
                blocks,
                k,
                d - 1,
            ) == find(t, blocks, k, d) by {
                lemma_nibble_bound(k, d);
                lemma_find_in_slot(t, blocks, k, d);
                lemma_found(t, blocks, prefix, k);
                assert(bucket_find(sort_entries(all), k) == bucket_find(all, k));
            }
        }
    } else {
        let i = choose|i: int|
            0 <= i < n && #[trigger] t.slots[i] is Some && !(t.slots[i]->0 is Values);
        assert(canonical_slot(t.slots[i], blocks, prefix.push(i)));
        let child = target(t.slots[i]->0, blocks)->0;
        assert(slot_size(t.slots[i], blocks, d) == size(child, blocks, d + 1));
        lemma_sizes(t, blocks, d, n);
    }
    if collapse(t) == Some(Branch::Subtree(t, None)) {
        assert(slot_size(collapse(t), blocks, d - 1) == size(t, blocks, d));
    }
}

/// Removing an entry from a canonical trie.
pub proof fn lemma_remove<K, V>(
    t: Tree<K, V>,
    blocks: Blocks<K, V>,
    prefix: Seq<int>,
    h: Seq<u8>,
)
    requires
        canonical(t, blocks, prefix),
        h.len() == HASH_BYTE_SIZE,
    ensures
        ({
            let d = prefix.len() as int;
            remove(t, blocks, h, d) matches Ok((u, removed)) && {
                &&& find(t, blocks, h, d) == Ok::<_, Failure>(removed)
                &&& canonical(u, blocks, prefix)
                &&& size(u, blocks, d) == size(t, blocks, d) - if removed is Some {
                    1int
                } else {
                    0
                }
                &&& differs_at(t, u, blocks, d, h, None)
            }
        }),
    decreases MAX_CURSOR_DEPTH - prefix.len(),
{
    let d = prefix.len() as int;
    lemma_nibble_bound(h, d);
    let i = nibble(h, d);
    let q = prefix.push(i);
    let slot = t.slots[i];
    assert(canonical_slot(slot, blocks, q));
    lemma_find_in_slot(t, blocks, h, d);
    let u = remove(t, blocks, h, d)->Ok_0.0;
    match slot {
        None => {},
        Some(Branch::Values(vs)) => {
            lemma_in_order_no_repeats(vs);
            lemma_match_index(vs, h);
            let j = match_index(vs, h);
            if j < vs.len() {
                let ws = vs.remove(j);
                lemma_bucket_remove(vs, j);
                assert forall|m: int| 0 <= m < ws.len() implies under(
                    (#[trigger] ws[m]).digest,
                    q,
                ) by {
                    if m < j {
                        assert(ws[m] == vs[m]);
                    } else {
                        assert(ws[m] == vs[m + 1]);
                    }
                }
                let new = if vs.len() == 1 {
                    None
                } else {
                    Some(Branch::Values(ws))
                };
                assert(vs.len() > 1 ==> canonical_bucket(ws, q));
                lemma_with_slot(t, blocks, prefix, i, new);
                assert(u == t.with(i, new));
                assert forall|k: Seq<u8>| k.len() == HASH_BYTE_SIZE implies #[trigger] find(
                    u,
                    blocks,
                    k,
                    d,
                ) == if k == h {
                    Ok(None)
                } else {
                    find(t, blocks, k, d)
                } by {
                    lemma_find_in_slot(t, blocks, k, d);
                    assert(bucket_find(ws, k) == if k == h {
                        None
                    } else {
                        bucket_find(vs, k)
                    });
                    if vs.len() == 1 {
                        assert(bucket_find(ws, k) is None);
                    }
                }
            }
        },
        Some(branch) => {
            let child = target(branch, blocks)->0;
            lemma_remove(child, blocks, q, h);
            let (shrunk, removed) = remove(child, blocks, h, d + 1)->Ok_0;
            let new = if removed is Some {
                collapse(shrunk)
            } else {
                Some(Branch::Subtree(shrunk, None))
            };
            if removed is Some {
                lemma_collapse(shrunk, blocks, q);
            } else {
                assert(canonical_slot(new, blocks, q));
                assert(slot_size(new, blocks, d) == size(shrunk, blocks, d + 1));
            }
            assert(slot_size(slot, blocks, d) == size(child, blocks, d + 1));
            lemma_with_slot(t, blocks, prefix, i, new);
            assert(u == t.with(i, new));
            assert forall|k: Seq<u8>| k.len() == HASH_BYTE_SIZE implies #[trigger] find(
                u,
                blocks,
                k,
                d,
            ) == if k == h {
                Ok(None)
            } else {
                find(t, blocks, k, d)
            } by {
                lemma_find_in_slot(t, blocks, k, d);
                assert(slot_find(new, blocks, k, d) == find(shrunk, blocks, k, d + 1));
                assert(find(shrunk, blocks, k, d + 1) == if k == h {
                    Ok(None)
                } else {
                    find(child, blocks, k, d + 1)
                });
            }
        },
    }
}

} // verus!
