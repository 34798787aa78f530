//! The bitmask that tells which slots of a node are in use.

use bitvec::array::BitArray;
use crate::constant::{HAMT_BITMASK_BIT_SIZE, HAMT_BITMASK_BYTE_SIZE};
use vstd::prelude::*;

verus! {

/// The bytes of a bitmask.
pub type BitMaskType = [u8; HAMT_BITMASK_BYTE_SIZE];

/// One bit for each slot of a node, kept in a `bitvec` array.
#[verifier::external_body]
#[derive(Debug)]
pub struct BitMask(BitArray<BitMaskType>);

/// The bits of a mask, by slot.
pub uninterp spec fn bits(mask: BitMask) -> Seq<bool>;

/// Bit `k` of a byte, where bit 0 is the least significant one.
pub open spec fn byte_bit(byte: u8, k: u8) -> bool {
    (byte >> k) & 1 == 1
}

/// The bits that two bytes hold: the first byte's from the least significant bit up,
/// then the second's.
pub open spec fn byte_bits(bytes: Seq<u8>) -> Seq<bool> {
    Seq::new(
        HAMT_BITMASK_BIT_SIZE as nat,
        |i: int| byte_bit(bytes[i / 8], (i % 8) as u8),
    )
}

/// The number of set bits among the first `n`.
pub open spec fn rank(bits: Seq<bool>, n: int) -> int
    decreases n,
{
    if n <= 0 {
        0
    } else {
        rank(bits, n - 1) + if bits[n - 1] {
            1int
        } else {
            0
        }
    }
}

/// Reads `BitArray::ZERO`. It is trusted that none of its sixteen bits is set.
#[verifier::external_body]
pub(crate) fn zero_mask() -> (res: BitMask)
    ensures
        bits(res) == Seq::new(HAMT_BITMASK_BIT_SIZE as nat, |i: int| false),
{
    BitMask(BitArray::ZERO)
}

/// Calls `BitArray::new`. It is trusted that the array holds the bits of the bytes, each
/// byte from its least significant bit up.
#[verifier::external_body]
pub(crate) fn mask_from_bytes(bytes: BitMaskType) -> (res: BitMask)
    ensures
        bits(res) == byte_bits(bytes@),
{
    BitMask(BitArray::new(bytes))
}

/// Calls `BitArray::into_inner` on a copy. It is trusted that the bytes hold the bits of
/// the mask, each byte from its least significant bit up.
#[verifier::external_body]
pub(crate) fn mask_bytes(mask: &BitMask) -> (res: BitMaskType)
    ensures
        byte_bits(res@) == bits(*mask),
{
    mask.0.into_inner()
}

/// Calls `BitArray::clone`. It is trusted that the clone holds the same bits.
#[verifier::external_body]
pub(crate) fn copy_mask(mask: &BitMask) -> (res: BitMask)
    ensures
        bits(res) == bits(*mask),
{
    BitMask(mask.0.clone())
}

/// Indexes a `BitArray`. It is trusted that the result is the bit at that position.
#[verifier::external_body]
pub(crate) fn mask_bit(mask: &BitMask, index: usize) -> (res: bool)
    requires
        index < HAMT_BITMASK_BIT_SIZE,
    ensures
        res == bits(*mask)[index as int],
{
    mask.0[index]
}

/// Calls `BitSlice::set`. It is trusted that the bit at `index` becomes `value` and that
/// no other bit changes.
#[verifier::external_body]
pub(crate) fn set_mask_bit(mask: &mut BitMask, index: usize, value: bool)
    requires
        index < HAMT_BITMASK_BIT_SIZE,
    ensures
        bits(*final(mask)) == bits(*old(mask)).update(index as int, value),
{
    mask.0.set(index, value)
}

/// Calls `BitSlice::shift_left`. It is trusted that each bit moves `by` positions towards
/// the first one, and that the positions left free at the end are cleared.
#[verifier::external_body]
pub(crate) fn shift_mask_left(mask: &mut BitMask, by: usize)
    requires
        by < HAMT_BITMASK_BIT_SIZE,
    ensures
        bits(*final(mask)) == Seq::new(
            HAMT_BITMASK_BIT_SIZE as nat,
            |i: int| i + by < HAMT_BITMASK_BIT_SIZE && bits(*old(mask))[i + by],
        ),
{
    mask.0.shift_left(by)
}

/// Calls the `&` operator of two `BitArray`s. It is trusted that a bit of the result is set
/// where both operands have it set.
#[verifier::external_body]
pub(crate) fn mask_and(a: BitMask, b: &BitMask) -> (res: BitMask)
    ensures
        bits(res) == Seq::new(
            HAMT_BITMASK_BIT_SIZE as nat,
            |i: int| bits(a)[i] && bits(*b)[i],
        ),
{
    BitMask(a.0 & b.0)
}

/// Calls `BitSlice::count_ones`. It is trusted that the result is the number of set bits.
#[verifier::external_body]
pub(crate) fn count_mask_ones(mask: &BitMask) -> (res: usize)
    ensures
        res == rank(bits(*mask), HAMT_BITMASK_BIT_SIZE as int),
{
    mask.0.count_ones()
}

/// Calls the `==` operator of two `BitArray`s. It is trusted that it tells whether they
/// hold the same bits.
#[verifier::external_body]
pub(crate) fn masks_equal(a: &BitMask, b: &BitMask) -> (res: bool)
    ensures
        res == (bits(*a) == bits(*b)),
{
    a.0 == b.0
}

impl BitMask {
    /// Returns the number of slots in use.
    pub fn count_ones(&self) -> (res: usize)
        ensures
            res == rank(bits(*self), HAMT_BITMASK_BIT_SIZE as int),
    {
        count_mask_ones(self)
    }
}

/// Returns how many of the slots before `bit_index` are in use.
pub(crate) fn ones_before(mask: &BitMask, bit_index: usize) -> (res: usize)
    requires
        bit_index <= HAMT_BITMASK_BIT_SIZE,
    ensures
        res == rank(bits(*mask), bit_index as int),
{
    let shift_amount: usize = HAMT_BITMASK_BIT_SIZE - bit_index;
    let low: BitMask = if shift_amount < HAMT_BITMASK_BIT_SIZE {
        let mut tmp: BitMask = mask_from_bytes([0xff, 0xff]);
        proof {
            assert forall|i: int| 0 <= i < HAMT_BITMASK_BIT_SIZE implies #[trigger] bits(
                tmp,
            )[i] by {
                let k = (i % 8) as u8;
                assert((0xffu8 >> k) & 1 == 1) by (bit_vector)
                    requires
                        k < 8,
                ;
            }
        }
        shift_mask_left(&mut tmp, shift_amount);
        tmp
    } else {
        zero_mask()
    };
    assert(forall|i: int| 0 <= i < HAMT_BITMASK_BIT_SIZE ==> bits(low)[i] == (i < bit_index));
    let both: BitMask = mask_and(low, mask);
    proof {
        lemma_rank_below(bits(*mask), bits(both), bit_index as int, HAMT_BITMASK_BIT_SIZE as int);
    }
    count_mask_ones(&both)
}

/// Counting bits that are cleared from `cut` on is counting the bits before `cut`.
proof fn lemma_rank_below(all: Seq<bool>, cleared: Seq<bool>, cut: int, n: int)
    requires
        0 <= cut,
        0 <= n,
        forall|i: int| 0 <= i < n ==> #[trigger] cleared[i] == (i < cut && all[i]),
    ensures
        rank(cleared, n) == rank(all, if n < cut {
            n
        } else {
            cut
        }),
    decreases n,
{
    if n > 0 {
        lemma_rank_below(all, cleared, cut, n - 1);
        assert(cleared[n - 1] == (n - 1 < cut && all[n - 1]));
    }
}

/// Ranks grow with the position, by one at each set bit.
pub proof fn lemma_rank_monotonic(b: Seq<bool>, m: int, n: int)
    requires
        0 <= m <= n,
    ensures
        0 <= rank(b, m) <= rank(b, n) <= rank(b, m) + (n - m),
        m < n && b[m] ==> rank(b, m) < rank(b, n),
    decreases n,
{
    if m < n {
        lemma_rank_monotonic(b, m, n - 1);
    } else if m > 0 {
        lemma_rank_monotonic(b, m - 1, m - 1);
    }
}

/// Changing the bit at `i` changes the ranks after `i`, and no others.
pub proof fn lemma_rank_update(b: Seq<bool>, i: int, value: bool, n: int)
    requires
        0 <= i < b.len(),
        0 <= n <= b.len(),
    ensures
        n <= i ==> rank(b.update(i, value), n) == rank(b, n),
        n > i ==> rank(b.update(i, value), n) == rank(b, n) + (if value {
            1int
        } else {
            0
        }) - (if b[i] {
            1int
        } else {
            0
        }),
    decreases n,
{
    if n > 0 {
        lemma_rank_update(b, i, value, n - 1);
    }
}

/// A count of no set bits means that none is set.
pub proof fn lemma_rank_zero(b: Seq<bool>, n: int)
    requires
        0 <= n,
    ensures
        rank(b, n) == 0 <==> forall|i: int| 0 <= i < n ==> !b[i],
    decreases n,
{
    if n > 0 {
        lemma_rank_zero(b, n - 1);
        lemma_rank_monotonic(b, 0, n - 1);
        if rank(b, n) == 0 {
            assert(!b[n - 1]);
        }
    }
}

/// Each position among the set bits is that of one of them.
pub proof fn lemma_rank_selects(b: Seq<bool>, n: int, r: int) -> (i: int)
    requires
        0 <= r < rank(b, n),
    ensures
        0 <= i < n,
        b[i],
        rank(b, i) == r,
    decreases n,
{
    if b[n - 1] && rank(b, n - 1) == r {
        n - 1
    } else {
        lemma_rank_selects(b, n - 1, r)
    }
}

/// A rank is how many of the positions before it have their bit set.
pub proof fn law_rank_counts_set_bits(b: Seq<bool>, n: int)
    requires
        0 <= n,
    ensures
        ({
            let set = vstd::set_lib::set_int_range(0, n).filter(|i: int| b[i]);
            set.finite() && set.len() == rank(b, n)
        }),
    decreases n,
{
    let set = vstd::set_lib::set_int_range(0, n).filter(|i: int| b[i]);
    if n > 0 {
        law_rank_counts_set_bits(b, n - 1);
        let rest = vstd::set_lib::set_int_range(0, n - 1).filter(|i: int| b[i]);
        if b[n - 1] {
            assert(set =~= rest.insert(n - 1));
        } else {
            assert(set =~= rest);
        }
    } else {
        assert(set =~= Set::empty());
    }
}

} // verus!
