//! The subsets of a board, in ascending order: each is found from the one
//! before by one subtraction.

use crate::bitboard::BitBoard;
use crate::bits::popcount;
use vstd::arithmetic::power2::{lemma2_to64, lemma_pow2_pos, lemma_pow2_unfold, pow2};
use vstd::prelude::*;

verus! {

/// Whether every square of `part` is a square of `mask`.
pub open spec fn is_subset(part: BitBoard, mask: BitBoard) -> bool {
    part.0 & mask.0 == part.0
}

/// The word that follows `part` when the subsets of `mask` are counted
/// through: `part` less `mask`, cut down to `mask` again.
pub open spec fn successor(part: u128, mask: u128) -> u128 {
    part.wrapping_sub(mask) & mask
}

/// The word that spreads the low bits of `index` over the set bits of `mask`,
/// lowest bit to lowest bit.
pub open spec fn deposit(index: nat, mask: nat) -> nat
    decreases mask,
{
    if mask == 0 {
        0
    } else if mask % 2 == 1 {
        (index % 2) + 2 * deposit(index / 2, mask / 2)
    } else {
        2 * deposit(index, mask / 2)
    }
}

/// Among the subsets of `mask`, taken as numbers, the successor of `part` is
/// the next greater one, or zero where `part` is the greatest.
proof fn lemma_successor_order(part: u128, mask: u128, other: u128)
    requires
        part & mask == part,
        other & mask == other,
    ensures
        successor(part, mask) & mask == successor(part, mask),
        part <= mask,
        successor(part, mask) <= mask,
        successor(part, mask) != 0 ==> part < successor(part, mask),
        successor(part, mask) == 0 ==> other <= part,
        other > part ==> successor(part, mask) != 0 && other >= successor(part, mask),
{
    let diff = part.wrapping_sub(mask);
    let next = diff & mask;
    assert({
        &&& next & mask == next
        &&& part <= mask
        &&& next <= mask
        &&& (next != 0 ==> part < next)
        &&& (next == 0 ==> other <= part)
        &&& (other > part ==> next != 0 && other >= next)
    }) by (bit_vector)
        requires
            part & mask == part,
            other & mask == other,
            next == diff & mask,
            diff == (if part - mask < 0 {
                (part - mask + 0x1_0000_0000_0000_0000_0000_0000_0000_0000) as u128
            } else {
                (part - mask) as u128
            }),
    ;
}

/// How the successor within `mask` comes from the successor within the upper
/// 127 bits of `mask`.
proof fn lemma_successor_halves(part: u128, mask: u128)
    requires
        part & mask == part,
    ensures
        (part / 2) & (mask / 2) == part / 2,
        mask % 2 == 0 ==> part % 2 == 0,
        mask % 2 == 1 && part % 2 == 0 ==> successor(part, mask) == part + 1,
        !(mask % 2 == 1 && part % 2 == 0) ==> successor(part, mask) == 2 * successor(
            part / 2,
            mask / 2,
        ),
{
    let half_part = part / 2;
    let half_mask = mask / 2;
    let diff = part.wrapping_sub(mask);
    let half_diff = half_part.wrapping_sub(half_mask);
    let next = diff & mask;
    let half_next = half_diff & half_mask;
    assert({
        &&& half_part & half_mask == half_part
        &&& (mask % 2 == 0 ==> part % 2 == 0)
        &&& (mask % 2 == 1 && part % 2 == 0 ==> next == part + 1)
        &&& (!(mask % 2 == 1 && part % 2 == 0) ==> next == 2 * half_next)
    }) by (bit_vector)
        requires
            part & mask == part,
            half_part == part / 2,
            half_mask == mask / 2,
            next == diff & mask,
            half_next == half_diff & half_mask,
            diff == (if part - mask < 0 {
                (part - mask + 0x1_0000_0000_0000_0000_0000_0000_0000_0000) as u128
            } else {
                (part - mask) as u128
            }),
            half_diff == (if half_part - half_mask < 0 {
                (half_part - half_mask + 0x1_0000_0000_0000_0000_0000_0000_0000_0000) as u128
            } else {
                (half_part - half_mask) as u128
            }),
    ;
}

/// What is spread over `mask` does not exceed `mask`, and is zero only for
/// the index zero.
proof fn lemma_deposit_bounds(index: nat, mask: nat)
    requires
        index < pow2(popcount(mask)),
    ensures
        deposit(index, mask) <= mask,
        deposit(index, mask) == 0 <==> index == 0,
    decreases mask,
{
    if mask == 0 {
        lemma2_to64();
    } else if mask % 2 == 1 {
        lemma_pow2_unfold(popcount(mask));
        lemma_deposit_bounds(index / 2, mask / 2);
    } else {
        lemma_deposit_bounds(index, mask / 2);
    }
}

/// The successor of the subset with index `index` is the subset with the next
/// index, and the last subset is followed by the first.
proof fn lemma_successor_counts(index: nat, mask: u128)
    requires
        index < pow2(popcount(mask as nat)),
    ensures
        deposit(index, mask as nat) <= mask,
        (deposit(index, mask as nat) as u128) & mask == deposit(index, mask as nat) as u128,
        successor(deposit(index, mask as nat) as u128, mask) == deposit(
            if index + 1 == pow2(popcount(mask as nat)) {
                0
            } else {
                index + 1
            },
            mask as nat,
        ),
    decreases mask,
{
    let k = popcount(mask as nat);
    let part = deposit(index, mask as nat);
    lemma_deposit_bounds(index, mask as nat);
    lemma_pow2_pos(k);
    if mask == 0 {
        lemma2_to64();
        assert(0u128 & 0u128 == 0u128) by (bit_vector);
        lemma_successor_halves(0, 0);
    } else {
        let half = (mask / 2) as u128;
        if mask % 2 == 1 {
            lemma_pow2_unfold(k);
            let low = index / 2;
            lemma_successor_counts(low, half);
            lemma_subset_doubles(deposit(low, half as nat) as u128, half, index % 2 == 1, mask);
            lemma_successor_halves(part as u128, mask);
            lemma_deposit_bounds(
                if low + 1 == pow2(popcount(half as nat)) {
                    0
                } else {
                    low + 1
                },
                half as nat,
            );
        } else {
            lemma_successor_counts(index, half);
            lemma_subset_doubles(deposit(index, half as nat) as u128, half, false, mask);
            lemma_successor_halves(part as u128, mask);
        }
    }
}

/// A subset of the upper 127 bits of `mask`, moved up by one bit and, where
/// `mask` is odd, with or without the lowest bit, is a subset of `mask`.
proof fn lemma_subset_doubles(part: u128, half: u128, low: bool, mask: u128)
    requires
        part & half == part,
        half == mask / 2,
        low ==> mask % 2 == 1,
    ensures
        2 * part + (if low {
            1nat
        } else {
            0nat
        }) <= u128::MAX,
        ((2 * part + (if low {
            1nat
        } else {
            0nat
        })) as u128) & mask == (2 * part + (if low {
            1nat
        } else {
            0nat
        })) as u128,
{
    let bit: u128 = if low {
        1
    } else {
        0
    };
    assert(2 * part + bit <= 0xffff_ffff_ffff_ffff_ffff_ffff_ffff_ffff && ((2 * part + bit) as u128)
        & mask == (2 * part + bit) as u128) by (bit_vector)
        requires
            part & half == part,
            half == mask / 2,
            bit <= 1,
            bit == 1 ==> mask % 2 == 1,
    ;
}

/// The subset of `mask` that comes after `current` when the subsets are
/// taken in ascending order of their words, or the empty board after the
/// last.
pub fn next_subset(mask: BitBoard, current: BitBoard) -> (r: BitBoard)
    ensures
        r.0 == successor(current.0, mask.0),
        is_subset(r, mask),
        is_subset(current, mask) ==> {
            &&& current.0 <= mask.0
            &&& r.0 <= mask.0
            &&& r.0 != 0 ==> current.0 < r.0
            &&& forall|other: BitBoard| #[trigger]
                is_subset(other, mask) && other.0 > current.0 ==> r.0 != 0 && other.0 >= r.0
        },
{
    let r = BitBoard(current.0.wrapping_sub(mask.0) & mask.0);
    proof {
        let diff = current.0.wrapping_sub(mask.0);
        let m = mask.0;
        assert((diff & m) & m == diff & m) by (bit_vector);
        if is_subset(current, mask) {
            lemma_successor_order(current.0, mask.0, current.0);
            assert forall|other: BitBoard| #[trigger]
                is_subset(other, mask) && other.0 > current.0 implies r.0 != 0 && other.0
                >= r.0 by {
                lemma_successor_order(current.0, mask.0, other.0);
            }
        }
    }
    r
}

/// Every subset of `mask`, in ascending order of their words: the empty
/// board first, `mask` itself last. The subset at place `i` spreads the bits
/// of `i` over the squares of `mask`.
pub fn blocker_subsets(mask: BitBoard) -> (r: Vec<BitBoard>)
    requires
        popcount(mask.0 as nat) < usize::BITS,
    ensures
        r.len() == pow2(popcount(mask.0 as nat)),
        r[0] == BitBoard(0),
        forall|i: int| 0 <= i < r.len() ==> (#[trigger] r[i]).0 == deposit(i as nat, mask.0 as nat),
        forall|i: int| 0 <= i < r.len() ==> is_subset(#[trigger] r[i], mask),
        forall|i: int, j: int| 0 <= i < j < r.len() ==> r[i].0 < r[j].0,
        forall|part: BitBoard| #[trigger]
            is_subset(part, mask) ==> exists|i: int| 0 <= i < r.len() && r[i] == part,
{
    let ghost k = popcount(mask.0 as nat);
    let ghost total = pow2(k);
    let mut subsets: Vec<BitBoard> = Vec::new();
    let mut current = BitBoard(0);
    proof {
        vstd::bits::lemma_usize_pow2_no_overflow(k);
        lemma_pow2_pos(k);
        lemma_deposit_bounds(0, mask.0 as nat);
        lemma_successor_counts(0, mask.0);
    }
    loop
        invariant_except_break
            subsets.len() < total,
            is_subset(current, mask),
            current.0 == deposit(subsets.len() as nat, mask.0 as nat),
            subsets.len() == 0 ==> current == BitBoard(0),
            forall|i: int| 0 <= i < subsets.len() ==> (#[trigger] subsets[i]).0 < current.0,
            forall|part: BitBoard| #[trigger]
                is_subset(part, mask) && part.0 < current.0 ==> exists|i: int|
                    0 <= i < subsets.len() && subsets[i] == part,
        invariant
            k == popcount(mask.0 as nat),
            total == pow2(k),
            total < usize::MAX,
            subsets.len() > 0 ==> subsets[0] == BitBoard(0),
            forall|i: int|
                0 <= i < subsets.len() ==> (#[trigger] subsets[i]).0 == deposit(
                    i as nat,
                    mask.0 as nat,
                ),
            forall|i: int| 0 <= i < subsets.len() ==> is_subset(#[trigger] subsets[i], mask),
            forall|i: int, j: int| 0 <= i < j < subsets.len() ==> subsets[i].0 < subsets[j].0,
        ensures
            subsets.len() == total,
            forall|part: BitBoard| #[trigger]
                is_subset(part, mask) ==> exists|i: int|
                    0 <= i < subsets.len() && subsets[i] == part,
        decreases total - subsets.len(),
    {
        let ghost n = subsets.len() as nat;
        let ghost before = subsets@;
        let next = next_subset(mask, current);
        subsets.push(current);
        proof {
            lemma_successor_counts(n, mask.0);
            if n + 1 < total {
                lemma_deposit_bounds((n + 1) as nat, mask.0 as nat);
            } else {
                lemma_deposit_bounds(0, mask.0 as nat);
            }
            assert forall|part: BitBoard| #[trigger]
                is_subset(part, mask) && (next.0 == 0 || part.0 < next.0) implies exists|i: int|
                0 <= i < subsets.len() && subsets[i] == part by {
                if part.0 < current.0 {
                    let i = choose|i: int| 0 <= i < before.len() && before[i] == part;
                    assert(subsets[i] == part);
                } else {
                    assert(part.0 == current.0);
                    assert(subsets[n as int] == part);
                }
            }
        }
        if next.is_empty() {
            break ;
        }
        current = next;
    }
    subsets
}

} // verus!
