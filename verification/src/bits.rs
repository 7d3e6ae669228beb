//! Words of 128 bits, one bit at a time: the facts about single bits on
//! which the boards rest.

use vstd::prelude::*;
use vstd::relations::injective_on;
use vstd::set_lib::lemma_map_size;

verus! {

/// Whether bit `i` of the word `x` is set. Positions outside `0..128` hold no bit.
pub open spec fn bit_at(x: u128, i: int) -> bool {
    0 <= i < 128 && (x >> (i as u128)) & 1 == 1
}

/// The word whose only set bit is bit `k`.
pub open spec fn one_hot(k: int) -> u128 {
    1u128 << (k as u128)
}

/// The positions of the set bits of `x`.
pub open spec fn set_bits(x: u128) -> Set<int> {
    Set::new(|i: int| bit_at(x, i))
}

/// How many bits of `x` are set.
pub open spec fn popcount(x: nat) -> nat
    decreases x,
{
    if x == 0 {
        0
    } else {
        (x % 2) + popcount(x / 2)
    }
}

/// The bits of `a & b`, `a | b`, `a ^ b`, `!a` and `0`, one position at a time.
pub proof fn lemma_bit_ops(a: u128, b: u128, i: int)
    requires
        0 <= i < 128,
    ensures
        bit_at(a & b, i) == (bit_at(a, i) && bit_at(b, i)),
        bit_at(a | b, i) == (bit_at(a, i) || bit_at(b, i)),
        bit_at(a ^ b, i) == (bit_at(a, i) != bit_at(b, i)),
        bit_at(!a, i) == !bit_at(a, i),
        !bit_at(0, i),
{
    let iu = i as u128;
    assert({
        &&& (((a & b) >> iu) & 1 == 1) == (((a >> iu) & 1 == 1) && ((b >> iu) & 1 == 1))
        &&& (((a | b) >> iu) & 1 == 1) == (((a >> iu) & 1 == 1) || ((b >> iu) & 1 == 1))
        &&& (((a ^ b) >> iu) & 1 == 1) == (((a >> iu) & 1 == 1) != ((b >> iu) & 1 == 1))
        &&& (((!a) >> iu) & 1 == 1) == !((a >> iu) & 1 == 1)
        &&& (0u128 >> iu) & 1 != 1
    }) by (bit_vector)
        requires
            iu < 128,
    ;
}

/// A word with one set bit: which bit it is, and how the word tests another.
pub proof fn lemma_one_hot(x: u128, k: int, i: int)
    requires
        0 <= k < 128,
    ensures
        bit_at(one_hot(k), i) == (i == k),
        (x & one_hot(k) != 0) == bit_at(x, k),
        one_hot(k) != 0,
{
    let ku = k as u128;
    let iu = if 0 <= i < 128 {
        i as u128
    } else {
        0u128
    };
    assert({
        &&& ((((1u128 << ku) >> iu) & 1 == 1) == (iu == ku))
        &&& ((x & (1u128 << ku) != 0) == ((x >> ku) & 1 == 1))
        &&& (1u128 << ku) != 0
    }) by (bit_vector)
        requires
            ku < 128,
            iu < 128,
    ;
}

/// A word that is not zero has a set bit.
pub proof fn lemma_nonzero_has_bit(x: u128) -> (i: int)
    requires
        x != 0,
    ensures
        bit_at(x, i),
    decreases x,
{
    let y = x >> 1;
    assert({
        &&& (x & 1 == 1 ==> (x >> 0u128) & 1 == 1)
        &&& (x & 1 != 1 ==> y != 0 && y < x)
    }) by (bit_vector)
        requires
            x != 0,
            y == x >> 1,
    ;
    if x & 1 == 1 {
        0
    } else {
        let j = lemma_nonzero_has_bit(y);
        let ju = j as u128;
        assert(ju < 127 && (x >> ((ju + 1) as u128)) & 1 == 1) by (bit_vector)
            requires
                y == x >> 1,
                ju < 128,
                (y >> ju) & 1 == 1,
        ;
        j + 1
    }
}

/// Two words with the same bits are the same word.
pub proof fn lemma_bits_extensional(a: u128, b: u128)
    requires
        forall|i: int| 0 <= i < 128 ==> bit_at(a, i) == bit_at(b, i),
    ensures
        a == b,
{
    if a != b {
        let x = a ^ b;
        assert(x != 0) by (bit_vector)
            requires
                a != b,
                x == a ^ b,
        ;
        let i = lemma_nonzero_has_bit(x);
        lemma_bit_ops(a, b, i);
    }
}

/// The bits of a word are those of its half, one position higher, and its
/// lowest bit, which tells whether the word is odd.
proof fn lemma_bit_of_half(x: u128, i: int)
    ensures
        bit_at(x, 0) == (x % 2 == 1),
        0 <= i ==> bit_at(x, i + 1) == bit_at((x / 2) as u128, i),
{
    let h = (x / 2) as u128;
    let iu = if 0 <= i < 128 {
        i as u128
    } else {
        0u128
    };
    assert({
        &&& ((x >> 0u128) & 1 == 1) == (x % 2 == 1)
        &&& (iu < 127 ==> ((x >> ((iu + 1) as u128)) & 1 == 1) == ((h >> iu) & 1 == 1))
        &&& (h >> 127u128) & 1 != 1
    }) by (bit_vector)
        requires
            h == x / 2,
            iu < 128,
    ;
}

/// `popcount` counts the set bits.
pub proof fn lemma_popcount_counts(x: u128)
    ensures
        set_bits(x).finite(),
        set_bits(x).len() == popcount(x as nat),
    decreases x,
{
    if x == 0 {
        assert forall|i: int| !set_bits(x).contains(i) by {
            if 0 <= i < 128 {
                lemma_bit_ops(0, 0, i);
            }
        }
        assert(set_bits(x) =~= Set::<int>::empty());
    } else {
        let h = (x / 2) as u128;
        let up = |i: int| i + 1;
        let raised = set_bits(h).map(up);
        lemma_popcount_counts(h);
        assert(injective_on(up, set_bits(h)));
        lemma_map_size(set_bits(h), raised, up);
        let whole = if x % 2 == 1 {
            raised.insert(0)
        } else {
            raised
        };
        assert forall|i: int| set_bits(x).contains(i) == whole.contains(i) by {
            lemma_bit_of_half(x, i - 1);
            if raised.contains(i) {
                let j = choose|j: int| set_bits(h).contains(j) && up(j) == i;
                assert(j == i - 1);
            }
            if i >= 1 && set_bits(x).contains(i) {
                assert(set_bits(h).contains(i - 1));
                assert(up(i - 1) == i);
            }
        }
        assert(set_bits(x) =~= whole);
        assert(!raised.contains(0)) by {
            if raised.contains(0) {
                let j = choose|j: int| set_bits(h).contains(j) && up(j) == 0;
            }
        }
    }
}

} // verus!
