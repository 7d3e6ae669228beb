//! The generator from which the search draws its multipliers.

use vstd::prelude::*;

verus! {

/// The state from which a fresh generator starts.
pub const RNG_SEED: u128 = 0xE926_E621_0D9E_3487;

/// The factor by which the state is multiplied at every step.
pub const RNG_MULTIPLIER: u128 = 0x2360_ED05_1FC6_5DA4_4385_DF64_9FCC_F645;

/// The state that follows `state`.
pub open spec fn next_state(state: u128) -> u128 {
    state.wrapping_mul(RNG_MULTIPLIER)
}

/// `x` with its bits moved `n` places to the right, those that fall off
/// coming back in at the top.
pub open spec fn rotated_right(x: u64, n: u32) -> u64 {
    if n % 64 == 0 {
        x
    } else {
        (x >> (n % 64)) | (x << ((64 - n % 64) as u32))
    }
}

/// The 64 bits that the generator hands out on reaching `state`: the two
/// halves of the state, xored and rotated right by the state's top six bits.
pub open spec fn output(state: u128) -> u64 {
    rotated_right(((state >> 64) as u64) ^ (state as u64), (state >> 122) as u32)
}

/// The state after `n` steps from `state`.
pub open spec fn state_after(state: u128, n: nat) -> u128
    decreases n,
{
    if n == 0 {
        state
    } else {
        next_state(state_after(state, (n - 1) as nat))
    }
}

/// The 128 bits drawn from `state`: the output of the next state in the high
/// half, that of the state after it in the low half.
pub open spec fn output_u128(state: u128) -> u128 {
    ((output(next_state(state)) as u128) << 64) | (output(next_state(next_state(state))) as u128)
}

/// A permuted congruential generator with 128 bits of state and 64 bits of
/// output per step. Its view is the state.
pub struct Rng(u128);

impl View for Rng {
    type V = u128;

    closed spec fn view(&self) -> u128 {
        self.0
    }
}

impl Default for Rng {
    fn default() -> (r: Rng)
        ensures
            r@ == RNG_SEED,
    {
        Rng(RNG_SEED)
    }
}

impl Rng {
    /// A generator that starts from the given state.
    pub fn from_state(state: u128) -> (r: Rng)
        ensures
            r@ == state,
    {
        Rng(state)
    }

    /// Moves to the next state and hands out its 64 bits.
    pub fn next_u64(&mut self) -> (r: u64)
        ensures
            final(self)@ == next_state(old(self)@),
            r == output(final(self)@),
    {
        self.0 = self.0.wrapping_mul(RNG_MULTIPLIER);
        let state = self.0;
        let top = state >> 122;
        let high = state >> 64;
        assert(top < 64 && high <= 0xffff_ffff_ffff_ffff) by (bit_vector)
            requires
                top == state >> 122,
                high == state >> 64,
        ;
        let rot = top as u32;
        let xsl = (high as u64) ^ (#[verifier::truncate] (state as u64));
        if rot == 0 {
            xsl
        } else {
            (xsl >> rot) | (xsl << (64 - rot))
        }
    }

    /// Takes two steps and hands out 128 bits, the first step's output on top.
    pub fn next_u128(&mut self) -> (r: u128)
        ensures
            final(self)@ == state_after(old(self)@, 2),
            r == output_u128(old(self)@),
    {
        let x = self.next_u64() as u128;
        let y = self.next_u64() as u128;
        proof {
            let start = old(self)@;
            assert(state_after(start, 0) == start);
            assert(state_after(start, 1) == next_state(state_after(start, 0)));
            assert(state_after(start, 2) == next_state(state_after(start, 1)));
        }
        (x << 64) | y
    }
}

/// Steps add up.
pub proof fn lemma_state_after_add(state: u128, first: nat, then: nat)
    ensures
        state_after(state_after(state, first), then) == state_after(state, first + then),
    decreases then,
{
    if then > 0 {
        lemma_state_after_add(state, first, (then - 1) as nat);
    }
}

} // verus!
