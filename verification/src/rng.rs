//! Deterministic pseudo-random generation.
//!
//! `SplitMix64` (Vigna 2016; Java 8's `SplittableRandom`) keeps a 64-bit
//! state, advances it by a fixed odd constant on every draw and scrambles
//! the new state into the output. Everything here is integer arithmetic
//! modulo 2^64, so the whole output stream is a function of the seed.
use vstd::prelude::*;

verus! {

/// Additive constant of the state sequence (the golden-ratio gamma).
pub const GAMMA: u64 = 0x9E37_79B9_7F4A_7C15;

/// First multiplier of the output scrambler.
pub const MIX1: u64 = 0xBF58_476D_1CE4_E5B9;

/// Second multiplier of the output scrambler.
pub const MIX2: u64 = 0x94D0_49BB_1331_11EB;

/// 2^64, the modulus of all state arithmetic.
pub open spec fn modulus() -> nat {
    0x1_0000_0000_0000_0000
}

/// One step of the state sequence: `s + GAMMA (mod 2^64)`.
pub open spec fn advance(s: u64) -> u64 {
    ((s + GAMMA) % (modulus() as int)) as u64
}

/// `x * c (mod 2^64)`.
pub open spec fn mul_mod(x: u64, c: u64) -> u64 {
    ((x as nat * c as nat) % modulus()) as u64
}

/// The output scrambler applied to a freshly advanced state.
pub open spec fn mix64(z: u64) -> u64 {
    let a = mul_mod(z ^ (z >> 30u64), MIX1);
    let b = mul_mod(a ^ (a >> 27u64), MIX2);
    b ^ (b >> 31u64)
}

/// State of a generator seeded with `seed` after `k` draws.
pub open spec fn state_after(seed: u64, k: nat) -> u64
    decreases k,
{
    if k == 0 {
        advance(seed)
    } else {
        advance(state_after(seed, (k - 1) as nat))
    }
}

/// The `k`-th 64-bit output (counting from 0) of a generator seeded with `seed`.
pub open spec fn stream(seed: u64, k: nat) -> u64 {
    mix64(state_after(seed, (k + 1) as nat))
}

/// `SplitMix64`. A small, fast, statistically excellent generator that
/// produces 64 bits per step from a 64-bit state. `next_u32` keeps the high
/// 32 bits of each step (the better-mixed half).
#[derive(Debug)]
pub struct SplitMix64 {
    state: u64,
}

impl View for SplitMix64 {
    type V = u64;

    /// The generator is its 64-bit state.
    closed spec fn view(&self) -> u64 {
        self.state
    }
}

impl Clone for SplitMix64 {
    fn clone(&self) -> (r: Self)
        ensures
            r@ == self@,
    {
        SplitMix64 { state: self.state }
    }
}

impl SplitMix64 {
    /// Seed with any `u64`; seeding with 0 is fine — the scrambler
    /// decorrelates even a zero seed.
    pub fn seeded(seed: u64) -> (r: Self)
        ensures
            r@ == state_after(seed, 0),
    {
        Self { state: seed.wrapping_add(GAMMA) }
    }

    /// Advance the state and return the full 64-bit output.
    pub fn next_u64(&mut self) -> (r: u64)
        ensures
            final(self)@ == advance(old(self)@),
            r == mix64(advance(old(self)@)),
    {
        self.state = self.state.wrapping_add(GAMMA);
        let mut z = self.state;
        z = (z ^ (z >> 30u64)).wrapping_mul(MIX1);
        z = (z ^ (z >> 27u64)).wrapping_mul(MIX2);
        z ^ (z >> 31u64)
    }

    /// Draw one step and keep its high 32 bits.
    pub fn next_u32(&mut self) -> (r: u32)
        ensures
            final(self)@ == advance(old(self)@),
            r as int == mix64(advance(old(self)@)) as int / 0x1_0000_0000,
    {
        let x = self.next_u64();
        let hi = x >> 32u64;
        assert(hi == x / 0x1_0000_0000 && hi < 0x1_0000_0000) by (bit_vector)
            requires
                hi == x >> 32u64,
        ;
        hi as u32
    }
}

/// Drawing from a generator seeded with `seed` walks the state sequence:
/// after `k` draws the state is `seed + (k + 1) * GAMMA (mod 2^64)`, so the
/// whole stream is determined by the seed alone.
pub proof fn law_state_closed_form(seed: u64, k: nat)
    ensures
        state_after(seed, k) as int == (seed + (k + 1) * GAMMA) % (modulus() as int),
    decreases k,
{
    let m = modulus() as int;
    if k == 0 {
    } else {
        law_state_closed_form(seed, (k - 1) as nat);
        let prev = (seed + k * GAMMA) % m;
        assert(state_after(seed, k) as int == (prev + GAMMA) % m);
        vstd::arithmetic::div_mod::lemma_add_mod_noop(seed + k * GAMMA, GAMMA as int, m);
        assert((GAMMA as int) % m == GAMMA as int);
        assert(seed + (k + 1) * GAMMA == seed + k * GAMMA + GAMMA) by (nonlinear_arith);
    }
}

/// Seeds that differ give states that differ at every step: advancing by
/// `GAMMA` is a bijection on 64-bit states.
pub proof fn law_distinct_seeds_distinct_states(s1: u64, s2: u64, k: nat)
    requires
        s1 != s2,
    ensures
        state_after(s1, k) != state_after(s2, k),
    decreases k,
{
    if k == 0 {
    } else {
        law_distinct_seeds_distinct_states(s1, s2, (k - 1) as nat);
    }
}

proof fn lemma_xorshift_injective(x: u64, y: u64, k: u64)
    requires
        27 <= k <= 31,
        x ^ (x >> k) == y ^ (y >> k),
    ensures
        x == y,
{
    assert(x ^ (x >> k) == y ^ (y >> k) && 27 <= k <= 31 ==> x == y) by (bit_vector);
}

proof fn lemma_mul_mix1_injective(x: u64, y: u64)
    requires
        mul_mod(x, MIX1) == mul_mod(y, MIX1),
    ensures
        x == y,
{
    let a = mul_mod(x, MIX1);
    let b = mul_mod(y, MIX1);
    assert(a == ((x as nat * 0xBF58_476D_1CE4_E5B9nat) % 0x1_0000_0000_0000_0000nat) as u64);
    assert(b == ((y as nat * 0xBF58_476D_1CE4_E5B9nat) % 0x1_0000_0000_0000_0000nat) as u64);
    assert(a == ((x as nat * 0xBF58_476D_1CE4_E5B9nat) % 0x1_0000_0000_0000_0000nat) as u64
        ==> ((a as nat * 0x96DE_1B17_3F11_9089nat) % 0x1_0000_0000_0000_0000nat) == x) by (bit_vector);
    assert(b == ((y as nat * 0xBF58_476D_1CE4_E5B9nat) % 0x1_0000_0000_0000_0000nat) as u64
        ==> ((b as nat * 0x96DE_1B17_3F11_9089nat) % 0x1_0000_0000_0000_0000nat) == y) by (bit_vector);
}

proof fn lemma_mul_mix2_injective(x: u64, y: u64)
    requires
        mul_mod(x, MIX2) == mul_mod(y, MIX2),
    ensures
        x == y,
{
    let a = mul_mod(x, MIX2);
    let b = mul_mod(y, MIX2);
    assert(a == ((x as nat * 0x94D0_49BB_1331_11EBnat) % 0x1_0000_0000_0000_0000nat) as u64);
    assert(b == ((y as nat * 0x94D0_49BB_1331_11EBnat) % 0x1_0000_0000_0000_0000nat) as u64);
    assert(a == ((x as nat * 0x94D0_49BB_1331_11EBnat) % 0x1_0000_0000_0000_0000nat) as u64
        ==> ((a as nat * 0x3196_42B2_D24D_8EC3nat) % 0x1_0000_0000_0000_0000nat) == x) by (bit_vector);
    assert(b == ((y as nat * 0x94D0_49BB_1331_11EBnat) % 0x1_0000_0000_0000_0000nat) as u64
        ==> ((b as nat * 0x3196_42B2_D24D_8EC3nat) % 0x1_0000_0000_0000_0000nat) == y) by (bit_vector);
}

/// The output scrambler is a bijection on 64-bit words: distinct states
/// never produce the same output.
pub proof fn law_mix64_injective(x: u64, y: u64)
    requires
        mix64(x) == mix64(y),
    ensures
        x == y,
{
    let ax = mul_mod(x ^ (x >> 30u64), MIX1);
    let ay = mul_mod(y ^ (y >> 30u64), MIX1);
    let bx = mul_mod(ax ^ (ax >> 27u64), MIX2);
    let by = mul_mod(ay ^ (ay >> 27u64), MIX2);
    lemma_xorshift_injective(bx, by, 31);
    lemma_mul_mix2_injective(ax ^ (ax >> 27u64), ay ^ (ay >> 27u64));
    lemma_xorshift_injective(ax, ay, 27);
    lemma_mul_mix1_injective(x ^ (x >> 30u64), y ^ (y >> 30u64));
    lemma_xorshift_injective(x, y, 30);
}

/// Generators seeded differently never agree: at every step `k` their
/// 64-bit outputs differ.
pub proof fn law_distinct_seeds_distinct_outputs(s1: u64, s2: u64, k: nat)
    requires
        s1 != s2,
    ensures
        stream(s1, k) != stream(s2, k),
{
    law_distinct_seeds_distinct_states(s1, s2, (k + 1) as nat);
    if stream(s1, k) == stream(s2, k) {
        law_mix64_injective(state_after(s1, (k + 1) as nat), state_after(s2, (k + 1) as nat));
    }
}

/// The `k`-th draw (counting from 1) of a generator seeded with `seed`: it
/// starts from the state after `k - 1` draws, leaves the state after `k`
/// draws, and returns the scrambled `seed + (k + 1) * GAMMA (mod 2^64)`,
/// the canonical SplitMix64 stream of `seed` advanced by one step.
pub proof fn law_kth_draw(seed: u64, k: nat)
    requires
        k >= 1,
    ensures
        advance(state_after(seed, (k - 1) as nat)) == state_after(seed, k),
        mix64(advance(state_after(seed, (k - 1) as nat))) == mix64(
            ((seed + (k + 1) * GAMMA) % (modulus() as int)) as u64,
        ),
        stream(seed, (k - 1) as nat) == mix64(advance(state_after(seed, (k - 1) as nat))),
{
    law_state_closed_form(seed, k);
}

} // verus!
