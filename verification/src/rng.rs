//! A tiny deterministic generator (SplitMix64) shared by the procedural-generation passes.
//!
//! Everything in the world is built from a seed, so a run is fully reproducible: the generator is
//! a pure function of its 64-bit state, and the stream it draws is fixed by [`mixed`] and
//! [`stepped`]. It is not cryptographic and not meant for statistics; it is fast and reproducible.

use vstd::arithmetic::div_mod::{
    lemma_fundamental_div_mod, lemma_fundamental_div_mod_converse, lemma_mod_multiples_vanish,
    lemma_mul_mod_noop, lemma_small_mod,
};
use vstd::prelude::*;

verus! {

/// The odd constant that the state advances by at every draw.
pub const GOLDEN_GAMMA: u64 = 0x9E37_79B9_7F4A_7C15;

/// First multiplier of the output mix.
pub const MIX_A: u64 = 0xBF58_476D_1CE4_E5B9;

/// Second multiplier of the output mix.
pub const MIX_B: u64 = 0x94D0_49BB_1331_11EB;

/// Number of distinct 64-bit words.
pub open spec fn words() -> int {
    0x1_0000_0000_0000_0000
}

/// The state after one draw.
pub open spec fn stepped(state: u64) -> u64 {
    state.wrapping_add(GOLDEN_GAMMA)
}

/// The word drawn when the state has just become `z`.
pub open spec fn mixed(z: u64) -> u64 {
    let a = (z ^ (z >> 30)).wrapping_mul(MIX_A);
    let b = (a ^ (a >> 27)).wrapping_mul(MIX_B);
    b ^ (b >> 31)
}

/// The state after `k` draws from `state`.
pub open spec fn state_after(state: u64, k: nat) -> u64
    decreases k,
{
    if k == 0 {
        state
    } else {
        stepped(state_after(state, (k - 1) as nat))
    }
}

/// The `k`-th word (counted from 1) that a generator in `state` draws.
pub open spec fn nth_word(state: u64, k: nat) -> u64 {
    mixed(state_after(state, k))
}

/// Multiplicative inverse of [`GOLDEN_GAMMA`] modulo the word count.
pub const GAMMA_INVERSE: u64 = 0xf1de_83e1_9937_733d;

/// The state whose draw gives `v`: the inverse of [`mixed`].
pub closed spec fn unmixed(v: u64) -> u64 {
    let b = v ^ (v >> 31) ^ (v >> 62);
    let a1 = b.wrapping_mul(0x3196_42b2_d24d_8ec3);
    let a = a1 ^ (a1 >> 27) ^ (a1 >> 54);
    let z1 = a.wrapping_mul(0x96de_1b17_3f11_9089);
    z1 ^ (z1 >> 30) ^ (z1 >> 60)
}

/// How many draws from `state` it takes until `v` comes up, between 1 and the word count.
pub closed spec fn draws_until(state: u64, v: u64) -> nat {
    let d = ((unmixed(v) - state) * GAMMA_INVERSE) % words();
    if d == 0 {
        words() as nat
    } else {
        d as nat
    }
}

/// Deterministic SplitMix64 generator. Seed it once; draw a reproducible stream.
pub struct Rng {
    state: u64,
}

impl Rng {
    /// The generator's whole state.
    pub closed spec fn state(&self) -> u64 {
        self.state
    }

    /// Create a generator from a seed.
    pub fn new(seed: u64) -> (rng: Self)
        ensures
            rng.state() == seed,
    {
        Rng { state: seed }
    }

    /// Next raw 64-bit word.
    pub fn next_u64(&mut self) -> (word: u64)
        ensures
            final(self).state() == stepped(old(self).state()),
            word == mixed(final(self).state()),
    {
        self.state = self.state.wrapping_add(GOLDEN_GAMMA);
        let mut z = self.state;
        z = (z ^ (z >> 30)).wrapping_mul(MIX_A);
        z = (z ^ (z >> 27)).wrapping_mul(MIX_B);
        z ^ (z >> 31)
    }

    /// Numerator, out of 2^24, of a uniform draw in `[0, 1)`: the top 24 bits of the next word.
    pub fn unit_draw(&mut self) -> (numerator: u32)
        ensures
            final(self).state() == stepped(old(self).state()),
            numerator == mixed(final(self).state()) >> 40,
            numerator < 0x100_0000,
    {
        let word = self.next_u64();
        assert(word >> 40 < 0x100_0000) by (bit_vector);
        (word >> 40) as u32
    }

    /// Uniform draw of an index below `n` (the remainder of the next word).
    pub fn index_below(&mut self, n: usize) -> (index: usize)
        requires
            n > 0,
        ensures
            final(self).state() == stepped(old(self).state()),
            index == mixed(final(self).state()) % (n as u64),
            index < n,
    {
        let word = self.next_u64();
        (word % (n as u64)) as usize
    }
}

/// Multiplying by `c` and then by its inverse gives the word back.
proof fn lemma_mul_inverse(x: u64, c: u64, inverse: u64, quotient: int)
    requires
        c as int * inverse as int == quotient * words() + 1,
    ensures
        x.wrapping_mul(c).wrapping_mul(inverse) == x,
{
    let m = words();
    let p = x as int * c as int;
    lemma_mul_mod_noop(p, inverse as int, m);
    lemma_mul_mod_noop(p % m, inverse as int, m);
    assert((p % m) * inverse as int % m == p * inverse as int % m) by {
        vstd::arithmetic::div_mod::lemma_mul_mod_noop_left(p, inverse as int, m);
    }
    assert(p * inverse as int == m * (x as int * quotient) + x as int) by (nonlinear_arith)
        requires
            p == x as int * c as int,
            c as int * inverse as int == quotient * m + 1,
    ;
    lemma_mod_multiples_vanish(x as int * quotient, x as int, m);
    lemma_small_mod(x as nat, m as nat);
}

/// The output mix is a permutation of the words: [`unmixed`] undoes [`mixed`] on both sides, so
/// two different states never draw the same word.
pub proof fn law_mix_is_a_permutation(z: u64)
    ensures
        unmixed(mixed(z)) == z,
        mixed(unmixed(z)) == z,
{
    // Forwards, then back.
    let x0 = z ^ (z >> 30);
    let a = x0.wrapping_mul(MIX_A);
    let x1 = a ^ (a >> 27);
    let b = x1.wrapping_mul(MIX_B);
    let v = b ^ (b >> 31);
    assert(v ^ (v >> 31) ^ (v >> 62) == b) by (bit_vector)
        requires
            v == b ^ (b >> 31),
    ;
    lemma_mul_inverse(x1, MIX_B, 0x3196_42b2_d24d_8ec3, 2077064247507883091);
    assert(x1 ^ (x1 >> 27) ^ (x1 >> 54) == a) by (bit_vector)
        requires
            x1 == a ^ (a >> 27),
    ;
    lemma_mul_inverse(x0, MIX_A, 0x96de_1b17_3f11_9089, 8125545580553827436);
    assert(x0 ^ (x0 >> 30) ^ (x0 >> 60) == z) by (bit_vector)
        requires
            x0 == z ^ (z >> 30),
    ;
    assert(unmixed(mixed(z)) == z);

    // Back, then forwards.
    let b2 = z ^ (z >> 31) ^ (z >> 62);
    let a1 = b2.wrapping_mul(0x3196_42b2_d24d_8ec3);
    let a2 = a1 ^ (a1 >> 27) ^ (a1 >> 54);
    let z1 = a2.wrapping_mul(0x96de_1b17_3f11_9089);
    let u = z1 ^ (z1 >> 30) ^ (z1 >> 60);
    assert(u ^ (u >> 30) == z1) by (bit_vector)
        requires
            u == z1 ^ (z1 >> 30) ^ (z1 >> 60),
    ;
    lemma_mul_inverse(a2, 0x96de_1b17_3f11_9089, MIX_A, 8125545580553827436);
    assert(a2 ^ (a2 >> 27) == a1) by (bit_vector)
        requires
            a2 == a1 ^ (a1 >> 27) ^ (a1 >> 54),
    ;
    lemma_mul_inverse(b2, 0x3196_42b2_d24d_8ec3, MIX_B, 2077064247507883091);
    assert(b2 ^ (b2 >> 31) == z) by (bit_vector)
        requires
            b2 == z ^ (z >> 31) ^ (z >> 62),
    ;
}

/// Every draw that misses `v` brings `v` one draw closer.
pub proof fn lemma_draw_countdown(state: u64, v: u64)
    ensures
        mixed(stepped(state)) != v ==> draws_until(stepped(state), v) + 1 == draws_until(state, v),
{
    let m = words();
    let g = GOLDEN_GAMMA as int;
    let gi = GAMMA_INVERSE as int;
    let u = unmixed(v) as int;
    let s = state as int;
    let t = stepped(state) as int;
    assert(g * gi == 10771413168148108919 * m + 1);
    let q = if s + g >= m { 1int } else { 0int };
    assert(t == s + g - q * m);
    let full = (u - s) * gi;
    let rest = (u - t) * gi;
    assert(rest == full - 1 + m * (q * gi - 10771413168148108919)) by (nonlinear_arith)
        requires
            full == (u - s) * gi,
            rest == (u - t) * gi,
            t == s + g - q * m,
            g * gi == 10771413168148108919 * m + 1,
    ;
    lemma_mod_multiples_vanish(q * gi - 10771413168148108919, full - 1, m);
    assert(rest % m == (full - 1) % m);
    let d = full % m;
    lemma_fundamental_div_mod(full, m);
    let k = full / m;
    if d >= 1 {
        lemma_fundamental_div_mod_converse(full - 1, m, k, d - 1);
        assert(rest % m == d - 1);
        if d == 1 {
            // The next draw is the one that gives `v`.
            let w = (u - s) * gi;
            assert(w == k * m + 1);
            assert(m * ((u - s) * 10771413168148108919 - k * g) == g - (u - s)) by (nonlinear_arith)
                requires
                    (u - s) * gi == k * m + 1,
                    g * gi == 10771413168148108919 * m + 1,
            ;
            let c = (u - s) * 10771413168148108919 - k * g;
            assert(m * c == g - (u - s));
            assert(-m < g - (u - s) < 2 * m);
            assert(c == 0 || c == 1) by (nonlinear_arith)
                requires
                    -m < m * c < 2 * m,
                    m > 0,
            ;
            assert(t == u);
            law_mix_is_a_permutation(v);
        }
    } else {
        lemma_fundamental_div_mod_converse(full - 1, m, k - 1, m - 1);
        assert(rest % m == m - 1);
    }
}

/// The generator has full period: from any state, every 64-bit word is drawn once within the
/// first 2^64 draws.
pub proof fn law_every_word_is_drawn(state: u64, v: u64)
    ensures
        1 <= draws_until(state, v) <= words(),
        nth_word(state, draws_until(state, v)) == v,
    decreases draws_until(state, v),
{
    let m = words();
    assert(((unmixed(v) - state) * GAMMA_INVERSE) % m >= 0);
    assert(((unmixed(v) - state) * GAMMA_INVERSE) % m < m);
    lemma_draw_countdown(state, v);
    let next = stepped(state);
    if mixed(next) == v {
        lemma_draws_until_one(state, v);
        assert(state_after(state, 0) == state);
        assert(state_after(state, 1) == next);
    } else {
        law_every_word_is_drawn(next, v);
        lemma_state_after_shift(state, draws_until(next, v));
    }
}

proof fn lemma_state_after_shift(state: u64, k: nat)
    ensures
        state_after(stepped(state), k) == state_after(state, k + 1),
    decreases k,
{
    if k > 0 {
        lemma_state_after_shift(state, (k - 1) as nat);
    } else {
        assert(state_after(state, 0) == state);
    }
}

/// When the next draw gives `v`, the count is one.
proof fn lemma_draws_until_one(state: u64, v: u64)
    requires
        mixed(stepped(state)) == v,
    ensures
        draws_until(state, v) == 1,
{
    let m = words();
    let g = GOLDEN_GAMMA as int;
    let gi = GAMMA_INVERSE as int;
    law_mix_is_a_permutation(stepped(state));
    let u = unmixed(v) as int;
    let s = state as int;
    assert(u == stepped(state));
    let q = if s + g >= m { 1int } else { 0int };
    assert((u - s) * gi == m * (10771413168148108919 - q * gi) + 1) by (nonlinear_arith)
        requires
            u - s == g - q * m,
            g * gi == 10771413168148108919 * m + 1,
    ;
    lemma_mod_multiples_vanish(10771413168148108919 - q * gi, 1, m);
    lemma_small_mod(1, m as nat);
}

/// Multiplying by the constant that the state advances by tells all words apart.
pub proof fn lemma_gamma_cancels(x: u64, y: u64)
    requires
        x.wrapping_mul(GOLDEN_GAMMA) == y.wrapping_mul(GOLDEN_GAMMA),
    ensures
        x == y,
{
    assert(GOLDEN_GAMMA as int * GAMMA_INVERSE as int == 10771413168148108919 * words() + 1);
    lemma_mul_inverse(x, GOLDEN_GAMMA, GAMMA_INVERSE, 10771413168148108919);
    lemma_mul_inverse(y, GOLDEN_GAMMA, GAMMA_INVERSE, 10771413168148108919);
}

} // verus!
