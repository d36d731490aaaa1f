//! Small deterministic PRNG (SplitMix64, Vigna's reference algorithm).
//!
//! Seeded randomness is a product feature: the simulated network and the
//! election timeouts must be reproducible from a seed. Not cryptographic.

use std::ops::RangeInclusive;

use vstd::prelude::*;

verus! {

/// `RangeInclusive::into_inner` of std: the two bounds of a range that has
/// not been iterated to exhaustion.
pub assume_specification<Idx>[ RangeInclusive::<Idx>::into_inner ](
    range: RangeInclusive<Idx>,
) -> (bounds: (Idx, Idx))
    ensures
        !range@.exhausted ==> bounds == (range@.start, range@.end),
;

/// The generator's state: a counter that advances by the golden gamma.
#[derive(Debug)]
pub struct SplitMix64 {
    state: u64,
}

/// The counter after one draw.
pub open spec fn advance(state: u64) -> u64 {
    state.wrapping_add(0x9E37_79B9_7F4A_7C15)
}

/// First avalanche round.
pub open spec fn mix_first(z: u64) -> u64 {
    (z ^ (z >> 30)).wrapping_mul(0xBF58_476D_1CE4_E5B9)
}

/// Second avalanche round.
pub open spec fn mix_second(z: u64) -> u64 {
    (z ^ (z >> 27)).wrapping_mul(0x94D0_49BB_1331_11EB)
}

/// What a draw returns for an (already advanced) counter.
pub open spec fn mix(z: u64) -> u64 {
    let w = mix_second(mix_first(z));
    w ^ (w >> 31)
}

/// The `n`-th counter value from `state` on.
pub open spec fn counter(state: u64, n: nat) -> u64
    decreases n,
{
    if n == 0 {
        state
    } else {
        advance(counter(state, (n - 1) as nat))
    }
}

/// The `n`-th draw from `state` on, counted from one.
pub open spec fn draw(state: u64, n: nat) -> u64 {
    mix(counter(state, n))
}

/// A draw reduced to `lo..=hi`; the full range takes the draw as it is.
pub open spec fn reduce(lo: u64, hi: u64, draw: u64) -> u64 {
    if hi - lo == u64::MAX {
        draw
    } else {
        (lo + draw as int % (hi - lo + 1)) as u64
    }
}

impl View for SplitMix64 {
    type V = u64;

    closed spec fn view(&self) -> u64 {
        self.state
    }
}

impl Clone for SplitMix64 {
    fn clone(&self) -> (copy: Self)
        ensures
            copy == *self,
    {
        SplitMix64 { state: self.state }
    }
}

impl SplitMix64 {
    /// A generator whose counter starts at `seed`.
    pub fn new(seed: u64) -> (rng: Self)
        ensures
            rng@ == seed,
    {
        Self { state: seed }
    }

    /// The next 64-bit draw.
    pub fn next_u64(&mut self) -> (draw: u64)
        ensures
            final(self)@ == advance(old(self)@),
            draw == mix(advance(old(self)@)),
    {
        self.state = self.state.wrapping_add(0x9E37_79B9_7F4A_7C15);
        let mut z: u64 = self.state;
        z = (z ^ (z >> 30)).wrapping_mul(0xBF58_476D_1CE4_E5B9);
        z = (z ^ (z >> 27)).wrapping_mul(0x94D0_49BB_1331_11EB);
        z ^ (z >> 31)
    }

    /// Uniform draw from an inclusive range, by a modulo reduction; the bias
    /// is negligible for the small ranges used in fault injection. Always
    /// takes exactly one draw.
    pub fn next_range(&mut self, range: RangeInclusive<u64>) -> (draw: u64)
        requires
            !range@.exhausted,
            range@.start <= range@.end,
        ensures
            final(self)@ == advance(old(self)@),
            draw == reduce(range@.start, range@.end, mix(advance(old(self)@))),
            range@.start <= draw <= range@.end,
    {
        let (lo, hi) = range.into_inner();
        let span: u64 = (hi - lo).wrapping_add(1);
        if span == 0 {
            // lo..=hi covers all of u64.
            return self.next_u64();
        }
        let draw: u64 = self.next_u64();
        lo + draw % span
    }

    /// True when the top 53 bits of one draw, read as an integer, fall below
    /// `threshold`: an event whose probability is `threshold / 2^53`.
    pub fn next_below(&mut self, threshold: u64) -> (hit: bool)
        ensures
            final(self)@ == advance(old(self)@),
            hit == ((mix(advance(old(self)@)) >> 11) < threshold),
    {
        (self.next_u64() >> 11) < threshold
    }
}

/// The counter after `n` draws is the seed plus `n` gammas, modulo 2^64.
proof fn counter_is_linear(state: u64, n: nat)
    ensures
        counter(state, n) == (state + n * 0x9E37_79B9_7F4A_7C15) % 0x1_0000_0000_0000_0000,
    decreases n,
{
    if n == 0 {
        assert(state as int % 0x1_0000_0000_0000_0000 == state) by (nonlinear_arith);
    } else {
        let before = (n - 1) as nat;
        counter_is_linear(state, before);
        let sum = state + before * 0x9E37_79B9_7F4A_7C15;
        assert(state + n * 0x9E37_79B9_7F4A_7C15 == sum + 0x9E37_79B9_7F4A_7C15)
            by (nonlinear_arith)
            requires
                sum == state + before * 0x9E37_79B9_7F4A_7C15,
                n == before + 1,
        ;
        let m: int = 0x1_0000_0000_0000_0000;
        let c = counter(state, before);
        assert(c == sum % m);
        assert((c + 0x9E37_79B9_7F4A_7C15) % m == (sum + 0x9E37_79B9_7F4A_7C15) % m)
            by (nonlinear_arith)
            requires
                c == sum % m,
                m == 0x1_0000_0000_0000_0000,
        ;
    }
}

/// The sequence of draws is a function of the seed: the `k`-th draw of a seed
/// is the first draw of that seed advanced by `k - 1` gammas, modulo 2^64.
pub proof fn the_kth_draw_is_a_first_draw(seed: u64, k: nat)
    requires
        k >= 1,
    ensures
        draw(seed, k) == draw(
            ((seed + (k - 1) * 0x9E37_79B9_7F4A_7C15) % 0x1_0000_0000_0000_0000) as u64,
            1,
        ),
{
    let before = (k - 1) as nat;
    counter_is_linear(seed, before);
    reveal_with_fuel(counter, 2);
    assert(counter(seed, k) == advance(counter(seed, before)));
}

/// A threshold of zero never fires; one of 2^53 always does.
pub proof fn threshold_extremes(draw: u64)
    ensures
        !((draw >> 11) < 0u64),
        (draw >> 11) < 0x20_0000_0000_0000u64,
{
    assert((draw >> 11) < 0x20_0000_0000_0000u64) by (bit_vector);
}

/// A reduced draw lies in the range, and every value of the range is what some
/// draw reduces to; a range of one value leaves no choice.
pub proof fn reduced_draws_lie_in_range(lo: u64, hi: u64, draw: u64)
    requires
        lo <= hi,
    ensures
        lo <= reduce(lo, hi, draw) <= hi,
        lo <= draw <= hi ==> reduce(lo, hi, (draw - lo) as u64) == draw,
        reduce(lo, lo, draw) == lo,
        reduce(0, u64::MAX, draw) == draw,
        draw <= u64::MAX - (hi - lo + 1) ==> reduce(lo, hi, (draw + (hi - lo + 1)) as u64)
            == reduce(lo, hi, draw),
{
    let span = hi - lo + 1;
    if span <= u64::MAX {
        assert(0 <= draw as int % span < span) by (nonlinear_arith)
            requires
                span > 0,
        ;
        if lo <= draw <= hi {
            let d = draw - lo;
            assert(d % span == d) by (nonlinear_arith)
                requires
                    0 <= d < span,
            ;
        }
        assert((draw + span) % span == draw as int % span) by (nonlinear_arith)
            requires
                span > 0,
        ;
    }
    assert(draw as int % 1 == 0);
}

/// How often a threshold is hit: by exactly the draws below `threshold` times
/// 2^11, so by `threshold` out of 2^53.
pub proof fn a_threshold_is_a_share_of_the_draws(draw: u64, threshold: u64)
    requires
        threshold <= 0x20_0000_0000_0000,
    ensures
        (draw >> 11) < threshold <==> draw < threshold * 2048,
{
    assert((draw >> 11) == draw / 2048) by (bit_vector);
    assert(draw / 2048 < threshold <==> draw < threshold * 2048) by (nonlinear_arith);
}

/// Multiplying by an odd constant can be undone by multiplying by its inverse.
proof fn lemma_mul_undone(a: u64, c: u64, inverse: u64, q: int)
    requires
        c * inverse == q * 0x1_0000_0000_0000_0000 + 1,
    ensures
        (a.wrapping_mul(c) * inverse) % 0x1_0000_0000_0000_0000 == a,
{
    let m: int = 0x1_0000_0000_0000_0000;
    let product = a * c;
    assert(a.wrapping_mul(c) as int == product % m);
    vstd::arithmetic::div_mod::lemma_mul_mod_noop_left(product, inverse as int, m);
    assert(product * inverse == (a * q) * m + a) by (nonlinear_arith)
        requires
            product == a * c,
            c * inverse == q * m + 1,
    ;
    vstd::arithmetic::div_mod::lemma_mod_multiples_vanish(a * q, a as int, m);
    assert((m * (a * q) + a) % m == a as int % m);
    assert(m * (a * q) == (a * q) * m) by (nonlinear_arith);
    vstd::arithmetic::div_mod::lemma_small_mod(a as nat, m as nat);
}

/// No two counters draw the same: mixing loses nothing, so every 64-bit value
/// is drawn exactly once in a full round.
pub proof fn different_counters_draw_differently(a: u64, b: u64)
    requires
        mix(a) == mix(b),
    ensures
        a == b,
{
    let (a1, b1) = (mix_first(a), mix_first(b));
    let (a2, b2) = (mix_second(a1), mix_second(b1));
    assert(a2 == b2) by (bit_vector)
        requires
            a2 ^ (a2 >> 31) == b2 ^ (b2 >> 31),
    ;
    let (xa, xb) = (a1 ^ (a1 >> 27), b1 ^ (b1 >> 27));
    lemma_mul_undone(xa, 0x94D0_49BB_1331_11EB, 0x3196_42B2_D24D_8EC3, 0x1CD3_36ED_A85F_1453);
    lemma_mul_undone(xb, 0x94D0_49BB_1331_11EB, 0x3196_42B2_D24D_8EC3, 0x1CD3_36ED_A85F_1453);
    assert(a1 == b1) by (bit_vector)
        requires
            a1 ^ (a1 >> 27) == b1 ^ (b1 >> 27),
    ;
    let (ya, yb) = (a ^ (a >> 30), b ^ (b >> 30));
    lemma_mul_undone(ya, 0xBF58_476D_1CE4_E5B9, 0x96DE_1B17_3F11_9089, 0x70C3_BCA7_8F27_F46C);
    lemma_mul_undone(yb, 0xBF58_476D_1CE4_E5B9, 0x96DE_1B17_3F11_9089, 0x70C3_BCA7_8F27_F46C);
    assert(a == b) by (bit_vector)
        requires
            a ^ (a >> 30) == b ^ (b >> 30),
    ;
}

} // verus!
