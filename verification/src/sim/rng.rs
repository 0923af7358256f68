//! The single source of randomness for the entire simulation.
//!
//! A run is fully defined by its seed. That only holds if *every*
//! nondeterministic choice -- which message is delivered next, whether a packet
//! drops, when a node crashes -- is drawn from one seeded generator and nothing
//! else: no thread-local generator, no wall clock, no OS entropy.
//!
//! SplitMix64: tiny, fast, well-distributed, and trivially reproducible.

use vstd::prelude::*;

verus! {

/// The step added to the state before each draw.
pub const GAMMA: u64 = 0x9E37_79B9_7F4A_7C15;

/// The first multiplier of the output mix.
pub const MIX_A: u64 = 0xBF58_476D_1CE4_E5B9;

/// The second multiplier of the output mix.
pub const MIX_B: u64 = 0x94D0_49BB_1331_11EB;

/// The inverse of `MIX_A` modulo 2^64.
pub const INV_A: u64 = 0x96DE_1B17_3F11_9089;

/// The inverse of `MIX_B` modulo 2^64.
pub const INV_B: u64 = 0x3196_42B2_D24D_8EC3;

/// A probability in units of 2^-53: an event with threshold `t` has probability
/// `t / 2^53`. A threshold of 0 never happens, one of 2^53 or more always does.
#[derive(Debug, Clone, Copy, PartialEq, Eq, Structural)]
pub struct Prob {
    pub threshold: u64,
}

/// The number of thresholds below certainty, 2^53.
pub const PROB_ONE: u64 = 0x20_0000_0000_0000;

/// The state after one draw from state `s`.
pub open spec fn advance(s: u64) -> u64 {
    s.wrapping_add(GAMMA)
}

/// The state after `k` draws from state `s`.
pub open spec fn advance_by(s: u64, k: nat) -> u64
    decreases k,
{
    if k == 0 {
        s
    } else {
        advance(advance_by(s, (k - 1) as nat))
    }
}

/// `z` with its own upper bits, shifted down by 30 places, folded in.
pub open spec fn fold30(z: u64) -> u64 {
    z ^ (z >> 30)
}

/// As `fold30`, with a shift of 27.
pub open spec fn fold27(z: u64) -> u64 {
    z ^ (z >> 27)
}

/// As `fold30`, with a shift of 31.
pub open spec fn fold31(z: u64) -> u64 {
    z ^ (z >> 31)
}

/// The SplitMix64 output function, from a state that was just advanced.
pub open spec fn mix(s: u64) -> u64 {
    fold31(fold27(fold30(s).wrapping_mul(MIX_A)).wrapping_mul(MIX_B))
}

/// What one draw from state `s` yields.
pub open spec fn draw(s: u64) -> u64 {
    mix(advance(s))
}

/// What a draw from state `s` yields when reduced below `n`.
pub open spec fn draw_below(s: u64, n: u64) -> u64 {
    if n == 0 {
        0
    } else {
        draw(s) % n
    }
}

/// The state that a call of `below(n)` leaves behind.
pub open spec fn after_below(s: u64, n: u64) -> u64 {
    if n == 0 {
        s
    } else {
        advance(s)
    }
}

/// Whether a draw from state `s` makes an event of probability `p` happen: the
/// top 53 bits of the draw, as a fraction of 2^53, lie below `p`.
pub open spec fn happens(s: u64, p: Prob) -> bool {
    (draw(s) >> 11) < p.threshold
}

/// The index that a draw from state `s` picks among `len`.
pub open spec fn draw_index(s: u64, len: usize) -> Option<usize> {
    if len == 0 {
        None
    } else {
        Some((draw(s) % (len as u64)) as usize)
    }
}

/// The state that a call of `index(len)` leaves behind.
pub open spec fn after_index(s: u64, len: usize) -> u64 {
    after_below(s, len as u64)
}

/// A seeded SplitMix64 generator. Its view is its state.
pub struct Rng {
    state: u64,
}

impl View for Rng {
    type V = u64;

    closed spec fn view(&self) -> u64 {
        self.state
    }
}

impl Rng {
    pub fn new(seed: u64) -> (r: Self)
        ensures
            r@ == seed,
    {
        Rng { state: seed }
    }

    pub fn next_u64(&mut self) -> (r: u64)
        ensures
            final(self)@ == advance(old(self)@),
            r == draw(old(self)@),
    {
        self.state = self.state.wrapping_add(GAMMA);
        let mut z: u64 = self.state;
        z = (z ^ (z >> 30)).wrapping_mul(MIX_A);
        z = (z ^ (z >> 27)).wrapping_mul(MIX_B);
        z ^ (z >> 31)
    }

    /// Uniform integer in `[0, n)`. `n == 0` returns 0 and draws nothing.
    pub fn below(&mut self, n: u64) -> (r: u64)
        ensures
            final(self)@ == after_below(old(self)@, n),
            r == draw_below(old(self)@, n),
            n > 0 ==> r < n,
    {
        if n == 0 {
            0
        } else {
            self.next_u64() % n
        }
    }

    /// True with probability `p`.
    pub fn chance(&mut self, p: Prob) -> (r: bool)
        ensures
            final(self)@ == advance(old(self)@),
            r == happens(old(self)@, p),
    {
        (self.next_u64() >> 11) < p.threshold
    }

    /// Pick a uniform index in `[0, len)`, or `None` if `len == 0`.
    pub fn index(&mut self, len: usize) -> (r: Option<usize>)
        ensures
            final(self)@ == after_index(old(self)@, len),
            r == draw_index(old(self)@, len),
            r matches Some(i) ==> i < len,
            r is None <==> len == 0,
    {
        if len == 0 {
            None
        } else {
            Some((self.next_u64() % (len as u64)) as usize)
        }
    }
}

/// Two generators made from the same seed agree on every draw: the state after
/// `k` draws, and with it the next draw, depends on the seed and `k` alone. In
/// closed form the state is the seed plus `k` times the step, modulo 2^64.
pub proof fn state_is_linear_in_draws(seed: u64, k: nat)
    ensures
        advance_by(seed, k) as int == (seed + k * GAMMA) % 0x1_0000_0000_0000_0000,
    decreases k,
{
    if k > 0 {
        state_is_linear_in_draws(seed, (k - 1) as nat);
        let m: int = 0x1_0000_0000_0000_0000;
        let prev: int = seed + (k - 1) * GAMMA;
        assert(seed + k * GAMMA == prev + GAMMA) by (nonlinear_arith)
            requires
                prev == seed + (k - 1) * GAMMA,
        ;
        vstd::arithmetic::div_mod::lemma_add_mod_noop(prev, GAMMA as int, m);
        let s: int = prev % m;
        assert((s + GAMMA) % m == if s + GAMMA >= m { s + GAMMA - m } else { s + GAMMA }) by {
            if s + GAMMA >= m {
                vstd::arithmetic::div_mod::lemma_mod_sub_multiples_vanish(s + GAMMA, m);
                vstd::arithmetic::div_mod::lemma_small_mod((s + GAMMA - m) as nat, m as nat);
            } else {
                vstd::arithmetic::div_mod::lemma_small_mod((s + GAMMA) as nat, m as nat);
            }
        }
        vstd::arithmetic::div_mod::lemma_small_mod(GAMMA as nat, m as nat);
    }
}

/// Multiplying by a unit modulo 2^64 loses nothing.
proof fn wrapping_mul_is_injective(x: u64, y: u64, c: u64, inverse: u64)
    requires
        (c as int * inverse as int) % 0x1_0000_0000_0000_0000 == 1,
        x.wrapping_mul(c) == y.wrapping_mul(c),
    ensures
        x == y,
{
    let m: int = 0x1_0000_0000_0000_0000;
    unit_round_trip(x as int, c as int, inverse as int);
    unit_round_trip(y as int, c as int, inverse as int);
    assert((x as nat * c as nat) % (m as nat) == (y as nat * c as nat) % (m as nat));
    vstd::arithmetic::div_mod::lemma_small_mod(x as nat, m as nat);
    vstd::arithmetic::div_mod::lemma_small_mod(y as nat, m as nat);
}

proof fn unit_round_trip(x: int, c: int, inverse: int)
    requires
        (c * inverse) % 0x1_0000_0000_0000_0000 == 1,
    ensures
        (((x * c) % 0x1_0000_0000_0000_0000) * inverse) % 0x1_0000_0000_0000_0000 == x
            % 0x1_0000_0000_0000_0000,
{
    let m: int = 0x1_0000_0000_0000_0000;
    vstd::arithmetic::div_mod::lemma_mul_mod_noop_left(x * c, inverse, m);
    assert(x * c * inverse == x * (c * inverse)) by (nonlinear_arith);
    vstd::arithmetic::div_mod::lemma_mul_mod_noop_right(x, c * inverse, m);
    assert(x * 1 == x);
}

proof fn fold30_is_injective(x: u64, y: u64)
    requires
        fold30(x) == fold30(y),
    ensures
        x == y,
{
    assert(x ^ (x >> 30) == y ^ (y >> 30) ==> x == y) by (bit_vector);
}

proof fn fold27_is_injective(x: u64, y: u64)
    requires
        fold27(x) == fold27(y),
    ensures
        x == y,
{
    assert(x ^ (x >> 27) == y ^ (y >> 27) ==> x == y) by (bit_vector);
}

proof fn fold31_is_injective(x: u64, y: u64)
    requires
        fold31(x) == fold31(y),
    ensures
        x == y,
{
    assert(x ^ (x >> 31) == y ^ (y >> 31) ==> x == y) by (bit_vector);
}

/// Generators in different states differ at once: their next draws are unequal,
/// and so are the states that those draws leave behind. In particular two
/// different seeds never give the same first draw.
pub proof fn different_states_diverge(a: u64, b: u64)
    requires
        a != b,
    ensures
        draw(a) != draw(b),
        advance(a) != advance(b),
{
    let sa = advance(a);
    let sb = advance(b);
    assert(sa != sb);
    if mix(sa) == mix(sb) {
        assert((MIX_A as int * INV_A as int) % 0x1_0000_0000_0000_0000 == 1);
        assert((MIX_B as int * INV_B as int) % 0x1_0000_0000_0000_0000 == 1);
        let pa = fold30(sa).wrapping_mul(MIX_A);
        let pb = fold30(sb).wrapping_mul(MIX_A);
        let qa = fold27(pa).wrapping_mul(MIX_B);
        let qb = fold27(pb).wrapping_mul(MIX_B);
        fold31_is_injective(qa, qb);
        wrapping_mul_is_injective(fold27(pa), fold27(pb), MIX_B, INV_B);
        fold27_is_injective(pa, pb);
        wrapping_mul_is_injective(fold30(sa), fold30(sb), MIX_A, INV_A);
        fold30_is_injective(sa, sb);
    }
}

/// The two ends of the probability scale: what has threshold 0 never happens,
/// and what has threshold 2^53 or more always does.
pub proof fn chance_at_the_ends(s: u64, p: Prob)
    ensures
        p.threshold == 0 ==> !happens(s, p),
        p.threshold >= PROB_ONE ==> happens(s, p),
{
    let d = draw(s);
    assert((d >> 11) < 0x20_0000_0000_0000) by (bit_vector);
}

/// A likelier event happens whenever a less likely one would have.
pub proof fn chance_is_monotonic(s: u64, p: Prob, q: Prob)
    requires
        p.threshold <= q.threshold,
    ensures
        happens(s, p) ==> happens(s, q),
{
}

/// An event of probability `t / 2^53` happens exactly if the draw, as a fraction of
/// 2^64, lies below that probability.
pub proof fn chance_is_a_fraction(s: u64, p: Prob)
    ensures
        happens(s, p) <==> draw(s) < p.threshold * 2048,
{
    let d = draw(s);
    assert(d >> 11 == d / 2048) by (bit_vector);
}

/// A reduced draw is the remainder of the whole draw, and lies below its bound.
pub proof fn reduced_draws_are_remainders(s: u64, n: u64) -> (q: int)
    requires
        n > 0,
    ensures
        draw_below(s, n) < n,
        draw(s) == q * n + draw_below(s, n),
        after_below(s, n) == s.wrapping_add(GAMMA),
        after_below(s, 0) == s,
        draw_below(s, 0) == 0,
{
    vstd::arithmetic::div_mod::lemma_fundamental_div_mod(draw(s) as int, n as int);
    let q = draw(s) as int / n as int;
    assert(n * q == q * n) by (nonlinear_arith);
    q
}

/// A picked index is the remainder of the whole draw, and there is one exactly if
/// there is something to pick from.
pub proof fn picked_indices_are_remainders(s: u64, len: usize)
    ensures
        len == 0 ==> draw_index(s, len) is None && after_index(s, len) == s,
        len > 0 ==> draw_index(s, len) == Some((draw(s) % (len as u64)) as usize)
            && draw_index(s, len)->0 < len && after_index(s, len) == s.wrapping_add(GAMMA),
{
}

/// The state from which SplitMix64 puts out `x`: the mix undone, step by step.
pub open spec fn unmixed(x: u64) -> u64 {
    let c = (x ^ (x >> 31) ^ (x >> 62)).wrapping_mul(0x3196_42B2_D24D_8EC3);
    let b = (c ^ (c >> 27) ^ (c >> 54)).wrapping_mul(0x96DE_1B17_3F11_9089);
    b ^ (b >> 30) ^ (b >> 60)
}

proof fn wrapping_mul_undone(x: u64, c: u64, inverse: u64)
    requires
        (c as int * inverse as int) % 0x1_0000_0000_0000_0000 == 1,
    ensures
        x.wrapping_mul(c).wrapping_mul(inverse) == x,
{
    let m: int = 0x1_0000_0000_0000_0000;
    unit_round_trip(x as int, c as int, inverse as int);
    vstd::arithmetic::div_mod::lemma_small_mod(x as nat, m as nat);
    assert(x.wrapping_mul(c) as int == (x as int * c as int) % m);
    assert(x.wrapping_mul(c).wrapping_mul(inverse) as int == (x.wrapping_mul(c) as int
        * inverse as int) % m);
}

/// Every draw reveals the state: each value is drawn from exactly one state, which
/// undoing the mix gives back, and a draw moves the state on by the golden ratio's
/// fraction of 2^64.
pub proof fn draws_can_be_undone(s: u64)
    ensures
        unmixed(draw(s)) == advance(s),
        advance(s) as int == (s + 0x9E37_79B9_7F4A_7C15) % 0x1_0000_0000_0000_0000,
{
    let z = advance(s);
    let a = fold30(z);
    let p = a.wrapping_mul(MIX_A);
    let b = fold27(p);
    let q = b.wrapping_mul(MIX_B);
    let x = fold31(q);
    assert((MIX_A as int * 0x96DE_1B17_3F11_9089int) % 0x1_0000_0000_0000_0000 == 1);
    assert((MIX_B as int * 0x3196_42B2_D24D_8EC3int) % 0x1_0000_0000_0000_0000 == 1);
    assert((q ^ (q >> 31)) ^ ((q ^ (q >> 31)) >> 31) ^ ((q ^ (q >> 31)) >> 62) == q)
        by (bit_vector);
    wrapping_mul_undone(b, MIX_B, 0x3196_42B2_D24D_8EC3);
    assert((p ^ (p >> 27)) ^ ((p ^ (p >> 27)) >> 27) ^ ((p ^ (p >> 27)) >> 54) == p)
        by (bit_vector);
    wrapping_mul_undone(a, MIX_A, 0x96DE_1B17_3F11_9089);
    assert((z ^ (z >> 30)) ^ ((z ^ (z >> 30)) >> 30) ^ ((z ^ (z >> 30)) >> 60) == z)
        by (bit_vector);
}

} // verus!
