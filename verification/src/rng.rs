use vstd::prelude::*;
use vstd::arithmetic::div_mod::lemma_add_mod_noop;

verus! {

/// Initial state of a freshly created generator.
pub const PCG32_DEFAULT_STATE: u64 = 0x853c49e6748fea9bu64;

/// Initial stream increment of a freshly created generator.
pub const PCG32_DEFAULT_STREAM: u64 = 0xda3e39cb94b95bdbu64;

/// Multiplier of the underlying linear congruential generator.
pub const PCG32_MULT: u64 = 0x5851f42d4c957f2du64;

/// One step of the linear congruential generator: `state * MULT + inc`
/// modulo 2^64.
#[verifier::opaque]
pub open spec fn pcg_step(state: u64, inc: u64) -> u64 {
    ((state as int * PCG32_MULT as int + inc as int) % 0x1_0000_0000_0000_0000int) as u64
}

/// The state after `n` steps from `state`.
pub open spec fn pcg_steps(state: u64, inc: u64, n: nat) -> u64
    decreases n,
{
    if n == 0 {
        state
    } else {
        pcg_step(pcg_steps(state, inc, (n - 1) as nat), inc)
    }
}

/// Taking `a` steps and then `b` more is taking `a + b` steps.
pub proof fn lemma_pcg_steps_add(state: u64, inc: u64, a: nat, b: nat)
    ensures
        pcg_steps(pcg_steps(state, inc, a), inc, b) == pcg_steps(state, inc, a + b),
    decreases b,
{
    if b > 0 {
        lemma_pcg_steps_add(state, inc, a, (b - 1) as nat);
    }
}

/// The 32-bit output that PCG32 (XSH RR) derives from a state: the xorshifted
/// high bits rotated right by the state's top five bits.
#[verifier::opaque]
pub open spec fn pcg_output(old: u64) -> u32 {
    let xorshifted = (((old >> 18u64) ^ old) >> 27u64) as u32;
    let rot = (old >> 59u64) as u32;
    (xorshifted >> rot) | (xorshifted << ((!rot + 1u32) as u32 & 31u32))
}

/// The least value of a draw that `uniform_u32_bounded(b)` accepts: the lowest
/// set bit of `b`.
pub open spec fn bounded_threshold(b: u32) -> u32 {
    ((!b + 1u32) as u32) & b
}

/// `n` draws from `state` are what `uniform_u32_bounded(b)` takes: the last
/// one is the first at least `bounded_threshold(b)`, or the cap is reached.
pub open spec fn draw_rule(state: u64, inc: u64, b: u32, n: nat) -> bool {
    &&& 1 <= n <= MAX_BOUNDED_DRAWS
    &&& (pcg_output(pcg_steps(state, inc, (n - 1) as nat)) >= bounded_threshold(b) || n == MAX_BOUNDED_DRAWS)
    &&& forall|m: nat| m + 1 < n ==> pcg_output(#[trigger] pcg_steps(state, inc, m)) < bounded_threshold(b)
}

/// The number of draws `uniform_u32_bounded(b)` takes from `state`.
pub open spec fn bounded_draws(state: u64, inc: u64, b: u32) -> nat {
    choose|n: nat| draw_rule(state, inc, b, n)
}

/// The value `uniform_u32_bounded(b)` returns from `state`: its last draw
/// modulo `b`.
pub open spec fn bounded_value(state: u64, inc: u64, b: u32) -> u32 {
    (pcg_output(pcg_steps(state, inc, (bounded_draws(state, inc, b) - 1) as nat)) % b as u32) as u32
}

/// At most one number of draws follows the rule.
pub proof fn lemma_bounded_draws(state: u64, inc: u64, b: u32, n: nat)
    requires
        draw_rule(state, inc, b, n),
    ensures
        bounded_draws(state, inc, b) == n,
{
    let c = bounded_draws(state, inc, b);
    assert(draw_rule(state, inc, b, c));
    if c < n {
        assert(pcg_output(pcg_steps(state, inc, (c - 1) as nat)) < bounded_threshold(b));
    } else if n < c {
        assert(pcg_output(pcg_steps(state, inc, (n - 1) as nat)) < bounded_threshold(b));
    }
}

/// Number of draws after which `uniform_u32_bounded` stops rejecting (far
/// beyond the 2^64 period of the generator, so never reached while some draw
/// of the period is accepted).
pub const MAX_BOUNDED_DRAWS: u64 = 0xffff_ffff_ffff_ffffu64;

/// A PCG32 pseudo-random number generator.
#[derive(Copy, Clone)]
pub struct Rng {
    state: u64,
    inc: u64,
}

impl Default for Rng {
    /// The generator that `Rng::new` gives.
    fn default() -> (r: Self)
        ensures
            r.state() == PCG32_DEFAULT_STATE,
            r.inc() == PCG32_DEFAULT_STREAM,
    {
        Rng::new()
    }
}

impl Rng {
    /// The current state of the generator.
    pub closed spec fn state(self) -> u64 {
        self.state
    }

    /// The stream increment of the generator.
    pub closed spec fn inc(self) -> u64 {
        self.inc
    }

    /// A generator at the default state on the default stream.
    pub fn new() -> (r: Self)
        ensures
            r.state() == PCG32_DEFAULT_STATE,
            r.inc() == PCG32_DEFAULT_STREAM,
    {
        Rng { state: PCG32_DEFAULT_STATE, inc: PCG32_DEFAULT_STREAM }
    }

    fn advance(&mut self) -> (old_state: u64)
        ensures
            old_state == old(self).state(),
            final(self).state() == pcg_step(old(self).state(), old(self).inc()),
            final(self).inc() == old(self).inc(),
    {
        reveal(pcg_step);
        let oldstate = self.state;
        let m = oldstate.wrapping_mul(PCG32_MULT);
        self.state = m.wrapping_add(self.inc);
        proof {
            let r = 0x1_0000_0000_0000_0000int;
            lemma_add_mod_noop(oldstate as int * PCG32_MULT as int, self.inc as int, r);
            assert((self.inc as int) % r == self.inc as int);
            assert(m as int == (oldstate as int * PCG32_MULT as int) % r);
        }
        oldstate
    }

    /// Draws a uniformly distributed 32-bit value and advances the generator
    /// by one step.
    pub fn uniform_u32(&mut self) -> (r: u32)
        ensures
            r == pcg_output(old(self).state()),
            final(self).state() == pcg_step(old(self).state(), old(self).inc()),
            final(self).inc() == old(self).inc(),
    {
        reveal(pcg_output);
        let oldstate = self.advance();
        let xorshifted: u32 = (((oldstate >> 18u64) ^ oldstate) >> 27u64) as u32;
        let rot: u32 = (oldstate >> 59u64) as u32;
        assert(rot < 32) by (bit_vector)
            requires
                rot == (oldstate >> 59u64) as u32,
        ;
        let neg: u32 = (!rot).wrapping_add(1);
        assert(neg == (!rot + 1u32) as u32) by (bit_vector)
            requires
                neg == vstd::wrapping::u32_specs::wrapping_add(!rot, 1u32),
        ;
        assert(neg & 31u32 < 32) by (bit_vector);
        (xorshifted >> rot) | (xorshifted << (neg & 31u32))
    }

    /// Draws a uniformly distributed value below `b`: draws until a value is
    /// at least `bounded_threshold(b)` and returns it modulo `b`.
    pub fn uniform_u32_bounded(&mut self, b: u32) -> (r: u32)
        requires
            b > 0,
        ensures
            r < b,
            final(self).inc() == old(self).inc(),
            draw_rule(old(self).state(), old(self).inc(), b, bounded_draws(old(self).state(), old(self).inc(), b)),
            final(self).state() == pcg_steps(
                old(self).state(),
                old(self).inc(),
                bounded_draws(old(self).state(), old(self).inc(), b),
            ),
            r == bounded_value(old(self).state(), old(self).inc(), b),
    {
        assert(!b < u32::MAX) by (bit_vector)
            requires
                b > 0,
        ;
        let threshold: u32 = (!b + 1) & b;
        let ghost s0 = self.state;
        let ghost inc = self.inc;
        let mut draws: u64 = 0;
        loop
            invariant
                b > 0,
                threshold == bounded_threshold(b),
                self.inc == inc,
                inc == old(self).inc,
                s0 == old(self).state,
                draws < MAX_BOUNDED_DRAWS,
                self.state == pcg_steps(s0, inc, draws as nat),
                forall|m: nat| m < draws ==> pcg_output(#[trigger] pcg_steps(s0, inc, m)) < threshold,
            decreases MAX_BOUNDED_DRAWS - draws,
        {
            let ghost before = self.state;
            let r = self.uniform_u32();
            draws = draws + 1;
            assert(self.state == pcg_steps(s0, inc, draws as nat));
            if r >= threshold || draws == MAX_BOUNDED_DRAWS {
                assert(pcg_steps(s0, inc, (draws - 1) as nat) == before);
                let ghost n = draws as nat;
                assert(r == pcg_output(pcg_steps(s0, inc, (n - 1) as nat)));
                proof {
                    assert(draw_rule(s0, inc, b, n));
                    lemma_bounded_draws(s0, inc, b, n);
                }
                assert(old(self).state() == s0 && old(self).inc() == inc);
                assert(self.state() == self.state);
                return r % b;
            }
        }
    }

    /// Restarts the generator on the stream selected by `seed`.
    pub fn set_sequence(&mut self, seed: u64)
        ensures
            final(self).inc() == (seed << 1u64) | 1u64,
            final(self).state() == pcg_step(
                ((pcg_step(0, final(self).inc()) as int + PCG32_DEFAULT_STATE as int)
                    % 0x1_0000_0000_0000_0000int) as u64,
                final(self).inc(),
            ),
    {
        self.state = 0;
        self.inc = (seed << 1u64) | 1u64;
        let _ = self.uniform_u32();
        let s = self.state;
        self.state = s.wrapping_add(PCG32_DEFAULT_STATE);
        let _ = self.uniform_u32();
    }
}

} // verus!

verus! {

/// The stream increment is odd on the default stream and on every stream that
/// `set_sequence` selects, and draws never change it; together with the
/// multiplier being 1 modulo 4 this gives the generator its full period.
pub proof fn law_stream_increment_odd(seed: u64)
    ensures
        PCG32_DEFAULT_STREAM % 2 == 1,
        ((seed << 1u64) | 1u64) % 2 == 1,
        PCG32_MULT % 4 == 1,
{
    assert(((seed << 1u64) | 1u64) % 2 == 1) by (bit_vector);
}

/// Two generators in the same state draw the same value and stay in the same
/// state: the sequence depends on the state and stream alone.
pub proof fn law_draws_are_determined(a: Rng, b: Rng, n: nat)
    requires
        a.state() == b.state(),
        a.inc() == b.inc(),
    ensures
        pcg_steps(a.state(), a.inc(), n) == pcg_steps(b.state(), b.inc(), n),
        pcg_output(pcg_steps(a.state(), a.inc(), n)) == pcg_output(pcg_steps(b.state(), b.inc(), n)),
{
}

} // verus!
