use vstd::prelude::*;

verus! {

/// The increment of the splitmix64 state sequence.
pub const STREAM_GAMMA: u64 = 0x9e37_79b9_7f4a_7c15;

pub const MIX_FIRST: u64 = 0xbf58_476d_1ce4_e5b9;
pub const MIX_SECOND: u64 = 0x94d0_49bb_1331_11eb;
/// Multiplicative inverses modulo 2^64 of the two mixing constants and of the gamma.
pub const MIX_FIRST_INVERSE: u64 = 0x96de_1b17_3f11_9089;
pub const MIX_SECOND_INVERSE: u64 = 0x3196_42b2_d24d_8ec3;
pub const GAMMA_INVERSE: u64 = 0xf1de_83e1_9937_733d;

/// 2^64.
pub open spec fn word() -> nat {
    0x1_0000_0000_0000_0000
}

/// The splitmix64 finalizer.
#[verifier::opaque]
pub open spec fn mix64_spec(value: u64) -> u64 {
    let a = (value ^ (value >> 30u64)).wrapping_mul(MIX_FIRST);
    let b = (a ^ (a >> 27u64)).wrapping_mul(MIX_SECOND);
    b ^ (b >> 31u64)
}

/// A preimage of `y` under the finalizer.
pub open spec fn unmix64_spec(y: u64) -> u64 {
    let b = y ^ (y >> 31u64) ^ (y >> 62u64);
    let a1 = b.wrapping_mul(MIX_SECOND_INVERSE);
    let a = a1 ^ (a1 >> 27u64) ^ (a1 >> 54u64);
    let v1 = a.wrapping_mul(MIX_FIRST_INVERSE);
    v1 ^ (v1 >> 30u64) ^ (v1 >> 60u64)
}

proof fn lemma_unshift(x: u64)
    ensures
        ((x ^ (x >> 30u64) ^ (x >> 60u64)) ^ ((x ^ (x >> 30u64) ^ (x >> 60u64)) >> 30u64)) == x,
        ((x ^ (x >> 27u64) ^ (x >> 54u64)) ^ ((x ^ (x >> 27u64) ^ (x >> 54u64)) >> 27u64)) == x,
        ((x ^ (x >> 31u64) ^ (x >> 62u64)) ^ ((x ^ (x >> 31u64) ^ (x >> 62u64)) >> 31u64)) == x,
{
    assert(((x ^ (x >> 30u64) ^ (x >> 60u64)) ^ ((x ^ (x >> 30u64) ^ (x >> 60u64)) >> 30u64)) == x)
        by (bit_vector);
    assert(((x ^ (x >> 27u64) ^ (x >> 54u64)) ^ ((x ^ (x >> 27u64) ^ (x >> 54u64)) >> 27u64)) == x)
        by (bit_vector);
    assert(((x ^ (x >> 31u64) ^ (x >> 62u64)) ^ ((x ^ (x >> 31u64) ^ (x >> 62u64)) >> 31u64)) == x)
        by (bit_vector);
}

/// Multiplying by `inverse` and then by `c` modulo 2^64 gives back `x` when
/// `c * inverse` is one more than a multiple of 2^64.
proof fn lemma_mul_inverse(x: u64, c: u64, inverse: u64, k: nat)
    requires
        c as nat * inverse as nat == k * word() + 1,
    ensures
        x.wrapping_mul(inverse).wrapping_mul(c) == x,
{
    let m = word() as int;
    let p = x as int * inverse as int;
    vstd::arithmetic::div_mod::lemma_mul_mod_noop_left(p, c as int, m);
    assert(p * c == x as int * (c as int * inverse as int)) by (nonlinear_arith)
        requires
            p == x as int * inverse as int,
    ;
    assert(x as int * (k * m + 1) == (x as int * k) * m + x) by (nonlinear_arith);
    vstd::arithmetic::div_mod::lemma_mod_multiples_vanish(x as int * k, x as int, m);
    vstd::arithmetic::div_mod::lemma_small_mod(x as nat, m as nat);
}

/// The finalizer is onto: every word has a preimage.
pub proof fn lemma_mix64_onto(y: u64)
    ensures
        mix64_spec(unmix64_spec(y)) == y,
{
    reveal(mix64_spec);
    let b = y ^ (y >> 31u64) ^ (y >> 62u64);
    let a1 = b.wrapping_mul(MIX_SECOND_INVERSE);
    let a = a1 ^ (a1 >> 27u64) ^ (a1 >> 54u64);
    let v1 = a.wrapping_mul(MIX_FIRST_INVERSE);
    let v = v1 ^ (v1 >> 30u64) ^ (v1 >> 60u64);
    lemma_unshift(v1);
    lemma_unshift(a1);
    lemma_unshift(y);
    lemma_mul_inverse(a, MIX_FIRST, MIX_FIRST_INVERSE, 8125545580553827436);
    lemma_mul_inverse(b, MIX_SECOND, MIX_SECOND_INVERSE, 2077064247507883091);
}

fn mix64(value: u64) -> (r: u64)
    ensures
        r == mix64_spec(value),
{
    reveal(mix64_spec);
    let a = (value ^ (value >> 30u64)).wrapping_mul(MIX_FIRST);
    let b = (a ^ (a >> 27u64)).wrapping_mul(MIX_SECOND);
    b ^ (b >> 31u64)
}

/// The root seed of a world's random streams.
#[derive(Clone, Copy, Debug, PartialEq, Eq)]
pub struct WorldSeed(u64);

/// The state a stream derived for a domain starts from.
pub open spec fn stream_state_spec(seed: u64, domain: u64) -> u64 {
    mix64_spec(seed ^ mix64_spec(domain))
}

/// The state a stream derived for a domain, an entity and a tick starts from.
pub open spec fn stream_for_state_spec(seed: u64, domain: u64, entity: u32, tick: i32) -> u64 {
    let key = mix64_spec(domain) ^ mix64_spec(entity as u64) ^ mix64_spec(tick as u64);
    mix64_spec(seed ^ key)
}

impl WorldSeed {
    pub closed spec fn view(self) -> u64 {
        self.0
    }

    pub fn new(value: u64) -> (r: Self)
        ensures
            r@ == value,
    {
        WorldSeed(value)
    }

    pub fn get(self) -> (r: u64)
        ensures
            r == self@,
    {
        self.0
    }

    /// Derives the stream of one subsystem.
    pub fn stream(self, domain: u64) -> (r: RandomStream)
        ensures
            r@ == stream_state_spec(self@, domain),
    {
        RandomStream::new(mix64(self.0 ^ mix64(domain)))
    }

    /// Derives an isolated stream for one subsystem, entity, and simulation tick.
    pub fn stream_for(self, domain: u64, entity: u32, tick: i32) -> (r: RandomStream)
        ensures
            r@ == stream_for_state_spec(self@, domain, entity, tick),
    {
        let key = mix64(domain) ^ mix64(entity as u64) ^ mix64(tick as i64 as u64);
        RandomStream::new(mix64(self.0 ^ key))
    }
}

/// A deterministic splitmix64 stream of pseudo-random words.
#[derive(Clone, Debug, PartialEq, Eq)]
pub struct RandomStream {
    state: u64,
}

/// Words below this value are rejected when drawing below `upper`: 2^64 mod `upper`.
pub open spec fn rejection_threshold(upper: u64) -> int {
    (word() as int - upper as int) % (upper as int)
}

/// The stream state after `steps` draws from `state`.
#[verifier::opaque]
pub open spec fn state_after(state: u64, steps: nat) -> u64 {
    ((state as nat + steps * STREAM_GAMMA as nat) % word()) as u64
}

/// The number of draws, between 1 and 2^64, after which the stream starting at
/// `state` first reaches `target`.
pub open spec fn draws_until(state: u64, target: u64) -> nat {
    let d = ((target as int - state as int) % (word() as int)) as nat;
    let k = (d * GAMMA_INVERSE as nat) % word();
    if k == 0 {
        word()
    } else {
        k
    }
}

proof fn lemma_state_step(state: u64, steps: nat)
    ensures
        state_after(state, steps).wrapping_add(STREAM_GAMMA) == state_after(state, steps + 1),
{
    reveal(state_after);
    let m = word() as int;
    let a = state as int + steps * STREAM_GAMMA as int;
    vstd::arithmetic::div_mod::lemma_add_mod_noop(a, STREAM_GAMMA as int, m);
    vstd::arithmetic::div_mod::lemma_small_mod(STREAM_GAMMA as nat, m as nat);
    assert(a + STREAM_GAMMA as int == state as int + (steps + 1) * STREAM_GAMMA as int)
        by (nonlinear_arith)
        requires
            a == state as int + steps * STREAM_GAMMA as int,
    ;
    vstd::arithmetic::div_mod::lemma_mod_bound(a, m);
    vstd::arithmetic::div_mod::lemma_mod_bound(a + STREAM_GAMMA as int, m);
    vstd::arithmetic::div_mod::lemma_mod_bound(a % m + STREAM_GAMMA as int, m);
    let s = a % m;
    if s + STREAM_GAMMA as int > u64::MAX {
        vstd::arithmetic::div_mod::lemma_mod_sub_multiples_vanish(s + STREAM_GAMMA as int, m);
        vstd::arithmetic::div_mod::lemma_small_mod((s + STREAM_GAMMA as int - m) as nat, m as nat);
    } else {
        vstd::arithmetic::div_mod::lemma_small_mod((s + STREAM_GAMMA as int) as nat, m as nat);
    }
}

proof fn lemma_draws_until(state: u64, target: u64)
    ensures
        1 <= draws_until(state, target) <= word(),
        state_after(state, draws_until(state, target)) == target,
{
    reveal(state_after);
    let m = word() as int;
    let d = (target as int - state as int) % m;
    vstd::arithmetic::div_mod::lemma_mod_bound(target as int - state as int, m);
    let k = (d * GAMMA_INVERSE as int) % m;
    vstd::arithmetic::div_mod::lemma_mod_bound(d * GAMMA_INVERSE as int, m);
    // k * gamma = d (mod 2^64), and so does 2^64 + k * gamma when k is zero
    let kk = draws_until(state, target) as int;
    assert((kk * STREAM_GAMMA as int) % m == d) by {
        vstd::arithmetic::div_mod::lemma_mul_mod_noop_left(
            d * GAMMA_INVERSE as int,
            STREAM_GAMMA as int,
            m,
        );
        assert(d * GAMMA_INVERSE as int * STREAM_GAMMA as int == d * (GAMMA_INVERSE as int
            * STREAM_GAMMA as int)) by (nonlinear_arith);
        assert(GAMMA_INVERSE as int * STREAM_GAMMA as int == 10771413168148108919 * m + 1);
        assert(d * (10771413168148108919 * m + 1) == (d * 10771413168148108919) * m + d)
            by (nonlinear_arith);
        vstd::arithmetic::div_mod::lemma_mod_multiples_vanish(d * 10771413168148108919, d, m);
        vstd::arithmetic::div_mod::lemma_small_mod(d as nat, m as nat);
        if k == 0 {
            assert((0 * STREAM_GAMMA as int) % m == d);
            assert(m * STREAM_GAMMA as int == STREAM_GAMMA as int * m) by (nonlinear_arith);
            vstd::arithmetic::div_mod::lemma_mod_multiples_basic(STREAM_GAMMA as int, m);
        }
    }
    let total = state as int + kk * STREAM_GAMMA as int;
    vstd::arithmetic::div_mod::lemma_add_mod_noop(state as int, kk * STREAM_GAMMA as int, m);
    vstd::arithmetic::div_mod::lemma_small_mod(state as nat, m as nat);
    vstd::arithmetic::div_mod::lemma_add_mod_noop(state as int, target as int - state as int, m);
    vstd::arithmetic::div_mod::lemma_small_mod(target as nat, m as nat);
    assert(kk >= 0) by (nonlinear_arith)
        requires kk == draws_until(state, target);
}

impl RandomStream {
    /// The current state word.
    pub closed spec fn view(self) -> u64 {
        self.state
    }

    pub fn new(seed: u64) -> (r: Self)
        ensures
            r@ == seed,
    {
        RandomStream { state: seed }
    }

    /// Advances the state by the gamma and returns its finalized value.
    pub fn next_u64(&mut self) -> (r: u64)
        ensures
            final(self)@ == old(self)@.wrapping_add(STREAM_GAMMA),
            r == mix64_spec(final(self)@),
    {
        self.state = self.state.wrapping_add(STREAM_GAMMA);
        mix64(self.state)
    }

    /// Draws a value below `upper_exclusive` without modulo bias, rejecting words
    /// below `2^64 mod upper_exclusive`; `None` when the bound is zero.
    pub fn next_bounded(&mut self, upper_exclusive: u64) -> (r: Option<u64>)
        ensures
            upper_exclusive == 0 ==> r is None && final(self)@ == old(self)@,
            upper_exclusive > 0 ==> (r matches Some(v) && v < upper_exclusive),
            upper_exclusive > 0 ==> exists|steps: nat|
                #![trigger state_after(old(self)@, steps)]
                {
                    &&& 1 <= steps
                    &&& final(self)@ == state_after(old(self)@, steps)
                    &&& mix64_spec(final(self)@) >= rejection_threshold(upper_exclusive)
                    &&& r == Some((mix64_spec(final(self)@) % upper_exclusive) as u64)
                    &&& forall|j: nat|
                        1 <= j < steps ==> mix64_spec(#[trigger] state_after(old(self)@, j)) < rejection_threshold(upper_exclusive)
                },
    {
        if upper_exclusive == 0 {
            return None;
        }
        let threshold: u64 = (u64::MAX - upper_exclusive + 1) % upper_exclusive;
        let ghost start = self.state;
        let ghost target = unmix64_spec(u64::MAX);
        let ghost limit = draws_until(start, target);
        let ghost mut steps: nat = 0;
        proof {
            lemma_mix64_onto(u64::MAX);
            lemma_draws_until(start, target);
            reveal(state_after);
            vstd::arithmetic::div_mod::lemma_small_mod(start as nat, word());
            assert(state_after(start, 0) == start);
        }
        loop
            invariant
                upper_exclusive > 0,
                start == old(self)@,
                threshold == rejection_threshold(upper_exclusive),
                threshold < upper_exclusive,
                steps < limit,
                1 <= limit <= word(),
                state_after(start, limit) == target,
                mix64_spec(target) == u64::MAX,
                self.state == state_after(start, steps),
                forall|j: nat|
                    1 <= j <= steps ==> mix64_spec(#[trigger] state_after(start, j)) < threshold,
            decreases limit - steps,
        {
            proof {
                lemma_state_step(start, steps);
            }
            let value = self.next_u64();
            proof {
                steps = steps + 1;
            }
            if value >= threshold {
                assert(self.state == state_after(start, steps));
                return Some(value % upper_exclusive);
            }
            assert(steps != limit);
        }
    }
}

/// Whether a bounded draw from `state` accepts its word after exactly `steps` words:
/// that word reaches the rejection threshold and every earlier one fell below it.
pub open spec fn accepts_at(state: u64, upper: u64, steps: nat) -> bool {
    &&& 1 <= steps
    &&& mix64_spec(state_after(state, steps)) >= rejection_threshold(upper)
    &&& forall|j: nat|
        1 <= j < steps ==> mix64_spec(#[trigger] state_after(state, j)) < rejection_threshold(upper)
}

/// The number of words a bounded draw from `state` consumes.
pub open spec fn draw_steps(state: u64, upper: u64) -> nat {
    choose|steps: nat| accepts_at(state, upper, steps)
}

/// The value a bounded draw below `upper` from `state` yields.
pub open spec fn bounded_draw(state: u64, upper: u64) -> u64 {
    (mix64_spec(state_after(state, draw_steps(state, upper))) % upper) as u64
}

/// The stream state after a bounded draw below `upper` from `state`.
pub open spec fn state_after_draw(state: u64, upper: u64) -> u64 {
    state_after(state, draw_steps(state, upper))
}

/// A bounded draw accepts at one step only.
pub proof fn lemma_accepts_once(state: u64, upper: u64, a: nat, b: nat)
    requires
        accepts_at(state, upper, a),
        accepts_at(state, upper, b),
    ensures
        a == b,
{
    if a < b {
        assert(mix64_spec(state_after(state, a)) < rejection_threshold(upper));
    } else if b < a {
        assert(mix64_spec(state_after(state, b)) < rejection_threshold(upper));
    }
}

impl RandomStream {
    /// Draws a value below `upper` (see `bounded_draw`).
    pub fn draw_below(&mut self, upper: u64) -> (r: u64)
        requires
            upper > 0,
        ensures
            r == bounded_draw(old(self)@, upper),
            r < upper,
            final(self)@ == state_after_draw(old(self)@, upper),
    {
        let ghost start = self@;
        let drawn = self.next_bounded(upper);
        proof {
            let steps = choose|steps: nat|
                #![trigger state_after(start, steps)]
                {
                    &&& 1 <= steps
                    &&& self@ == state_after(start, steps)
                    &&& mix64_spec(self@) >= rejection_threshold(upper)
                    &&& drawn == Some((mix64_spec(self@) % upper) as u64)
                    &&& forall|j: nat|
                        1 <= j < steps ==> mix64_spec(#[trigger] state_after(start, j))
                            < rejection_threshold(upper)
                };
            assert(accepts_at(start, upper, steps));
            lemma_accepts_once(start, upper, steps, draw_steps(start, upper));
        }
        match drawn {
            Some(v) => v,
            None => 0,
        }
    }
}

/// A draw centered on zero: uniform over `-amplitude..=amplitude`.
pub open spec fn centered_draw(state: u64, amplitude: u64) -> int {
    bounded_draw(state, (amplitude * 2 + 1) as u64) as int - amplitude as int
}

/// Draws uniformly from `-amplitude..=amplitude` (see `centered_draw`).
pub fn centered(random: &mut RandomStream, amplitude: u64) -> (r: i32)
    requires
        amplitude <= 1_000_000,
    ensures
        r == centered_draw(old(random)@, amplitude),
        -(amplitude as int) <= r <= amplitude,
        final(random)@ == state_after_draw(old(random)@, (amplitude * 2 + 1) as u64),
{
    let width = amplitude * 2 + 1;
    let draw = random.draw_below(width);
    draw as i32 - amplitude as i32
}

} // verus!
