use vstd::prelude::*;

verus! {

/// One step of Marsaglia's xorshift64 generator with shifts 13, 7, 17.
pub open spec fn xorshift64(x: u64) -> u64 {
    let a = x ^ (x << 13u64);
    let b = a ^ (a >> 7u64);
    b ^ (b << 17u64)
}

/// State of the generator after `n` steps from `seed`.
pub open spec fn state_after(seed: u64, n: nat) -> u64
    decreases n,
{
    if n == 0 {
        seed
    } else {
        xorshift64(state_after(seed, (n - 1) as nat))
    }
}

/// The 53 high bits of a state: the value that becomes the unit-interval sample.
pub open spec fn high_bits(x: u64) -> u64 {
    x >> 11u64
}

/// Random number generator: hand-rolled xorshift64 whose whole state is one
/// `u64`, threaded explicitly through every call.
pub struct Rng {
    state: u64,
}

impl View for Rng {
    type V = u64;

    closed spec fn view(&self) -> u64 {
        self.state
    }
}

impl Rng {
    /// A generator whose state is `seed`.
    pub fn new(seed: u64) -> (r: Rng)
        ensures
            r@ == seed,
    {
        Rng { state: seed }
    }

    /// The current state.
    pub fn state(&self) -> (s: u64)
        ensures
            s == self@,
    {
        self.state
    }

    /// Advances the state by one xorshift64 step and returns its 53 high
    /// bits, a number `k` with `0 <= k < 2^53`; `k / 2^53` is the uniform
    /// sample in `[0, 1)`.
    pub fn next_bits(&mut self) -> (k: u64)
        ensures
            final(self)@ == xorshift64(old(self)@),
            k == high_bits(final(self)@),
            k < 0x20_0000_0000_0000u64,
            k as int * 2048 <= final(self)@ < (k as int + 1) * 2048,
    {
        let mut x: u64 = self.state;
        x = x ^ (x << 13u64);
        x = x ^ (x >> 7u64);
        x = x ^ (x << 17u64);
        self.state = x;
        let k: u64 = x >> 11u64;
        assert(x >> 11u64 < 0x20_0000_0000_0000u64) by (bit_vector);
        proof {
            lemma_high_bits_bracket(x);
        }
        k
    }
}

/// A state of zero is a fixed point: a generator seeded with 0 yields 0 forever.
pub proof fn lemma_zero_state_is_fixed(n: nat)
    ensures
        state_after(0, n) == 0,
    decreases n,
{
    if n > 0 {
        lemma_zero_state_is_fixed((n - 1) as nat);
        assert(xorshift64(0) == 0) by (bit_vector);
    }
}

/// Each xorshift step is injective and fixes 0, so a nonzero state never becomes zero.
pub proof fn lemma_step_keeps_nonzero(x: u64)
    requires
        x != 0,
    ensures
        xorshift64(x) != 0,
{
    let a = x ^ (x << 13u64);
    let b = a ^ (a >> 7u64);
    assert(x != 0 ==> x ^ (x << 13u64) != 0) by (bit_vector);
    assert(a != 0 ==> a ^ (a >> 7u64) != 0) by (bit_vector);
    assert(b != 0 ==> b ^ (b << 17u64) != 0) by (bit_vector);
}

/// A generator with a nonzero seed has a nonzero state after any number of steps.
pub proof fn lemma_nonzero_seed_never_reaches_zero(seed: u64, n: nat)
    requires
        seed != 0,
    ensures
        state_after(seed, n) != 0,
    decreases n,
{
    if n > 0 {
        lemma_nonzero_seed_never_reaches_zero(seed, (n - 1) as nat);
        lemma_step_keeps_nonzero(state_after(seed, (n - 1) as nat));
    }
}

/// The 53-bit sample is the state with its 11 low bits dropped: it times
/// 2^11 is at most the state, and one more times 2^11 exceeds it. In
/// particular the sample is at least 2^52 exactly when the state is at
/// least 2^63.
pub proof fn lemma_high_bits_bracket(x: u64)
    ensures
        high_bits(x) as int * 2048 <= x < (high_bits(x) as int + 1) * 2048,
        high_bits(x) >= 0x10_0000_0000_0000u64 <==> x >= 0x8000_0000_0000_0000u64,
{
    assert((x >> 11u64) as int * 2048 <= x) by (bit_vector);
    assert(x < ((x >> 11u64) as int + 1) * 2048) by (bit_vector);
    assert((x >> 11u64) >= 0x10_0000_0000_0000u64 <==> x >= 0x8000_0000_0000_0000u64) by (bit_vector);
}

} // verus!
