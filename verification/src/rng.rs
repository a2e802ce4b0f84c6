//! Seedable xorshift64 pseudo-random generator.
use vstd::prelude::*;

verus! {

/// One xorshift64 step (shifts 13, 7, 17), with the bits that leave the
/// word dropped.
pub open spec fn xorshift(x: u64) -> u64 {
    let a = x ^ (x << 13u64);
    let b = a ^ (a >> 7u64);
    b ^ (b << 17u64)
}

/// The state that a seed starts the generator in: zero, the one fixed point
/// of xorshift, is replaced by one.
pub open spec fn seed_state(seed: u64) -> u64 {
    if seed == 0 { 1 } else { seed }
}

/// The state after `n` draws from state `s`.
pub open spec fn state_after(s: u64, n: nat) -> u64
    decreases n,
{
    if n == 0 { s } else { xorshift(state_after(s, (n - 1) as nat)) }
}

/// A nonzero word stays nonzero under one xorshift step: each of the three
/// `x ^= x << k` / `x ^= x >> k` steps is invertible.
pub proof fn lemma_xorshift_nonzero(x: u64)
    requires
        x != 0,
    ensures
        xorshift(x) != 0,
{
    let a = x ^ (x << 13u64);
    let b = a ^ (a >> 7u64);
    assert(x != 0 ==> x ^ (x << 13u64) != 0) by (bit_vector);
    assert(a != 0 ==> a ^ (a >> 7u64) != 0) by (bit_vector);
    assert(b != 0 ==> b ^ (b << 17u64) != 0) by (bit_vector);
}

/// A nonzero seed is the generator's first state, and zero starts it at one.
pub proof fn lemma_seed_is_state(seed: u64)
    ensures
        seed != 0 ==> seed_state(seed) == seed,
        seed == 0 ==> seed_state(seed) == 1,
{
}

/// One xorshift step never maps two words to the same word.
pub proof fn lemma_xorshift_injective(x: u64, y: u64)
    requires
        x != y,
    ensures
        xorshift(x) != xorshift(y),
{
    let ax = x ^ (x << 13u64);
    let ay = y ^ (y << 13u64);
    let bx = ax ^ (ax >> 7u64);
    let by_ = ay ^ (ay >> 7u64);
    assert(x != y ==> x ^ (x << 13u64) != y ^ (y << 13u64)) by (bit_vector);
    assert(ax != ay ==> ax ^ (ax >> 7u64) != ay ^ (ay >> 7u64)) by (bit_vector);
    assert(bx != by_ ==> bx ^ (bx << 17u64) != by_ ^ (by_ << 17u64)) by (bit_vector);
}

/// Distinct nonzero seeds start distinct streams: the states after any
/// number of draws differ.
pub proof fn lemma_distinct_seeds(s1: u64, s2: u64, n: nat)
    requires
        s1 != s2,
        s1 != 0,
        s2 != 0,
    ensures
        state_after(seed_state(s1), n) != state_after(seed_state(s2), n),
    decreases n,
{
    if n > 0 {
        lemma_distinct_seeds(s1, s2, (n - 1) as nat);
        lemma_xorshift_injective(
            state_after(seed_state(s1), (n - 1) as nat),
            state_after(seed_state(s2), (n - 1) as nat),
        );
    }
}

/// Every state a generator passes through from a seed is nonzero.
pub proof fn lemma_stream_nonzero(seed: u64, n: nat)
    ensures
        state_after(seed_state(seed), n) != 0,
    decreases n,
{
    if n > 0 {
        lemma_stream_nonzero(seed, (n - 1) as nat);
        lemma_xorshift_nonzero(state_after(seed_state(seed), (n - 1) as nat));
    }
}

/// A seedable xorshift64 generator. Its state is never zero.
pub struct Rng {
    state: u64,
}

impl View for Rng {
    type V = u64;

    closed spec fn view(&self) -> u64 {
        self.state
    }
}

impl Rng {
    #[verifier::type_invariant]
    spec fn state_nonzero(self) -> bool {
        self.state != 0
    }

    /// A generator started from `seed` (zero is taken as one).
    pub fn new(seed: u64) -> (r: Self)
        ensures
            r@ == seed_state(seed),
            seed != 0 ==> r@ == seed,
            r@ != 0,
    {
        Rng { state: if seed == 0 { 1 } else { seed } }
    }

    /// Advances the state by one xorshift step and returns the new state.
    pub fn next_u64(&mut self) -> (x: u64)
        ensures
            x == xorshift(old(self)@),
            final(self)@ == x,
            x != 0,
    {
        proof {
            use_type_invariant(&*self);
            lemma_xorshift_nonzero(self.state);
        }
        let mut x = self.state;
        x = x ^ (x << 13u64);
        x = x ^ (x >> 7u64);
        x = x ^ (x << 17u64);
        self.state = x;
        x
    }

    /// A draw reduced modulo `n`; zero, without a draw, when `n` is zero.
    pub fn next_usize(&mut self, n: usize) -> (r: usize)
        ensures
            n == 0 ==> r == 0 && final(self)@ == old(self)@,
            n > 0 ==> final(self)@ == xorshift(old(self)@) && r == (final(self)@ as usize) % n,
            n > 0 ==> r < n,
    {
        if n == 0 {
            return 0;
        }
        let x = self.next_u64();
        (x as usize) % n
    }

    /// One draw, compared with `threshold`: true when the drawn word is below it.
    /// A probability `p` of the unit interval corresponds to the threshold of
    /// the words whose fraction of `u64::MAX` falls below `p`.
    pub fn next_bool(&mut self, threshold: u64) -> (b: bool)
        ensures
            final(self)@ == xorshift(old(self)@),
            b == (xorshift(old(self)@) < threshold),
    {
        let x = self.next_u64();
        x < threshold
    }
}

} // verus!
