//! A xorshift pseudo-random number generator.
use vstd::prelude::*;

verus! {

/// One xorshift64 step (shifts 13, 7, 17).
pub open spec fn xorshift(x: u64) -> u64 {
    let a = x ^ (x << 13u64);
    let b = a ^ (a >> 7u64);
    b ^ (b << 17u64)
}

/// The state after `k` xorshift steps from `x`.
pub open spec fn xorshift_n(x: u64, k: nat) -> u64
    decreases k,
{
    if k == 0 {
        x
    } else {
        xorshift_n(xorshift(x), (k - 1) as nat)
    }
}

/// `now` is reached from `start` by some number of xorshift steps.
pub open spec fn advanced(start: u64, now: u64) -> bool {
    exists|k: nat| now == #[trigger] xorshift_n(start, k)
}

/// Zero steps reach the start.
pub proof fn lemma_advanced_refl(x: u64)
    ensures
        advanced(x, x),
{
    assert(x == xorshift_n(x, 0));
}

/// Steps compose.
pub proof fn lemma_xorshift_n_add(x: u64, a: nat, b: nat)
    ensures
        xorshift_n(xorshift_n(x, a), b) == xorshift_n(x, a + b),
    decreases a,
{
    if a > 0 {
        lemma_xorshift_n_add(xorshift(x), (a - 1) as nat, b);
        assert((a - 1) as nat + b == (a + b - 1) as nat);
    }
}

/// Reaching is transitive.
pub proof fn lemma_advanced_trans(x: u64, y: u64, z: u64)
    requires
        advanced(x, y),
        advanced(y, z),
    ensures
        advanced(x, z),
{
    let a = choose|k: nat| y == #[trigger] xorshift_n(x, k);
    let b = choose|k: nat| z == #[trigger] xorshift_n(y, k);
    lemma_xorshift_n_add(x, a, b);
    assert(z == xorshift_n(x, a + b));
}

/// One step reaches the next state.
pub proof fn lemma_advanced_step(x: u64, y: u64)
    requires
        advanced(x, y),
    ensures
        advanced(x, xorshift(y)),
{
    assert(xorshift(y) == xorshift_n(y, 1)) by {
        assert(xorshift_n(xorshift(y), 0) == xorshift(y));
    }
    lemma_advanced_trans(x, y, xorshift(y));
}

/// A xorshift64 generator; its state is the last value it returned (or the seed).
pub struct RNG {
    val: u64,
}

impl View for RNG {
    type V = u64;

    /// The generator's state.
    closed spec fn view(&self) -> u64 {
        self.val
    }
}

impl RNG {
    /// A generator whose state is `seed`.
    pub fn new(seed: u64) -> (r: Self)
        ensures
            r@ == seed,
    {
        Self { val: seed }
    }

    /// Advances the state by one xorshift step and returns the new state.
    pub fn next_u64(&mut self) -> (r: u64)
        ensures
            r == xorshift(old(self)@),
            final(self)@ == r,
    {
        let mut x = self.val;
        x ^= x << 13;
        x ^= x >> 7;
        x ^= x << 17;
        self.val = x;
        x
    }
}

/// A nonzero state never becomes zero, and zero stays zero: the generator
/// seeded with a nonzero value never returns zero.
pub proof fn lemma_xorshift_zero(x: u64)
    ensures
        xorshift(x) == 0 <==> x == 0,
{
    assert(xorshift(x) == 0 <==> x == 0) by (bit_vector);
}

} // verus!
