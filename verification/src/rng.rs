//! Core-owned deterministic RNG: all randomness that decides outcomes flows
//! through this seeded generator. SplitMix64: tiny, fast, bit-exact
//! everywhere.

use vstd::prelude::*;

verus! {

pub const GOLDEN: u64 = 0x9E3779B97F4A7C15u64;

/// The SplitMix64 output function applied to an advanced state.
pub open spec fn spec_mix(s: u64) -> u64 {
    let z1 = (s ^ (s >> 30u64)).wrapping_mul(0xBF58476D1CE4E5B9u64);
    let z2 = (z1 ^ (z1 >> 27u64)).wrapping_mul(0x94D049BB133111EBu64);
    z2 ^ (z2 >> 31u64)
}

/// The state after `k` draws from `seed`.
pub open spec fn spec_state_after(seed: u64, k: nat) -> u64
    decreases k,
{
    if k == 0 { seed } else { spec_state_after(seed, (k - 1) as nat).wrapping_add(GOLDEN) }
}

/// The `k`-th output (1-based) of the stream seeded with `seed`.
pub open spec fn spec_output(seed: u64, k: nat) -> u64 {
    spec_mix(spec_state_after(seed, k))
}

/// Fisher–Yates on `s` from position `i - 1` down to 1, the generator
/// starting at `state`: each step draws `j` below the step's count and
/// exchanges the entries at `i - 1` and `j`.
pub open spec fn spec_shuffle<T>(s: Seq<T>, state: u64, i: nat) -> Seq<T>
    decreases i,
{
    if i <= 1 {
        s
    } else {
        let st = state.wrapping_add(GOLDEN);
        let j = spec_mix(st) as int % i as int;
        spec_shuffle(s.update(i - 1, s[j]).update(j, s[i - 1]), st, (i - 1) as nat)
    }
}

#[derive(Clone, Debug)]
pub struct Rng {
    state: u64,
}

impl Rng {
    pub closed spec fn state(self) -> u64 {
        self.state
    }

    pub fn new(seed: u64) -> (r: Self)
        ensures
            r.state() == seed,
    {
        Rng { state: seed }
    }

    pub fn next_u64(&mut self) -> (r: u64)
        ensures
            final(self).state() == old(self).state().wrapping_add(GOLDEN),
            r == spec_mix(final(self).state()),
    {
        self.state = self.state.wrapping_add(GOLDEN);
        let mut z = self.state;
        z = (z ^ (z >> 30)).wrapping_mul(0xBF58476D1CE4E5B9u64);
        z = (z ^ (z >> 27)).wrapping_mul(0x94D049BB133111EBu64);
        z ^ (z >> 31)
    }

    /// Uniform in [0, n) without modulo bias beyond negligible (n << 2^64).
    pub fn below(&mut self, n: usize) -> (r: usize)
        requires
            n > 0,
        ensures
            final(self).state() == old(self).state().wrapping_add(GOLDEN),
            r as int == spec_mix(final(self).state()) as int % n as int,
            r < n,
    {
        let x = self.next_u64();
        (x % n as u64) as usize
    }

    /// Fisher–Yates shuffle driven by this generator: the result is a
    /// permutation of the input.
    pub fn shuffle<T>(&mut self, v: &mut Vec<T>)
        ensures
            final(v)@.len() == old(v)@.len(),
            final(v)@.to_multiset() == old(v)@.to_multiset(),
            final(v)@ == spec_shuffle(old(v)@, old(self).state(), old(v)@.len()),
            final(self).state() == spec_state_after(old(self).state(),
                if old(v)@.len() > 1 { (old(v)@.len() - 1) as nat } else { 0 }),
    {
        let n = v.len();
        let mut i = n;
        while i > 1
            invariant
                i <= n,
                v@.len() == n,
                v@.to_multiset() == old(v)@.to_multiset(),
                spec_shuffle(v@, self.state(), i as nat) == spec_shuffle(old(v)@, old(self).state(), n as nat),
                n > 1 ==> self.state() == spec_state_after(old(self).state(), (n - i) as nat),
                n <= 1 ==> self.state() == old(self).state(),
                n >= 1 ==> i >= 1,
            decreases i,
        {
            let ghost before = v@;
            let ghost st0 = self.state();
            i -= 1;
            let j = self.below(i + 1);
            swap_entries(v, i, j);
            proof {
                assert(spec_shuffle(before, st0, (i + 1) as nat) == spec_shuffle(v@, self.state(), i as nat));
            }
        }
    }
}

/// `<[T]>::swap` on a vector: exchange two entries.
#[verifier::external_body]
fn swap_entries<T>(v: &mut Vec<T>, i: usize, j: usize)
    requires
        i < old(v)@.len(),
        j < old(v)@.len(),
    ensures
        final(v)@ == old(v)@.update(i as int, old(v)@[j as int]).update(j as int, old(v)@[i as int]),
        final(v)@.to_multiset() == old(v)@.to_multiset(),
{
    v.swap(i, j);
}

} // verus!
