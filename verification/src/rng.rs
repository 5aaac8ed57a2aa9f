//! The seeded pseudo-random generator behind the sampling decisions.
//!
//! Reproducibility is the point: the PCG-XSH-RR 64/32 generator is a pure,
//! documented function of its seed, so its output stream and the index
//! selections drawn from it are named as functions of the seed alone. The
//! engine's contracts are stated over those names, which makes every
//! sampling decision a deterministic function of seed and input.

use rand::seq::IteratorRandom;
use rand::RngCore;
use rand::SeedableRng;
use vstd::prelude::*;

verus! {

#[verifier::external_type_specification]
#[verifier::external_body]
pub struct ExLcg64Xsh32(rand_pcg::Lcg64Xsh32);

/// The `index`-th 64-bit output of a PCG-XSH-RR 64/32 generator seeded from
/// `seed`, counting from zero.
pub uninterp spec fn pcg32_u64(seed: u64, index: nat) -> u64;

/// The indices that a fresh generator seeded from `seed` samples, uniformly
/// and without replacement, when asked for `n` of `0..size`.
pub uninterp spec fn chosen_of(size: u64, n: nat, seed: u64) -> Seq<u64>;

/// Relies on `Lcg64Xsh32::seed_from_u64`: seeding is a pure, documented
/// function of the seed, identical on every machine.
#[verifier::external_body]
fn pcg_from_seed(seed: u64) -> rand_pcg::Lcg64Xsh32 {
    rand_pcg::Lcg64Xsh32::seed_from_u64(seed)
}

/// A PCG-XSH-RR 64/32 generator together with the seed it was built from and
/// how many 64-bit values it has produced. The generator itself is private:
/// every draw goes through [`SeededRng::next_u64`], which keeps the count
/// true.
pub struct SeededRng {
    rng: rand_pcg::Lcg64Xsh32,
    seed: u64,
    drawn: u128,
}

impl SeededRng {
    /// The seed this generator was built from.
    pub closed spec fn seed(&self) -> u64 {
        self.seed
    }

    /// How many 64-bit values this generator has produced.
    pub closed spec fn drawn(&self) -> u128 {
        self.drawn
    }

    /// A fresh generator seeded from `seed`.
    pub fn from_seed(seed: u64) -> (r: SeededRng)
        ensures
            r.seed() == seed,
            r.drawn() == 0,
    {
        SeededRng { rng: pcg_from_seed(seed), seed, drawn: 0 }
    }

    /// Relies on `Lcg64Xsh32::next_u64`: the generator's outputs are a pure,
    /// documented function of the seed and of how many values were drawn
    /// before.
    #[verifier::external_body]
    pub fn next_u64(&mut self) -> (r: u64)
        requires
            old(self).drawn() < u128::MAX,
        ensures
            final(self).seed() == old(self).seed(),
            final(self).drawn() == old(self).drawn() + 1,
            r == pcg32_u64(old(self).seed(), old(self).drawn() as nat),
    {
        self.drawn += 1;
        self.rng.next_u64()
    }

    /// Relies on `IteratorRandom::choose_multiple` over `0..size`: it returns
    /// `min(size, n)` distinct indices below `size`, chosen by the generator
    /// alone, so from a fresh generator the selection is a function of
    /// `(size, n, seed)`.
    #[verifier::external_body]
    pub fn choose_indices(self, size: u64, n: usize) -> (r: Vec<u64>)
        requires
            self.drawn() == 0,
        ensures
            r@ == chosen_of(size, n as nat, self.seed()),
            r@.len() == if size <= n as u64 {
                size as int
            } else {
                n as int
            },
            forall|i: int| 0 <= i < r@.len() ==> r@[i] < size,
            forall|i: int, j: int| 0 <= i < j < r@.len() ==> r@[i] != r@[j],
    {
        let mut rng = self.rng;
        (0..size).choose_multiple(&mut rng, n)
    }
}

} // verus!
