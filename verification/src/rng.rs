//! Randomness sources.
//!
//! Code generation uses a seeded, deterministic stream ([`CodeRng`]): prover
//! and verifier both regenerate the code from the seed, so the stream being a
//! pure function of the seed is a correctness requirement, captured by the
//! uninterpreted [`chacha_word`].  Per-run randomness (random coefficients,
//! sampled query indices) comes from the thread-local generator, of which
//! nothing is assumed beyond the sampled index being in range.

use vstd::prelude::*;

verus! {

/// The `k`-th 64-bit word of the stream that `rand_chacha::ChaCha20Rng`
/// produces after being seeded with `seed_from_u64`.  The stream is a pure
/// function of the seed and the position, the same in every process.
pub uninterp spec fn chacha_word(seed: u64, k: int) -> u64;

#[verifier::external_type_specification]
#[verifier::external_body]
pub struct ExChaCha20Rng(rand_chacha::ChaCha20Rng);

/// A deterministic random stream seeded from a 64-bit value.
pub struct CodeRng {
    inner: rand_chacha::ChaCha20Rng,
    seed_word: u64,
    count: Ghost<int>,
}

impl CodeRng {
    /// The seed this stream was created from.
    pub closed spec fn seed(self) -> u64 {
        self.seed_word
    }

    /// How many words have been drawn so far.
    pub closed spec fn count(self) -> int {
        self.count@
    }

    /// A stream seeded with `seed`, at position zero.
    pub fn new(seed: u64) -> (r: CodeRng)
        ensures
            r.seed() == seed,
            r.count() == 0,
    {
        CodeRng { inner: make_chacha(seed), seed_word: seed, count: Ghost(0) }
    }

    /// Relies on `rand_core::RngCore::next_u64` for `ChaCha20Rng`: the output
    /// is the next word of a stream fully determined by the seed, named by
    /// [`chacha_word`].
    #[verifier::external_body]
    pub fn next_word(&mut self) -> (r: u64)
        ensures
            final(self).seed() == old(self).seed(),
            final(self).count() == old(self).count() + 1,
            r == chacha_word(old(self).seed(), old(self).count()),
    {
        rand::RngCore::next_u64(&mut self.inner)
    }
}

/// Relies on `rand_core::SeedableRng::seed_from_u64`, whose expansion of the
/// seed is fixed (its documentation calls changing it a value-breaking
/// change): creates the generator whose output stream [`chacha_word`] names.
#[verifier::external_body]
fn make_chacha(seed: u64) -> rand_chacha::ChaCha20Rng {
    <rand_chacha::ChaCha20Rng as rand::SeedableRng>::seed_from_u64(seed)
}

/// Relies on `rand::Rng::gen_range` over the thread-local generator: returns
/// a value of the nonempty range `0 .. n`; nothing more is assumed of it.
#[verifier::external_body]
pub fn sample_index(n: usize) -> (r: usize)
    requires
        n >= 1,
    ensures
        r < n,
{
    rand::Rng::gen_range(&mut rand::thread_rng(), 0..n)
}

/// Relies on `rand_core::RngCore::next_u64` over the thread-local generator:
/// a fresh random word, of whose value nothing is assumed.
#[verifier::external_body]
pub fn random_word() -> u64 {
    rand::RngCore::next_u64(&mut rand::thread_rng())
}

} // verus!
