//! The stream generator that every party samples from, and uniform sampling
//! of field elements and machine words from it.

use crate::crypto::field::{field_modulus, F128};
use rand::{Rng, RngCore, SeedableRng};
use rand_chacha::ChaCha20Rng;
use vstd::arithmetic::mul::*;
use vstd::prelude::*;

verus! {

/// The ChaCha20 stream generator of `rand_chacha`, carried as an opaque value.
#[verifier::external_type_specification]
#[verifier::external_body]
pub struct ExChaCha20Rng(rand_chacha::ChaCha20Rng);

/// The 32-byte seed that a generator was made from.
pub uninterp spec fn generator_seed(rng: ChaCha20Rng) -> Seq<u8>;

/// The number of 32-bit words of its keystream that a generator has consumed.
pub uninterp spec fn generator_position(rng: ChaCha20Rng) -> nat;

/// The 64-bit word that a generator made from `seed` yields once it has
/// consumed `position` 32-bit words of its keystream: the two words at
/// `position` and `position + 1`, the first one in the low half.
pub uninterp spec fn keystream_word(seed: Seq<u8>, position: nat) -> u64;

/// `ChaCha20Rng::from_entropy`: a generator seeded by the operating system.
/// Nothing is claimed of its seed. The call panics where the system gives no
/// entropy.
#[verifier::external_body]
pub fn default_prg() -> (rng: ChaCha20Rng) {
    ChaCha20Rng::from_entropy()
}

/// `ChaCha20Rng::from_seed`: the generator of the given seed, at the start of
/// its keystream.
#[verifier::external_body]
pub(crate) fn prg_from_seed(seed: [u8; 32]) -> (rng: ChaCha20Rng)
    ensures
        generator_seed(rng) == seed@,
        generator_position(rng) == 0,
{
    ChaCha20Rng::from_seed(seed)
}

/// `RngCore::next_u64` of the generator: the next two 32-bit words of the
/// keystream as one 64-bit word. The seed stays, the position moves on by two.
#[verifier::external_body]
pub(crate) fn next_word(rng: &mut ChaCha20Rng) -> (word: u64)
    ensures
        word == keystream_word(generator_seed(*old(rng)), generator_position(*old(rng))),
        generator_seed(*final(rng)) == generator_seed(*old(rng)),
        generator_position(*final(rng)) == generator_position(*old(rng)) + 2,
{
    rng.next_u64()
}

/// `Rng::fill` on a byte buffer: every byte is overwritten from the
/// keystream. Nothing is claimed of the bytes, nor of the position after.
#[verifier::external_body]
pub fn populate_random_bytes(v: &mut [u8], rng: &mut ChaCha20Rng)
    ensures
        final(v)@.len() == old(v)@.len(),
        generator_seed(*final(rng)) == generator_seed(*old(rng)),
{
    rng.fill(v);
}

/// Values that can be sampled uniformly from the generator's keystream.
pub trait UniformRand: Sized {
    /// The number of 32-bit keystream words that one sample consumes.
    spec fn words_per_sample() -> nat;

    /// The value that is sampled from the keystream of `seed` at `position`.
    spec fn sample_at(seed: Seq<u8>, position: nat) -> Self;

    /// Samples one value and moves the generator on.
    fn rand(rng: &mut ChaCha20Rng) -> (r: Self)
        ensures
            r == Self::sample_at(generator_seed(*old(rng)), generator_position(*old(rng))),
            generator_seed(*final(rng)) == generator_seed(*old(rng)),
            generator_position(*final(rng)) == generator_position(*old(rng))
                + Self::words_per_sample(),
    ;
}

impl UniformRand for u64 {
    open spec fn words_per_sample() -> nat {
        2
    }

    open spec fn sample_at(seed: Seq<u8>, position: nat) -> u64 {
        keystream_word(seed, position)
    }

    fn rand(rng: &mut ChaCha20Rng) -> (r: u64) {
        next_word(rng)
    }
}

/// The field value that two consecutive 64-bit words give: their low 127
/// bits, reduced.
pub open spec fn field_sample(low: u64, high: u64) -> nat {
    ((low as nat + (high as nat % 0x8000_0000_0000_0000) * 0x1_0000_0000_0000_0000)
        % field_modulus()) as nat
}

impl UniformRand for F128 {
    open spec fn words_per_sample() -> nat {
        4
    }

    open spec fn sample_at(seed: Seq<u8>, position: nat) -> F128 {
        F128::element(
            field_sample(keystream_word(seed, position), keystream_word(seed, position + 2)),
        )
    }

    fn rand(rng: &mut ChaCha20Rng) -> (r: F128) {
        let low: u64 = next_word(rng);
        let high: u64 = next_word(rng);
        let top: u64 = high % 0x8000_0000_0000_0000;
        let wide: u128 = (top as u128) * 0x1_0000_0000_0000_0000 + (low as u128);
        let r = F128::from_u128(wide);
        proof {
            F128::lemma_element(r);
        }
        r
    }
}

/// The values that filling `len` slots from the keystream of `seed` gives,
/// starting at `position`.
pub open spec fn samples_at<F: UniformRand>(seed: Seq<u8>, position: nat, len: nat) -> Seq<F> {
    Seq::new(len, |k: int| F::sample_at(seed, position + (k as nat) * F::words_per_sample()))
}

/// Overwrites every slot of `v` with a fresh sample, in order.
pub fn populate_random<F: UniformRand>(v: &mut Vec<F>, rng: &mut ChaCha20Rng)
    ensures
        final(v)@ == samples_at::<F>(
            generator_seed(*old(rng)),
            generator_position(*old(rng)),
            old(v)@.len(),
        ),
        generator_seed(*final(rng)) == generator_seed(*old(rng)),
        generator_position(*final(rng)) == generator_position(*old(rng)) + old(v)@.len()
            * F::words_per_sample(),
{
    let ghost seed = generator_seed(*rng);
    let ghost start = generator_position(*rng);
    let ghost width = F::words_per_sample();
    let n: usize = v.len();
    let mut k: usize = 0;
    while k < n
        invariant
            k <= n,
            v@.len() == n,
            width == F::words_per_sample(),
            generator_seed(*rng) == seed,
            generator_position(*rng) == start + k * width,
            forall|j: int| 0 <= j < k ==> v@[j] == F::sample_at(seed, start + (j as nat) * width),
        decreases n - k,
    {
        let x: F = F::rand(rng);
        v.set(k, x);
        proof {
            lemma_mul_is_distributive_add_other_way(width as int, k as int, 1);
        }
        k = k + 1;
    }
    assert(v@ =~= samples_at::<F>(seed, start, n as nat));
}

} // verus!
