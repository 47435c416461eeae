//! The encoding of an input coordinate: the value in the high bits, above
//! room for the number of clients and for noise, so that a sum of encodings
//! decodes to the sum of the values.

use vstd::arithmetic::div_mod::*;
use vstd::arithmetic::mul::*;
use vstd::arithmetic::power2::{
    lemma2_to64, lemma2_to64_rest, lemma_pow2_adds, lemma_pow2_pos,
    lemma_pow2_strictly_increases, pow2,
};
use vstd::bits::{lemma_u64_low_bits_mask_is_mod, lemma_u64_pow2_no_overflow, lemma_u64_shl_is_mul};
use vstd::prelude::*;

verus! {

/// The number of clients that an encoding leaves room for, 2^20.
pub const NUM_PARTIES_UPPER_BOUND: u64 = 1048576;

/// The number of packed coordinates of a client's input.
pub const INPUT_LENGTH: usize = 1024;

/// The largest number of noise bits with which the encoding of a 32-bit
/// value stays below 2^92.
pub const MAX_SECURITY_PARAMETER: u64 = 40;

/// The weight of a value in its encoding: `2^kappa` times the bound on the
/// number of clients.
pub open spec fn encoding_unit(kappa: nat) -> nat {
    pow2(kappa) * (NUM_PARTIES_UPPER_BOUND as nat)
}

/// The encoding of `x` with the noise `r`.
pub open spec fn encoded_value(x: nat, r: nat, kappa: nat) -> nat {
    encoding_unit(kappa) * x + r + pow2(kappa)
}

/// `a / b`, rounded up.
pub open spec fn ceil_div(a: nat, b: nat) -> nat {
    if a % b == 0 {
        a / b
    } else {
        a / b + 1
    }
}

/// What a sum of encodings decodes to: the sum over the unit, rounded up,
/// less one, in 32 bits.
pub open spec fn decoded_value(sum: nat, kappa: nat) -> nat {
    ((ceil_div(sum, encoding_unit(kappa)) - 1) % 0x1_0000_0000) as nat
}

/// Whether `e` encodes `x` with some noise below `2^kappa`.
pub open spec fn encodes(e: nat, x: nat, kappa: nat) -> bool {
    encoding_unit(kappa) * x + pow2(kappa) <= e < encoding_unit(kappa) * x + 2 * pow2(kappa)
}

/// The sizes of the parts of an encoding for up to 40 bits of noise.
pub proof fn lemma_encoding_sizes(kappa: nat)
    requires
        kappa <= MAX_SECURITY_PARAMETER,
    ensures
        0 < pow2(kappa) <= 0x100_0000_0000,
        2 * pow2(kappa) <= encoding_unit(kappa),
        encoding_unit(kappa) <= 0x1000_0000_0000_0000,
        encoding_unit(kappa) == pow2(kappa + 20),
{
    lemma2_to64();
    lemma2_to64_rest();
    lemma_pow2_pos(kappa);
    if kappa < 40 {
        lemma_pow2_strictly_increases(kappa, 40);
    }
    lemma_pow2_adds(kappa, 20);
}

/// An encoding decodes to its value.
pub proof fn lemma_decode_encode(x: nat, r: nat, kappa: nat)
    requires
        x < 0x1_0000_0000,
        r < pow2(kappa),
    ensures
        decoded_value(encoded_value(x, r, kappa), kappa) == x,
        encodes(encoded_value(x, r, kappa), x, kappa),
{
    lemma_pow2_pos(kappa);
    lemma_decode_sum(x, r + pow2(kappa), 0, kappa);
    lemma_small_mod(x, 0x1_0000_0000);
}

/// Whatever encodes a value decodes to it.
pub proof fn lemma_encoding_decodes(e: nat, x: nat, kappa: nat)
    requires
        x < 0x1_0000_0000,
        encodes(e, x, kappa),
    ensures
        decoded_value(e, kappa) == x,
{
    let r = (e - encoding_unit(kappa) * x - pow2(kappa)) as nat;
    lemma_decode_encode(x, r, kappa);
}

/// A multiple of the unit, plus noise that is positive and no more than the
/// unit, plus a multiple of the unit times 2^32, decodes to the first
/// multiplier in 32 bits.
pub proof fn lemma_decode_sum(value: nat, noise: nat, wraps: nat, kappa: nat)
    requires
        0 < noise <= encoding_unit(kappa),
    ensures
        decoded_value(
            encoding_unit(kappa) * value + noise + wraps * (encoding_unit(kappa) * 0x1_0000_0000),
            kappa,
        ) == value % 0x1_0000_0000,
{
    let d = encoding_unit(kappa) as int;
    let total = value + wraps * 0x1_0000_0000;
    let sum = d * value + noise + wraps * (d * 0x1_0000_0000);
    assert(sum == d * total + noise) by (nonlinear_arith)
        requires
            sum == d * value + noise + wraps * (d * 0x1_0000_0000),
            total == value + wraps * 0x1_0000_0000,
    ;
    if noise < d {
        lemma_mul_is_commutative(d, total as int);
        lemma_fundamental_div_mod_converse(sum, d, total as int, noise as int);
        assert(ceil_div(sum as nat, d as nat) == total + 1);
    } else {
        assert(sum == (total + 1) * d) by (nonlinear_arith)
            requires
                sum == d * total + noise,
                noise == d,
        ;
        lemma_fundamental_div_mod_converse(sum, d, (total + 1) as int, 0);
        assert(ceil_div(sum as nat, d as nat) == total + 1);
    }
    lemma_mod_multiples_vanish(wraps as int, value as int, 0x1_0000_0000);
}

/// `2^kappa` and the unit as machine integers.
fn encoding_scales(kappa: u64) -> (r: (u128, u128))
    requires
        kappa <= MAX_SECURITY_PARAMETER,
    ensures
        r.0 == pow2(kappa as nat),
        r.1 == encoding_unit(kappa as nat),
{
    proof {
        lemma_encoding_sizes(kappa as nat);
        lemma_u64_pow2_no_overflow(kappa as nat);
        lemma_u64_shl_is_mul(1u64, kappa);
    }
    let two_to_kappa: u128 = (1u64 << kappa) as u128;
    let two_to_kappa_times_n: u128 = two_to_kappa * (NUM_PARTIES_UPPER_BOUND as u128);
    (two_to_kappa, two_to_kappa_times_n)
}

/// Encodes every value with the low `kappa` bits of the random number at
/// its place: the unit times the value, plus the noise, plus `2^kappa`.
pub fn encode_with_noise(packed: &Vec<u32>, random_numbers: &Vec<u64>, kappa: u64) -> (encoded:
    Vec<u128>)
    requires
        kappa <= MAX_SECURITY_PARAMETER,
        random_numbers@.len() == packed@.len(),
    ensures
        encoded@.len() == packed@.len(),
        forall|i: int|
            0 <= i < packed@.len() ==> #[trigger] encoded@[i] == encoded_value(
                packed@[i] as nat,
                random_numbers@[i] as nat % pow2(kappa as nat),
                kappa as nat,
            ),
        forall|i: int|
            0 <= i < packed@.len() ==> #[trigger] encoded@[i] < 0x1000_0000_0000_0000_0000_0000,
{
    let (two_to_kappa, two_to_kappa_times_n) = encoding_scales(kappa);
    proof {
        lemma_encoding_sizes(kappa as nat);
    }
    let mask: u64 = (two_to_kappa - 1) as u64;
    let mut encoded: Vec<u128> = Vec::with_capacity(packed.len());
    let mut i: usize = 0;
    while i < packed.len()
        invariant
            i <= packed@.len(),
            kappa <= MAX_SECURITY_PARAMETER,
            random_numbers@.len() == packed@.len(),
            two_to_kappa == pow2(kappa as nat),
            two_to_kappa_times_n == encoding_unit(kappa as nat),
            mask == pow2(kappa as nat) - 1,
            0 < two_to_kappa <= 0x100_0000_0000,
            two_to_kappa_times_n <= 0x1000_0000_0000_0000,
            encoded@.len() == i,
            forall|k: int|
                0 <= k < i ==> #[trigger] encoded@[k] == encoded_value(
                    packed@[k] as nat,
                    random_numbers@[k] as nat % pow2(kappa as nat),
                    kappa as nat,
                ),
            forall|k: int| 0 <= k < i ==> #[trigger] encoded@[k] < 0x1000_0000_0000_0000_0000_0000,
        decreases packed@.len() - i,
    {
        let x: u128 = packed[i] as u128;
        let r: u128 = (random_numbers[i] & mask) as u128;
        proof {
            lemma_u64_low_bits_mask_is_mod(random_numbers@[i as int], kappa as nat);
            lemma_mod_bound(random_numbers@[i as int] as int, pow2(kappa as nat) as int);
            assert(two_to_kappa_times_n * x <= 0x1000_0000_0000_0000 * 0xffff_ffff)
                by (nonlinear_arith)
                requires
                    two_to_kappa_times_n <= 0x1000_0000_0000_0000,
                    x <= 0xffff_ffff,
            ;
        }
        let e: u128 = two_to_kappa_times_n * x + r + two_to_kappa;
        encoded.push(e);
        i = i + 1;
    }
    encoded
}

/// Decodes every sum of encodings: the sum over the unit, rounded up, less
/// one, in 32 bits.
pub fn decode_values(output: &Vec<u128>, kappa: u64) -> (decoded: Vec<u32>)
    requires
        kappa <= MAX_SECURITY_PARAMETER,
    ensures
        decoded@.len() == output@.len(),
        forall|i: int|
            0 <= i < output@.len() ==> #[trigger] decoded@[i] == decoded_value(
                output@[i] as nat,
                kappa as nat,
            ),
{
    let (two_to_kappa, denom) = encoding_scales(kappa);
    proof {
        lemma_encoding_sizes(kappa as nat);
    }
    let mut decoded: Vec<u32> = Vec::with_capacity(output.len());
    let mut i: usize = 0;
    while i < output.len()
        invariant
            i <= output@.len(),
            denom == encoding_unit(kappa as nat),
            2 <= denom,
            decoded@.len() == i,
            forall|k: int|
                0 <= k < i ==> #[trigger] decoded@[k] == decoded_value(
                    output@[k] as nat,
                    kappa as nat,
                ),
        decreases output@.len() - i,
    {
        let x: u128 = output[i];
        let q: u128 = x / denom;
        let r: u128 = x % denom;
        proof {
            lemma_div_is_ordered_by_denominator(x as int, 2, denom as int);
        }
        let ceil: u128 = if r != 0 {
            q + 1
        } else {
            q
        };
        let low: u32 = (ceil % 0x1_0000_0000) as u32;
        let d: u32 = low.wrapping_sub(1);
        proof {
            lemma_sub_mod_noop(ceil as int, 1, 0x1_0000_0000);
            lemma_small_mod(1, 0x1_0000_0000);
            if low == 0 {
                lemma_mod_add_multiples_vanish(-1, 0x1_0000_0000);
                lemma_small_mod(0xffff_ffff, 0x1_0000_0000);
            } else {
                lemma_small_mod((low - 1) as nat, 0x1_0000_0000);
            }
        }
        decoded.push(d);
        i = i + 1;
    }
    decoded
}

} // verus!
