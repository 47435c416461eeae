//! Which field values are known to have inverses: the small ones, since the
//! field's order has no small divisor, and with a value its negative.

use crate::crypto::field::{
    congruent, field_inv, field_modulus, field_mul, field_neg, field_sub, gcd, invertible,
    lemma_congruent_mul, lemma_congruent_residue, lemma_gcd_divides, lemma_inverse_is,
};
use vstd::arithmetic::div_mod::*;
use vstd::arithmetic::mul::*;
use vstd::prelude::*;

verus! {

/// The bound below which every value but zero is known to have an inverse.
pub const SMALL_BOUND: u32 = 4096;

/// No odd number from 3 up to the bound has 2 for the residue of `2^128`,
/// computed by squaring `2^16` three times.
#[verifier::rlimit(100)]
proof fn lemma_residues_of_two_to_128(e: u32, r1: u32, r2: u32, r4: u32, r8: u32)
    by (bit_vector)
    requires
        3 <= e < 4096,
        e % 2 == 1,
        r1 == 65536u32 % e,
        r2 == ((r1 * r1) as u32) % e,
        r4 == ((r2 * r2) as u32) % e,
        r8 == ((r4 * r4) as u32) % e,
    ensures
        r8 != 2,
{
}

/// The residue of a square is the residue of the square of the residue.
proof fn lemma_square_residue(x: int, e: int)
    requires
        e > 0,
    ensures
        ((x % e) * (x % e)) % e == (x * x) % e,
        0 <= x % e < e,
{
    lemma_mul_mod_noop_general(x, x, e);
    lemma_mod_bound(x, e);
}

/// The field's order has no divisor from 2 up to the bound.
pub proof fn lemma_no_small_divisor(e: nat)
    requires
        2 <= e < SMALL_BOUND,
    ensures
        field_modulus() % e != 0,
{
    let q = field_modulus() as int;
    let ei = e as int;
    if q % ei == 0 {
        if e % 2 == 0 {
            // an even divisor of an odd number
            let k = q / ei;
            lemma_fundamental_div_mod(q, ei);
            let h = ei / 2;
            assert(q == 2 * (h * k)) by (nonlinear_arith)
                requires
                    q == ei * k,
                    ei == 2 * h,
            ;
        } else {
            // 2^128 = 2 q + 2 has the residue 2
            let two_16: int = 0x1_0000;
            let two_32: int = 0x1_0000_0000;
            let two_64: int = 0x1_0000_0000_0000_0000;
            let two_128: int = 0x1_0000_0000_0000_0000_0000_0000_0000_0000int;
            let r1 = two_16 % ei;
            let r2 = (r1 * r1) % ei;
            let r4 = (r2 * r2) % ei;
            let r8 = (r4 * r4) % ei;
            lemma_square_residue(two_16, ei);
            lemma_square_residue(two_32, ei);
            lemma_square_residue(two_64, ei);
            assert(two_16 * two_16 == two_32);
            assert(two_32 * two_32 == two_64);
            assert(two_64 * two_64 == two_128);
            assert(r8 == two_128 % ei);
            lemma_mod_multiples_vanish(2 * (q / ei), 2, ei);
            lemma_fundamental_div_mod(q, ei);
            assert(two_128 == ei * (2 * (q / ei)) + 2) by (nonlinear_arith)
                requires
                    two_128 == 2 * q + 2,
                    q == ei * (q / ei),
            ;
            lemma_small_mod(2, e);
            assert(r8 == 2);
            assert(r1 * r1 < 0x1_0000_0000) by (nonlinear_arith)
                requires
                    0 <= r1 < 4096,
            ;
            assert(r2 * r2 < 0x1_0000_0000) by (nonlinear_arith)
                requires
                    0 <= r2 < 4096,
            ;
            assert(r4 * r4 < 0x1_0000_0000) by (nonlinear_arith)
                requires
                    0 <= r4 < 4096,
            ;
            lemma_residues_of_two_to_128(e as u32, r1 as u32, r2 as u32, r4 as u32, r8 as u32);
        }
    }
}

/// The greatest common divisor of two numbers is a sum of multiples of
/// them.
proof fn lemma_bezout(a: nat, b: nat) -> (r: (int, int))
    ensures
        a * r.0 + b * r.1 == gcd(a, b),
    decreases b,
{
    if b == 0 {
        assert(a * 1 + b * 0 == a) by (nonlinear_arith)
            requires
                b == 0,
        ;
        (1, 0)
    } else {
        lemma_mod_bound(a as int, b as int);
        let (x, y) = lemma_bezout(b, a % b);
        let k = (a / b) as int;
        lemma_fundamental_div_mod(a as int, b as int);
        assert(a * y + b * (x - k * y) == b * x + (a % b) * y) by (nonlinear_arith)
            requires
                a == b * k + (a % b),
        ;
        (y, x - k * y)
    }
}

/// A value that has no divisor but one in common with the field's order has
/// an inverse.
pub proof fn lemma_coprime_invertible(a: nat)
    requires
        gcd(field_modulus(), a) == 1,
    ensures
        invertible(a),
{
    let q = field_modulus() as int;
    let (x, y) = lemma_bezout(field_modulus(), a);
    let b = y % q;
    lemma_mod_bound(y, q);
    // a y = 1 - q x, so a (y mod q) is congruent to one
    lemma_congruent_residue(y);
    lemma_congruent_mul(a as int, a as int, b, y);
    lemma_mod_multiples_vanish(-x, 1, q);
    assert(a * y == q * (-x) + 1) by (nonlinear_arith)
        requires
            q * x + a * y == 1,
    ;
    lemma_small_mod(1, field_modulus());
    assert(field_mul(a, b as nat) == 1);
    lemma_inverse_is(a, b as nat);
}

/// Every value from one up to the bound has an inverse.
pub proof fn lemma_small_invertible(d: nat)
    requires
        1 <= d < SMALL_BOUND,
    ensures
        invertible(d),
{
    let g = gcd(field_modulus(), d);
    lemma_gcd_divides(field_modulus(), d);
    if g != 1 {
        // a common divisor is no greater than d
        if g > d {
            lemma_small_mod(d, g);
        }
        lemma_no_small_divisor(g);
    }
    lemma_coprime_invertible(d);
}

/// With a value its negative has an inverse.
pub proof fn lemma_negative_invertible(a: nat)
    requires
        invertible(a),
    ensures
        invertible(field_neg(a)),
{
    let q = field_modulus() as int;
    let i = field_inv(a);
    let n = field_neg(a);
    let ni = field_neg(i);
    lemma_congruent_residue(0 - a);
    lemma_congruent_residue(0 - i);
    lemma_congruent_mul(n as int, 0 - a, ni as int, 0 - i);
    assert((0 - a) * (0 - i) == a * i) by (nonlinear_arith);
    lemma_mod_bound(0 - i, q);
    lemma_small_mod(1, field_modulus());
    assert(field_mul(n, ni) == 1);
    lemma_inverse_is(n, ni);
}

/// Two different values below the bound differ by a value that has an
/// inverse.
pub proof fn lemma_small_difference_invertible(x: nat, y: nat)
    requires
        x < SMALL_BOUND,
        y < SMALL_BOUND,
        x != y,
    ensures
        invertible(field_sub(x, y)),
{
    let q = field_modulus() as int;
    if x > y {
        lemma_small_mod((x - y) as nat, field_modulus());
        lemma_small_invertible((x - y) as nat);
    } else {
        lemma_small_invertible((y - x) as nat);
        lemma_negative_invertible((y - x) as nat);
        assert(field_neg((y - x) as nat) == field_sub(x, y));
    }
}

} // verus!
