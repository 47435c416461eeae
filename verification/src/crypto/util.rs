//! Matrix by vector products over the field, and rounding of field elements
//! to a smaller modulus.

use crate::crypto::field::{field_modulus, matrix_values_of, values_of, F128, MODULUS};
use num_bigint::BigUint;
use num_traits::ToPrimitive;
use vstd::arithmetic::div_mod::*;
use vstd::arithmetic::mul::*;
use vstd::prelude::*;

verus! {

/// The unsigned big integer of `num_bigint`, carried as an opaque value.
#[verifier::external_type_specification]
#[verifier::external_body]
pub struct ExBigUint(num_bigint::BigUint);

/// The number that a big integer holds.
pub uninterp spec fn big_value(b: BigUint) -> nat;

/// `BigUint::from` on a `u128`: the big integer of the same value.
#[verifier::external_body]
fn big_from_u128(x: u128) -> (b: BigUint)
    ensures
        big_value(b) == x,
{
    BigUint::from(x)
}

/// `Mul` of two big integers: their exact product.
#[verifier::external_body]
fn big_mul(x: &BigUint, y: &BigUint) -> (b: BigUint)
    ensures
        big_value(b) == big_value(*x) * big_value(*y),
{
    x * y
}

/// `Div` of two big integers: the quotient rounded down. The division
/// panics on a zero divisor, which the precondition leaves out.
#[verifier::external_body]
fn big_div(x: &BigUint, y: &BigUint) -> (b: BigUint)
    requires
        big_value(*y) != 0,
    ensures
        big_value(b) == big_value(*x) / big_value(*y),
{
    x / y
}

/// `ToPrimitive::to_u128` of a big integer: its value where that fits in 128
/// bits, and `None` where it does not.
#[verifier::external_body]
fn big_to_u128(x: &BigUint) -> (r: Option<u128>)
    ensures
        match r {
            Some(v) => v == big_value(*x),
            None => big_value(*x) > u128::MAX,
        },
{
    x.to_u128()
}

/// The sum of the first `n` products of corresponding entries.
pub open spec fn partial_dot(a: Seq<nat>, b: Seq<nat>, n: nat) -> nat
    decreases n,
{
    if n == 0 {
        0
    } else {
        partial_dot(a, b, (n - 1) as nat) + a[n - 1] * b[n - 1]
    }
}

/// The inner product of two vectors over the field.
pub open spec fn inner_product(a: Seq<nat>, b: Seq<nat>) -> nat {
    partial_dot(a, b, a.len()) % field_modulus()
}

/// The product of a matrix, given by its rows, and a vector.
pub open spec fn matrix_product(m: Seq<Seq<nat>>, v: Seq<nat>) -> Seq<nat> {
    Seq::new(m.len(), |i: int| inner_product(m[i], v))
}

/// `x * p / q`, rounded down: the rounding of a field value to the modulus
/// `p`.
pub open spec fn round_to(x: nat, p: nat) -> nat {
    (x * p) / field_modulus()
}

/// A rounded value lies below the modulus it was rounded to.
pub proof fn lemma_round_bound(x: nat, p: nat)
    requires
        x < field_modulus(),
    ensures
        round_to(x, p) <= p,
        p > 0 ==> round_to(x, p) < p,
{
    let q = field_modulus() as int;
    let (xi, pi) = (x as int, p as int);
    lemma_mul_inequality(xi, q - 1, pi);
    assert((q - 1) * pi == q * pi - pi) by (nonlinear_arith);
    lemma_fundamental_div_mod(xi * pi, q);
    lemma_mod_bound(xi * pi, q);
    let r = (xi * pi) / q;
    assert(q * r <= q * pi - pi);
    if r > pi {
        lemma_mul_inequality(pi + 1, r, q);
        assert((pi + 1) * q == q * pi + q) by (nonlinear_arith);
        lemma_mul_is_commutative(r, q);
    }
    if p > 0 && r == pi {
        lemma_mul_is_commutative(r, q);
    }
}

/// Multiplies a matrix, given by its rows, by a vector. Every row has to be as
/// long as the vector.
pub fn matrix_vector_multiplication(matrix: &Vec<Vec<F128>>, vector: &Vec<F128>) -> (out: Vec<
    F128,
>)
    requires
        forall|i: int|
            0 <= i < matrix@.len() ==> (#[trigger] matrix@[i])@.len() == vector@.len(),
    ensures
        values_of(out@) == matrix_product(
            matrix_values_of(matrix@),
            values_of(vector@),
        ),
{
    let ghost b = values_of(vector@);
    let mut out: Vec<F128> = Vec::with_capacity(matrix.len());
    let mut i: usize = 0;
    while i < matrix.len()
        invariant
            i <= matrix@.len(),
            out@.len() == i,
            b == values_of(vector@),
            forall|r: int|
                0 <= r < matrix@.len() ==> (#[trigger] matrix@[r])@.len() == vector@.len(),
            forall|r: int|
                0 <= r < i ==> (#[trigger] out@[r])@ == inner_product(values_of(matrix@[r]@), b),
        decreases matrix@.len() - i,
    {
        let row = &matrix[i];
        let ghost a = values_of(row@);
        let mut acc: F128 = F128::zero();
        let mut j: usize = 0;
        proof {
            lemma_small_mod(0, field_modulus());
        }
        while j < row.len()
            invariant
                j <= row@.len(),
                row@.len() == vector@.len(),
                a == values_of(row@),
                b == values_of(vector@),
                acc@ == partial_dot(a, b, j as nat) % field_modulus(),
            decreases row@.len() - j,
        {
            let term: F128 = row[j].mul(&vector[j]);
            proof {
                lemma_add_mod_noop(
                    partial_dot(a, b, j as nat) as int,
                    (a[j as int] * b[j as int]) as int,
                    field_modulus() as int,
                );
            }
            acc = acc.add(&term);
            j = j + 1;
        }
        out.push(acc);
        i = i + 1;
    }
    assert(values_of(out@) =~= matrix_product(
        matrix_values_of(matrix@),
        b,
    ));
    out
}

/// Rounds every entry `x` to `x * p / q`, rounded down, where `q` is the
/// field's order; the product is taken exactly, in big integers.
pub fn round(vector: Vec<F128>, p: u128) -> (ret: Vec<F128>)
    ensures
        ret@.len() == vector@.len(),
        forall|i: int|
            0 <= i < vector@.len() ==> (#[trigger] ret@[i])@ == round_to(vector@[i]@, p as nat)
                % field_modulus(),
{
    let q: BigUint = big_from_u128(MODULUS);
    let p_big: BigUint = big_from_u128(p);
    let mut ret: Vec<F128> = Vec::with_capacity(vector.len());
    let mut i: usize = 0;
    while i < vector.len()
        invariant
            i <= vector@.len(),
            ret@.len() == i,
            big_value(q) == field_modulus(),
            big_value(p_big) == p,
            forall|k: int|
                0 <= k < i ==> (#[trigger] ret@[k])@ == round_to(vector@[k]@, p as nat)
                    % field_modulus(),
        decreases vector@.len() - i,
    {
        let x: u128 = vector[i].to_u128();
        let x_big: BigUint = big_from_u128(x);
        let product: BigUint = big_mul(&x_big, &p_big);
        let y: BigUint = big_div(&product, &q);
        proof {
            lemma_round_bound(x as nat, p as nat);
        }
        let y_u128: u128 = match big_to_u128(&y) {
            Some(v) => v,
            None => u128::MAX,
        };
        ret.push(F128::from_u128(y_u128));
        i = i + 1;
    }
    ret
}

} // verus!
