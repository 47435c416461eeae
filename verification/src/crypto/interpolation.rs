//! Why interpolation at zero recovers the constant term: the Lagrange basis
//! polynomials at zero, weighted with the powers of the points, sum to one
//! for the power zero and to zero for every other power below the number of
//! points.

use crate::crypto::field::{
    congruent, field_add, field_inv, field_modulus, field_mul, field_neg, field_pow, field_sub,
    invertible, lemma_congruent_add, lemma_congruent_mul, lemma_congruent_residue,
    lemma_congruent_residues_equal, lemma_congruent_sub, lemma_field_commutative, lemma_field_distributive, lemma_field_inverse,
    lemma_field_inverse_of_one, lemma_field_inverse_of_product, lemma_field_mul_associative,
    lemma_field_neutral, lemma_field_ranges, lemma_field_sub, lemma_inverse_is,
};
use crate::crypto::shamir::{
    denominators_invertible, interpolate_at_zero, lagrange_denominator, lagrange_numerator,
    lagrange_sum, poly_eval, shares_of,
};
use crate::crypto::units::{lemma_small_difference_invertible, SMALL_BOUND};
use vstd::arithmetic::div_mod::*;
use vstd::arithmetic::mul::*;
use vstd::prelude::*;

verus! {

/// The difference of the `x` of two points.
pub open spec fn difference(points: Seq<(nat, nat)>, i: int, j: int) -> nat {
    field_sub(points[i].0, points[j].0)
}

/// Whether the `x` of any two of the first `t` points differ by a value that
/// has an inverse.
pub open spec fn differences_invertible(points: Seq<(nat, nat)>, t: nat) -> bool {
    forall|i: int, j: int|
        0 <= i < t && 0 <= j < t && i != j ==> invertible(#[trigger] difference(points, i, j))
}

/// The `i`-th Lagrange basis polynomial of the first `t` points, at zero.
pub open spec fn lagrange_basis(points: Seq<(nat, nat)>, i: int, t: nat) -> nat {
    field_mul(lagrange_numerator(points, i, t), field_inv(lagrange_denominator(points, i, t)))
}

/// The sum of the first `n` weights, each times the basis polynomial of its
/// point among the first `t` points, at zero.
pub open spec fn weighted_sum(points: Seq<(nat, nat)>, weights: Seq<nat>, t: nat, n: nat) -> nat
    decreases n,
{
    if n == 0 {
        0
    } else {
        field_add(
            weighted_sum(points, weights, t, (n - 1) as nat),
            field_mul(weights[n - 1], lagrange_basis(points, n - 1, t)),
        )
    }
}

/// The `k`-th powers of the `x` of the points.
pub open spec fn powers(points: Seq<(nat, nat)>, k: nat) -> Seq<nat> {
    Seq::new(points.len(), |i: int| field_pow(points[i].0, k))
}

/// The sum of the `k`-th powers of the first `t` points, each times the
/// basis polynomial of its point at zero.
pub open spec fn power_sum(points: Seq<(nat, nat)>, t: nat, k: nat) -> nat {
    weighted_sum(points, powers(points, k), t, t)
}

/// The products of an interpolation are field values.
proof fn lemma_products_range(points: Seq<(nat, nat)>, i: int, n: nat)
    ensures
        lagrange_numerator(points, i, n) < field_modulus(),
        lagrange_denominator(points, i, n) < field_modulus(),
    decreases n,
{
    if n > 0 {
        lemma_products_range(points, i, (n - 1) as nat);
        lemma_field_ranges(
            lagrange_numerator(points, i, (n - 1) as nat),
            field_neg(points[n - 1].0),
        );
        lemma_field_ranges(
            lagrange_denominator(points, i, (n - 1) as nat),
            field_sub(points[i].0, points[n - 1].0),
        );
    }
}

/// The products over the points but the first are those over all the points
/// with the factor of the first taken out.
proof fn lemma_products_drop_first(points: Seq<(nat, nat)>, i: int, n: nat)
    requires
        1 <= i < points.len(),
        1 <= n <= points.len(),
    ensures
        lagrange_numerator(points, i, n) == field_mul(
            field_neg(points[0].0),
            lagrange_numerator(points.drop_first(), i - 1, (n - 1) as nat),
        ),
        lagrange_denominator(points, i, n) == field_mul(
            field_sub(points[i].0, points[0].0),
            lagrange_denominator(points.drop_first(), i - 1, (n - 1) as nat),
        ),
    decreases n,
{
    let rest = points.drop_first();
    let first_n = field_neg(points[0].0);
    let first_d = field_sub(points[i].0, points[0].0);
    lemma_field_ranges(points[i].0, points[0].0);
    lemma_field_ranges(points[0].0, points[0].0);
    if n == 1 {
        assert(lagrange_numerator(points, i, 0) == 1);
        assert(lagrange_denominator(points, i, 0) == 1);
        assert(lagrange_numerator(rest, i - 1, 0) == 1);
        assert(lagrange_denominator(rest, i - 1, 0) == 1);
        assert(lagrange_numerator(points, i, 1) == field_mul(1, first_n));
        assert(lagrange_denominator(points, i, 1) == field_mul(1, first_d));
        lemma_field_neutral(first_n);
        lemma_field_neutral(first_d);
    } else {
        let m = (n - 1) as nat;
        let m2 = (n - 2) as nat;
        lemma_products_drop_first(points, i, m);
        assert(rest[n - 2] == points[n - 1]);
        assert(rest[i - 1] == points[i]);
        if n - 1 != i {
            let last_n = field_neg(points[n - 1].0);
            let last_d = field_sub(points[i].0, points[n - 1].0);
            assert(lagrange_numerator(points, i, n) == field_mul(
                lagrange_numerator(points, i, m),
                last_n,
            ));
            assert(lagrange_denominator(points, i, n) == field_mul(
                lagrange_denominator(points, i, m),
                last_d,
            ));
            assert(lagrange_numerator(rest, i - 1, m) == field_mul(
                lagrange_numerator(rest, i - 1, m2),
                last_n,
            ));
            assert(lagrange_denominator(rest, i - 1, m) == field_mul(
                lagrange_denominator(rest, i - 1, m2),
                last_d,
            ));
            lemma_field_mul_associative(first_n, lagrange_numerator(rest, i - 1, m2), last_n);
            lemma_field_mul_associative(first_d, lagrange_denominator(rest, i - 1, m2), last_d);
        } else {
            assert(lagrange_numerator(points, i, n) == lagrange_numerator(points, i, m));
            assert(lagrange_denominator(points, i, n) == lagrange_denominator(points, i, m));
            assert(lagrange_numerator(rest, i - 1, m) == lagrange_numerator(rest, i - 1, m2));
            assert(lagrange_denominator(rest, i - 1, m) == lagrange_denominator(rest, i - 1, m2));
        }
    }
}

/// A product has an inverse only if its factors have.
pub proof fn lemma_factors_invertible(a: nat, b: nat)
    requires
        invertible(field_mul(a, b)),
    ensures
        invertible(a),
        invertible(b),
{
    let p = field_mul(a, b);
    let ip = field_inv(p);
    lemma_field_inverse(p);
    // a (b ip) = (a b) ip = 1 and b (a ip) = 1
    lemma_field_mul_associative(a, b, ip);
    lemma_field_commutative(a, b);
    lemma_field_mul_associative(b, a, ip);
    lemma_field_ranges(b, ip);
    lemma_field_ranges(a, ip);
    lemma_inverse_is(a, field_mul(b, ip));
    lemma_inverse_is(b, field_mul(a, ip));
}

/// Where the differences have inverses, so have the denominators.
pub proof fn lemma_denominator_invertible(points: Seq<(nat, nat)>, t: nat, i: int, n: nat)
    requires
        differences_invertible(points, t),
        0 <= i < t,
        n <= t,
    ensures
        invertible(lagrange_denominator(points, i, n)),
    decreases n,
{
    if n == 0 {
        lemma_field_inverse_of_one();
    } else {
        lemma_denominator_invertible(points, t, i, (n - 1) as nat);
        if n - 1 != i {
            assert(invertible(difference(points, i, n - 1)));
            lemma_field_inverse_of_product(
                lagrange_denominator(points, i, (n - 1) as nat),
                field_sub(points[i].0, points[n - 1].0),
            );
        }
    }
}

/// Where a denominator has an inverse, so has each difference in it.
proof fn lemma_difference_invertible(points: Seq<(nat, nat)>, i: int, n: nat, j: int)
    requires
        invertible(lagrange_denominator(points, i, n)),
        0 <= j < n,
        j != i,
    ensures
        invertible(difference(points, i, j)),
    decreases n,
{
    if n - 1 == i {
        lemma_difference_invertible(points, i, (n - 1) as nat, j);
    } else {
        lemma_factors_invertible(
            lagrange_denominator(points, i, (n - 1) as nat),
            field_sub(points[i].0, points[n - 1].0),
        );
        if j < n - 1 {
            lemma_difference_invertible(points, i, (n - 1) as nat, j);
        }
    }
}

/// The denominators have inverses exactly where the differences have.
pub proof fn lemma_denominators_and_differences(points: Seq<(nat, nat)>, t: nat)
    ensures
        denominators_invertible(points, t) == differences_invertible(points, t),
{
    if denominators_invertible(points, t) {
        assert forall|i: int, j: int| 0 <= i < t && 0 <= j < t && i != j implies invertible(
            #[trigger] difference(points, i, j),
        ) by {
            assert(invertible(lagrange_denominator(points, i, t)));
            lemma_difference_invertible(points, i, t, j);
        }
    }
    if differences_invertible(points, t) {
        assert forall|i: int| 0 <= i < t implies invertible(
            #[trigger] lagrange_denominator(points, i, t),
        ) by {
            lemma_denominator_invertible(points, t, i, t);
        }
    }
}

/// The basis polynomial of a point among `t` points, times the difference
/// to the last point, is its basis polynomial among the points but the last,
/// times the negative of the last point.
proof fn lemma_basis_without_last(points: Seq<(nat, nat)>, t: nat, i: int)
    requires
        2 <= t <= points.len(),
        0 <= i < t - 1,
        differences_invertible(points, t),
    ensures
        field_mul(difference(points, i, t - 1), lagrange_basis(points, i, t)) == field_mul(
            field_neg(points[t - 1].0),
            lagrange_basis(points, i, (t - 1) as nat),
        ),
{
    let d = difference(points, i, t - 1);
    let na = field_neg(points[t - 1].0);
    let num = lagrange_numerator(points, i, (t - 1) as nat);
    let den = lagrange_denominator(points, i, (t - 1) as nat);
    assert(invertible(d));
    lemma_denominator_invertible(points, t, i, (t - 1) as nat);
    lemma_field_inverse_of_product(den, d);
    lemma_rearrange(d, num, na, field_inv(den), field_inv(d));
    lemma_field_inverse(d);
    lemma_field_inverse(den);
    lemma_field_ranges(na, field_mul(num, field_inv(den)));
    lemma_field_neutral(field_mul(na, field_mul(num, field_inv(den))));
}

/// `d ((n a) (e f)) = (d f) (a (n e))`.
proof fn lemma_rearrange(d: nat, n: nat, a: nat, e: nat, f: nat)
    ensures
        field_mul(d, field_mul(field_mul(n, a), field_mul(e, f))) == field_mul(
            field_mul(d, f),
            field_mul(a, field_mul(n, e)),
        ),
{
    let (di, ni, ai, ei, fi) = (d as int, n as int, a as int, e as int, f as int);
    let q = field_modulus() as int;
    lemma_congruent_residue(ni * ai);
    lemma_congruent_residue(ei * fi);
    lemma_congruent_mul((ni * ai) % q, ni * ai, (ei * fi) % q, ei * fi);
    lemma_congruent_residue(((ni * ai) % q) * ((ei * fi) % q));
    lemma_congruent_mul(di, di, (((ni * ai) % q) * ((ei * fi) % q)) % q, (ni * ai) * (ei * fi));
    lemma_congruent_residue(di * fi);
    lemma_congruent_residue(ni * ei);
    lemma_congruent_mul(ai, ai, (ni * ei) % q, ni * ei);
    lemma_congruent_residue(ai * ((ni * ei) % q));
    lemma_congruent_mul((di * fi) % q, di * fi, (ai * ((ni * ei) % q)) % q, ai * (ni * ei));
    assert(di * ((ni * ai) * (ei * fi)) == (di * fi) * (ai * (ni * ei))) by (nonlinear_arith);
}

/// The basis polynomial of a point among `t` points, times the difference
/// to the first point, is its basis polynomial among the points but the
/// first, times the negative of the first point.
proof fn lemma_basis_without_first(points: Seq<(nat, nat)>, t: nat, i: int)
    requires
        2 <= t <= points.len(),
        1 <= i < t,
        differences_invertible(points, t),
    ensures
        field_mul(difference(points, i, 0), lagrange_basis(points, i, t)) == field_mul(
            field_neg(points[0].0),
            lagrange_basis(points.drop_first(), i - 1, (t - 1) as nat),
        ),
{
    let rest = points.drop_first();
    let d = difference(points, i, 0);
    let nb = field_neg(points[0].0);
    let num = lagrange_numerator(rest, i - 1, (t - 1) as nat);
    let den = lagrange_denominator(rest, i - 1, (t - 1) as nat);
    lemma_products_drop_first(points, i, t);
    assert(invertible(d));
    lemma_denominator_invertible(points, t, i, t);
    lemma_factors_invertible(d, den);
    lemma_field_inverse_of_product(d, den);
    // d ((nb num) (id iden)) with the roles of the factors exchanged
    lemma_field_commutative(nb, num);
    lemma_field_commutative(field_inv(d), field_inv(den));
    lemma_rearrange(d, num, nb, field_inv(den), field_inv(d));
    lemma_field_inverse(d);
    lemma_field_ranges(nb, field_mul(num, field_inv(den)));
    lemma_field_neutral(field_mul(nb, field_mul(num, field_inv(den))));
}

/// A sum of field values is congruent to the sum of what they are
/// congruent to.
proof fn lemma_sum_congruent(a: nat, ai: int, b: nat, bi: int)
    requires
        congruent(a as int, ai),
        congruent(b as int, bi),
    ensures
        congruent(field_add(a, b) as int, ai + bi),
{
    lemma_congruent_residue((a + b) as int);
    lemma_congruent_add(a as int, ai, b as int, bi);
}

/// A difference of field values is congruent to the difference of what
/// they are congruent to.
proof fn lemma_difference_congruent(a: nat, ai: int, b: nat, bi: int)
    requires
        congruent(a as int, ai),
        congruent(b as int, bi),
    ensures
        congruent(field_sub(a, b) as int, ai - bi),
{
    lemma_congruent_residue(a - b);
    lemma_congruent_sub(a as int, ai, b as int, bi);
}

/// A product of field values is congruent to the product of what they are
/// congruent to.
proof fn lemma_product_congruent(a: nat, ai: int, b: nat, bi: int)
    requires
        congruent(a as int, ai),
        congruent(b as int, bi),
    ensures
        congruent(field_mul(a, b) as int, ai * bi),
{
    lemma_congruent_residue((a * b) as int);
    lemma_congruent_mul(a as int, ai, b as int, bi);
}

/// A weighted sum is a field value.
proof fn lemma_weighted_sum_range(points: Seq<(nat, nat)>, weights: Seq<nat>, t: nat, n: nat)
    ensures
        weighted_sum(points, weights, t, n) < field_modulus(),
{
    if n > 0 {
        lemma_field_ranges(
            weighted_sum(points, weights, t, (n - 1) as nat),
            field_mul(weights[n - 1], lagrange_basis(points, n - 1, t)),
        );
    }
}

/// `(s - c r) + (u - c v) b = (s + u b) - c (r + v b)`.
proof fn lemma_combine(s: nat, r: nat, u: nat, v: nat, c: nat, b: nat)
    ensures
        field_add(
            field_sub(s, field_mul(c, r)),
            field_mul(field_sub(u, field_mul(c, v)), b),
        ) == field_sub(
            field_add(s, field_mul(u, b)),
            field_mul(c, field_add(r, field_mul(v, b))),
        ),
{
    let (si, ri, ui, vi, ci, bi) = (s as int, r as int, u as int, v as int, c as int, b as int);
    lemma_product_congruent(c, ci, r, ri);
    lemma_difference_congruent(s, si, field_mul(c, r), ci * ri);
    lemma_product_congruent(c, ci, v, vi);
    lemma_difference_congruent(u, ui, field_mul(c, v), ci * vi);
    lemma_product_congruent(field_sub(u, field_mul(c, v)), ui - ci * vi, b, bi);
    lemma_sum_congruent(
        field_sub(s, field_mul(c, r)),
        si - ci * ri,
        field_mul(field_sub(u, field_mul(c, v)), b),
        (ui - ci * vi) * bi,
    );
    lemma_product_congruent(u, ui, b, bi);
    lemma_sum_congruent(s, si, field_mul(u, b), ui * bi);
    lemma_product_congruent(v, vi, b, bi);
    lemma_sum_congruent(r, ri, field_mul(v, b), vi * bi);
    lemma_product_congruent(c, ci, field_add(r, field_mul(v, b)), ri + vi * bi);
    lemma_difference_congruent(
        field_add(s, field_mul(u, b)),
        si + ui * bi,
        field_mul(c, field_add(r, field_mul(v, b))),
        ci * (ri + vi * bi),
    );
    assert((si - ci * ri) + (ui - ci * vi) * bi == (si + ui * bi) - ci * (ri + vi * bi))
        by (nonlinear_arith);
    lemma_field_ranges(field_sub(s, field_mul(c, r)), field_mul(field_sub(u, field_mul(c, v)), b));
    lemma_field_ranges(
        field_add(s, field_mul(u, b)),
        field_mul(c, field_add(r, field_mul(v, b))),
    );
    lemma_congruent_residues_equal(
        field_add(
            field_sub(s, field_mul(c, r)),
            field_mul(field_sub(u, field_mul(c, v)), b),
        ) as int,
        field_sub(
            field_add(s, field_mul(u, b)),
            field_mul(c, field_add(r, field_mul(v, b))),
        ) as int,
    );
}

/// The weighted sum of `u - c v` is that of `u` less `c` times that of
/// `v`.
proof fn lemma_weighted_sum_combined(
    points: Seq<(nat, nat)>,
    u: Seq<nat>,
    v: Seq<nat>,
    w: Seq<nat>,
    c: nat,
    t: nat,
    n: nat,
)
    requires
        n <= w.len(),
        forall|i: int| 0 <= i < n ==> #[trigger] w[i] == field_sub(u[i], field_mul(c, v[i])),
    ensures
        weighted_sum(points, w, t, n) == field_sub(
            weighted_sum(points, u, t, n),
            field_mul(c, weighted_sum(points, v, t, n)),
        ),
    decreases n,
{
    if n == 0 {
        assert(c * 0 == 0);
        lemma_small_mod(0, field_modulus());
    } else {
        let m = (n - 1) as nat;
        lemma_weighted_sum_combined(points, u, v, w, c, t, m);
        assert(w[n - 1] == field_sub(u[n - 1], field_mul(c, v[n - 1])));
        lemma_combine(
            weighted_sum(points, u, t, m),
            weighted_sum(points, v, t, m),
            u[n - 1],
            v[n - 1],
            c,
            lagrange_basis(points, n - 1, t),
        );
    }
}

/// The weighted sum of `u + c v` is that of `u` plus `c` times that of
/// `v`.
proof fn lemma_weighted_sum_added(
    points: Seq<(nat, nat)>,
    u: Seq<nat>,
    v: Seq<nat>,
    w: Seq<nat>,
    c: nat,
    t: nat,
    n: nat,
)
    requires
        n <= w.len(),
        forall|i: int| 0 <= i < n ==> #[trigger] w[i] == field_add(u[i], field_mul(c, v[i])),
    ensures
        weighted_sum(points, w, t, n) == field_add(
            weighted_sum(points, u, t, n),
            field_mul(c, weighted_sum(points, v, t, n)),
        ),
    decreases n,
{
    if n == 0 {
        assert(c * 0 == 0);
        lemma_small_mod(0, field_modulus());
    } else {
        let m = (n - 1) as nat;
        lemma_weighted_sum_added(points, u, v, w, c, t, m);
        assert(w[n - 1] == field_add(u[n - 1], field_mul(c, v[n - 1])));
        let (s, r, x, y, b) = (
            weighted_sum(points, u, t, m),
            weighted_sum(points, v, t, m),
            u[n - 1],
            v[n - 1],
            lagrange_basis(points, n - 1, t),
        );
        let (si, ri, xi, yi, ci, bi) = (
            s as int,
            r as int,
            x as int,
            y as int,
            c as int,
            b as int,
        );
        lemma_product_congruent(c, ci, r, ri);
        lemma_sum_congruent(s, si, field_mul(c, r), ci * ri);
        lemma_product_congruent(c, ci, y, yi);
        lemma_sum_congruent(x, xi, field_mul(c, y), ci * yi);
        lemma_product_congruent(field_add(x, field_mul(c, y)), xi + ci * yi, b, bi);
        lemma_sum_congruent(
            field_add(s, field_mul(c, r)),
            si + ci * ri,
            field_mul(field_add(x, field_mul(c, y)), b),
            (xi + ci * yi) * bi,
        );
        lemma_product_congruent(x, xi, b, bi);
        lemma_sum_congruent(s, si, field_mul(x, b), xi * bi);
        lemma_product_congruent(y, yi, b, bi);
        lemma_sum_congruent(r, ri, field_mul(y, b), yi * bi);
        lemma_product_congruent(c, ci, field_add(r, field_mul(y, b)), ri + yi * bi);
        lemma_sum_congruent(
            field_add(s, field_mul(x, b)),
            si + xi * bi,
            field_mul(c, field_add(r, field_mul(y, b))),
            ci * (ri + yi * bi),
        );
        assert((si + ci * ri) + (xi + ci * yi) * bi == (si + xi * bi) + ci * (ri + yi * bi))
            by (nonlinear_arith);
        lemma_weighted_sum_range(points, w, t, n);
        lemma_field_ranges(
            weighted_sum(points, u, t, n),
            field_mul(c, weighted_sum(points, v, t, n)),
        );
        lemma_congruent_residues_equal(
            weighted_sum(points, w, t, n) as int,
            field_add(
                weighted_sum(points, u, t, n),
                field_mul(c, weighted_sum(points, v, t, n)),
            ) as int,
        );
    }
}

/// `a (u b) = u (a b)` and `a s + a x = a (s + x)`.
proof fn lemma_factor_out(a: nat, s: nat, u: nat, b: nat)
    ensures
        field_mul(u, field_mul(a, b)) == field_mul(a, field_mul(u, b)),
        field_add(field_mul(a, s), field_mul(a, field_mul(u, b))) == field_mul(
            a,
            field_add(s, field_mul(u, b)),
        ),
{
    lemma_field_mul_associative(u, a, b);
    lemma_field_commutative(u, a);
    lemma_field_mul_associative(a, u, b);
    lemma_field_distributive(a, s, field_mul(u, b));
}

/// The sum of the weights `u` over the first points among `t`, each times
/// the difference of its point to the last, is the sum of `u` over the same
/// points among the points but the last, times the negative of the last.
proof fn lemma_sum_without_last(
    points: Seq<(nat, nat)>,
    u: Seq<nat>,
    w: Seq<nat>,
    t: nat,
    n: nat,
)
    requires
        2 <= t <= points.len(),
        n <= t - 1,
        n <= w.len(),
        differences_invertible(points, t),
        forall|i: int|
            0 <= i < n ==> #[trigger] w[i] == field_mul(difference(points, i, t - 1), u[i]),
    ensures
        weighted_sum(points, w, t, n) == field_mul(
            field_neg(points[t - 1].0),
            weighted_sum(points, u, (t - 1) as nat, n),
        ),
    decreases n,
{
    let na = field_neg(points[t - 1].0);
    if n == 0 {
        assert(na * 0 == 0);
        lemma_small_mod(0, field_modulus());
    } else {
        let m = (n - 1) as nat;
        let i = n - 1;
        lemma_sum_without_last(points, u, w, t, m);
        lemma_basis_without_last(points, t, i);
        let d = difference(points, i, t - 1);
        let b = lagrange_basis(points, i, t);
        let b1 = lagrange_basis(points, i, (t - 1) as nat);
        assert(w[i] == field_mul(d, u[i]));
        // (d u) b = u (d b) = u (na b1) = na (u b1)
        lemma_field_commutative(d, u[i]);
        lemma_field_mul_associative(u[i], d, b);
        lemma_factor_out(na, weighted_sum(points, u, (t - 1) as nat, m), u[i], b1);
    }
}

/// The sum of the weights `u` over the first points among `t`, each times
/// the difference of its point to the first, is the sum of `u` over the same
/// points among the points but the first, times the negative of the first.
proof fn lemma_sum_without_first(
    points: Seq<(nat, nat)>,
    u: Seq<nat>,
    w: Seq<nat>,
    t: nat,
    n: nat,
)
    requires
        2 <= t <= points.len(),
        1 <= n <= t,
        n <= w.len(),
        n <= u.len(),
        differences_invertible(points, t),
        w[0] == 0,
        forall|i: int| 1 <= i < n ==> #[trigger] w[i] == field_mul(difference(points, i, 0), u[i]),
    ensures
        weighted_sum(points, w, t, n) == field_mul(
            field_neg(points[0].0),
            weighted_sum(points.drop_first(), u.drop_first(), (t - 1) as nat, (n - 1) as nat),
        ),
    decreases n,
{
    let nb = field_neg(points[0].0);
    let rest = points.drop_first();
    let rest_u = u.drop_first();
    if n == 1 {
        assert(nb * 0 == 0);
        lemma_small_mod(0, field_modulus());
        assert(weighted_sum(points, w, t, 0) == 0);
        assert(0 * lagrange_basis(points, 0, t) == 0);
        assert(weighted_sum(rest, rest_u, (t - 1) as nat, 0) == 0);
    } else {
        let m = (n - 1) as nat;
        let i = n - 1;
        lemma_sum_without_first(points, u, w, t, m);
        lemma_basis_without_first(points, t, i);
        let d = difference(points, i, 0);
        let b = lagrange_basis(points, i, t);
        let b1 = lagrange_basis(rest, i - 1, (t - 1) as nat);
        assert(w[i] == field_mul(d, u[i]));
        assert(rest_u[i - 1] == u[i]);
        lemma_field_commutative(d, u[i]);
        lemma_field_mul_associative(u[i], d, b);
        lemma_factor_out(
            nb,
            weighted_sum(rest, rest_u, (t - 1) as nat, (m - 1) as nat),
            u[i],
            b1,
        );
    }
}

/// `(x - a) p = p x - a p`.
proof fn lemma_difference_times(x: nat, a: nat, p: nat)
    ensures
        field_mul(field_sub(x, a), p) == field_sub(field_mul(p, x), field_mul(a, p)),
{
    lemma_field_commutative(field_sub(x, a), p);
    lemma_field_sub(x, a, p);
    lemma_field_commutative(p, a);
}

/// The power sums of `t` points and of the points but the last: the sum of
/// the next power, less the last point times the sum of the power, is the
/// negative of the last point times the sum of the power over the points but
/// the last.
proof fn lemma_power_sums_without_last(points: Seq<(nat, nat)>, t: nat, k: nat)
    requires
        2 <= t <= points.len(),
        differences_invertible(points, t),
    ensures
        field_sub(
            power_sum(points, t, k + 1),
            field_mul(points[t - 1].0, power_sum(points, t, k)),
        ) == field_mul(field_neg(points[t - 1].0), power_sum(points, (t - 1) as nat, k)),
{
    let a = points[t - 1].0;
    let u = powers(points, k);
    let next = powers(points, k + 1);
    let w = Seq::new(points.len(), |i: int| field_mul(difference(points, i, t - 1), u[i]));
    assert forall|i: int| 0 <= i < t implies #[trigger] w[i] == field_sub(
        next[i],
        field_mul(a, u[i]),
    ) by {
        lemma_difference_times(points[i].0, a, u[i]);
    }
    lemma_weighted_sum_combined(points, next, u, w, a, t, t);
    lemma_sum_without_last(points, u, w, t, (t - 1) as nat);
    // the last weight is zero
    lemma_field_neutral(a % field_modulus());
    assert(difference(points, t - 1, t - 1) == 0) by {
        lemma_small_mod(0, field_modulus());
    }
    assert(w[t - 1] == 0) by {
        assert(0 * u[t - 1] == 0);
        lemma_small_mod(0, field_modulus());
    }
    assert(field_mul(w[t - 1], lagrange_basis(points, t - 1, t)) == 0) by {
        assert(0 * lagrange_basis(points, t - 1, t) == 0);
        lemma_small_mod(0, field_modulus());
    }
    lemma_weighted_sum_range(points, w, t, (t - 1) as nat);
    lemma_field_neutral(weighted_sum(points, w, t, (t - 1) as nat));
}

/// The power sums of `t` points and of the points but the first: the sum of
/// the next power, less the first point times the sum of the power, is the
/// negative of the first point times the sum of the power over the points
/// but the first.
proof fn lemma_power_sums_without_first(points: Seq<(nat, nat)>, t: nat, k: nat)
    requires
        2 <= t <= points.len(),
        differences_invertible(points, t),
    ensures
        field_sub(power_sum(points, t, k + 1), field_mul(points[0].0, power_sum(points, t, k)))
            == field_mul(
            field_neg(points[0].0),
            power_sum(points.drop_first(), (t - 1) as nat, k),
        ),
{
    let b = points[0].0;
    let u = powers(points, k);
    let next = powers(points, k + 1);
    let w = Seq::new(points.len(), |i: int| field_mul(difference(points, i, 0), u[i]));
    assert forall|i: int| 0 <= i < t implies #[trigger] w[i] == field_sub(
        next[i],
        field_mul(b, u[i]),
    ) by {
        lemma_difference_times(points[i].0, b, u[i]);
    }
    lemma_weighted_sum_combined(points, next, u, w, b, t, t);
    assert(difference(points, 0, 0) == 0) by {
        lemma_small_mod(0, field_modulus());
    }
    assert(w[0] == 0) by {
        assert(0 * u[0] == 0);
        lemma_small_mod(0, field_modulus());
    }
    lemma_sum_without_first(points, u, w, t, t);
    assert(u.drop_first() =~= powers(points.drop_first(), k));
}

/// The differences of the points but the first have inverses where those
/// of all the points have.
proof fn lemma_differences_without_first(points: Seq<(nat, nat)>, t: nat)
    requires
        1 <= t <= points.len(),
        differences_invertible(points, t),
    ensures
        differences_invertible(points.drop_first(), (t - 1) as nat),
{
    let rest = points.drop_first();
    assert forall|i: int, j: int| 0 <= i < t - 1 && 0 <= j < t - 1 && i != j implies invertible(
        #[trigger] difference(rest, i, j),
    ) by {
        assert(difference(rest, i, j) == difference(points, i + 1, j + 1));
    }
}

/// The differences of the first points have inverses where those of more
/// points have.
proof fn lemma_differences_of_fewer(points: Seq<(nat, nat)>, t: nat, n: nat)
    requires
        n <= t,
        differences_invertible(points, t),
    ensures
        differences_invertible(points, n),
{
    assert forall|i: int, j: int| 0 <= i < n && 0 <= j < n && i != j implies invertible(
        #[trigger] difference(points, i, j),
    ) by {
    }
}

/// The basis polynomials at zero, weighted with the `k`-th powers of their
/// points, sum to one for `k = 0` and to zero for every other `k` below the
/// number of the points.
pub proof fn lemma_power_sum(points: Seq<(nat, nat)>, t: nat, k: nat)
    requires
        1 <= t <= points.len(),
        k < t,
        differences_invertible(points, t),
    ensures
        power_sum(points, t, k) == (if k == 0 {
            1nat
        } else {
            0nat
        }),
    decreases t, k,
{
    let q = field_modulus() as int;
    lemma_small_mod(0, field_modulus());
    lemma_small_mod(1, field_modulus());
    if t == 1 {
        // one point: its basis polynomial is one
        lemma_field_inverse_of_one();
        assert(lagrange_numerator(points, 0, 0) == 1);
        assert(lagrange_denominator(points, 0, 0) == 1);
        assert(lagrange_numerator(points, 0, 1) == 1);
        assert(lagrange_denominator(points, 0, 1) == 1);
        assert(1 * 1 == 1);
        assert(lagrange_basis(points, 0, 1) == 1);
        assert(powers(points, 0)[0] == 1);
        assert(weighted_sum(points, powers(points, 0), 1, 0) == 0);
        assert(power_sum(points, 1, 0) == field_add(0, field_mul(1, 1)));
    } else {
        let less = (t - 1) as nat;
        let a = points[t - 1].0;
        let b = points[0].0;
        lemma_differences_of_fewer(points, t, less);
        lemma_differences_without_first(points, t);
        lemma_weighted_sum_range(points, powers(points, k), t, t);
        if k == 0 {
            let t0 = power_sum(points, t, 0);
            let t1 = power_sum(points, t, 1);
            lemma_power_sum(points, less, 0);
            lemma_power_sum(points.drop_first(), less, 0);
            lemma_power_sums_without_last(points, t, 0);
            lemma_power_sums_without_first(points, t, 0);
            // t1 - a t0 = -a and t1 - b t0 = -b, so (b - a) t0 = b - a
            let (ai, bi, t0i, t1i) = (a as int, b as int, t0 as int, t1 as int);
            lemma_product_congruent(a, ai, t0, t0i);
            lemma_difference_congruent(t1, t1i, field_mul(a, t0), ai * t0i);
            lemma_difference_congruent(0, 0, a, ai);
            lemma_product_congruent(field_neg(a), 0 - ai, 1, 1);
            assert(congruent(t1i - ai * t0i, (0 - ai) * 1));
            lemma_product_congruent(b, bi, t0, t0i);
            lemma_difference_congruent(t1, t1i, field_mul(b, t0), bi * t0i);
            lemma_difference_congruent(0, 0, b, bi);
            lemma_product_congruent(field_neg(b), 0 - bi, 1, 1);
            assert(congruent(t1i - bi * t0i, (0 - bi) * 1));
            lemma_congruent_sub(t1i - ai * t0i, (0 - ai) * 1, t1i - bi * t0i, (0 - bi) * 1);
            assert((t1i - ai * t0i) - (t1i - bi * t0i) == (bi - ai) * t0i) by (nonlinear_arith);
            assert((0 - ai) * 1 - (0 - bi) * 1 == bi - ai) by (nonlinear_arith);
            assert(congruent((bi - ai) * t0i, bi - ai));
            // the difference b - a has an inverse
            let d = difference(points, 0, t - 1);
            let id = field_inv(d);
            assert(invertible(d));
            lemma_field_inverse(d);
            lemma_difference_congruent(b, bi, a, ai);
            lemma_product_congruent(id, id as int, d, bi - ai);
            assert(congruent(id * (bi - ai), 1));
            // t0 = (id d) t0 = id ((b - a) t0) = id (b - a) = 1
            lemma_congruent_mul(id as int, id as int, (bi - ai) * t0i, bi - ai);
            assert(id * ((bi - ai) * t0i) == (id * (bi - ai)) * t0i) by (nonlinear_arith);
            lemma_congruent_mul(id * (bi - ai), 1, t0i, t0i);
            assert(1 * t0i == t0i);
            assert(congruent(t0i, 1));
            lemma_congruent_residues_equal(t0i, 1);
        } else {
            let before = (k - 1) as nat;
            let tk = power_sum(points, t, k);
            let tb = power_sum(points, t, before);
            lemma_power_sum(points, t, before);
            lemma_power_sum(points, less, before);
            lemma_power_sums_without_last(points, t, before);
            let s = power_sum(points, less, before);
            assert(tb == s);
            // tk - a tb = -a tb, so tk = 0
            let (ai, tki, tbi) = (a as int, tk as int, tb as int);
            lemma_product_congruent(a, ai, tb, tbi);
            lemma_difference_congruent(tk, tki, field_mul(a, tb), ai * tbi);
            lemma_difference_congruent(0, 0, a, ai);
            lemma_product_congruent(field_neg(a), 0 - ai, s, tbi);
            assert(congruent(tki - ai * tbi, (0 - ai) * tbi));
            lemma_congruent_add(tki - ai * tbi, (0 - ai) * tbi, ai * tbi, ai * tbi);
            assert((0 - ai) * tbi + ai * tbi == 0) by (nonlinear_arith);
            assert(congruent(tki, 0));
            lemma_congruent_residues_equal(tki, 0);
        }
    }
}

/// The weights of the polynomial with the coefficients `coeffs`, times the
/// `k`-th power: for each point `x`, `x^k` times the value at `x`.
pub open spec fn polynomial_weights(points: Seq<(nat, nat)>, coeffs: Seq<nat>, k: nat) -> Seq<nat> {
    Seq::new(
        points.len(),
        |i: int| field_mul(field_pow(points[i].0, k), poly_eval(coeffs, points[i].0)),
    )
}

/// `p (v x + c) = c p + (p x) v`.
proof fn lemma_weight_step(p: nat, v: nat, x: nat, c: nat)
    ensures
        field_mul(p, field_add(field_mul(v, x), c)) == field_add(
            field_mul(c, p),
            field_mul(field_mul(p, x), v),
        ),
{
    let (pi, vi, xi, ci) = (p as int, v as int, x as int, c as int);
    lemma_product_congruent(v, vi, x, xi);
    lemma_sum_congruent(field_mul(v, x), vi * xi, c, ci);
    lemma_product_congruent(p, pi, field_add(field_mul(v, x), c), vi * xi + ci);
    lemma_product_congruent(c, ci, p, pi);
    lemma_product_congruent(p, pi, x, xi);
    lemma_product_congruent(field_mul(p, x), pi * xi, v, vi);
    lemma_sum_congruent(field_mul(c, p), ci * pi, field_mul(field_mul(p, x), v), (pi * xi) * vi);
    assert(pi * (vi * xi + ci) == ci * pi + (pi * xi) * vi) by (nonlinear_arith);
    lemma_field_ranges(p, field_add(field_mul(v, x), c));
    lemma_field_ranges(field_mul(c, p), field_mul(field_mul(p, x), v));
    lemma_congruent_residues_equal(
        field_mul(p, field_add(field_mul(v, x), c)) as int,
        field_add(field_mul(c, p), field_mul(field_mul(p, x), v)) as int,
    );
}

/// The basis polynomials at zero, weighted with the values of a polynomial
/// times the `k`-th power of their points, sum to the constant term for
/// `k = 0` and to zero for every other `k`, as long as the degree of the
/// product stays below the number of the points.
proof fn lemma_polynomial_sum(points: Seq<(nat, nat)>, coeffs: Seq<nat>, t: nat, k: nat)
    requires
        1 <= t <= points.len(),
        k + coeffs.len() <= t,
        differences_invertible(points, t),
    ensures
        weighted_sum(points, polynomial_weights(points, coeffs, k), t, t) == (if k == 0
            && coeffs.len() > 0 {
            coeffs[0] % field_modulus()
        } else {
            0nat
        }),
    decreases coeffs.len(),
{
    let w = polynomial_weights(points, coeffs, k);
    lemma_small_mod(0, field_modulus());
    if coeffs.len() == 0 {
        let zero = Seq::new(points.len(), |i: int| 0nat);
        assert forall|i: int| 0 <= i < t implies #[trigger] w[i] == field_add(
            zero[i],
            field_mul(0, zero[i]),
        ) by {
            assert(field_pow(points[i].0, k) * 0 == 0);
            assert(0 * 0 == 0);
        }
        // the sum of zero weights, plus zero times itself
        lemma_weighted_sum_added(points, zero, zero, w, 0, t, t);
        lemma_zero_sum(points, zero, t, t);
        assert(0 * 0 == 0);
    } else {
        let rest = coeffs.skip(1);
        let c0 = coeffs[0];
        let pw = powers(points, k);
        let u = polynomial_weights(points, rest, k + 1);
        // the weight is c0 x^k + x^(k + 1) times the value of the rest
        let v = Seq::new(points.len(), |i: int| field_add(u[i], field_mul(c0, pw[i])));
        assert forall|i: int| 0 <= i < t implies #[trigger] w[i] == field_add(
            u[i],
            field_mul(c0, pw[i]),
        ) by {
            let x = points[i].0;
            lemma_weight_step(field_pow(x, k), poly_eval(rest, x), x, c0);
            lemma_field_commutative(
                field_mul(c0, field_pow(x, k)),
                field_mul(field_mul(field_pow(x, k), x), poly_eval(rest, x)),
            );
        }
        lemma_weighted_sum_added(points, u, pw, w, c0, t, t);
        lemma_polynomial_sum(points, rest, t, k + 1);
        lemma_power_sum(points, t, k);
        lemma_field_ranges(c0, power_sum(points, t, k));
        lemma_field_neutral(field_mul(c0, power_sum(points, t, k)));
        if k == 0 {
            assert(c0 * 1 == c0);
        } else {
            assert(c0 * 0 == 0);
        }
    }
}

/// A sum of zero weights is zero.
proof fn lemma_zero_sum(points: Seq<(nat, nat)>, zero: Seq<nat>, t: nat, n: nat)
    requires
        n <= zero.len(),
        forall|i: int| 0 <= i < n ==> #[trigger] zero[i] == 0,
    ensures
        weighted_sum(points, zero, t, n) == 0,
    decreases n,
{
    if n > 0 {
        lemma_zero_sum(points, zero, t, (n - 1) as nat);
        assert(zero[n - 1] == 0);
        assert(0 * lagrange_basis(points, n - 1, t) == 0);
        lemma_small_mod(0, field_modulus());
    }
}

/// The sum of the terms of an interpolation is the sum of the basis
/// polynomials weighted with the `y` of the points.
proof fn lemma_lagrange_sum_weighted(points: Seq<(nat, nat)>, weights: Seq<nat>, t: nat, n: nat)
    requires
        n <= points.len(),
        n <= weights.len(),
        forall|i: int| 0 <= i < n ==> #[trigger] weights[i] == points[i].1,
    ensures
        lagrange_sum(points, t, n) == weighted_sum(points, weights, t, n),
    decreases n,
{
    if n > 0 {
        lemma_lagrange_sum_weighted(points, weights, t, (n - 1) as nat);
        assert(weights[n - 1] == points[n - 1].1);
    }
}

/// Interpolation recovers the secret: where the first `t` points lie on a
/// polynomial with `t` coefficients, and the denominators of the
/// interpolation through them have inverses, the interpolation at zero is
/// the constant term.
pub proof fn lemma_interpolation_recovers(points: Seq<(nat, nat)>, coeffs: Seq<nat>, t: nat)
    requires
        1 <= t <= points.len(),
        coeffs.len() == t,
        forall|i: int| 0 <= i < t ==> (#[trigger] points[i]).1 == poly_eval(coeffs, points[i].0),
        denominators_invertible(points, t),
    ensures
        interpolate_at_zero(points, t) == coeffs[0] % field_modulus(),
{
    lemma_denominators_and_differences(points, t);
    let w = polynomial_weights(points, coeffs, 0);
    assert forall|i: int| 0 <= i < t implies #[trigger] w[i] == points[i].1 by {
        lemma_field_ranges(field_mul(poly_eval(coeffs.skip(1), points[i].0), points[i].0), coeffs[0]);
        lemma_field_neutral(poly_eval(coeffs, points[i].0));
    }
    lemma_lagrange_sum_weighted(points, w, t, t);
    lemma_polynomial_sum(points, coeffs, t, 0);
}

/// Any `t` shares recover the secret: where the first `t` points are shares
/// with different `x` out of the `num_shares` shares of the polynomial with
/// the `t` coefficients `coeffs`, and fewer shares were dealt than
/// `SMALL_BOUND`, the denominators of the interpolation through them have
/// inverses, and the interpolation at zero is the constant term.
pub proof fn lemma_shares_recover_secret(
    coeffs: Seq<nat>,
    num_shares: nat,
    points: Seq<(nat, nat)>,
    t: nat,
)
    requires
        1 <= t <= num_shares,
        num_shares < SMALL_BOUND,
        coeffs.len() == t,
        t <= points.len(),
        forall|i: int|
            0 <= i < t ==> 1 <= (#[trigger] points[i]).0 <= num_shares && points[i]
                == shares_of(coeffs, num_shares)[points[i].0 - 1],
        forall|i: int, j: int|
            0 <= i < t && 0 <= j < t && i != j ==> (#[trigger] points[i]).0 != (
            #[trigger] points[j]).0,
    ensures
        denominators_invertible(points, t),
        interpolate_at_zero(points, t) == coeffs[0] % field_modulus(),
{
    assert forall|i: int, j: int| 0 <= i < t && 0 <= j < t && i != j implies invertible(
        #[trigger] difference(points, i, j),
    ) by {
        assert(points[i].0 != points[j].0);
        lemma_small_difference_invertible(points[i].0, points[j].0);
    }
    lemma_denominators_and_differences(points, t);
    assert forall|i: int| 0 <= i < t implies (#[trigger] points[i]).1 == poly_eval(
        coeffs,
        points[i].0,
    ) by {
        assert(points[i] == shares_of(coeffs, num_shares)[points[i].0 - 1]);
    }
    lemma_interpolation_recovers(points, coeffs, t);
}

/// The sum of two coefficient vectors, entry by entry.
pub open spec fn add_coefficients(c0: Seq<nat>, c1: Seq<nat>) -> Seq<nat> {
    Seq::new(c0.len(), |k: int| field_add(c0[k], c1[k]))
}

/// `(v + w) x + (c + d) = (v x + c) + (w x + d)`.
proof fn lemma_horner_step(v: nat, w: nat, x: nat, c: nat, d: nat)
    ensures
        field_add(field_mul(field_add(v, w), x), field_add(c, d)) == field_add(
            field_add(field_mul(v, x), c),
            field_add(field_mul(w, x), d),
        ),
{
    let (vi, wi, xi, ci, di) = (v as int, w as int, x as int, c as int, d as int);
    lemma_sum_congruent(v, vi, w, wi);
    lemma_product_congruent(field_add(v, w), vi + wi, x, xi);
    lemma_sum_congruent(c, ci, d, di);
    lemma_sum_congruent(
        field_mul(field_add(v, w), x),
        (vi + wi) * xi,
        field_add(c, d),
        ci + di,
    );
    lemma_product_congruent(v, vi, x, xi);
    lemma_sum_congruent(field_mul(v, x), vi * xi, c, ci);
    lemma_product_congruent(w, wi, x, xi);
    lemma_sum_congruent(field_mul(w, x), wi * xi, d, di);
    lemma_sum_congruent(
        field_add(field_mul(v, x), c),
        vi * xi + ci,
        field_add(field_mul(w, x), d),
        wi * xi + di,
    );
    assert((vi + wi) * xi + (ci + di) == (vi * xi + ci) + (wi * xi + di)) by (nonlinear_arith);
    lemma_field_ranges(field_mul(field_add(v, w), x), field_add(c, d));
    lemma_field_ranges(field_add(field_mul(v, x), c), field_add(field_mul(w, x), d));
    lemma_congruent_residues_equal(
        field_add(field_mul(field_add(v, w), x), field_add(c, d)) as int,
        field_add(field_add(field_mul(v, x), c), field_add(field_mul(w, x), d)) as int,
    );
}

/// Sharing is linear: the polynomial of the sum of two coefficient vectors
/// has the sum of the values of the two polynomials for its value, so that
/// the sums of two clients' shares are the shares of the sum of their
/// secrets.
pub proof fn lemma_poly_eval_additive(c0: Seq<nat>, c1: Seq<nat>, x: nat)
    requires
        c0.len() == c1.len(),
    ensures
        poly_eval(add_coefficients(c0, c1), x) == field_add(poly_eval(c0, x), poly_eval(c1, x)),
    decreases c0.len(),
{
    if c0.len() == 0 {
        lemma_small_mod(0, field_modulus());
    } else {
        lemma_poly_eval_additive(c0.skip(1), c1.skip(1), x);
        assert(add_coefficients(c0, c1).skip(1) =~= add_coefficients(c0.skip(1), c1.skip(1)));
        lemma_horner_step(poly_eval(c0.skip(1), x), poly_eval(c1.skip(1), x), x, c0[0], c1[0]);
    }
}

/// The polynomial with no coefficient but zeros has the value zero.
pub proof fn lemma_poly_eval_of_zeros(coeffs: Seq<nat>, x: nat)
    requires
        forall|k: int| 0 <= k < coeffs.len() ==> #[trigger] coeffs[k] == 0,
    ensures
        poly_eval(coeffs, x) == 0,
    decreases coeffs.len(),
{
    if coeffs.len() > 0 {
        lemma_poly_eval_of_zeros(coeffs.skip(1), x);
        assert(coeffs[0] == 0);
        assert(0 * x == 0);
        lemma_small_mod(0, field_modulus());
    }
}

} // verus!
