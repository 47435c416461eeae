//! Why a run ends with the sum of the inputs: the committee's sums of shares
//! recover the sum of the clients' seeds, the expansion of that sum differs
//! from the sum of the clients' masks by a multiple of the rounding modulus
//! and by less than the number of clients, and the encoding has room for
//! both.

use crate::crypto::field::{
    field_add, field_modulus, field_sub, lemma_field_neutral, lemma_field_ranges,
};
use crate::crypto::interpolation::{
    add_coefficients, lemma_poly_eval_additive, lemma_poly_eval_of_zeros,
    lemma_shares_recover_secret,
};
use crate::crypto::seed_homomorphic_prg::{
    add_seeds, expansion, lemma_inner_product_linear, lemma_round_sum, P,
};
use crate::crypto::shamir::{denominators_invertible, interpolate_at_zero, poly_eval, shares_of};
use crate::crypto::units::SMALL_BOUND;
use crate::crypto::util::{inner_product, lemma_round_bound, partial_dot, round_to};
use crate::protocols::opa::committee::entry_sum;
use crate::protocols::opa::encoding::{
    decoded_value, encodes, encoding_unit, lemma_decode_sum, lemma_encoding_sizes,
    MAX_SECURITY_PARAMETER, NUM_PARTIES_UPPER_BOUND,
};
use vstd::arithmetic::div_mod::*;
use vstd::arithmetic::mul::*;
use vstd::arithmetic::power2::{lemma2_to64, lemma2_to64_rest, lemma_pow2_adds, lemma_pow2_pos, pow2};
use vstd::prelude::*;

verus! {

/// The sum of the first `n` values in the field.
pub open spec fn field_sum(vals: Seq<nat>, n: nat) -> nat
    decreases n,
{
    if n == 0 {
        0
    } else {
        field_add(field_sum(vals, (n - 1) as nat), vals[n - 1])
    }
}

/// The sum of the first `n` values.
pub open spec fn plain_sum(vals: Seq<nat>, n: nat) -> nat
    decreases n,
{
    if n == 0 {
        0
    } else {
        plain_sum(vals, (n - 1) as nat) + vals[n - 1]
    }
}

/// The sums of the first `n` vectors, entry by entry, over `len` entries.
pub open spec fn sums_of(vectors: Seq<Seq<nat>>, n: nat, len: nat) -> Seq<nat> {
    Seq::new(len, |j: int| entry_sum(vectors, j, n))
}

/// The values at `x` of the polynomials with the given coefficient vectors.
pub open spec fn values_at(coefficients: Seq<Seq<nat>>, x: nat) -> Seq<nat> {
    Seq::new(coefficients.len(), |k: int| poly_eval(coefficients[k], x))
}

/// The inner products of a row with each of the seeds.
pub open spec fn products_with(row: Seq<nat>, seeds: Seq<Seq<nat>>) -> Seq<nat> {
    Seq::new(seeds.len(), |k: int| inner_product(row, seeds[k]))
}

/// The roundings of the values.
pub open spec fn roundings(vals: Seq<nat>) -> Seq<nat> {
    Seq::new(vals.len(), |k: int| round_to(vals[k], P as nat))
}

/// A sum in the field is a field value.
proof fn lemma_field_sum_range(vals: Seq<nat>, n: nat)
    ensures
        field_sum(vals, n) < field_modulus(),
{
    if n > 0 {
        lemma_field_ranges(field_sum(vals, (n - 1) as nat), vals[n - 1]);
    }
}

/// A sum of entries in the field is a field value.
pub proof fn lemma_entry_sum_range(vectors: Seq<Seq<nat>>, j: int, n: nat)
    ensures
        entry_sum(vectors, j, n) < field_modulus(),
{
    if n > 0 {
        lemma_field_ranges(entry_sum(vectors, j, (n - 1) as nat), vectors[n - 1][j]);
    }
}

/// A sum in the field that does not reach the field's order is the sum.
proof fn lemma_field_sum_is_plain(vals: Seq<nat>, n: nat)
    requires
        plain_sum(vals, n) < field_modulus(),
    ensures
        field_sum(vals, n) == plain_sum(vals, n),
    decreases n,
{
    if n > 0 {
        lemma_field_sum_is_plain(vals, (n - 1) as nat);
        lemma_small_mod(plain_sum(vals, n), field_modulus());
    }
}

/// The polynomial of the sums of the coefficients has the sum of the values
/// of the polynomials for its value.
proof fn lemma_poly_eval_of_sums(coefficients: Seq<Seq<nat>>, n: nat, t: nat, x: nat)
    requires
        n <= coefficients.len(),
        forall|k: int| 0 <= k < n ==> (#[trigger] coefficients[k]).len() == t,
    ensures
        poly_eval(sums_of(coefficients, n, t), x) == field_sum(values_at(coefficients, x), n),
    decreases n,
{
    if n == 0 {
        lemma_poly_eval_of_zeros(sums_of(coefficients, 0, t), x);
    } else {
        let m = (n - 1) as nat;
        lemma_poly_eval_of_sums(coefficients, m, t, x);
        assert(sums_of(coefficients, n, t) =~= add_coefficients(
            sums_of(coefficients, m, t),
            coefficients[n - 1],
        ));
        lemma_poly_eval_additive(sums_of(coefficients, m, t), coefficients[n - 1], x);
    }
}

/// The committee recovers the sum of the secrets: where each of `n` clients
/// shares a secret under a polynomial of its own with `t` coefficients, and
/// each of `t` different members out of fewer than `SMALL_BOUND` sums the
/// shares that it got, the interpolation at zero through the members' sums
/// is the sum of the secrets. The member with the index `i` holds the shares
/// at `i + 1`.
pub proof fn lemma_committee_recovers_sum(
    coefficients: Seq<Seq<nat>>,
    n: nat,
    t: nat,
    members: Seq<int>,
    committee_size: nat,
    points: Seq<(nat, nat)>,
)
    requires
        n <= coefficients.len(),
        forall|k: int| 0 <= k < n ==> (#[trigger] coefficients[k]).len() == t,
        1 <= t <= committee_size,
        committee_size < SMALL_BOUND,
        members.len() == t,
        points.len() == t,
        forall|q: int| 0 <= q < t ==> 0 <= #[trigger] members[q] < committee_size,
        forall|q: int, r: int|
            0 <= q < t && 0 <= r < t && q != r ==> #[trigger] members[q] != #[trigger] members[r],
        forall|q: int|
            0 <= q < t ==> #[trigger] points[q] == (
                (members[q] + 1) as nat,
                field_sum(values_at(coefficients, (members[q] + 1) as nat), n),
            ),
    ensures
        denominators_invertible(points, t),
        interpolate_at_zero(points, t) == entry_sum(coefficients, 0, n),
{
    let sums = sums_of(coefficients, n, t);
    assert forall|q: int| 0 <= q < t implies 1 <= (#[trigger] points[q]).0 <= committee_size
        && points[q] == shares_of(sums, committee_size)[points[q].0 - 1] by {
        assert(points[q].0 == members[q] + 1);
        lemma_poly_eval_of_sums(coefficients, n, t, (members[q] + 1) as nat);
    }
    assert forall|q: int, r: int| 0 <= q < t && 0 <= r < t && q != r implies (
    #[trigger] points[q]).0 != (#[trigger] points[r]).0 by {
        assert(members[q] != members[r]);
    }
    lemma_shares_recover_secret(sums, committee_size, points, t);
    lemma_entry_sum_range(coefficients, 0, n);
    lemma_small_mod(entry_sum(coefficients, 0, n), field_modulus());
}

/// The inner product with a vector of zeros is zero.
proof fn lemma_inner_product_with_zeros(row: Seq<nat>, zeros: Seq<nat>, n: nat)
    requires
        n <= zeros.len(),
        forall|j: int| 0 <= j < zeros.len() ==> #[trigger] zeros[j] == 0,
    ensures
        partial_dot(row, zeros, n) == 0,
    decreases n,
{
    if n > 0 {
        lemma_inner_product_with_zeros(row, zeros, (n - 1) as nat);
        assert(zeros[n - 1] == 0);
        assert(row[n - 1] * 0 == 0);
    }
}

/// The inner product of a row with the sum of the seeds is the sum of its
/// inner products with the seeds.
pub proof fn lemma_inner_product_of_sum(row: Seq<nat>, seeds: Seq<Seq<nat>>, n: nat)
    requires
        n <= seeds.len(),
        forall|k: int| 0 <= k < n ==> (#[trigger] seeds[k]).len() == row.len(),
    ensures
        inner_product(row, sums_of(seeds, n, row.len())) == field_sum(
            products_with(row, seeds),
            n,
        ),
    decreases n,
{
    if n == 0 {
        lemma_inner_product_with_zeros(row, sums_of(seeds, 0, row.len()), row.len());
        lemma_small_mod(0, field_modulus());
    } else {
        let m = (n - 1) as nat;
        lemma_inner_product_of_sum(row, seeds, m);
        assert(sums_of(seeds, n, row.len()) =~= add_seeds(
            sums_of(seeds, m, row.len()),
            seeds[n - 1],
        ));
        lemma_inner_product_linear(row, sums_of(seeds, m, row.len()), seeds[n - 1]);
    }
}

/// The roundings of `n` field values add up to the rounding of their sum,
/// plus a multiple of `P`, less a drift; with one value or more, both the
/// multiplier and the drift are below `n`. Both are returned.
pub proof fn lemma_roundings_sum(vals: Seq<nat>, n: nat) -> (r: (int, int))
    requires
        n <= vals.len(),
        forall|k: int| 0 <= k < n ==> #[trigger] vals[k] < field_modulus(),
    ensures
        plain_sum(roundings(vals), n) == round_to(field_sum(vals, n), P as nat) + r.0 * P - r.1,
        0 <= r.0,
        0 <= r.1,
        n > 0 ==> r.0 < n && r.1 < n,
        n == 0 ==> r.0 == 0 && r.1 == 0,
    decreases n,
{
    if n == 0 {
        assert(0 * (P as nat) == 0);
        assert((0nat / field_modulus()) == 0);
        (0, 0)
    } else {
        let m = (n - 1) as nat;
        let (w, d) = lemma_roundings_sum(vals, m);
        lemma_field_sum_range(vals, m);
        assert(vals[n - 1] < field_modulus());
        let (wrap, carry) = lemma_round_sum(field_sum(vals, m), vals[n - 1]);
        assert(roundings(vals)[n - 1] == round_to(vals[n - 1], P as nat));
        if m == 0 {
            // the first value: nothing wraps and nothing is cut off twice
            lemma_field_neutral(vals[n - 1]);
            assert(0 * (P as nat) == 0);
            assert((0nat / field_modulus()) == 0);
            (0, 0)
        } else {
            assert((w + wrap) * P == w * P + wrap * P) by (nonlinear_arith);
            (w + wrap, d + carry)
        }
    }
}

/// The sum of encodings is the unit times the sum of the values, plus the
/// sum of what the encodings hold beside their values, which is returned:
/// at least `2^kappa` and less than twice as much for each encoding.
proof fn lemma_encodings_sum(values: Seq<nat>, encodings: Seq<nat>, n: nat, kappa: nat) -> (noise:
    nat)
    requires
        n <= values.len(),
        n <= encodings.len(),
        forall|k: int| 0 <= k < n ==> encodes(#[trigger] encodings[k], values[k], kappa),
    ensures
        plain_sum(encodings, n) == encoding_unit(kappa) * plain_sum(values, n) + noise,
        n * pow2(kappa) <= noise,
        noise + n <= n * (2 * pow2(kappa)),
    decreases n,
{
    if n == 0 {
        assert(encoding_unit(kappa) * 0 == 0);
        assert(0 * pow2(kappa) == 0);
        assert(0 * (2 * pow2(kappa)) == 0);
        0
    } else {
        let m = (n - 1) as nat;
        let before = lemma_encodings_sum(values, encodings, m, kappa);
        let d = encoding_unit(kappa) as int;
        let e = encodings[n - 1] as int;
        let x = values[n - 1] as int;
        assert(encodes(encodings[n - 1], values[n - 1], kappa));
        let rho = e - d * x;
        assert(d * (plain_sum(values, m) + x) == d * plain_sum(values, m) + d * x)
            by (nonlinear_arith);
        assert(n * pow2(kappa) == m * pow2(kappa) + pow2(kappa)) by (nonlinear_arith)
            requires
                n == m + 1,
        ;
        assert(n * (2 * pow2(kappa)) == m * (2 * pow2(kappa)) + 2 * pow2(kappa))
            by (nonlinear_arith)
            requires
                n == m + 1,
        ;
        (before + rho) as nat
    }
}

/// A sum of values below a bound is below as many times the bound.
proof fn lemma_plain_sum_bound(vals: Seq<nat>, n: nat, bound: nat)
    requires
        n <= vals.len(),
        forall|k: int| 0 <= k < n ==> #[trigger] vals[k] < bound,
    ensures
        plain_sum(vals, n) <= n * bound,
        n > 0 ==> plain_sum(vals, n) < n * bound,
    decreases n,
{
    if n == 0 {
        assert(0 * bound == 0);
    } else {
        lemma_plain_sum_bound(vals, (n - 1) as nat, bound);
        assert(vals[n - 1] < bound);
        assert(n * bound == (n - 1) * bound + bound) by (nonlinear_arith);
    }
}

/// The sum of two lists, entry by entry, is the sum of their sums.
proof fn lemma_plain_sum_of_sums(a: Seq<nat>, b: Seq<nat>, c: Seq<nat>, n: nat)
    requires
        n <= c.len(),
        forall|k: int| 0 <= k < n ==> #[trigger] c[k] == a[k] + b[k],
    ensures
        plain_sum(c, n) == plain_sum(a, n) + plain_sum(b, n),
    decreases n,
{
    if n > 0 {
        lemma_plain_sum_of_sums(a, b, c, (n - 1) as nat);
        assert(c[n - 1] == a[n - 1] + b[n - 1]);
    }
}

/// One coordinate of a run decodes to the sum of the clients' values in 32
/// bits: where each of `n` clients, no more than the encoding leaves room
/// for, adds an encoding of its value to the rounding of a field value of its
/// own, and what the encodings hold beside the values adds up to no more
/// than the unit, the sum of what the clients send, less the rounding of the
/// sum of their field values, decodes to the sum of their values.
pub proof fn lemma_coordinate_decodes(
    values: Seq<nat>,
    encodings: Seq<nat>,
    products: Seq<nat>,
    sent: Seq<nat>,
    kappa: nat,
)
    requires
        kappa <= MAX_SECURITY_PARAMETER,
        1 <= values.len() <= NUM_PARTIES_UPPER_BOUND,
        plain_sum(encodings, values.len()) <= encoding_unit(kappa) * plain_sum(
            values,
            values.len(),
        ) + encoding_unit(kappa),
        encodings.len() == values.len(),
        products.len() == values.len(),
        sent.len() == values.len(),
        forall|k: int| 0 <= k < values.len() ==> #[trigger] values[k] < 0x1_0000_0000,
        forall|k: int|
            0 <= k < values.len() ==> encodes(#[trigger] encodings[k], values[k], kappa),
        forall|k: int| 0 <= k < values.len() ==> #[trigger] products[k] < field_modulus(),
        forall|k: int|
            0 <= k < values.len() ==> #[trigger] sent[k] == field_add(
                encodings[k],
                round_to(products[k], P as nat),
            ),
    ensures
        decoded_value(
            field_sub(
                field_sum(sent, values.len()),
                round_to(field_sum(products, values.len()), P as nat),
            ),
            kappa,
        ) == plain_sum(values, values.len()) % 0x1_0000_0000,
{
    let n = values.len();
    let q = field_modulus() as int;
    let p = P as int;
    let unit = encoding_unit(kappa) as int;
    let masks = roundings(products);
    lemma_encoding_sizes(kappa);
    lemma2_to64();
    lemma2_to64_rest();
    // what each client sends is its encoding plus its mask, as numbers
    assert forall|k: int| 0 <= k < n implies #[trigger] sent[k] == encodings[k] + masks[k]
        && sent[k] < 2 * p && masks[k] < p by {
        lemma_round_bound(products[k], P as nat);
        assert(encodes(encodings[k], values[k], kappa));
        assert(unit * values[k] <= 0x1000_0000_0000_0000 * 0xffff_ffff) by (nonlinear_arith)
            requires
                0 <= unit <= 0x1000_0000_0000_0000,
                0 <= values[k] <= 0xffff_ffff,
        ;
        lemma_small_mod(encodings[k] + masks[k], field_modulus());
    }
    lemma_plain_sum_of_sums(encodings, masks, sent, n);
    lemma_plain_sum_bound(sent, n, (2 * p) as nat);
    lemma_plain_sum_bound(masks, n, p as nat);
    assert(n * (2 * p) <= 0x10_0000 * (2 * p)) by (nonlinear_arith)
        requires
            n <= 0x10_0000,
            p > 0,
    ;
    lemma_field_sum_is_plain(sent, n);
    let (w, d) = lemma_roundings_sum(products, n);
    let noise = lemma_encodings_sum(values, encodings, n, kappa);
    let total = plain_sum(values, n) as int;
    let mask = round_to(field_sum(products, n), P as nat) as int;
    lemma_field_sum_range(products, n);
    lemma_round_bound(field_sum(products, n), P as nat);
    // the sum that is sent, less the mask of the sum
    let left = unit * total + (noise - d) + w * p;
    assert(plain_sum(sent, n) - mask == left);
    assert(n * pow2(kappa) >= n) by (nonlinear_arith)
        requires
            pow2(kappa) >= 1,
    ;
    assert(0 < noise - d <= unit);
    assert(0 <= left < q) by {
        assert(w * p >= 0) by (nonlinear_arith)
            requires
                w >= 0,
                p > 0,
        ;
        assert(unit * total >= 0) by (nonlinear_arith)
            requires
                unit >= 0,
                total >= 0,
        ;
    }
    lemma_small_mod(left as nat, field_modulus());
    assert(field_sub(field_sum(sent, n), mask as nat) == left);
    // the rounding modulus is a multiple of the unit times 2^32
    let scale = pow2((40 - kappa) as nat) as int;
    lemma_pow2_adds((kappa + 20) as nat, (40 - kappa) as nat);
    assert(pow2(60) == unit * scale);
    assert(w * p == (w * scale) * (unit * 0x1_0000_0000)) by (nonlinear_arith)
        requires
            p == 0x1000_0000_0000_0000 * 0x1_0000_0000,
            0x1000_0000_0000_0000 == unit * scale,
    ;
    lemma_pow2_pos((40 - kappa) as nat);
    assert(w * scale >= 0) by (nonlinear_arith)
        requires
            w >= 0,
            scale > 0,
    ;
    lemma_decode_sum(total as nat, (noise - d) as nat, (w * scale) as nat, kappa);
}

/// With at most half as many clients as the encoding leaves room for, what
/// the encodings hold beside the values adds up to no more than the unit.
proof fn lemma_noise_fits(values: Seq<nat>, encodings: Seq<nat>, kappa: nat)
    requires
        kappa <= MAX_SECURITY_PARAMETER,
        2 * values.len() <= NUM_PARTIES_UPPER_BOUND,
        encodings.len() == values.len(),
        forall|k: int|
            0 <= k < values.len() ==> encodes(#[trigger] encodings[k], values[k], kappa),
    ensures
        plain_sum(encodings, values.len()) <= encoding_unit(kappa) * plain_sum(
            values,
            values.len(),
        ) + encoding_unit(kappa),
{
    let n = values.len();
    let noise = lemma_encodings_sum(values, encodings, n, kappa);
    lemma_encoding_sizes(kappa);
    assert(n * (2 * pow2(kappa)) <= 0x8_0000 * (2 * pow2(kappa))) by (nonlinear_arith)
        requires
            n <= 0x8_0000,
    ;
}

/// A run ends with the sums of the inputs: for each of the first
/// coordinates, where every client has masked an encoding of its packed
/// input with the expansion of its seed, the sum of the masked inputs, less
/// the expansion of the sum of the seeds, decodes to the sum of the clients'
/// packed values in 32 bits. There have to be at most half as many clients
/// as the encoding leaves room for.
pub proof fn lemma_run_decodes(
    matrix: Seq<Seq<nat>>,
    seeds: Seq<Seq<nat>>,
    inputs: Seq<Seq<nat>>,
    encodings: Seq<Seq<nat>>,
    sent: Seq<Seq<nat>>,
    kappa: nat,
    i: int,
)
    requires
        kappa <= MAX_SECURITY_PARAMETER,
        1 <= seeds.len(),
        2 * seeds.len() <= NUM_PARTIES_UPPER_BOUND,
        inputs.len() == seeds.len(),
        encodings.len() == seeds.len(),
        sent.len() == seeds.len(),
        0 <= i < matrix.len(),
        forall|k: int| 0 <= k < seeds.len() ==> (#[trigger] seeds[k]).len() == matrix[i].len(),
        forall|k: int| 0 <= k < seeds.len() ==> (#[trigger] inputs[k])[i] < 0x1_0000_0000,
        forall|k: int|
            0 <= k < seeds.len() ==> encodes((#[trigger] encodings[k])[i], inputs[k][i], kappa),
        forall|k: int|
            0 <= k < seeds.len() ==> (#[trigger] sent[k])[i] == field_add(
                encodings[k][i],
                expansion(matrix, seeds[k])[i],
            ),
    ensures
        decoded_value(
            field_sub(
                entry_sum(sent, i, seeds.len()),
                expansion(matrix, sums_of(seeds, seeds.len(), matrix[i].len()))[i],
            ),
            kappa,
        ) == entry_sum_plain(inputs, i, seeds.len()) % 0x1_0000_0000,
{
    let n = seeds.len();
    let row = matrix[i];
    let values = Seq::new(n, |k: int| inputs[k][i]);
    let codes = Seq::new(n, |k: int| encodings[k][i]);
    let products = products_with(row, seeds);
    let column = Seq::new(n, |k: int| sent[k][i]);
    assert forall|k: int| 0 <= k < n implies #[trigger] products[k] < field_modulus() by {
        lemma_mod_bound(partial_dot(row, seeds[k], row.len()) as int, field_modulus() as int);
    }
    assert forall|k: int| 0 <= k < n implies encodes(#[trigger] codes[k], values[k], kappa) by {
        assert(encodes(encodings[k][i], inputs[k][i], kappa));
    }
    assert forall|k: int| 0 <= k < n implies #[trigger] column[k] == field_add(
        codes[k],
        round_to(products[k], P as nat),
    ) by {
        assert(sent[k][i] == field_add(encodings[k][i], expansion(matrix, seeds[k])[i]));
    }
    assert forall|k: int| 0 <= k < n implies #[trigger] values[k] < 0x1_0000_0000 by {
        assert(inputs[k][i] < 0x1_0000_0000);
    }
    lemma_noise_fits(values, codes, kappa);
    lemma_coordinate_decodes(values, codes, products, column, kappa);
    lemma_inner_product_of_sum(row, seeds, n);
    lemma_entry_sum_of_column(sent, column, i, n);
    lemma_entry_sum_plain_of_column(inputs, values, i, n);
}

/// The sum of the `j`-th entries of the first `n` vectors.
pub open spec fn entry_sum_plain(vectors: Seq<Seq<nat>>, j: int, n: nat) -> nat
    decreases n,
{
    if n == 0 {
        0
    } else {
        entry_sum_plain(vectors, j, (n - 1) as nat) + vectors[n - 1][j]
    }
}

/// The sum of the entries at a place is the sum of the column at that place,
/// in the field.
pub proof fn lemma_entry_sum_of_column(vectors: Seq<Seq<nat>>, column: Seq<nat>, j: int, n: nat)
    requires
        n <= column.len(),
        forall|k: int| 0 <= k < n ==> #[trigger] column[k] == vectors[k][j],
    ensures
        entry_sum(vectors, j, n) == field_sum(column, n),
    decreases n,
{
    if n > 0 {
        lemma_entry_sum_of_column(vectors, column, j, (n - 1) as nat);
        assert(column[n - 1] == vectors[n - 1][j]);
    }
}

/// The sum of the entries at a place is the sum of the column at that
/// place.
proof fn lemma_entry_sum_plain_of_column(
    vectors: Seq<Seq<nat>>,
    column: Seq<nat>,
    j: int,
    n: nat,
)
    requires
        n <= column.len(),
        forall|k: int| 0 <= k < n ==> #[trigger] column[k] == vectors[k][j],
    ensures
        entry_sum_plain(vectors, j, n) == plain_sum(column, n),
    decreases n,
{
    if n > 0 {
        lemma_entry_sum_plain_of_column(vectors, column, j, (n - 1) as nat);
        assert(column[n - 1] == vectors[n - 1][j]);
    }
}

} // verus!
