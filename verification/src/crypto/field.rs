//! The prime field of order 2^127 - 1, with elements held as their canonical
//! representative in a `u128`.

use vstd::arithmetic::div_mod::*;
use vstd::arithmetic::mul::*;
use vstd::prelude::*;

verus! {

/// The field's order, 2^127 - 1.
pub const MODULUS: u128 = 170141183460469231731687303715884105727;

/// A generator of the field's multiplicative group.
pub const GENERATOR: u128 = 3;

const TWO_64: u128 = 0x1_0000_0000_0000_0000;

const TWO_63: u128 = 0x8000_0000_0000_0000;

const TWO_127: u128 = 0x8000_0000_0000_0000_0000_0000_0000_0000;

/// The field's order as a mathematical integer.
pub open spec fn field_modulus() -> nat {
    MODULUS as nat
}

/// Addition of representatives, reduced.
pub open spec fn field_add(a: nat, b: nat) -> nat {
    (a + b) % field_modulus()
}

/// Subtraction of representatives, reduced to the range `0..q`.
pub open spec fn field_sub(a: nat, b: nat) -> nat {
    ((a as int - b as int) % (field_modulus() as int)) as nat
}

/// The additive inverse.
pub open spec fn field_neg(a: nat) -> nat {
    field_sub(0, a)
}

/// Multiplication of representatives, reduced.
pub open spec fn field_mul(a: nat, b: nat) -> nat {
    (a * b) % field_modulus()
}

/// Whether `b` is the canonical multiplicative inverse of `a`.
pub open spec fn is_inverse_of(a: nat, b: nat) -> bool {
    b < field_modulus() && field_mul(a, b) == 1
}

/// Whether `a` has a multiplicative inverse.
pub open spec fn invertible(a: nat) -> bool {
    exists|b: nat| is_inverse_of(a, b)
}

/// The multiplicative inverse of `a` where it has one.
pub open spec fn field_inv(a: nat) -> nat {
    choose|b: nat| is_inverse_of(a, b)
}

/// The greatest common divisor, by Euclid's recursion.
pub open spec fn gcd(a: nat, b: nat) -> nat
    decreases b,
{
    if b == 0 {
        a
    } else {
        gcd(b, a % b)
    }
}

/// Whether two integers have the same residue.
pub open spec fn congruent(x: int, y: int) -> bool {
    x % (field_modulus() as int) == y % (field_modulus() as int)
}

/// An integer is congruent to its residue.
pub proof fn lemma_congruent_residue(x: int)
    ensures
        congruent(x % (field_modulus() as int), x),
        0 <= x % (field_modulus() as int) < field_modulus(),
{
    lemma_mod_twice(x, field_modulus() as int);
    lemma_mod_bound(x, field_modulus() as int);
}

/// Sums of congruent integers are congruent.
pub proof fn lemma_congruent_add(x: int, x2: int, y: int, y2: int)
    requires
        congruent(x, x2),
        congruent(y, y2),
    ensures
        congruent(x + y, x2 + y2),
{
    let q = field_modulus() as int;
    lemma_add_mod_noop(x, y, q);
    lemma_add_mod_noop(x2, y2, q);
}

/// Differences of congruent integers are congruent.
pub proof fn lemma_congruent_sub(x: int, x2: int, y: int, y2: int)
    requires
        congruent(x, x2),
        congruent(y, y2),
    ensures
        congruent(x - y, x2 - y2),
{
    let q = field_modulus() as int;
    lemma_sub_mod_noop(x, y, q);
    lemma_sub_mod_noop(x2, y2, q);
}

/// Products of congruent integers are congruent.
pub proof fn lemma_congruent_mul(x: int, x2: int, y: int, y2: int)
    requires
        congruent(x, x2),
        congruent(y, y2),
    ensures
        congruent(x * y, x2 * y2),
{
    let q = field_modulus() as int;
    lemma_mul_mod_noop_general(x, y, q);
    lemma_mul_mod_noop_general(x2, y2, q);
}

/// A residue that is congruent to another residue equals it.
pub proof fn lemma_congruent_residues_equal(x: int, y: int)
    requires
        congruent(x, y),
        0 <= x < field_modulus(),
        0 <= y < field_modulus(),
    ensures
        x == y,
{
    lemma_small_mod(x as nat, field_modulus());
    lemma_small_mod(y as nat, field_modulus());
}

/// The greatest common divisor divides both numbers.
pub proof fn lemma_gcd_divides(a: nat, b: nat)
    requires
        a > 0 || b > 0,
    ensures
        gcd(a, b) > 0,
        a % gcd(a, b) == 0,
        b % gcd(a, b) == 0,
    decreases b,
{
    if b == 0 {
        lemma_mod_self_0(a as int);
        lemma_small_mod(0, a);
    } else {
        lemma_mod_bound(a as int, b as int);
        lemma_gcd_divides(b, a % b);
        let g = gcd(b, a % b);
        let k = a / b;
        lemma_fundamental_div_mod(a as int, b as int);
        lemma_mul_mod_noop_left(b as int, k as int, g as int);
        assert(0 * (k as int) == 0);
        lemma_small_mod(0, g);
        lemma_add_mod_noop((b * k) as int, (a % b) as int, g as int);
    }
}

/// Where a number shares a divisor other than one with the field's order, it
/// has no multiplicative inverse.
proof fn lemma_no_inverse(a: nat)
    requires
        gcd(field_modulus(), a) != 1,
    ensures
        !invertible(a),
{
    let q = field_modulus();
    lemma_gcd_divides(q, a);
    let g = gcd(q, a);
    assert forall|b: nat| !is_inverse_of(a, b) by {
        if field_mul(a, b) == 1 {
            let k = (a * b) / q;
            lemma_fundamental_div_mod((a * b) as int, q as int);
            lemma_mul_mod_noop_left(a as int, b as int, g as int);
            lemma_mul_mod_noop_left(q as int, k as int, g as int);
            assert(0 * (b as int) == 0);
            assert(0 * (k as int) == 0);
            lemma_small_mod(0, g);
            lemma_small_mod(1, g);
            lemma_add_mod_noop((q * k) as int, 1, g as int);
        }
    }
}

/// Multiplicative inverses are unique among the residues.
pub proof fn lemma_inverse_unique(a: nat, b: nat, c: nat)
    requires
        is_inverse_of(a, b),
        is_inverse_of(a, c),
    ensures
        b == c,
{
    let (ai, bi, ci) = (a as int, b as int, c as int);
    lemma_small_mod(1, field_modulus());
    // b = b * 1 = b * (a * c) = (a * b) * c = 1 * c = c, up to congruence
    lemma_congruent_mul(bi, bi, ai * ci, 1);
    lemma_congruent_mul(ai * bi, 1, ci, ci);
    assert(bi * (ai * ci) == (ai * bi) * ci) by (nonlinear_arith);
    assert(bi * 1 == bi);
    assert(1 * ci == ci);
    lemma_congruent_residues_equal(bi, ci);
}

/// The inverse that was found is the inverse.
pub proof fn lemma_inverse_is(a: nat, b: nat)
    requires
        is_inverse_of(a, b),
    ensures
        invertible(a),
        field_inv(a) == b,
{
    lemma_inverse_unique(a, b, field_inv(a));
}

/// One step of Euclid's algorithm keeps each coefficient congruent to its
/// remainder once multiplied by `a`.
proof fn lemma_euclid_step(a: nat, t0: nat, t1: nat, r0: nat, r1: nat, qt: nat)
    requires
        congruent((t0 * a) as int, r0 as int),
        congruent((t1 * a) as int, r1 as int),
    ensures
        congruent(
            (field_sub(t0, field_mul(qt % field_modulus(), t1)) * a) as int,
            r0 - qt * r1,
        ),
{
    let q = field_modulus() as int;
    let (ai, t0i, t1i, qti) = (a as int, t0 as int, t1 as int, qt as int);
    let m = field_mul(qt % field_modulus(), t1) as int;
    let t2 = field_sub(t0, m as nat) as int;
    lemma_congruent_residue(qti);
    lemma_congruent_mul(qti % q, qti, t1i, t1i);
    lemma_congruent_residue((qti % q) * t1i);
    assert(congruent(m, qti * t1i));
    lemma_congruent_residue(t0i - m);
    lemma_congruent_sub(t0i, t0i, m, qti * t1i);
    assert(congruent(t2, t0i - qti * t1i));
    lemma_congruent_mul(t2, t0i - qti * t1i, ai, ai);
    assert((t0i - qti * t1i) * ai == t0i * ai - qti * (t1i * ai)) by (nonlinear_arith);
    lemma_congruent_mul(qti, qti, t1i * ai, r1 as int);
    lemma_congruent_sub(t0i * ai, r0 as int, qti * (t1i * ai), qti * r1);
}

/// The powers of a field value.
pub open spec fn field_pow(a: nat, k: nat) -> nat
    decreases k,
{
    if k == 0 {
        1
    } else {
        field_mul(field_pow(a, (k - 1) as nat), a)
    }
}

/// Sums, differences and products of field values are field values.
pub proof fn lemma_field_ranges(a: nat, b: nat)
    ensures
        field_add(a, b) < field_modulus(),
        field_sub(a, b) < field_modulus(),
        field_neg(a) < field_modulus(),
        field_mul(a, b) < field_modulus(),
{
    let q = field_modulus() as int;
    lemma_mod_bound((a + b) as int, q);
    lemma_mod_bound(a - b, q);
    lemma_mod_bound(0 - a, q);
    lemma_mod_bound((a * b) as int, q);
}

/// Addition and multiplication are commutative.
pub proof fn lemma_field_commutative(a: nat, b: nat)
    ensures
        field_add(a, b) == field_add(b, a),
        field_mul(a, b) == field_mul(b, a),
{
    lemma_mul_is_commutative(a as int, b as int);
}

/// Zero and one are neutral, and zero annihilates.
pub proof fn lemma_field_neutral(a: nat)
    requires
        a < field_modulus(),
    ensures
        field_add(a, 0) == a,
        field_add(0, a) == a,
        field_mul(a, 1) == a,
        field_mul(1, a) == a,
        field_mul(a, 0) == 0,
        field_mul(0, a) == 0,
        field_sub(a, 0) == a,
        field_sub(a, a) == 0,
{
    lemma_small_mod(a, field_modulus());
    lemma_small_mod(0, field_modulus());
    assert(a * 1 == a);
    assert(1 * a == a);
    assert(a * 0 == 0);
    assert(0 * a == 0);
}

/// Addition is associative.
pub proof fn lemma_field_add_associative(a: nat, b: nat, c: nat)
    ensures
        field_add(field_add(a, b), c) == field_add(a, field_add(b, c)),
{
    let q = field_modulus() as int;
    lemma_add_mod_noop((a + b) as int, c as int, q);
    lemma_add_mod_noop(a as int, (b + c) as int, q);
    lemma_mod_twice((a + b) as int, q);
    lemma_mod_twice((b + c) as int, q);
    lemma_add_mod_noop(((a + b) % field_modulus()) as int, c as int, q);
    lemma_add_mod_noop(a as int, ((b + c) % field_modulus()) as int, q);
}

/// Multiplication is associative.
pub proof fn lemma_field_mul_associative(a: nat, b: nat, c: nat)
    ensures
        field_mul(field_mul(a, b), c) == field_mul(a, field_mul(b, c)),
{
    let (ai, bi, ci) = (a as int, b as int, c as int);
    lemma_congruent_residue(ai * bi);
    lemma_congruent_residue(bi * ci);
    lemma_congruent_mul((ai * bi) % (field_modulus() as int), ai * bi, ci, ci);
    lemma_congruent_mul(ai, ai, (bi * ci) % (field_modulus() as int), bi * ci);
    lemma_mul_is_associative(ai, bi, ci);
}

/// Multiplication distributes over addition.
pub proof fn lemma_field_distributive(a: nat, b: nat, c: nat)
    ensures
        field_mul(a, field_add(b, c)) == field_add(field_mul(a, b), field_mul(a, c)),
        field_mul(field_add(b, c), a) == field_add(field_mul(b, a), field_mul(c, a)),
{
    let (ai, bi, ci) = (a as int, b as int, c as int);
    let q = field_modulus() as int;
    lemma_congruent_residue(bi + ci);
    lemma_congruent_mul(ai, ai, (bi + ci) % q, bi + ci);
    lemma_mul_is_distributive_add(ai, bi, ci);
    lemma_add_mod_noop(ai * bi, ai * ci, q);
    lemma_field_commutative(a, field_add(b, c));
    lemma_field_commutative(a, b);
    lemma_field_commutative(a, c);
}

/// A difference is the sum with the negative, and multiplication
/// distributes over it.
pub proof fn lemma_field_sub(a: nat, b: nat, c: nat)
    ensures
        field_sub(a, b) == field_add(a, field_neg(b)),
        field_mul(c, field_sub(a, b)) == field_sub(field_mul(c, a), field_mul(c, b)),
        field_add(field_sub(a, b), b) == a % field_modulus(),
{
    let (ai, bi, ci) = (a as int, b as int, c as int);
    let q = field_modulus() as int;
    lemma_congruent_residue(0 - bi);
    lemma_congruent_add(ai, ai, (0 - bi) % q, 0 - bi);
    lemma_congruent_residue(ai - bi);
    lemma_congruent_mul(ci, ci, (ai - bi) % q, ai - bi);
    lemma_mul_is_distributive_sub(ci, ai, bi);
    lemma_sub_mod_noop(ci * ai, ci * bi, q);
    lemma_congruent_add((ai - bi) % q, ai - bi, bi, bi);
}

/// A value times its inverse is one.
pub proof fn lemma_field_inverse(a: nat)
    requires
        invertible(a),
    ensures
        field_mul(a, field_inv(a)) == 1,
        field_mul(field_inv(a), a) == 1,
        field_inv(a) < field_modulus(),
{
    lemma_field_commutative(a, field_inv(a));
}

/// The product of two values with inverses has the product of the inverses
/// for its inverse.
pub proof fn lemma_field_inverse_of_product(a: nat, b: nat)
    requires
        invertible(a),
        invertible(b),
    ensures
        invertible(field_mul(a, b)),
        field_inv(field_mul(a, b)) == field_mul(field_inv(a), field_inv(b)),
{
    let (ia, ib) = (field_inv(a), field_inv(b));
    let p = field_mul(a, b);
    let ip = field_mul(ia, ib);
    lemma_field_inverse(a);
    lemma_field_inverse(b);
    lemma_field_ranges(ia, ib);
    // (a b) (ia ib) = (a ia) (b ib) = 1
    lemma_field_mul_associative(p, ia, ib);
    lemma_field_mul_associative(a, b, ia);
    lemma_field_commutative(b, ia);
    lemma_field_mul_associative(a, ia, b);
    lemma_field_neutral(b % field_modulus());
    lemma_mul_mod_noop_right(1, b as int, field_modulus() as int);
    assert(field_mul(1, b) == b % field_modulus()) by {
        assert(1 * b == b);
    }
    assert(field_mul(field_mul(a, ia), b) == b % field_modulus());
    assert(field_mul(p, ia) == b % field_modulus());
    lemma_mul_mod_noop_left(b as int, ib as int, field_modulus() as int);
    assert(field_mul(b % field_modulus(), ib) == 1);
    assert(field_mul(p, ip) == 1);
    lemma_inverse_is(p, ip);
}

/// One is its own inverse.
pub proof fn lemma_field_inverse_of_one()
    ensures
        invertible(1),
        field_inv(1) == 1,
{
    lemma_small_mod(1, field_modulus());
    assert(1 * 1 == 1);
    lemma_inverse_is(1, 1);
}

/// The parameters of the field: its order and a generator.
#[derive(Clone, Copy, Debug)]
pub struct F128Config;

impl F128Config {
    /// The order of the field.
    pub fn modulus() -> (q: u128)
        ensures
            q == field_modulus(),
    {
        MODULUS
    }

    /// A generator of the multiplicative group.
    pub fn generator() -> (g: F128)
        ensures
            g@ == 3,
    {
        F128 { value: GENERATOR }
    }
}

/// An element of the field, held as its representative in `0..q`.
#[derive(Clone, Copy, Debug, PartialEq, Eq, Structural)]
pub struct F128 {
    value: u128,
}

impl View for F128 {
    type V = nat;

    closed spec fn view(&self) -> nat {
        self.value as nat
    }
}

impl From<u64> for F128 {
    fn from(x: u64) -> (r: F128) {
        proof {
            lemma_small_mod(x as nat, field_modulus());
        }
        F128 { value: x as u128 }
    }
}

impl vstd::std_specs::convert::FromSpecImpl<u64> for F128 {
    open spec fn obeys_from_spec() -> bool {
        true
    }

    open spec fn from_spec(x: u64) -> F128 {
        F128::element(x as nat)
    }
}

/// The values of a sequence of elements.
pub open spec fn values_of(s: Seq<F128>) -> Seq<nat> {
    s.map_values(|f: F128| f@)
}

/// The values of the rows of a matrix.
pub open spec fn matrix_values_of(m: Seq<Vec<F128>>) -> Seq<Seq<nat>> {
    m.map_values(|row: Vec<F128>| values_of(row@))
}

/// Two elements are equal exactly when their values are.
pub proof fn lemma_equal_by_value(a: F128, b: F128)
    ensures
        (a@ == b@) == (a == b),
{
}

/// `2^127` is one more than the field's order, so a multiple of it may be
/// replaced by the factor itself.
proof fn lemma_fold(hi: int, lo: int)
    ensures
        (hi * (TWO_127 as int) + lo) % (MODULUS as int) == (hi + lo) % (MODULUS as int),
{
    let q = MODULUS as int;
    assert(hi * (TWO_127 as int) + lo == q * hi + (hi + lo)) by (nonlinear_arith)
        requires
            q + 1 == TWO_127 as int,
    ;
    lemma_mod_multiples_vanish(hi, hi + lo, q);
}

/// The difference of two residues lies one multiple of the order away from
/// its residue at most.
proof fn lemma_sub_residues(a: int, b: int)
    requires
        0 <= a < MODULUS,
        0 <= b < MODULUS,
    ensures
        a >= b ==> (a - b) % (MODULUS as int) == a - b,
        a < b ==> (a - b) % (MODULUS as int) == a - b + MODULUS,
{
    let q = MODULUS as int;
    if a >= b {
        lemma_small_mod((a - b) as nat, q as nat);
    } else {
        lemma_mod_add_multiples_vanish(a - b, q);
        lemma_small_mod((a - b + q) as nat, q as nat);
    }
}

/// The residue of any `u128`.
fn reduce(x: u128) -> (r: u128)
    ensures
        r == x % MODULUS,
        r < MODULUS,
{
    let hi: u128 = x / TWO_127;
    let lo: u128 = x % TWO_127;
    let s: u128 = hi + lo;
    proof {
        lemma_fold(hi as int, lo as int);
    }
    if s >= MODULUS {
        s - MODULUS
    } else {
        s
    }
}

/// The sum of two residues, reduced.
fn add_residues(a: u128, b: u128) -> (r: u128)
    requires
        a < MODULUS,
        b < MODULUS,
    ensures
        r == (a + b) % (MODULUS as int),
        r < MODULUS,
{
    let s: u128 = a + b;
    if s >= MODULUS {
        s - MODULUS
    } else {
        s
    }
}

/// The residue of `m * 2^64`.
fn shift_residue(m: u128) -> (r: u128)
    requires
        m < TWO_127,
    ensures
        r == (m * TWO_64) % (MODULUS as int),
        r < MODULUS,
{
    let mh: u128 = m / TWO_63;
    let ml: u128 = m % TWO_63;
    let folded: u128 = mh + ml * TWO_64;
    proof {
        assert(m * TWO_64 == mh * (TWO_127 as int) + ml * TWO_64) by (nonlinear_arith)
            requires
                m == mh * TWO_63 + ml,
                TWO_63 * TWO_64 == TWO_127,
        ;
        lemma_fold(mh as int, (ml * TWO_64) as int);
    }
    reduce(folded)
}

/// The product of two 64-bit halves fits in 128 bits.
proof fn lemma_half_product(x: u128, y: u128)
    requires
        x < TWO_64,
        y < TWO_64,
    ensures
        x * y <= u128::MAX,
        x < TWO_63 ==> x * y < TWO_127,
        y < TWO_63 ==> x * y < TWO_127,
        x < TWO_63 && y < TWO_63 ==> 2 * (x * y) < TWO_127,
{
    assert(x * y <= (TWO_64 - 1) * (TWO_64 - 1)) by (nonlinear_arith)
        requires
            x <= TWO_64 - 1,
            y <= TWO_64 - 1,
    ;
    if x < TWO_63 {
        assert(x * y <= (TWO_63 - 1) * (TWO_64 - 1)) by (nonlinear_arith)
            requires
                x <= TWO_63 - 1,
                y <= TWO_64 - 1,
        ;
    }
    if y < TWO_63 {
        assert(x * y <= (TWO_64 - 1) * (TWO_63 - 1)) by (nonlinear_arith)
            requires
                x <= TWO_64 - 1,
                y <= TWO_63 - 1,
        ;
    }
    if x < TWO_63 && y < TWO_63 {
        assert(x * y <= (TWO_63 - 1) * (TWO_63 - 1)) by (nonlinear_arith)
            requires
                x <= TWO_63 - 1,
                y <= TWO_63 - 1,
        ;
    }
}

/// The product of two residues, reduced.
fn mul_residues(a: u128, b: u128) -> (r: u128)
    requires
        a < MODULUS,
        b < MODULUS,
    ensures
        r == (a * b) % (MODULUS as int),
        r < MODULUS,
{
    let a1: u128 = a / TWO_64;
    let a0: u128 = a % TWO_64;
    let b1: u128 = b / TWO_64;
    let b0: u128 = b % TWO_64;
    proof {
        lemma_half_product(a0, b0);
        lemma_half_product(a1, b1);
        lemma_half_product(a1, b0);
        lemma_half_product(a0, b1);
    }
    let low: u128 = a0 * b0;
    let high: u128 = a1 * b1;
    let cross_a: u128 = a1 * b0;
    let cross_b: u128 = a0 * b1;
    let t_low: u128 = reduce(low);
    let t_high: u128 = reduce(2 * high);
    let t_a: u128 = shift_residue(cross_a);
    let t_b: u128 = shift_residue(cross_b);
    let left: u128 = add_residues(t_low, t_high);
    let right: u128 = add_residues(t_a, t_b);
    let r: u128 = add_residues(left, right);
    proof {
        let q = MODULUS as int;
        let two_128 = 2 * (TWO_127 as int);
        assert(a * b == high * two_128 + (cross_a * TWO_64 + cross_b * TWO_64) + low)
            by (nonlinear_arith)
            requires
                a == a1 * TWO_64 + a0,
                b == b1 * TWO_64 + b0,
                low == a0 * b0,
                high == a1 * b1,
                cross_a == a1 * b0,
                cross_b == a0 * b1,
                two_128 == TWO_64 * TWO_64,
        ;
        let rest = cross_a * TWO_64 + cross_b * TWO_64 + low;
        assert(high * two_128 + rest == (2 * high) * (TWO_127 as int) + rest) by (nonlinear_arith)
            requires
                two_128 == 2 * (TWO_127 as int),
        ;
        lemma_fold(2 * high, rest);
        assert((a * b) % q == (2 * high + rest) % q);
        lemma_add_mod_noop(t_low as int, t_high as int, q);
        lemma_add_mod_noop(low as int, 2 * high, q);
        lemma_add_mod_noop(t_a as int, t_b as int, q);
        lemma_add_mod_noop(cross_a * TWO_64, cross_b * TWO_64, q);
        lemma_add_mod_noop(left as int, right as int, q);
        lemma_add_mod_noop(low + 2 * high, cross_a * TWO_64 + cross_b * TWO_64, q);
        lemma_mod_twice(low as int, q);
        lemma_mod_twice(2 * high, q);
        lemma_mod_twice(cross_a * TWO_64, q);
        lemma_mod_twice(cross_b * TWO_64, q);
        lemma_mod_twice(low + 2 * high, q);
        lemma_mod_twice(cross_a * TWO_64 + cross_b * TWO_64, q);
    }
    r
}

impl F128 {
    #[verifier::type_invariant]
    spec fn canonical(self) -> bool {
        self.value < MODULUS
    }

    /// The element whose value is the residue of `v`.
    pub closed spec fn element(v: nat) -> F128 {
        F128 { value: (v % field_modulus()) as u128 }
    }

    /// The value of `element(v)` is the residue of `v`.
    pub proof fn lemma_element_value(v: nat)
        ensures
            Self::element(v)@ == v % field_modulus(),
    {
        lemma_mod_bound(v as int, field_modulus() as int);
    }

    /// An element held by the program is the element of its own value.
    pub proof fn lemma_element(x: F128)
        requires
            x@ < field_modulus(),
        ensures
            Self::element(x@) == x,
    {
        lemma_small_mod(x@, field_modulus());
    }

    /// The additive identity.
    pub fn zero() -> (r: F128)
        ensures
            r@ == 0,
    {
        F128 { value: 0 }
    }

    /// The multiplicative identity.
    pub fn one() -> (r: F128)
        ensures
            r@ == 1,
    {
        F128 { value: 1 }
    }

    /// The element with the residue of `x`.
    pub fn from_u128(x: u128) -> (r: F128)
        ensures
            r@ == x as nat % field_modulus(),
            r@ < field_modulus(),
    {
        F128 { value: reduce(x) }
    }

    /// The element with the representative `x`, where `x` is canonical.
    pub fn from_canonical(x: u128) -> (r: Option<F128>)
        ensures
            match r {
                Some(f) => f@ == x && x < field_modulus(),
                None => x >= field_modulus(),
            },
    {
        if x < MODULUS {
            Some(F128 { value: x })
        } else {
            None
        }
    }

    /// The element with the value `x`.
    pub fn from_u64(x: u64) -> (r: F128)
        ensures
            r@ == x as nat,
    {
        F128 { value: x as u128 }
    }

    /// The canonical representative, which lies below the field's order.
    pub fn to_u128(&self) -> (v: u128)
        ensures
            v == self@,
            v < field_modulus(),
    {
        proof {
            use_type_invariant(self);
        }
        self.value
    }

    /// Whether this is the additive identity.
    pub fn is_zero(&self) -> (b: bool)
        ensures
            b == (self@ == 0),
    {
        self.value == 0
    }

    /// The sum of two elements.
    pub fn add(&self, rhs: &F128) -> (r: F128)
        ensures
            r@ == field_add(self@, rhs@),
    {
        proof {
            use_type_invariant(self);
            use_type_invariant(rhs);
        }
        F128 { value: add_residues(self.value, rhs.value) }
    }

    /// The difference of two elements.
    pub fn sub(&self, rhs: &F128) -> (r: F128)
        ensures
            r@ == field_sub(self@, rhs@),
    {
        proof {
            use_type_invariant(self);
            use_type_invariant(rhs);
        }
        proof {
            lemma_sub_residues(self.value as int, rhs.value as int);
        }
        if self.value >= rhs.value {
            F128 { value: self.value - rhs.value }
        } else {
            F128 { value: MODULUS - rhs.value + self.value }
        }
    }

    /// The additive inverse.
    pub fn neg(&self) -> (r: F128)
        ensures
            r@ == field_neg(self@),
    {
        proof {
            use_type_invariant(self);
        }
        proof {
            lemma_sub_residues(0, self.value as int);
        }
        if self.value == 0 {
            F128 { value: 0 }
        } else {
            F128 { value: MODULUS - self.value }
        }
    }

    /// The multiplicative inverse, by Euclid's algorithm; `None` where there
    /// is none, as for zero.
    pub fn inverse(&self) -> (r: Option<F128>)
        ensures
            match r {
                Some(b) => is_inverse_of(self@, b@) && b@ == field_inv(self@),
                None => !invertible(self@),
            },
            r is Some <==> invertible(self@),
    {
        proof {
            use_type_invariant(self);
        }
        let ghost a = self@;
        let mut r0: u128 = MODULUS;
        let mut r1: u128 = self.value;
        let mut t0: F128 = F128::zero();
        let mut t1: F128 = F128::one();
        proof {
            assert(0 * a == 0);
            assert(1 * a == a);
            lemma_mod_self_0(MODULUS as int);
            lemma_small_mod(0, field_modulus());
        }
        while r1 != 0
            invariant
                a == self@,
                r0 <= MODULUS,
                r1 < MODULUS,
                gcd(r0 as nat, r1 as nat) == gcd(field_modulus(), a),
                congruent((t0@ * a) as int, r0 as int),
                congruent((t1@ * a) as int, r1 as int),
            decreases r1,
        {
            let qt: u128 = r0 / r1;
            let r2: u128 = r0 % r1;
            let t2: F128 = t0.sub(&F128::from_u128(qt).mul(&t1));
            proof {
                lemma_euclid_step(a, t0@, t1@, r0 as nat, r1 as nat, qt as nat);
                lemma_fundamental_div_mod(r0 as int, r1 as int);
                lemma_mul_is_commutative(qt as int, r1 as int);
            }
            r0 = r1;
            r1 = r2;
            t0 = t1;
            t1 = t2;
        }
        if r0 == 1 {
            proof {
                use_type_invariant(&t0);
                lemma_small_mod(1, field_modulus());
                lemma_mul_is_commutative(t0@ as int, a as int);
                lemma_inverse_is(a, t0@);
            }
            Some(t0)
        } else {
            proof {
                lemma_no_inverse(a);
            }
            None
        }
    }

    /// The product of two elements.
    pub fn mul(&self, rhs: &F128) -> (r: F128)
        ensures
            r@ == field_mul(self@, rhs@),
    {
        proof {
            use_type_invariant(self);
            use_type_invariant(rhs);
        }
        F128 { value: mul_residues(self.value, rhs.value) }
    }
}

} // verus!
