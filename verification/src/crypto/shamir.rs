//! Shamir secret sharing over the field: a secret is the constant term of a
//! random polynomial, a share is a point on it, and the secret is recovered by
//! Lagrange interpolation at zero.

use crate::crypto::field::{
    field_add, field_inv, field_mul, field_neg, field_sub, invertible, values_of, F128,
};
use crate::crypto::prg::{generator_position, generator_seed, samples_at, UniformRand};
use rand_chacha::ChaCha20Rng;
use vstd::arithmetic::div_mod::*;
use vstd::arithmetic::mul::*;
use vstd::prelude::*;

verus! {

/// The parameters of a sharing: how many shares are dealt, and how many of
/// them recover the secret.
#[derive(Clone, Copy, Debug)]
pub struct Shamir {
    num_shares: usize,
    threshold: usize,
}

/// Why a sharing or a reconstruction was refused.
#[derive(Clone, Copy, Debug, PartialEq, Eq, Structural)]
pub enum ShamirError {
    /// The threshold is below two.
    InvalidThreshold,
    /// Fewer shares are dealt than the threshold asks for.
    InvalidNumShares,
    /// Fewer shares were given than the threshold asks for.
    InsufficientShares,
    /// A denominator of the interpolation has no inverse.
    ReconstructionFailed,
}

/// The value at `x` of the polynomial with the coefficients `coeffs`, the
/// constant term first.
pub open spec fn poly_eval(coeffs: Seq<nat>, x: nat) -> nat
    decreases coeffs.len(),
{
    if coeffs.len() == 0 {
        0
    } else {
        field_add(field_mul(poly_eval(coeffs.skip(1), x), x), coeffs[0])
    }
}

/// The first `n` shares of the polynomial with the coefficients `coeffs`:
/// its points at 1, 2, and so on.
pub open spec fn shares_of(coeffs: Seq<nat>, n: nat) -> Seq<(nat, nat)> {
    Seq::new(n, |i: int| ((i + 1) as nat, poly_eval(coeffs, (i + 1) as nat)))
}

/// The values of a sequence of shares.
pub open spec fn points_of(shares: Seq<(F128, F128)>) -> Seq<(nat, nat)> {
    shares.map_values(|s: (F128, F128)| (s.0@, s.1@))
}

/// The product of `-x_j` over the first `n` points but the `i`-th.
pub open spec fn lagrange_numerator(points: Seq<(nat, nat)>, i: int, n: nat) -> nat
    decreases n,
{
    if n == 0 {
        1
    } else if n - 1 == i {
        lagrange_numerator(points, i, (n - 1) as nat)
    } else {
        field_mul(lagrange_numerator(points, i, (n - 1) as nat), field_neg(points[n - 1].0))
    }
}

/// The product of `x_i - x_j` over the first `n` points but the `i`-th.
pub open spec fn lagrange_denominator(points: Seq<(nat, nat)>, i: int, n: nat) -> nat
    decreases n,
{
    if n == 0 {
        1
    } else if n - 1 == i {
        lagrange_denominator(points, i, (n - 1) as nat)
    } else {
        field_mul(
            lagrange_denominator(points, i, (n - 1) as nat),
            field_sub(points[i].0, points[n - 1].0),
        )
    }
}

/// The `i`-th term of the interpolation at zero through the first `t`
/// points: `y_i` times the `i`-th Lagrange basis polynomial at zero.
pub open spec fn lagrange_term(points: Seq<(nat, nat)>, i: int, t: nat) -> nat {
    field_mul(
        points[i].1,
        field_mul(lagrange_numerator(points, i, t), field_inv(lagrange_denominator(points, i, t))),
    )
}

/// The sum of the first `n` terms of the interpolation at zero through the
/// first `t` points.
pub open spec fn lagrange_sum(points: Seq<(nat, nat)>, t: nat, n: nat) -> nat
    decreases n,
{
    if n == 0 {
        0
    } else {
        field_add(lagrange_sum(points, t, (n - 1) as nat), lagrange_term(points, n - 1, t))
    }
}

/// The value at zero of the polynomial of degree below `t` through the first
/// `t` points.
pub open spec fn interpolate_at_zero(points: Seq<(nat, nat)>, t: nat) -> nat {
    lagrange_sum(points, t, t)
}

/// Whether every denominator of the interpolation through the first `t`
/// points has an inverse.
pub open spec fn denominators_invertible(points: Seq<(nat, nat)>, t: nat) -> bool {
    forall|i: int| 0 <= i < t ==> invertible(#[trigger] lagrange_denominator(points, i, t))
}

/// The denominators of an interpolation are those of any other through
/// points with the same `x`.
pub proof fn lemma_denominator_of_x(p: Seq<(nat, nat)>, q: Seq<(nat, nat)>, i: int, n: nat)
    requires
        0 <= i < p.len(),
        n <= p.len(),
        p.len() == q.len(),
        forall|k: int| 0 <= k < p.len() ==> (#[trigger] p[k]).0 == q[k].0,
    ensures
        lagrange_denominator(p, i, n) == lagrange_denominator(q, i, n),
    decreases n,
{
    if n > 0 {
        lemma_denominator_of_x(p, q, i, (n - 1) as nat);
        assert(p[n - 1].0 == q[n - 1].0);
        assert(p[i].0 == q[i].0);
    }
}

/// Whether the denominators of an interpolation have inverses is a matter
/// of the `x` of its points alone.
pub proof fn lemma_denominators_of_x(p: Seq<(nat, nat)>, q: Seq<(nat, nat)>, t: nat)
    requires
        t <= p.len(),
        p.len() == q.len(),
        forall|k: int| 0 <= k < p.len() ==> (#[trigger] p[k]).0 == q[k].0,
    ensures
        denominators_invertible(p, t) == denominators_invertible(q, t),
{
    assert forall|i: int| 0 <= i < t implies lagrange_denominator(p, i, t)
        == lagrange_denominator(q, i, t) by {
        lemma_denominator_of_x(p, q, i, t);
    }
    if denominators_invertible(p, t) {
        assert forall|i: int| 0 <= i < t implies invertible(
            #[trigger] lagrange_denominator(q, i, t),
        ) by {
            assert(invertible(lagrange_denominator(p, i, t)));
        }
    }
    if denominators_invertible(q, t) {
        assert forall|i: int| 0 <= i < t implies invertible(
            #[trigger] lagrange_denominator(p, i, t),
        ) by {
            assert(invertible(lagrange_denominator(q, i, t)));
        }
    }
}

/// The shares of the polynomial with the given coefficients, the constant
/// term first, at 1, 2, up to `num_shares`.
pub fn evaluate_shares(coeffs: &Vec<F128>, num_shares: usize) -> (shares: Vec<(F128, F128)>)
    ensures
        points_of(shares@) == shares_of(values_of(coeffs@), num_shares as nat),
{
    let ghost c = values_of(coeffs@);
    let mut shares: Vec<(F128, F128)> = Vec::with_capacity(num_shares);
    let mut i: usize = 0;
    while i < num_shares
        invariant
            i <= num_shares,
            shares@.len() == i,
            c == values_of(coeffs@),
            forall|k: int|
                0 <= k < i ==> (#[trigger] shares@[k]).0@ == k + 1 && shares@[k].1@ == poly_eval(
                    c,
                    (k + 1) as nat,
                ),
        decreases num_shares - i,
    {
        let x: F128 = F128::from_u64((i + 1) as u64);
        let mut y: F128 = F128::zero();
        let mut k: usize = coeffs.len();
        assert(c.skip(k as int).len() == 0);
        while k > 0
            invariant
                k <= coeffs@.len(),
                c == values_of(coeffs@),
                x@ == i + 1,
                y@ == poly_eval(c.skip(k as int), x@),
            decreases k,
        {
            k = k - 1;
            proof {
                assert(c.skip(k as int).skip(1) =~= c.skip(k + 1));
                assert(c.skip(k as int)[0] == coeffs@[k as int]@);
            }
            y = y.mul(&x).add(&coeffs[k]);
        }
        assert(c.skip(0) =~= c);
        shares.push((x, y));
        i = i + 1;
    }
    assert(points_of(shares@) =~= shares_of(c, num_shares as nat));
    shares
}

impl Shamir {
    /// The parameters as given; `share` and `reconstruct` test them.
    pub fn new(num_shares: usize, threshold: usize) -> (s: Self)
        ensures
            s.spec_num_shares() == num_shares,
            s.spec_threshold() == threshold,
    {
        Self { num_shares, threshold }
    }

    /// The coefficients that `share` draws for `secret` from a generator of
    /// the given seed at the given position: the secret, then `threshold - 1`
    /// samples.
    pub open spec fn coefficients(self, secret: nat, seed: Seq<u8>, position: nat) -> Seq<nat> {
        seq![secret] + values_of(
            samples_at::<F128>(seed, position, (self.spec_threshold() - 1) as nat),
        )
    }

    /// Deals `num_shares` shares of `secret`: the points at 1, 2, and so on
    /// of a polynomial of degree `threshold - 1` whose constant term is the
    /// secret and whose other coefficients are sampled from `rng`. A
    /// threshold below two is refused, and after it fewer shares than the
    /// threshold; the generator is then left as it was.
    pub fn share(&self, secret: F128, rng: &mut ChaCha20Rng) -> (r: Result<
        Vec<(F128, F128)>,
        ShamirError,
    >)
        ensures
            match r {
                Ok(shares) => {
                    &&& self.spec_threshold() >= 2
                    &&& self.spec_num_shares() >= self.spec_threshold()
                    &&& points_of(shares@) == shares_of(
                        self.coefficients(
                            secret@,
                            generator_seed(*old(rng)),
                            generator_position(*old(rng)),
                        ),
                        self.spec_num_shares() as nat,
                    )
                    &&& generator_seed(*final(rng)) == generator_seed(*old(rng))
                    &&& generator_position(*final(rng)) == generator_position(*old(rng)) + 4 * (
                    self.spec_threshold() - 1)
                },
                Err(e) => {
                    &&& *final(rng) == *old(rng)
                    &&& e == ShamirError::InvalidThreshold <==> self.spec_threshold() < 2
                    &&& e == ShamirError::InvalidNumShares <==> self.spec_threshold() >= 2
                        && self.spec_num_shares() < self.spec_threshold()
                    &&& e == ShamirError::InvalidThreshold || e == ShamirError::InvalidNumShares
                },
            },
    {
        if self.threshold < 2 {
            return Err(ShamirError::InvalidThreshold);
        }
        if self.num_shares < self.threshold {
            return Err(ShamirError::InvalidNumShares);
        }
        let degree: usize = self.threshold - 1;
        let ghost seed = generator_seed(*rng);
        let ghost start = generator_position(*rng);
        let mut coeffs: Vec<F128> = Vec::with_capacity(self.threshold);
        coeffs.push(secret);
        let mut k: usize = 0;
        while k < degree
            invariant
                k <= degree,
                coeffs@.len() == k + 1,
                coeffs@[0] == secret,
                generator_seed(*rng) == seed,
                generator_position(*rng) == start + 4 * k,
                forall|j: int|
                    0 <= j < k ==> #[trigger] coeffs@[j + 1] == F128::sample_at(
                        seed,
                        start + (j as nat) * 4,
                    ),
            decreases degree - k,
        {
            let c: F128 = F128::rand(rng);
            coeffs.push(c);
            k = k + 1;
        }
        assert(values_of(coeffs@) =~= self.coefficients(secret@, seed, start)) by {
            assert forall|j: int| 0 <= j < coeffs@.len() implies values_of(coeffs@)[j]
                == self.coefficients(secret@, seed, start)[j] by {
                if j > 0 {
                    assert(coeffs@[(j - 1) + 1] == F128::sample_at(
                        seed,
                        start + ((j - 1) as nat) * 4,
                    ));
                }
            }
        }
        Ok(evaluate_shares(&coeffs, self.num_shares))
    }

    /// Recovers the secret from the first `threshold` of the given shares, by
    /// interpolation at zero. Fewer shares than the threshold are refused; so
    /// are shares of which a denominator has no inverse, as it is where two
    /// of them have the same `x`.
    pub fn reconstruct(&self, shares: &[(F128, F128)]) -> (r: Result<F128, ShamirError>)
        ensures
            match r {
                Ok(secret) => {
                    &&& shares@.len() >= self.spec_threshold()
                    &&& denominators_invertible(points_of(shares@), self.spec_threshold() as nat)
                    &&& secret@ == interpolate_at_zero(
                        points_of(shares@),
                        self.spec_threshold() as nat,
                    )
                },
                Err(e) => {
                    &&& e == ShamirError::InsufficientShares <==> shares@.len() < self.spec_threshold()
                    &&& e == ShamirError::ReconstructionFailed <==> shares@.len()
                        >= self.spec_threshold() && !denominators_invertible(
                        points_of(shares@),
                        self.spec_threshold() as nat,
                    )
                    &&& e == ShamirError::InsufficientShares || e
                        == ShamirError::ReconstructionFailed
                },
            },
    {
        if shares.len() < self.threshold {
            return Err(ShamirError::InsufficientShares);
        }
        let k: usize = self.threshold;
        let ghost points = points_of(shares@);
        let mut secret: F128 = F128::zero();
        let mut i: usize = 0;
        while i < k
            invariant
                i <= k,
                k == self.threshold,
                k <= shares@.len(),
                points == points_of(shares@),
                secret@ == lagrange_sum(points, k as nat, i as nat),
                forall|j: int|
                    0 <= j < i ==> invertible(#[trigger] lagrange_denominator(points, j, k as nat)),
            decreases k - i,
        {
            let xi: F128 = shares[i].0;
            let yi: F128 = shares[i].1;
            let mut numerator: F128 = F128::one();
            let mut denominator: F128 = F128::one();
            let mut j: usize = 0;
            while j < k
                invariant
                    j <= k,
                    i < k,
                    k <= shares@.len(),
                    points == points_of(shares@),
                    xi == shares@[i as int].0,
                    numerator@ == lagrange_numerator(points, i as int, j as nat),
                    denominator@ == lagrange_denominator(points, i as int, j as nat),
                decreases k - j,
            {
                if i != j {
                    let xj: F128 = shares[j].0;
                    numerator = numerator.mul(&xj.neg());
                    denominator = denominator.mul(&xi.sub(&xj));
                }
                j = j + 1;
            }
            let denom_inv: F128 = match denominator.inverse() {
                Some(inv) => inv,
                None => {
                    return Err(ShamirError::ReconstructionFailed);
                },
            };
            let li_at_zero: F128 = numerator.mul(&denom_inv);
            secret = secret.add(&yi.mul(&li_at_zero));
            i = i + 1;
        }
        Ok(secret)
    }

    /// The number of shares that recover a secret.
    pub closed spec fn spec_threshold(&self) -> usize {
        self.threshold
    }

    /// The number of shares that are dealt.
    pub closed spec fn spec_num_shares(&self) -> usize {
        self.num_shares
    }

    /// The number of shares that recover a secret.
    #[verifier::when_used_as_spec(spec_threshold)]
    pub fn threshold(&self) -> (t: usize)
        ensures
            t == self.spec_threshold(),
    {
        self.threshold
    }

    /// The number of shares that are dealt.
    #[verifier::when_used_as_spec(spec_num_shares)]
    pub fn num_shares(&self) -> (n: usize)
        ensures
            n == self.spec_num_shares(),
    {
        self.num_shares
    }
}

} // verus!
