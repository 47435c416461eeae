//! The seed-homomorphic generator: a public matrix times a secret seed,
//! rounded to a power of two. Adding two seeds adds the outputs up to a
//! rounding error of one.

use crate::crypto::field::{
    congruent, field_add, field_modulus, lemma_congruent_add, lemma_congruent_mul,
    lemma_congruent_residue, matrix_values_of, values_of, F128,
};
use crate::crypto::prg::{
    default_prg, field_sample, generator_position, generator_seed, keystream_word,
    populate_random, prg_from_seed, samples_at, UniformRand,
};
use crate::crypto::util::{
    inner_product, lemma_round_bound, matrix_product, matrix_vector_multiplication, partial_dot,
    round, round_to,
};
use rand_chacha::ChaCha20Rng;
use vstd::arithmetic::div_mod::*;
use vstd::arithmetic::mul::*;
use vstd::prelude::*;

verus! {

/// The length of a seed.
pub const LAMBDA: usize = 3072;

/// The length of an expansion: the number of rows of the public matrix.
pub const OUTPUT_LENGTH: usize = 4096;

/// The modulus that an expansion is rounded to, 2^92.
pub const P: u128 = 0x1000_0000_0000_0000_0000_0000;

/// The field value that is sampled from the keystream of `seed` at
/// `position`.
pub open spec fn field_sample_at(seed: Seq<u8>, position: nat) -> nat {
    field_sample(keystream_word(seed, position), keystream_word(seed, position + 2))
}

/// The matrix of `rows` by `cols` field values that is sampled row by row
/// from the keystream of `seed`, starting at `position`.
pub open spec fn sampled_matrix(seed: Seq<u8>, position: nat, rows: nat, cols: nat) -> Seq<
    Seq<nat>,
> {
    Seq::new(
        rows,
        |i: int|
            Seq::new(cols, |j: int| field_sample_at(seed, position + 4 * ((i * cols + j) as nat))),
    )
}

/// Whether the matrix was sampled row by row from the keystream of some
/// seed, from some position on.
pub open spec fn is_sampled_matrix(matrix: Seq<Seq<nat>>, rows: nat, cols: nat) -> bool {
    exists|seed: Seq<u8>, position: nat| #[trigger]
        sampled_matrix(seed, position, rows, cols) == matrix
}

/// Whether the seed was sampled from the keystream of some seed, from some
/// position on.
pub open spec fn is_sampled_seed(values: Seq<nat>) -> bool {
    exists|seed: Seq<u8>, position: nat|
        values_of(#[trigger] samples_at::<F128>(seed, position, values.len())) == values
}

/// The public matrix that every party derives from the public seed.
pub open spec fn public_matrix(seed: Seq<u8>) -> Seq<Seq<nat>> {
    sampled_matrix(seed, 0, OUTPUT_LENGTH as nat, LAMBDA as nat)
}

/// The expansion of the seed `s` under the matrix `a`: each inner product,
/// rounded to `P`.
pub open spec fn expansion(a: Seq<Seq<nat>>, s: Seq<nat>) -> Seq<nat> {
    Seq::new(a.len(), |i: int| round_to(inner_product(a[i], s), P as nat))
}

/// The sum of two seeds, entry by entry.
pub open spec fn add_seeds(s0: Seq<nat>, s1: Seq<nat>) -> Seq<nat> {
    Seq::new(s0.len(), |k: int| field_add(s0[k], s1[k]))
}

/// The distance of `a` and `b` on the circle of `m` points.
pub open spec fn circular_distance(a: nat, b: nat, m: nat) -> nat {
    let delta = if a >= b {
        a - b
    } else {
        b - a
    };
    if delta <= m - delta {
        delta as nat
    } else {
        (m - delta) as nat
    }
}

/// The partial inner products with a sum of seeds are congruent to the sums
/// of the partial inner products.
proof fn lemma_partial_dot_linear(a: Seq<nat>, s0: Seq<nat>, s1: Seq<nat>, n: nat)
    requires
        s0.len() == s1.len(),
        n <= s0.len(),
    ensures
        congruent(
            partial_dot(a, add_seeds(s0, s1), n) as int,
            (partial_dot(a, s0, n) + partial_dot(a, s1, n)) as int,
        ),
    decreases n,
{
    if n > 0 {
        let k = (n - 1) as int;
        let m = (n - 1) as nat;
        lemma_partial_dot_linear(a, s0, s1, m);
        let (ak, x, y) = (a[k] as int, s0[k] as int, s1[k] as int);
        lemma_congruent_residue(x + y);
        lemma_congruent_mul(ak, ak, (x + y) % (field_modulus() as int), x + y);
        assert(ak * (x + y) == ak * x + ak * y) by (nonlinear_arith);
        lemma_congruent_add(
            partial_dot(a, add_seeds(s0, s1), m) as int,
            (partial_dot(a, s0, m) + partial_dot(a, s1, m)) as int,
            ak * ((x + y) % (field_modulus() as int)),
            ak * x + ak * y,
        );
    }
}

/// The inner product is additive in its second argument.
pub proof fn lemma_inner_product_linear(a: Seq<nat>, s0: Seq<nat>, s1: Seq<nat>)
    requires
        a.len() == s0.len(),
        s0.len() == s1.len(),
    ensures
        inner_product(a, add_seeds(s0, s1)) == field_add(
            inner_product(a, s0),
            inner_product(a, s1),
        ),
{
    lemma_partial_dot_linear(a, s0, s1, a.len());
    lemma_add_mod_noop(
        partial_dot(a, s0, a.len()) as int,
        partial_dot(a, s1, a.len()) as int,
        field_modulus() as int,
    );
}

/// The roundings of two field values add up to the rounding of their sum,
/// plus `P` where the sum wrapped around the field's order, less one where
/// the parts that the roundings cut off add up to a whole. The two numbers
/// that are returned say which: each is zero or one.
pub proof fn lemma_round_sum(x0: nat, x1: nat) -> (r: (int, int))
    requires
        x0 < field_modulus(),
        x1 < field_modulus(),
    ensures
        0 <= r.0 <= 1,
        0 <= r.1 <= 1,
        round_to(x0, P as nat) + round_to(x1, P as nat) == round_to(
            field_add(x0, x1),
            P as nat,
        ) + r.0 * P - r.1,
{
    let q = field_modulus() as int;
    let p = P as int;
    let xs = field_add(x0, x1) as int;
    let r0 = round_to(x0, P as nat) as int;
    let r1 = round_to(x1, P as nat) as int;
    let e0 = (x0 * p) % q;
    let e1 = (x1 * p) % q;
    lemma_fundamental_div_mod(x0 * p, q);
    lemma_fundamental_div_mod(x1 * p, q);
    lemma_mod_bound(x0 * p, q);
    lemma_mod_bound(x1 * p, q);
    let carry: int = if e0 + e1 >= q {
        1
    } else {
        0
    };
    let wrap: int = if x0 + x1 >= q {
        1
    } else {
        0
    };
    if wrap == 1 {
        lemma_mod_add_multiples_vanish(x0 + x1 - q, q);
        lemma_small_mod((x0 + x1 - q) as nat, q as nat);
    } else {
        lemma_small_mod((x0 + x1) as nat, q as nat);
    }
    assert(xs == x0 + x1 - wrap * q);
    let rs = r0 + r1 - wrap * p + carry;
    let es = e0 + e1 - carry * q;
    assert(xs * p == rs * q + es) by (nonlinear_arith)
        requires
            xs == x0 + x1 - wrap * q,
            x0 * p == q * r0 + e0,
            x1 * p == q * r1 + e1,
            rs == r0 + r1 - wrap * p + carry,
            es == e0 + e1 - carry * q,
    ;
    lemma_fundamental_div_mod_converse(xs * p, q, rs, es);
    assert(round_to(xs as nat, P as nat) == rs);
    (wrap, carry)
}

/// Rounding is additive up to one: the rounded sum of two field values lies
/// within one of the sum of their roundings, on the circle of `P` points.
pub proof fn lemma_round_almost_additive(x0: nat, x1: nat)
    requires
        x0 < field_modulus(),
        x1 < field_modulus(),
    ensures
        circular_distance(
            (round_to(x0, P as nat) + round_to(x1, P as nat)) % (P as nat),
            round_to(field_add(x0, x1), P as nat),
            P as nat,
        ) <= 1,
{
    let p = P as int;
    let r0 = round_to(x0, P as nat) as int;
    let r1 = round_to(x1, P as nat) as int;
    let (wrap, carry) = lemma_round_sum(x0, x1);
    lemma_round_bound(x0, P as nat);
    lemma_round_bound(x1, P as nat);
    lemma_mod_bound((x0 + x1) as int, field_modulus() as int);
    lemma_round_bound(field_add(x0, x1), P as nat);
    if r0 + r1 >= p {
        lemma_mod_add_multiples_vanish(r0 + r1 - p, p);
        lemma_small_mod((r0 + r1 - p) as nat, p as nat);
    } else {
        lemma_small_mod((r0 + r1) as nat, p as nat);
    }
}

/// Adding two seeds adds their expansions up to one: under one public
/// matrix, every entry of the expansion of the sum lies within one of the sum
/// of the two entries, on the circle of `P` points.
pub proof fn lemma_almost_homomorphic(a: Seq<Seq<nat>>, s0: Seq<nat>, s1: Seq<nat>, i: int)
    requires
        0 <= i < a.len(),
        a[i].len() == s0.len(),
        s0.len() == s1.len(),
    ensures
        circular_distance(
            (expansion(a, s0)[i] + expansion(a, s1)[i]) % (P as nat),
            expansion(a, add_seeds(s0, s1))[i],
            P as nat,
        ) <= 1,
{
    lemma_inner_product_linear(a[i], s0, s1);
    lemma_mod_bound(partial_dot(a[i], s0, a[i].len()) as int, field_modulus() as int);
    lemma_mod_bound(partial_dot(a[i], s1, a[i].len()) as int, field_modulus() as int);
    lemma_round_almost_additive(inner_product(a[i], s0), inner_product(a[i], s1));
}

/// A vector of `n` zeros.
fn zero_vector(n: usize) -> (v: Vec<F128>)
    ensures
        v@.len() == n,
{
    let mut v: Vec<F128> = Vec::with_capacity(n);
    let mut k: usize = 0;
    while k < n
        invariant
            k <= n,
            v@.len() == k,
        decreases n - k,
    {
        v.push(F128::zero());
        k = k + 1;
    }
    v
}

/// Samples a matrix of `size0` rows and `size1` columns from the generator,
/// row by row.
fn fill_matrix(rng: &mut ChaCha20Rng, size0: usize, size1: usize) -> (m: Vec<Vec<F128>>)
    ensures
        matrix_values_of(m@) == sampled_matrix(
            generator_seed(*old(rng)),
            generator_position(*old(rng)),
            size0 as nat,
            size1 as nat,
        ),
        m@.len() == size0,
        forall|i: int| 0 <= i < size0 ==> (#[trigger] m@[i])@.len() == size1,
{
    let ghost seed = generator_seed(*rng);
    let ghost start = generator_position(*rng);
    let mut m: Vec<Vec<F128>> = Vec::with_capacity(size0);
    let mut i: usize = 0;
    while i < size0
        invariant
            i <= size0,
            m@.len() == i,
            generator_seed(*rng) == seed,
            generator_position(*rng) == start + 4 * (i * size1),
            forall|r: int| 0 <= r < i ==> (#[trigger] m@[r])@.len() == size1,
            forall|r: int, c: int|
                0 <= r < i && 0 <= c < size1 ==> (#[trigger] m@[r]@[c])@ == field_sample_at(
                    seed,
                    start + 4 * ((r * size1 + c) as nat),
                ),
        decreases size0 - i,
    {
        let mut row: Vec<F128> = zero_vector(size1);
        let ghost row_start = generator_position(*rng);
        populate_random(&mut row, rng);
        proof {
            assert((i + 1) * size1 == i * size1 + size1) by (nonlinear_arith);
            assert forall|c: int| 0 <= c < size1 implies (#[trigger] row@[c])@ == field_sample_at(
                seed,
                start + 4 * ((i * size1 + c) as nat),
            ) by {
                assert(row@[c] == F128::sample_at(seed, row_start + (c as nat) * 4));
                F128::lemma_element_value(field_sample_at(seed, row_start + (c as nat) * 4));
                lemma_mod_twice(
                    (keystream_word(seed, row_start + (c as nat) * 4) as nat + (keystream_word(
                        seed,
                        row_start + (c as nat) * 4 + 2,
                    ) as nat % 0x8000_0000_0000_0000) * 0x1_0000_0000_0000_0000) as int,
                    field_modulus() as int,
                );
            }
        }
        m.push(row);
        i = i + 1;
    }
    assert(matrix_values_of(m@) =~~= sampled_matrix(seed, start, size0 as nat, size1 as nat));
    m
}

/// The expansion of a seed under a public matrix: the matrix times the
/// seed, each entry rounded to `P`. Every row has to be as long as the seed.
pub fn expand_with(public_parameter: &Vec<Vec<F128>>, seed: &Vec<F128>) -> (output: Vec<F128>)
    requires
        forall|i: int|
            0 <= i < public_parameter@.len() ==> (#[trigger] public_parameter@[i])@.len()
                == seed@.len(),
    ensures
        values_of(output@) == expansion(matrix_values_of(public_parameter@), values_of(seed@)),
        output@.len() == public_parameter@.len(),
{
    let ghost a = matrix_values_of(public_parameter@);
    let ghost s = values_of(seed@);
    let product = matrix_vector_multiplication(public_parameter, seed);
    let ghost exact = values_of(product@);
    let output = round(product, P);
    proof {
        assert(exact == matrix_product(a, s));
        assert(exact.len() == product@.len());
        assert(a.len() == exact.len());
        assert(values_of(output@).len() == output@.len());
        assert forall|i: int| 0 <= i < output@.len() implies values_of(output@)[i] == expansion(
            a,
            s,
        )[i] by {
            assert(exact[i] == inner_product(a[i], s));
            lemma_mod_bound(partial_dot(a[i], s, a[i].len()) as int, field_modulus() as int);
            lemma_round_bound(exact[i], P as nat);
            lemma_small_mod(round_to(exact[i], P as nat), field_modulus());
        }
        assert(values_of(output@) =~= expansion(a, s));
    }
    output
}

/// A public matrix with a secret seed.
#[derive(Debug)]
pub struct SeedHomomorphicPRG {
    public_parameter: Vec<Vec<F128>>,
    seed: Vec<F128>,
}

impl SeedHomomorphicPRG {
    #[verifier::type_invariant]
    spec fn well_formed(self) -> bool {
        &&& self.public_parameter@.len() == OUTPUT_LENGTH
        &&& self.seed@.len() == LAMBDA
        &&& forall|i: int|
            0 <= i < self.public_parameter@.len() ==> (
            #[trigger] self.public_parameter@[i])@.len() == LAMBDA
    }

    /// The values of the public matrix, row by row.
    pub closed spec fn matrix(&self) -> Seq<Seq<nat>> {
        matrix_values_of(self.public_parameter@)
    }

    /// The values of the seed.
    pub closed spec fn seed_values(&self) -> Seq<nat> {
        values_of(self.seed@)
    }

    /// A generator with a fresh public matrix and a fresh seed.
    pub fn new() -> (prg: Self)
        ensures
            is_sampled_matrix(prg.matrix(), OUTPUT_LENGTH as nat, LAMBDA as nat),
            is_sampled_seed(prg.seed_values()),
            prg.matrix().len() == OUTPUT_LENGTH,
            prg.seed_values().len() == LAMBDA,
    {
        Self {
            public_parameter: Self::sample_public_parameter(OUTPUT_LENGTH, LAMBDA),
            seed: Self::sample_seed(LAMBDA),
        }
    }

    /// A generator with the public matrix of `seed` and a fresh seed of its
    /// own.
    pub fn new_from_public_seed(seed: [u8; 32]) -> (prg: Self)
        ensures
            prg.matrix() == public_matrix(seed@),
            is_sampled_seed(prg.seed_values()),
            prg.seed_values().len() == LAMBDA,
    {
        Self {
            public_parameter: Self::expand_public_parameter(OUTPUT_LENGTH, LAMBDA, seed),
            seed: Self::sample_seed(LAMBDA),
        }
    }

    /// A generator with the public matrix of `public_seed` and the given
    /// seed, which has to be `LAMBDA` long.
    pub fn new_from_both_seeds(public_seed: [u8; 32], seed: Vec<F128>) -> (prg: Self)
        requires
            seed@.len() == LAMBDA,
        ensures
            prg.matrix() == public_matrix(public_seed@),
            prg.seed_values() == values_of(seed@),
    {
        Self {
            public_parameter: Self::expand_public_parameter(OUTPUT_LENGTH, LAMBDA, public_seed),
            seed,
        }
    }

    /// The expansion of the seed: the matrix times the seed, each entry
    /// rounded to `P`.
    pub fn expand(&self) -> (output: Vec<F128>)
        ensures
            values_of(output@) == expansion(self.matrix(), self.seed_values()),
            output@.len() == OUTPUT_LENGTH,
    {
        proof {
            use_type_invariant(self);
        }
        expand_with(&self.public_parameter, &self.seed)
    }

    /// A matrix sampled from a generator that the system seeded.
    fn sample_public_parameter(size0: usize, size1: usize) -> (m: Vec<Vec<F128>>)
        ensures
            is_sampled_matrix(matrix_values_of(m@), size0 as nat, size1 as nat),
            m@.len() == size0,
            forall|i: int| 0 <= i < size0 ==> (#[trigger] m@[i])@.len() == size1,
    {
        let mut rng = default_prg();
        fill_matrix(&mut rng, size0, size1)
    }

    /// The matrix of `size0` rows and `size1` columns that is sampled row by
    /// row from the start of the keystream of `seed`.
    pub fn expand_public_parameter(size0: usize, size1: usize, seed: [u8; 32]) -> (m: Vec<
        Vec<F128>,
    >)
        ensures
            matrix_values_of(m@) == sampled_matrix(seed@, 0, size0 as nat, size1 as nat),
            m@.len() == size0,
            forall|i: int| 0 <= i < size0 ==> (#[trigger] m@[i])@.len() == size1,
    {
        let mut rng = prg_from_seed(seed);
        fill_matrix(&mut rng, size0, size1)
    }

    /// A seed sampled from a generator that the system seeded.
    fn sample_seed(size: usize) -> (seed: Vec<F128>)
        ensures
            is_sampled_seed(values_of(seed@)),
            seed@.len() == size,
    {
        let mut rng = default_prg();
        let mut seed = zero_vector(size);
        let ghost drawn = samples_at::<F128>(
            generator_seed(rng),
            generator_position(rng),
            size as nat,
        );
        populate_random(&mut seed, &mut rng);
        assert(values_of(seed@).len() == size);
        assert(values_of(drawn) == values_of(seed@));
        seed
    }

    /// The seed.
    pub fn get_seed(&self) -> (seed: &Vec<F128>)
        ensures
            values_of(seed@) == self.seed_values(),
            seed@.len() == LAMBDA,
    {
        proof {
            use_type_invariant(self);
        }
        &self.seed
    }

    /// The public matrix, row by row.
    pub fn get_public_parameter(&self) -> (m: &Vec<Vec<F128>>)
        ensures
            matrix_values_of(m@) == self.matrix(),
            m@.len() == OUTPUT_LENGTH,
            forall|i: int| 0 <= i < m@.len() ==> (#[trigger] m@[i])@.len() == LAMBDA,
    {
        proof {
            use_type_invariant(self);
        }
        &self.public_parameter
    }
}

} // verus!
