//! The byte formats of field vectors and of matrices of them: a length as 8
//! bytes, then each value as 16 bytes, all little-endian. A matrix is the
//! number of its rows, then each row as a vector.

use crate::crypto::field::{field_modulus, matrix_values_of, values_of, F128};
use vstd::bytes::*;
use vstd::prelude::*;
use vstd::slice::slice_subrange;

verus! {

/// The bytes of a vector of field values.
pub open spec fn encoded_vector(vals: Seq<nat>) -> Seq<u8> {
    spec_u64_to_le_bytes(vals.len() as u64) + Seq::new(
        16 * vals.len(),
        |i: int| spec_u128_to_le_bytes(vals[i / 16] as u128)[i % 16],
    )
}

/// The bytes of the rows of a matrix, one vector after the other.
pub open spec fn encoded_rows(rows: Seq<Seq<nat>>) -> Seq<u8>
    decreases rows.len(),
{
    if rows.len() == 0 {
        Seq::empty()
    } else {
        encoded_rows(rows.drop_last()) + encoded_vector(rows.last())
    }
}

/// The bytes of a matrix of field values.
pub open spec fn encoded_matrix(rows: Seq<Seq<nat>>) -> Seq<u8> {
    spec_u64_to_le_bytes(rows.len() as u64) + encoded_rows(rows)
}

/// The length that the 8 bytes at `start` give.
pub open spec fn length_at(bytes: Seq<u8>, start: int) -> nat {
    spec_u64_from_le_bytes(bytes.subrange(start, start + 8)) as nat
}

/// The `k`-th value of the vector that begins at `start`.
pub open spec fn element_at(bytes: Seq<u8>, start: int, k: int) -> nat {
    spec_u128_from_le_bytes(bytes.subrange(start + 8 + 16 * k, start + 24 + 16 * k)) as nat
}

/// Whether a vector begins at `start`: its length and all its values lie
/// within the bytes, and every value is canonical.
pub open spec fn vector_fits_at(bytes: Seq<u8>, start: int) -> bool {
    &&& 0 <= start
    &&& start + 8 <= bytes.len()
    &&& start + 8 + 16 * length_at(bytes, start) <= bytes.len()
    &&& forall|k: int|
        0 <= k < length_at(bytes, start) ==> #[trigger] element_at(bytes, start, k)
            < field_modulus()
}

/// The vector that begins at `start`.
pub open spec fn vector_at(bytes: Seq<u8>, start: int) -> Seq<nat> {
    Seq::new(length_at(bytes, start), |k: int| element_at(bytes, start, k))
}

/// The place right after the vector that begins at `start`.
pub open spec fn vector_end(bytes: Seq<u8>, start: int) -> int {
    start + 8 + 16 * length_at(bytes, start)
}

/// The `count` vectors that follow one another from `start` on, with the
/// place after the last; `None` where one of them does not fit.
pub open spec fn rows_at(bytes: Seq<u8>, start: int, count: nat) -> Option<(Seq<Seq<nat>>, int)>
    decreases count,
{
    if count == 0 {
        Some((Seq::empty(), start))
    } else {
        match rows_at(bytes, start, (count - 1) as nat) {
            Some((rows, pos)) => if vector_fits_at(bytes, pos) {
                Some((rows.push(vector_at(bytes, pos)), vector_end(bytes, pos)))
            } else {
                None
            },
            None => None,
        }
    }
}

/// The matrix that begins at `start`, with the place after it; `None` where
/// it does not fit.
pub open spec fn matrix_at(bytes: Seq<u8>, start: int) -> Option<(Seq<Seq<nat>>, int)> {
    if 0 <= start && start + 8 <= bytes.len() {
        rows_at(bytes, start + 8, length_at(bytes, start))
    } else {
        None
    }
}

/// Appends the bytes of a vector to `out`.
pub fn write_field_vector(v: &Vec<F128>, out: &mut Vec<u8>)
    ensures
        final(out)@ == old(out)@ + encoded_vector(values_of(v@)),
{
    let ghost before = out@;
    let ghost vals = values_of(v@);
    let mut head = u64_to_le_bytes(v.len() as u64);
    out.append(&mut head);
    let mut k: usize = 0;
    while k < v.len()
        invariant
            k <= v@.len(),
            vals == values_of(v@),
            out@ == before + spec_u64_to_le_bytes(v@.len() as u64) + Seq::new(
                16 * (k as nat),
                |i: int| spec_u128_to_le_bytes(vals[i / 16] as u128)[i % 16],
            ),
        decreases v@.len() - k,
    {
        let ghost so_far = out@;
        let mut item = u128_to_le_bytes(v[k].to_u128());
        out.append(&mut item);
        proof {
            assert(out@ =~= before + spec_u64_to_le_bytes(v@.len() as u64) + Seq::new(
                16 * ((k + 1) as nat),
                |i: int| spec_u128_to_le_bytes(vals[i / 16] as u128)[i % 16],
            ));
        }
        k = k + 1;
    }
    assert(out@ =~= before + encoded_vector(vals));
}

/// Appends the bytes of a matrix to `out`.
pub fn write_field_matrix(m: &Vec<Vec<F128>>, out: &mut Vec<u8>)
    ensures
        final(out)@ == old(out)@ + encoded_matrix(matrix_values_of(m@)),
{
    let ghost before = out@;
    let ghost rows = matrix_values_of(m@);
    let mut head = u64_to_le_bytes(m.len() as u64);
    out.append(&mut head);
    let mut k: usize = 0;
    assert(rows.take(0) =~= Seq::<Seq<nat>>::empty());
    while k < m.len()
        invariant
            k <= m@.len(),
            rows == matrix_values_of(m@),
            out@ == before + spec_u64_to_le_bytes(m@.len() as u64) + encoded_rows(
                rows.take(k as int),
            ),
        decreases m@.len() - k,
    {
        write_field_vector(&m[k], out);
        proof {
            let next = rows.take(k + 1);
            assert(next.drop_last() =~= rows.take(k as int));
            assert(next.last() == values_of(m@[k as int]@));
            assert(out@ =~= before + spec_u64_to_le_bytes(m@.len() as u64) + encoded_rows(next));
        }
        k = k + 1;
    }
    assert(rows.take(m@.len() as int) =~= rows);
    assert(out@ =~= before + encoded_matrix(rows));
}

/// The bytes of a vector.
pub fn serialize_field_vector(v: &Vec<F128>) -> (out: Vec<u8>)
    ensures
        out@ == encoded_vector(values_of(v@)),
{
    let mut out: Vec<u8> = Vec::new();
    write_field_vector(v, &mut out);
    assert(out@ =~= encoded_vector(values_of(v@)));
    out
}

/// Reads the vector that begins at `start`, and gives it with the place
/// after it; `None` where no vector fits there.
pub fn read_field_vector(bytes: &[u8], start: usize) -> (r: Option<(Vec<F128>, usize)>)
    ensures
        match r {
            Some((v, end)) => {
                &&& vector_fits_at(bytes@, start as int)
                &&& values_of(v@) == vector_at(bytes@, start as int)
                &&& end == vector_end(bytes@, start as int)
            },
            None => !vector_fits_at(bytes@, start as int),
        },
{
    let total: usize = bytes.len();
    if total < 8 || start > total - 8 {
        return None;
    }
    let n: u64 = u64_from_le_bytes(slice_subrange(bytes, start, start + 8));
    let room: usize = (total - start - 8) / 16;
    if n > room as u64 {
        return None;
    }
    let count: usize = n as usize;
    let mut v: Vec<F128> = Vec::new();
    let mut k: usize = 0;
    while k < count
        invariant
            k <= count,
            count == length_at(bytes@, start as int),
            start + 8 + 16 * count <= bytes@.len(),
            total == bytes@.len(),
            v@.len() == k,
            forall|j: int|
                0 <= j < k ==> #[trigger] element_at(bytes@, start as int, j) < field_modulus()
                    && v@[j]@ == element_at(bytes@, start as int, j),
        decreases count - k,
    {
        let at: usize = start + 8 + 16 * k;
        let x: u128 = u128_from_le_bytes(slice_subrange(bytes, at, at + 16));
        match F128::from_canonical(x) {
            Some(f) => {
                v.push(f);
            },
            None => {
                assert(element_at(bytes@, start as int, k as int) >= field_modulus());
                return None;
            },
        }
        k = k + 1;
    }
    assert(values_of(v@) =~= vector_at(bytes@, start as int));
    Some((v, start + 8 + 16 * count))
}

/// Reads the matrix that begins at `start`, and gives it with the place
/// after it; `None` where no matrix fits there.
pub fn read_field_matrix(bytes: &[u8], start: usize) -> (r: Option<(Vec<Vec<F128>>, usize)>)
    ensures
        match r {
            Some((m, end)) => matrix_at(bytes@, start as int) == Some(
                (matrix_values_of(m@), end as int),
            ),
            None => matrix_at(bytes@, start as int) is None,
        },
{
    let total: usize = bytes.len();
    if total < 8 || start > total - 8 {
        return None;
    }
    let n: u64 = u64_from_le_bytes(slice_subrange(bytes, start, start + 8));
    let mut m: Vec<Vec<F128>> = Vec::new();
    let mut pos: usize = start + 8;
    let mut k: u64 = 0;
    assert(matrix_values_of(m@) =~= Seq::<Seq<nat>>::empty());
    while k < n
        invariant
            k <= n,
            n == length_at(bytes@, start as int),
            0 <= start,
            start + 8 <= bytes@.len(),
            rows_at(bytes@, start + 8, k as nat) == Some((matrix_values_of(m@), pos as int)),
        decreases n - k,
    {
        let ghost rows = matrix_values_of(m@);
        match read_field_vector(bytes, pos) {
            Some((row, end)) => {
                m.push(row);
                pos = end;
                proof {
                    assert(matrix_values_of(m@) =~= rows.push(values_of(row@)));
                }
            },
            None => {
                proof {
                    lemma_rows_fail(bytes@, start + 8, (k + 1) as nat, n as nat);
                }
                return None;
            },
        }
        k = k + 1;
    }
    Some((m, pos))
}

/// Where the first `count` rows do not fit, no greater number of rows does.
proof fn lemma_rows_fail(bytes: Seq<u8>, start: int, count: nat, more: nat)
    requires
        rows_at(bytes, start, count) is None,
        count <= more,
    ensures
        rows_at(bytes, start, more) is None,
    decreases more,
{
    if count < more {
        lemma_rows_fail(bytes, start, count, (more - 1) as nat);
    }
}

/// The bytes of a vector are 8 for its length and 16 for each value.
pub proof fn lemma_encoded_length(vals: Seq<nat>)
    ensures
        encoded_vector(vals).len() == 8 + 16 * vals.len(),
{
    lemma_auto_spec_u64_to_from_le_bytes();
}

/// What was written as a vector is read back as it was, whatever stands
/// before and after it.
pub proof fn lemma_vector_round_trip(prefix: Seq<u8>, vals: Seq<nat>, suffix: Seq<u8>)
    requires
        vals.len() <= u64::MAX,
        forall|k: int| 0 <= k < vals.len() ==> #[trigger] vals[k] < field_modulus(),
    ensures
        encoded_vector(vals).len() == 8 + 16 * vals.len(),
        vector_fits_at(prefix + encoded_vector(vals) + suffix, prefix.len() as int),
        vector_at(prefix + encoded_vector(vals) + suffix, prefix.len() as int) == vals,
        vector_end(prefix + encoded_vector(vals) + suffix, prefix.len() as int) == prefix.len()
            + encoded_vector(vals).len(),
{
    let bytes = prefix + encoded_vector(vals) + suffix;
    let start = prefix.len() as int;
    lemma_auto_spec_u64_to_from_le_bytes();
    lemma_auto_spec_u128_to_from_le_bytes();
    let head = spec_u64_to_le_bytes(vals.len() as u64);
    assert(head.len() == 8);
    assert(bytes.subrange(start, start + 8) =~= head);
    assert(length_at(bytes, start) == vals.len());
    assert forall|k: int| 0 <= k < vals.len() implies #[trigger] element_at(bytes, start, k)
        == vals[k] by {
        let item = spec_u128_to_le_bytes(vals[k] as u128);
        assert(item.len() == 16);
        assert(bytes.subrange(start + 8 + 16 * k, start + 24 + 16 * k) =~= item) by {
            assert forall|i: int| 0 <= i < 16 implies bytes[start + 8 + 16 * k + i]
                == item[i] by {
                assert((16 * k + i) / 16 == k);
                assert((16 * k + i) % 16 == i);
            }
        }
    }
    assert(vector_at(bytes, start) =~= vals);
}

/// The bytes of the rows of a matrix are read back as the rows, whatever
/// stands before and after them.
proof fn lemma_rows_round_trip(prefix: Seq<u8>, rows: Seq<Seq<nat>>, suffix: Seq<u8>)
    requires
        forall|i: int| 0 <= i < rows.len() ==> (#[trigger] rows[i]).len() <= u64::MAX,
        forall|i: int, k: int|
            0 <= i < rows.len() && 0 <= k < rows[i].len() ==> #[trigger] rows[i][k]
                < field_modulus(),
    ensures
        rows_at(prefix + encoded_rows(rows) + suffix, prefix.len() as int, rows.len()) == Some(
            (rows, (prefix.len() + encoded_rows(rows).len()) as int),
        ),
    decreases rows.len(),
{
    let bytes = prefix + encoded_rows(rows) + suffix;
    let start = prefix.len() as int;
    if rows.len() == 0 {
        assert(rows =~= Seq::<Seq<nat>>::empty());
    } else {
        let before = rows.drop_last();
        let last = rows.last();
        let head = prefix + encoded_rows(before);
        assert forall|i: int, k: int|
            0 <= i < before.len() && 0 <= k < before[i].len() implies #[trigger] before[i][k]
            < field_modulus() by {
            assert(before[i] == rows[i]);
            assert(rows[i][k] < field_modulus());
        }
        assert forall|i: int| 0 <= i < before.len() implies (#[trigger] before[i]).len()
            <= u64::MAX by {
            assert(before[i] == rows[i]);
        }
        // the bytes are the rows before the last, then the last row and the rest
        assert(bytes =~= prefix + encoded_rows(before) + (encoded_vector(last) + suffix));
        lemma_rows_round_trip(prefix, before, encoded_vector(last) + suffix);
        assert(bytes =~= head + encoded_vector(last) + suffix);
        assert forall|k: int| 0 <= k < last.len() implies #[trigger] last[k]
            < field_modulus() by {
            assert(rows[rows.len() - 1][k] < field_modulus());
        }
        lemma_vector_round_trip(head, last, suffix);
        assert(before.push(last) =~= rows);
    }
}

/// What was written as a matrix is read back as it was, whatever stands
/// before and after it.
pub proof fn lemma_matrix_round_trip(prefix: Seq<u8>, rows: Seq<Seq<nat>>, suffix: Seq<u8>)
    requires
        rows.len() <= u64::MAX,
        forall|i: int| 0 <= i < rows.len() ==> (#[trigger] rows[i]).len() <= u64::MAX,
        forall|i: int, k: int|
            0 <= i < rows.len() && 0 <= k < rows[i].len() ==> #[trigger] rows[i][k]
                < field_modulus(),
    ensures
        matrix_at(prefix + encoded_matrix(rows) + suffix, prefix.len() as int) == Some(
            (rows, (prefix.len() + encoded_matrix(rows).len()) as int),
        ),
{
    let bytes = prefix + encoded_matrix(rows) + suffix;
    let start = prefix.len() as int;
    lemma_auto_spec_u64_to_from_le_bytes();
    let head = spec_u64_to_le_bytes(rows.len() as u64);
    assert(head.len() == 8);
    assert(bytes.subrange(start, start + 8) =~= head);
    assert(bytes =~= (prefix + head) + encoded_rows(rows) + suffix);
    lemma_rows_round_trip(prefix + head, rows, suffix);
}

} // verus!
