//! Packing of narrow unsigned integers into 32-bit words, the first one in
//! the lowest bits, and the way back.

use vstd::arithmetic::div_mod::*;
use vstd::arithmetic::mul::*;
use vstd::arithmetic::power2::{lemma2_to64, pow2};
use vstd::prelude::*;

verus! {

/// An unsigned integer type of 8, 16 or 32 bits.
pub trait Packable: Copy + Sized {
    /// The width of the type in bits.
    spec fn bit_width() -> nat;

    /// The value as a number.
    spec fn unsigned(self) -> nat;

    /// The width is 8, 16 or 32.
    proof fn lemma_width()
        ensures
            Self::bit_width() == 8 || Self::bit_width() == 16 || Self::bit_width() == 32,
    ;

    /// A value fits in the width of its type, and tells the element.
    proof fn lemma_unsigned(x: Self, y: Self)
        ensures
            x.unsigned() < pow2(Self::bit_width()),
            x.unsigned() == y.unsigned() ==> x == y,
    ;

    /// The width of the type in bits.
    fn bits() -> (b: usize)
        ensures
            b == Self::bit_width(),
    ;

    /// The value, widened.
    fn into_u32(self) -> (r: u32)
        ensures
            r == self.unsigned(),
    ;

    /// The element of a value that fits.
    fn from_u32(v: u32) -> (r: Self)
        requires
            v < pow2(Self::bit_width()),
        ensures
            r.unsigned() == v,
    ;
}

impl Packable for u8 {
    open spec fn bit_width() -> nat {
        8
    }

    open spec fn unsigned(self) -> nat {
        self as nat
    }

    proof fn lemma_width() {
    }

    proof fn lemma_unsigned(x: Self, y: Self) {
        lemma2_to64();
    }

    fn bits() -> (b: usize) {
        8
    }

    fn into_u32(self) -> (r: u32) {
        self as u32
    }

    fn from_u32(v: u32) -> (r: Self) {
        proof {
            lemma2_to64();
        }
        v as u8
    }
}

impl Packable for u16 {
    open spec fn bit_width() -> nat {
        16
    }

    open spec fn unsigned(self) -> nat {
        self as nat
    }

    proof fn lemma_width() {
    }

    proof fn lemma_unsigned(x: Self, y: Self) {
        lemma2_to64();
    }

    fn bits() -> (b: usize) {
        16
    }

    fn into_u32(self) -> (r: u32) {
        self as u32
    }

    fn from_u32(v: u32) -> (r: Self) {
        proof {
            lemma2_to64();
        }
        v as u16
    }
}

impl Packable for u32 {
    open spec fn bit_width() -> nat {
        32
    }

    open spec fn unsigned(self) -> nat {
        self as nat
    }

    proof fn lemma_width() {
    }

    proof fn lemma_unsigned(x: Self, y: Self) {
        lemma2_to64();
    }

    fn bits() -> (b: usize) {
        32
    }

    fn into_u32(self) -> (r: u32) {
        self
    }

    fn from_u32(v: u32) -> (r: Self) {
        v
    }
}

/// The values of a sequence of elements.
pub open spec fn unsigned_values<T: Packable>(s: Seq<T>) -> Seq<nat> {
    s.map_values(|x: T| x.unsigned())
}

/// The `k`-th value, or zero past the end.
pub open spec fn slot(vals: Seq<nat>, k: int) -> nat {
    if 0 <= k < vals.len() {
        vals[k]
    } else {
        0
    }
}

/// The number of fields of `bits` bits in a word.
pub open spec fn fields_per_word(bits: nat) -> nat {
    if bits == 8 {
        4
    } else if bits == 16 {
        2
    } else {
        1
    }
}

/// The word that holds `count` values from `start` on, each in a field of
/// `bits` bits, the first one lowest.
pub open spec fn packed_word(vals: Seq<nat>, bits: nat, start: int, count: nat) -> nat
    decreases count,
{
    if count == 0 {
        0
    } else {
        packed_word(vals, bits, start, (count - 1) as nat) + slot(vals, start + count - 1) * pow2(
            ((count - 1) * bits) as nat,
        )
    }
}

/// The words that hold all the values, the last one filled up with zeros.
pub open spec fn packed(vals: Seq<nat>, bits: nat) -> Seq<u32> {
    let f = fields_per_word(bits);
    Seq::new(
        ((vals.len() + f - 1) / f as int) as nat,
        |w: int| packed_word(vals, bits, w * f, f) as u32,
    )
}

/// The `k`-th field of the words.
pub open spec fn field_at(words: Seq<u32>, bits: nat, k: int) -> nat {
    let f = fields_per_word(bits) as int;
    (words[k / f] as nat / pow2(((k % f) * bits) as nat)) % pow2(bits)
}

/// All the fields of the words, in order.
pub open spec fn unpacked(words: Seq<u32>, bits: nat) -> Seq<nat> {
    Seq::new(words.len() * fields_per_word(bits), |k: int| field_at(words, bits, k))
}

/// The values followed by as many zeros as fill the last word.
pub open spec fn padded(vals: Seq<nat>, bits: nat) -> Seq<nat> {
    Seq::new(packed(vals, bits).len() * fields_per_word(bits), |k: int| slot(vals, k))
}

proof fn lemma_shifts()
    ensures
        1u32 << 8u32 == 0x100,
        1u32 << 16u32 == 0x1_0000,
{
    assert(1u32 << 8u32 == 0x100) by (bit_vector);
    assert(1u32 << 16u32 == 0x1_0000) by (bit_vector);
}

/// Setting a field that is still empty adds its value at the field's place.
proof fn lemma_place(acc: u32, x: u32, s: u32)
    by (bit_vector)
    requires
        s == 0 || s == 8 || s == 16 || s == 24,
        acc < (1u32 << s),
        x <= (0xffff_ffffu32 >> s),
    ensures
        s == 0 ==> (acc | (x << s)) == acc + x,
        s == 8 ==> (acc | (x << s)) == acc + x * 0x100,
        s == 16 ==> (acc | (x << s)) == acc + x * 0x1_0000,
        s == 24 ==> (acc | (x << s)) == acc + x * 0x100_0000,
{
}

/// The bounds that `lemma_place` asks for, from the sizes of the parts.
proof fn lemma_place_bounds(acc: u32, x: u32, s: u32)
    by (bit_vector)
    requires
        (s == 0 && acc == 0) || (s == 8 && acc < 0x100 && x <= 0xffff) || (s == 16 && acc
            < 0x1_0000 && x <= 0xffff) || (s == 24 && acc < 0x100_0000 && x <= 0xff),
    ensures
        acc < (1u32 << s),
        x <= (0xffff_ffffu32 >> s),
{
}

/// Shifting and masking reads the field at a place.
proof fn lemma_extract(word: u32, s: u32, mask: u32)
    by (bit_vector)
    requires
        s == 0 || s == 8 || s == 16 || s == 24,
        mask == 0xff || mask == 0xffff || mask == 0xffff_ffff,
    ensures
        mask == 0xff && s == 0 ==> ((word >> s) & mask) == word % 0x100,
        mask == 0xff && s == 8 ==> ((word >> s) & mask) == (word / 0x100) % 0x100,
        mask == 0xff && s == 16 ==> ((word >> s) & mask) == (word / 0x1_0000) % 0x100,
        mask == 0xff && s == 24 ==> ((word >> s) & mask) == (word / 0x100_0000) % 0x100,
        mask == 0xffff && s == 0 ==> ((word >> s) & mask) == word % 0x1_0000,
        mask == 0xffff && s == 16 ==> ((word >> s) & mask) == (word / 0x1_0000) % 0x1_0000,
        mask == 0xffff_ffff && s == 0 ==> ((word >> s) & mask) == word,
{
}

proof fn lemma_masked(x: u32, mask: u32)
    by (bit_vector)
    requires
        mask == 0xff || mask == 0xffff || mask == 0xffff_ffff,
        x <= mask,
    ensures
        x & mask == x,
{
}

/// A product by a factor of known value.
proof fn lemma_times(x: nat, p: nat, k: nat)
    by (nonlinear_arith)
    requires
        p == k,
    ensures
        x * p == x * k,
{
}

/// A field read with a divisor and a modulus of known values.
proof fn lemma_div_mod_by(x: nat, d: nat, k: nat, m: nat, l: nat)
    by (nonlinear_arith)
    requires
        d == k,
        m == l,
        k > 0,
        l > 0,
    ensures
        (x / d) % m == (x / k) % l,
{
}

/// The places that the fields of a word are shifted to, written out.
proof fn lemma_fields(bits: nat, c: nat)
    requires
        bits == 8 || bits == 16 || bits == 32,
        c < fields_per_word(bits),
    ensures
        c * bits == (if bits == 8 {
            8 * c
        } else if bits == 16 {
            16 * c
        } else {
            0
        }),
        c * bits + bits <= 32,
        32int / (bits as int) == fields_per_word(bits),
        pow2(0) == 1,
        pow2(8) == 0x100,
        pow2(16) == 0x1_0000,
        pow2(24) == 0x100_0000,
        pow2(32) == 0x1_0000_0000,
{
    lemma2_to64();
    if bits == 8 {
        assert(c * bits == 8 * c) by (nonlinear_arith)
            requires
                bits == 8,
        ;
        assert(32int / (bits as int) == 4) by (nonlinear_arith)
            requires
                bits == 8,
        ;
    } else if bits == 16 {
        assert(c * bits == 16 * c) by (nonlinear_arith)
            requires
                bits == 16,
        ;
        assert(32int / (bits as int) == 2) by (nonlinear_arith)
            requires
                bits == 16,
        ;
    } else {
        assert(c * bits == 0) by (nonlinear_arith)
            requires
                c == 0,
        ;
        assert(32int / (bits as int) == 1) by (nonlinear_arith)
            requires
                bits == 32,
        ;
    }
}

/// One more field in a word adds its value at the field's place, which is
/// `scale`.
proof fn lemma_word_step(vals: Seq<nat>, bits: nat, start: int, count: nat, scale: nat)
    requires
        count > 0,
        pow2(((count - 1) * bits) as nat) == scale,
    ensures
        packed_word(vals, bits, start, count) == packed_word(
            vals,
            bits,
            start,
            (count - 1) as nat,
        ) + slot(vals, start + count - 1) * scale,
{
    lemma_times(slot(vals, start + count - 1), pow2(((count - 1) * bits) as nat), scale);
}

/// The words of up to four fields, written out.
proof fn lemma_word_unrolled(vals: Seq<nat>, bits: nat, start: int)
    requires
        bits == 8 || bits == 16 || bits == 32,
    ensures
        packed_word(vals, bits, start, 0) == 0,
        packed_word(vals, bits, start, 1) == slot(vals, start),
        bits == 16 ==> packed_word(vals, bits, start, 2) == slot(vals, start) + slot(
            vals,
            start + 1,
        ) * 0x1_0000,
        bits == 8 ==> packed_word(vals, bits, start, 2) == slot(vals, start) + slot(
            vals,
            start + 1,
        ) * 0x100,
        bits == 8 ==> packed_word(vals, bits, start, 3) == slot(vals, start) + slot(
            vals,
            start + 1,
        ) * 0x100 + slot(vals, start + 2) * 0x1_0000,
        bits == 8 ==> packed_word(vals, bits, start, 4) == slot(vals, start) + slot(
            vals,
            start + 1,
        ) * 0x100 + slot(vals, start + 2) * 0x1_0000 + slot(vals, start + 3) * 0x100_0000,
{
    lemma_fields(bits, 0);
    lemma_word_step(vals, bits, start, 1, 1);
    if bits == 8 {
        lemma_fields(bits, 1);
        lemma_fields(bits, 2);
        lemma_fields(bits, 3);
        lemma_word_step(vals, bits, start, 2, 0x100);
        lemma_word_step(vals, bits, start, 3, 0x1_0000);
        lemma_word_step(vals, bits, start, 4, 0x100_0000);
    } else if bits == 16 {
        lemma_fields(bits, 1);
        lemma_word_step(vals, bits, start, 2, 0x1_0000);
    }
}

/// A slot of values that fit holds a value that fits.
proof fn lemma_slot_bound(vals: Seq<nat>, bits: nat, k: int)
    requires
        forall|j: int| 0 <= j < vals.len() ==> #[trigger] vals[j] < pow2(bits),
    ensures
        slot(vals, k) < pow2(bits),
{
    vstd::arithmetic::power2::lemma_pow2_pos(bits);
    if 0 <= k < vals.len() {
        assert(vals[k] < pow2(bits));
    }
}

/// The digit at a place of a number written in a radix.
proof fn lemma_digit(low: nat, d: nat, high: nat, place: nat, radix: nat)
    requires
        low < place,
        d < radix,
    ensures
        ((low + d * place + high * (place * radix)) / place) % radix == d,
{
    let x = (low + d * place + high * (place * radix)) as int;
    let upper = (d + high * radix) as int;
    assert(x == upper * place + low) by (nonlinear_arith)
        requires
            x == low + d * place + high * (place * radix),
            upper == d + high * radix,
    ;
    lemma_fundamental_div_mod_converse(x, place as int, upper, low as int);
    lemma_fundamental_div_mod_converse(upper, radix as int, high as int, d as int);
}

/// The fields of a word of four 8-bit values.
proof fn lemma_fields_of_8(d0: nat, d1: nat, d2: nat, d3: nat)
    requires
        d0 < 0x100,
        d1 < 0x100,
        d2 < 0x100,
        d3 < 0x100,
    ensures
        ({
            let word = d0 + d1 * 0x100 + d2 * 0x1_0000 + d3 * 0x100_0000;
            &&& word < 0x1_0000_0000
            &&& (word / 1) % 0x100 == d0
            &&& (word / 0x100) % 0x100 == d1
            &&& (word / 0x1_0000) % 0x100 == d2
            &&& (word / 0x100_0000) % 0x100 == d3
        }),
{
    lemma_digit(0, d0, d1 + d2 * 0x100 + d3 * 0x1_0000, 1, 0x100);
    lemma_digit(d0, d1, d2 + d3 * 0x100, 0x100, 0x100);
    lemma_digit(d0 + d1 * 0x100, d2, d3, 0x1_0000, 0x100);
    lemma_digit(d0 + d1 * 0x100 + d2 * 0x1_0000, d3, 0, 0x100_0000, 0x100);
}

/// The fields of a word of two 16-bit values.
proof fn lemma_fields_of_16(d0: nat, d1: nat)
    requires
        d0 < 0x1_0000,
        d1 < 0x1_0000,
    ensures
        ({
            let word = d0 + d1 * 0x1_0000;
            &&& word < 0x1_0000_0000
            &&& (word / 1) % 0x1_0000 == d0
            &&& (word / 0x1_0000) % 0x1_0000 == d1
        }),
{
    lemma_digit(0, d0, d1, 1, 0x1_0000);
    lemma_digit(d0, d1, 0, 0x1_0000, 0x1_0000);
}

/// A word of values that fit is a 32-bit word, and each field of it holds
/// its value.
proof fn lemma_word_fields(vals: Seq<nat>, bits: nat, start: int, c: int)
    requires
        bits == 8 || bits == 16 || bits == 32,
        forall|j: int| 0 <= j < vals.len() ==> #[trigger] vals[j] < pow2(bits),
        0 <= c < fields_per_word(bits),
    ensures
        packed_word(vals, bits, start, fields_per_word(bits)) < 0x1_0000_0000,
        (packed_word(vals, bits, start, fields_per_word(bits)) / pow2((c * bits) as nat)) % pow2(
            bits,
        ) == slot(vals, start + c),
{
    let d0 = slot(vals, start);
    let d1 = slot(vals, start + 1);
    let d2 = slot(vals, start + 2);
    let d3 = slot(vals, start + 3);
    let word = packed_word(vals, bits, start, fields_per_word(bits));
    let place = pow2((c * bits) as nat);
    let radix = pow2(bits);
    let k: nat = if c == 0 {
        1
    } else if c == 3 {
        0x100_0000
    } else if c == 2 || bits == 16 {
        0x1_0000
    } else {
        0x100
    };
    let l: nat = if bits == 8 {
        0x100
    } else if bits == 16 {
        0x1_0000
    } else {
        0x1_0000_0000
    };
    assert(place == k && radix == l) by {
        lemma_fields(bits, c as nat);
    }
    assert(d0 < l && d1 < l && d2 < l && d3 < l) by {
        lemma_slot_bound(vals, bits, start);
        lemma_slot_bound(vals, bits, start + 1);
        lemma_slot_bound(vals, bits, start + 2);
        lemma_slot_bound(vals, bits, start + 3);
    }
    lemma_div_mod_by(word, place, k, radix, l);
    lemma_word_unrolled(vals, bits, start);
    if bits == 8 {
        lemma_fields_of_8(d0, d1, d2, d3);
    } else if bits == 16 {
        lemma_fields_of_16(d0, d1);
    } else {
        lemma_digit(0, d0, 0, 1, 0x1_0000_0000);
    }
}

/// The mask of the low `bits` bits.
pub open spec fn field_mask(bits: nat) -> u32 {
    if bits == 8 {
        0xff
    } else if bits == 16 {
        0xffff
    } else {
        0xffff_ffff
    }
}

/// Packs the elements into 32-bit words, as many to a word as fit, the first
/// one in the lowest bits; the last word is filled up with zeros.
pub fn pack_vector<T: Packable>(vector: &Vec<T>) -> (out: Vec<u32>)
    ensures
        out@ == packed(unsigned_values(vector@), T::bit_width()),
{
    let bitwidth: usize = T::bits();
    let ghost bits = T::bit_width();
    let ghost vals = unsigned_values(vector@);
    proof {
        T::lemma_width();
        lemma_shifts();
        lemma_fields(bits, 0);
    }
    if vector.len() == 0 {
        let out: Vec<u32> = Vec::new();
        assert(out@ =~= packed(vals, bits)) by {
            lemma_fundamental_div_mod_converse(
                fields_per_word(bits) - 1,
                fields_per_word(bits) as int,
                0,
                fields_per_word(bits) - 1,
            );
        }
        return out;
    }
    let compression_factor: usize = 32 / bitwidth;
    let mask: u32 = if bitwidth == 32 {
        u32::MAX
    } else {
        (1u32 << (bitwidth as u32)) - 1
    };
    let mut out: Vec<u32> = Vec::new();
    let mut acc: u32 = 0;
    let mut count: usize = 0;
    let mut idx: usize = 0;
    let ghost mut base: int = 0;
    proof {
        lemma_word_unrolled(vals, bits, 0);
        assert forall|j: int| 0 <= j < vals.len() implies #[trigger] vals[j] < pow2(bits) by {
            T::lemma_unsigned(vector@[j], vector@[j]);
        }
        assert(0 * compression_factor == 0);
    }
    while idx < vector.len()
        invariant
            bits == T::bit_width(),
            bits == 8 || bits == 16 || bits == 32,
            bitwidth == bits,
            compression_factor == fields_per_word(bits),
            mask == field_mask(bits),
            vals == unsigned_values(vector@),
            forall|j: int| 0 <= j < vals.len() ==> #[trigger] vals[j] < pow2(bits),
            idx <= vector@.len(),
            count < compression_factor,
            base == out@.len() * compression_factor,
            idx == base + count,
            acc == packed_word(vals, bits, base, count as nat),
            forall|w: int|
                0 <= w < out@.len() ==> #[trigger] out@[w] == packed_word(
                    vals,
                    bits,
                    w * compression_factor,
                    compression_factor as nat,
                ),
        decreases vector@.len() - idx,
    {
        let x: u32 = vector[idx].into_u32();
        proof {
            lemma_fields(bits, count as nat);
        }
        let shift: u32 = (count * bitwidth) as u32;
        proof {
            lemma_word_unrolled(vals, bits, base);
            lemma_slot_bound(vals, bits, base);
            lemma_slot_bound(vals, bits, base + 1);
            lemma_slot_bound(vals, bits, base + 2);
            lemma_slot_bound(vals, bits, base + 3);
            assert(x == slot(vals, base + count));
            lemma_masked(x, mask);
            lemma_place_bounds(acc, x, shift);
            lemma_place(acc, x, shift);
        }
        acc = acc | ((x & mask) << shift);
        count = count + 1;
        assert(acc == packed_word(vals, bits, base, count as nat));
        if count == compression_factor {
            out.push(acc);
            proof {
                assert((out@.len() - 1) * compression_factor + compression_factor == out@.len()
                    * compression_factor) by (nonlinear_arith);
                base = base + compression_factor;
            }
            acc = 0;
            count = 0;
            proof {
                lemma_word_unrolled(vals, bits, base);
            }
        }
        idx = idx + 1;
    }
    let ghost full = out@.len() as int;
    if count > 0 {
        proof {
            lemma_word_unrolled(vals, bits, base);
        }
        out.push(acc);
    }
    proof {
        let f = compression_factor as int;
        let n = vector@.len() as int;
        assert(vals.len() == n);
        if count > 0 {
            assert((full + 1) * f == full * f + f) by (nonlinear_arith);
            lemma_fundamental_div_mod_converse(n + f - 1, f, full + 1, count - 1);
        } else {
            lemma_fundamental_div_mod_converse(n + f - 1, f, full, f - 1);
        }
        assert(out@ =~= packed(vals, bits));
    }
    out
}

/// Unpacks every field of every word, the lowest first: as many elements to
/// a word as fit.
pub fn unpack_vector<T: Packable>(vector: &Vec<u32>) -> (out: Vec<T>)
    ensures
        unsigned_values(out@) == unpacked(vector@, T::bit_width()),
{
    let bitwidth: usize = T::bits();
    let ghost bits = T::bit_width();
    proof {
        T::lemma_width();
        lemma_shifts();
        lemma_fields(bits, 0);
    }
    if vector.len() == 0 {
        let out: Vec<T> = Vec::new();
        assert(0 * fields_per_word(bits) == 0);
        assert(unsigned_values(out@) =~= unpacked(vector@, bits));
        return out;
    }
    let compression_factor: usize = 32 / bitwidth;
    let mask: u32 = if bitwidth == 32 {
        u32::MAX
    } else {
        (1u32 << (bitwidth as u32)) - 1
    };
    let mut out: Vec<T> = Vec::new();
    let mut w: usize = 0;
    assert(0 * compression_factor == 0);
    while w < vector.len()
        invariant
            bits == T::bit_width(),
            bits == 8 || bits == 16 || bits == 32,
            bitwidth == bits,
            compression_factor == fields_per_word(bits),
            mask == field_mask(bits),
            w <= vector@.len(),
            out@.len() == w * compression_factor,
            forall|k: int|
                0 <= k < out@.len() ==> (#[trigger] out@[k]).unsigned() == field_at(
                    vector@,
                    bits,
                    k,
                ),
        decreases vector@.len() - w,
    {
        let word: u32 = vector[w];
        let mut i: usize = 0;
        while i < compression_factor
            invariant
                bits == T::bit_width(),
                bits == 8 || bits == 16 || bits == 32,
                bitwidth == bits,
                compression_factor == fields_per_word(bits),
                mask == field_mask(bits),
                w < vector@.len(),
                word == vector@[w as int],
                i <= compression_factor,
                out@.len() == w * compression_factor + i,
                forall|k: int|
                    0 <= k < out@.len() ==> (#[trigger] out@[k]).unsigned() == field_at(
                        vector@,
                        bits,
                        k,
                    ),
            decreases compression_factor - i,
        {
            proof {
                lemma_fields(bits, i as nat);
            }
            let shift: u32 = (i * bitwidth) as u32;
            let val: u32 = (word >> shift) & mask;
            proof {
                lemma_extract(word, shift, mask);
                let f = compression_factor as int;
                let k = w * f + i;
                lemma_fundamental_div_mod_converse(k, f, w as int, i as int);
                let place = pow2((i * bits) as nat);
                let radix = pow2(bits);
                let wide = word as nat;
                assert(place == pow2(((k % f) * bits) as nat));
                assert(vector@[k / f] == word);
                assert(field_at(vector@, bits, k) == (wide / place) % radix);
                if bits == 8 {
                    if i == 0 {
                        lemma_div_mod_by(wide, place, 1, radix, 0x100);
                        assert((wide / 1) % 0x100 == val);
                    } else if i == 1 {
                        lemma_div_mod_by(wide, place, 0x100, radix, 0x100);
                        assert((wide / 0x100) % 0x100 == val);
                    } else if i == 2 {
                        lemma_div_mod_by(wide, place, 0x1_0000, radix, 0x100);
                        assert((wide / 0x1_0000) % 0x100 == val);
                    } else {
                        lemma_div_mod_by(wide, place, 0x100_0000, radix, 0x100);
                        assert((wide / 0x100_0000) % 0x100 == val);
                    }
                } else if bits == 16 {
                    if i == 0 {
                        lemma_div_mod_by(wide, place, 1, radix, 0x1_0000);
                        assert((wide / 1) % 0x1_0000 == val);
                    } else {
                        lemma_div_mod_by(wide, place, 0x1_0000, radix, 0x1_0000);
                        assert((wide / 0x1_0000) % 0x1_0000 == val);
                    }
                } else {
                    lemma_div_mod_by(wide, place, 1, radix, 0x1_0000_0000);
                    assert(i == 0 && shift == 0);
                    assert(val == word);
                    assert(wide / 1 == wide);
                    lemma_small_mod(wide, 0x1_0000_0000);
                    assert((wide / 1) % 0x1_0000_0000 == val);
                }
                assert(val == field_at(vector@, bits, k));
                lemma_mod_bound((word as nat / place) as int, radix as int);
            }
            out.push(T::from_u32(val));
            i = i + 1;
        }
        proof {
            assert(w * compression_factor + compression_factor == (w + 1) * compression_factor)
                by (nonlinear_arith);
        }
        w = w + 1;
    }
    assert(unsigned_values(out@) =~= unpacked(vector@, bits));
    out
}

/// Unpacking what was packed gives the values back, followed by the zeros
/// that filled the last word.
pub proof fn lemma_unpack_pack(vals: Seq<nat>, bits: nat)
    requires
        bits == 8 || bits == 16 || bits == 32,
        forall|k: int| 0 <= k < vals.len() ==> #[trigger] vals[k] < pow2(bits),
    ensures
        unpacked(packed(vals, bits), bits) == padded(vals, bits),
        vals.len() % fields_per_word(bits) == 0 ==> unpacked(packed(vals, bits), bits) == vals,
{
    let f = fields_per_word(bits) as int;
    let words = packed(vals, bits);
    lemma_fields(bits, 0);
    assert forall|k: int| 0 <= k < words.len() * f implies field_at(words, bits, k) == slot(
        vals,
        k,
    ) by {
        let w = k / f;
        let c = k % f;
        lemma_fundamental_div_mod(k, f);
        lemma_mod_bound(k, f);
        lemma_mul_is_commutative(f, w);
        assert(0 <= w < words.len()) by {
            if w >= words.len() {
                lemma_mul_inequality(words.len() as int, w, f);
            }
            if w < 0 {
                lemma_mul_inequality(w, -1, f);
            }
        }
        lemma_word_fields(vals, bits, w * f, c);
    }
    assert(unpacked(words, bits) =~= padded(vals, bits));
    if vals.len() % (f as nat) == 0 {
        let n = vals.len() as int;
        lemma_fundamental_div_mod(n, f);
        lemma_mul_is_commutative(f, n / f);
        lemma_fundamental_div_mod_converse(n + f - 1, f, n / f, f - 1);
        assert(padded(vals, bits) =~= vals);
    }
}

} // verus!
