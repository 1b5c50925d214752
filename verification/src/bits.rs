//! The bit-level model of a bit stream: a byte sequence read as one string of
//! bits, the most significant bit of each byte first.
use vstd::prelude::*;

verus! {

/// Bit `j` of byte `b`, counting from the most significant bit (`j == 0`).
pub open spec fn byte_bit(b: u8, j: int) -> bool {
    (b >> ((7 - j) as u8)) & 1u8 == 1u8
}

/// Bit `i` of `data`, read as one bit string.
pub open spec fn bit_at(data: Seq<u8>, i: int) -> bool {
    byte_bit(data[i / 8], i % 8)
}

/// Bit `i` of `data`, and `false` outside of it.
pub open spec fn bit_or_zero(data: Seq<u8>, i: int) -> bool {
    0 <= i < 8 * data.len() && bit_at(data, i)
}

/// The bits `lo .. hi` of `data`.
pub open spec fn bits_of(data: Seq<u8>, lo: int, hi: int) -> Seq<bool> {
    Seq::new((hi - lo) as nat, |k: int| bit_at(data, lo + k))
}

/// The number of bytes that hold `n` bits.
pub open spec fn bytes_for(n: int) -> int {
    (n + 7) / 8
}

/// The `n` bits that a write of `n` bits takes from `input`: its whole bytes in
/// order, then, where `n` is not a multiple of 8, the `n % 8` low bits of the
/// next byte.
pub open spec fn source_bits(input: Seq<u8>, n: int) -> Seq<bool> {
    Seq::new(
        n as nat,
        |i: int|
            if i < n / 8 * 8 {
                bit_at(input, i)
            } else {
                byte_bit(input[n / 8], 8 - n % 8 + i % 8)
            },
    )
}

/// The byte whose bits, most significant first, are `f(0) .. f(7)`.
pub open spec fn pack_byte(f: spec_fn(int) -> bool) -> u8 {
    (if f(0) { 0x80u8 } else { 0u8 }) | (if f(1) { 0x40u8 } else { 0u8 }) | (if f(2) {
        0x20u8
    } else {
        0u8
    }) | (if f(3) { 0x10u8 } else { 0u8 }) | (if f(4) { 0x08u8 } else { 0u8 }) | (if f(5) {
        0x04u8
    } else {
        0u8
    }) | (if f(6) { 0x02u8 } else { 0u8 }) | (if f(7) { 0x01u8 } else { 0u8 })
}

/// The `len` bytes whose bits, read as one bit string, are `f(0), f(1), ...`.
pub open spec fn pack_bits(f: spec_fn(int) -> bool, len: nat) -> Seq<u8> {
    Seq::new(len, |b: int| pack_byte(|j: int| f(8 * b + j)))
}

pub proof fn lemma_pack_byte_bits(b0: bool, b1: bool, b2: bool, b3: bool, b4: bool, b5: bool, b6: bool, b7: bool)
    by (bit_vector)
    ensures
        ({
            let x = (if b0 { 0x80u8 } else { 0u8 }) | (if b1 { 0x40u8 } else { 0u8 }) | (if b2 {
                0x20u8
            } else {
                0u8
            }) | (if b3 { 0x10u8 } else { 0u8 }) | (if b4 { 0x08u8 } else { 0u8 }) | (if b5 {
                0x04u8
            } else {
                0u8
            }) | (if b6 { 0x02u8 } else { 0u8 }) | (if b7 { 0x01u8 } else { 0u8 });
            &&& ((x >> 7u8) & 1u8 == 1u8) == b0
            &&& ((x >> 6u8) & 1u8 == 1u8) == b1
            &&& ((x >> 5u8) & 1u8 == 1u8) == b2
            &&& ((x >> 4u8) & 1u8 == 1u8) == b3
            &&& ((x >> 3u8) & 1u8 == 1u8) == b4
            &&& ((x >> 2u8) & 1u8 == 1u8) == b5
            &&& ((x >> 1u8) & 1u8 == 1u8) == b6
            &&& ((x >> 0u8) & 1u8 == 1u8) == b7
        }),
{
}

/// The bits of `pack_byte(f)` are those of `f`.
pub proof fn lemma_pack_byte(f: spec_fn(int) -> bool)
    ensures
        forall|j: int| 0 <= j < 8 ==> #[trigger] byte_bit(pack_byte(f), j) == f(j),
{
    lemma_pack_byte_bits(f(0), f(1), f(2), f(3), f(4), f(5), f(6), f(7));
    assert forall|j: int| 0 <= j < 8 implies #[trigger] byte_bit(pack_byte(f), j) == f(j) by {
        if j == 0 {
        } else if j == 1 {
        } else if j == 2 {
        } else if j == 3 {
        } else if j == 4 {
        } else if j == 5 {
        } else if j == 6 {
        } else {
        }
    }
}

proof fn lemma_byte_eq_bits(a: u8, b: u8)
    by (bit_vector)
    requires
        (a >> 7u8) & 1u8 == (b >> 7u8) & 1u8,
        (a >> 6u8) & 1u8 == (b >> 6u8) & 1u8,
        (a >> 5u8) & 1u8 == (b >> 5u8) & 1u8,
        (a >> 4u8) & 1u8 == (b >> 4u8) & 1u8,
        (a >> 3u8) & 1u8 == (b >> 3u8) & 1u8,
        (a >> 2u8) & 1u8 == (b >> 2u8) & 1u8,
        (a >> 1u8) & 1u8 == (b >> 1u8) & 1u8,
        (a >> 0u8) & 1u8 == (b >> 0u8) & 1u8,
    ensures
        a == b,
{
}

proof fn lemma_bit_is_bool(a: u8, s: u8)
    by (bit_vector)
    ensures
        (a >> s) & 1u8 == 0u8 || (a >> s) & 1u8 == 1u8,
{
}

/// Two bytes with the same bits are equal.
pub proof fn lemma_byte_ext(a: u8, b: u8)
    requires
        forall|j: int| 0 <= j < 8 ==> byte_bit(a, j) == byte_bit(b, j),
    ensures
        a == b,
{
    assert forall|s: u8| s < 8 implies (a >> s) & 1u8 == (b >> s) & 1u8 by {
        lemma_bit_is_bool(a, s);
        lemma_bit_is_bool(b, s);
        assert(byte_bit(a, 7 - s) == byte_bit(b, 7 - s));
        assert((7 - (7 - s)) as u8 == s);
    }
    lemma_byte_eq_bits(a, b);
}

/// The bits of two byte sequences, one after the other, are the bits of the
/// two joined.
pub proof fn lemma_bits_of_concat(a: Seq<u8>, b: Seq<u8>)
    ensures
        bits_of(a, 0, (8 * a.len()) as int) + bits_of(b, 0, (8 * b.len()) as int) == bits_of(
            a + b,
            0,
            (8 * (a + b).len()) as int,
        ),
{
    let n = (8 * a.len()) as int;
    assert forall|i: int| 0 <= i < 8 * (a + b).len() implies #[trigger] bits_of(a + b, 0, (8 * (a + b).len()) as int)[i] == (bits_of(a, 0, (8 * a.len()) as int) + bits_of(b, 0, (8 * b.len()) as int))[i] by {
        if i < n {
            assert(i / 8 < a.len());
        } else {
            assert(i / 8 >= a.len());
            assert((i - n) / 8 == i / 8 - a.len());
            assert((i - n) % 8 == i % 8);
        }
    }
    assert(bits_of(a, 0, (8 * a.len()) as int) + bits_of(b, 0, (8 * b.len()) as int) =~= bits_of(
        a + b,
        0,
        (8 * (a + b).len()) as int,
    ));
}

/// Two byte sequences of the same length with the same bits are equal.
pub proof fn lemma_bytes_ext(a: Seq<u8>, b: Seq<u8>)
    requires
        a.len() == b.len(),
        forall|i: int| 0 <= i < 8 * a.len() ==> bit_at(a, i) == bit_at(b, i),
    ensures
        a == b,
{
    assert forall|k: int| 0 <= k < a.len() implies a[k] == b[k] by {
        assert forall|j: int| 0 <= j < 8 implies byte_bit(a[k], j) == byte_bit(b[k], j) by {
            let i = 8 * k + j;
            assert(i / 8 == k && i % 8 == j) by (nonlinear_arith)
                requires
                    i == 8 * k + j,
                    0 <= j < 8,
            ;
            assert(bit_at(a, i) == bit_at(b, i));
        }
        lemma_byte_ext(a[k], b[k]);
    }
    assert(a =~= b);
}

/// The bits of `pack_bits(f, len)` are those of `f`.
pub proof fn lemma_pack_bits(f: spec_fn(int) -> bool, len: nat)
    ensures
        pack_bits(f, len).len() == len,
        forall|i: int| 0 <= i < 8 * len ==> #[trigger] bit_at(pack_bits(f, len), i) == f(i),
{
    assert forall|i: int| 0 <= i < 8 * len implies #[trigger] bit_at(pack_bits(f, len), i) == f(i) by {
        let b = i / 8;
        let j = i % 8;
        assert(0 <= b < len && 8 * b + j == i) by (nonlinear_arith)
            requires
                0 <= i < 8 * len,
                b == i / 8,
                j == i % 8,
        ;
        let g = |j: int| f(8 * b + j);
        lemma_pack_byte(g);
        assert(pack_bits(f, len)[b] == pack_byte(g));
    }
}

/// A byte sequence is determined by its bits: packing them gives it back.
pub proof fn lemma_pack_bits_ext(f: spec_fn(int) -> bool, data: Seq<u8>)
    requires
        forall|i: int| 0 <= i < 8 * data.len() ==> f(i) == bit_at(data, i),
    ensures
        pack_bits(f, data.len()) == data,
{
    lemma_pack_bits(f, data.len());
    lemma_bytes_ext(pack_bits(f, data.len()), data);
}

// Bit-level facts about the byte operations that the bit streams use.
proof fn lemma_or_u8(a: u8, b: u8, s: u8)
    by (bit_vector)
    requires
        s < 8,
    ensures
        (((a | b) >> s) & 1u8 == 1u8) == (((a >> s) & 1u8 == 1u8) || ((b >> s) & 1u8 == 1u8)),
{
}

proof fn lemma_shr_u8(d: u8, m: u8, s: u8)
    by (bit_vector)
    requires
        s < 8,
        m < 8,
    ensures
        (((d >> m) >> s) & 1u8 == 1u8) == (s + m < 8 && ((d >> ((s + m) as u8)) & 1u8 == 1u8)),
{
}

proof fn lemma_shl_u8(d: u8, m: u8, s: u8)
    by (bit_vector)
    requires
        s < 8,
        m < 8,
    ensures
        (((d << m) >> s) & 1u8 == 1u8) == (s >= m && ((d >> ((s - m) as u8)) & 1u8 == 1u8)),
{
}

proof fn lemma_zero_u8(s: u8)
    by (bit_vector)
    requires
        s < 8,
    ensures
        (0u8 >> s) & 1u8 == 0u8,
{
}

/// The bits of `a | b`.
pub proof fn lemma_bit_or(a: u8, b: u8)
    ensures
        forall|j: int|
            0 <= j < 8 ==> #[trigger] byte_bit(a | b, j) == (byte_bit(a, j) || byte_bit(b, j)),
{
    assert forall|j: int| 0 <= j < 8 implies #[trigger] byte_bit(a | b, j) == (byte_bit(a, j)
        || byte_bit(b, j)) by {
        lemma_or_u8(a, b, (7 - j) as u8);
    }
}

/// The bits of `d >> m`.
pub proof fn lemma_bit_shr(d: u8, m: u8)
    requires
        m < 8,
    ensures
        forall|j: int|
            0 <= j < 8 ==> #[trigger] byte_bit(d >> m, j) == (j >= m && byte_bit(d, j - m)),
{
    assert forall|j: int| 0 <= j < 8 implies #[trigger] byte_bit(d >> m, j) == (j >= m
        && byte_bit(d, j - m)) by {
        let s = (7 - j) as u8;
        lemma_shr_u8(d, m, s);
        assert(s + m < 8 <==> j >= m);
        if j >= m {
            assert((s + m) as u8 == (7 - (j - m)) as u8);
        }
    }
}

/// The bits of `d << m`.
pub proof fn lemma_bit_shl(d: u8, m: u8)
    requires
        m < 8,
    ensures
        forall|j: int|
            0 <= j < 8 ==> #[trigger] byte_bit(d << m, j) == (j + m < 8 && byte_bit(d, j + m)),
{
    assert forall|j: int| 0 <= j < 8 implies #[trigger] byte_bit(d << m, j) == (j + m < 8
        && byte_bit(d, j + m)) by {
        let s = (7 - j) as u8;
        lemma_shl_u8(d, m, s);
        if j + m < 8 {
            assert((s - m) as u8 == (7 - (j + m)) as u8);
        }
    }
}

/// The byte 0 has no bit set.
pub proof fn lemma_bit_zero()
    ensures
        forall|j: int| 0 <= j < 8 ==> !#[trigger] byte_bit(0u8, j),
{
    assert forall|j: int| 0 <= j < 8 implies !#[trigger] byte_bit(0u8, j) by {
        lemma_zero_u8((7 - j) as u8);
    }
}

} // verus!
