//! The bit model of a packed hypervector: bit `k` is bit `7 - k % 8` of byte
//! `k / 8`, so the first bit of each byte is its most significant one.

use vstd::prelude::*;

verus! {

/// Bit `j` (0 = most significant) of a byte.
pub open spec fn byte_bit(x: u8, j: int) -> bool {
    (x >> ((7 - j) as u8)) & 1u8 == 1u8
}

/// Bit `k` of a packed bit sequence.
pub open spec fn bit_at(s: Seq<u8>, k: int) -> bool {
    byte_bit(s[k / 8], k % 8)
}

/// Bit `j` of a byte, with the position as a machine integer.
pub proof fn lemma_byte_bit_u8(x: u8, j: u8)
    requires
        j < 8,
    ensures
        byte_bit(x, j as int) == ((x >> ((7u8 - j) as u8)) & 1u8 == 1u8),
{
    assert((7 - j as int) as u8 == 7u8 - j);
}

/// The bits of `(x << b) | (y >> (8 - b))`: the high part comes from `x`
/// moved up by `b`, the low part from the top of `y`.
pub proof fn lemma_shift_left_pair(x: u8, y: u8, b: u8, j: u8)
    requires
        1 <= b < 8,
        j < 8,
    ensures
        byte_bit(((x << b) | (y >> ((8u8 - b) as u8))) as u8, j as int) == if j + b < 8 {
            byte_bit(x, (j + b) as int)
        } else {
            byte_bit(y, (j + b - 8) as int)
        },
{
    let z = ((x << b) | (y >> ((8u8 - b) as u8))) as u8;
    lemma_byte_bit_u8(z, j);
    if j + b < 8 {
        let jb = (j + b) as u8;
        lemma_byte_bit_u8(x, jb);
        assert(((((x << b) | (y >> ((8u8 - b) as u8))) as u8 >> ((7u8 - j) as u8)) & 1u8) == ((x >> ((7u8 - jb) as u8))
            & 1u8)) by (bit_vector)
            requires
                1 <= b < 8,
                j < 8,
                jb == j + b,
                jb < 8,
        ;
    } else {
        let jb = (j + b - 8) as u8;
        lemma_byte_bit_u8(y, jb);
        assert(((((x << b) | (y >> ((8u8 - b) as u8))) as u8 >> ((7u8 - j) as u8)) & 1u8) == ((y >> ((7u8 - jb) as u8))
            & 1u8)) by (bit_vector)
            requires
                1 <= b < 8,
                j < 8,
                jb + 8 == j + b,
        ;
    }
}

/// The bits of `(x >> b) | (y << (8 - b))`: the low part comes from `x`
/// moved down by `b`, the high part from the bottom of `y`.
pub proof fn lemma_shift_right_pair(x: u8, y: u8, b: u8, j: u8)
    requires
        1 <= b < 8,
        j < 8,
    ensures
        byte_bit(((x >> b) | (y << ((8u8 - b) as u8))) as u8, j as int) == if j >= b {
            byte_bit(x, (j - b) as int)
        } else {
            byte_bit(y, (j + 8 - b) as int)
        },
{
    let z = ((x >> b) | (y << ((8u8 - b) as u8))) as u8;
    lemma_byte_bit_u8(z, j);
    if j >= b {
        let jb = (j - b) as u8;
        lemma_byte_bit_u8(x, jb);
        assert(((((x >> b) | (y << ((8u8 - b) as u8))) as u8 >> ((7u8 - j) as u8)) & 1u8) == ((x >> ((7u8 - jb) as u8))
            & 1u8)) by (bit_vector)
            requires
                1 <= b < 8,
                j < 8,
                jb + b == j,
        ;
    } else {
        let jb = (j + 8 - b) as u8;
        lemma_byte_bit_u8(y, jb);
        assert(((((x >> b) | (y << ((8u8 - b) as u8))) as u8 >> ((7u8 - j) as u8)) & 1u8) == ((y >> ((7u8 - jb) as u8))
            & 1u8)) by (bit_vector)
            requires
                1 <= b < 8,
                j < b,
                jb + b == j + 8,
        ;
    }
}

/// Two bytes with the same eight bits are the same byte.
pub proof fn lemma_byte_ext(x: u8, y: u8)
    requires
        forall|j: int| 0 <= j < 8 ==> byte_bit(x, j) == byte_bit(y, j),
    ensures
        x == y,
{
    assert(byte_bit(x, 0) == byte_bit(y, 0));
    assert(byte_bit(x, 1) == byte_bit(y, 1));
    assert(byte_bit(x, 2) == byte_bit(y, 2));
    assert(byte_bit(x, 3) == byte_bit(y, 3));
    assert(byte_bit(x, 4) == byte_bit(y, 4));
    assert(byte_bit(x, 5) == byte_bit(y, 5));
    assert(byte_bit(x, 6) == byte_bit(y, 6));
    assert(byte_bit(x, 7) == byte_bit(y, 7));
    assert(x == y) by (bit_vector)
        requires
            ((x >> 7u8) & 1u8 == 1u8) == ((y >> 7u8) & 1u8 == 1u8),
            ((x >> 6u8) & 1u8 == 1u8) == ((y >> 6u8) & 1u8 == 1u8),
            ((x >> 5u8) & 1u8 == 1u8) == ((y >> 5u8) & 1u8 == 1u8),
            ((x >> 4u8) & 1u8 == 1u8) == ((y >> 4u8) & 1u8 == 1u8),
            ((x >> 3u8) & 1u8 == 1u8) == ((y >> 3u8) & 1u8 == 1u8),
            ((x >> 2u8) & 1u8 == 1u8) == ((y >> 2u8) & 1u8 == 1u8),
            ((x >> 1u8) & 1u8 == 1u8) == ((y >> 1u8) & 1u8 == 1u8),
            ((x >> 0u8) & 1u8 == 1u8) == ((y >> 0u8) & 1u8 == 1u8),
    ;
}

/// Two byte strings of one length with the same bits are equal.
pub proof fn lemma_bits_ext(s: Seq<u8>, t: Seq<u8>)
    requires
        s.len() == t.len(),
        forall|k: int| 0 <= k < 8 * s.len() ==> bit_at(s, k) == bit_at(t, k),
    ensures
        s == t,
{
    assert forall|i: int| 0 <= i < s.len() implies s[i] == t[i] by {
        assert forall|j: int| 0 <= j < 8 implies byte_bit(s[i], j) == byte_bit(t[i], j) by {
            let k = 8 * i + j;
            assert(k / 8 == i && k % 8 == j);
            assert(bit_at(s, k) == bit_at(t, k));
        }
        lemma_byte_ext(s[i], t[i]);
    }
    assert(s =~= t);
}

/// Bit `j` of an exclusive or is the exclusive or of the bits.
pub proof fn lemma_xor_bit(x: u8, y: u8, j: int)
    requires
        0 <= j < 8,
    ensures
        byte_bit(x ^ y, j) == (byte_bit(x, j) != byte_bit(y, j)),
{
    let ju = j as u8;
    lemma_byte_bit_u8(x ^ y, ju);
    lemma_byte_bit_u8(x, ju);
    lemma_byte_bit_u8(y, ju);
    assert((((x ^ y) >> ((7u8 - ju) as u8)) & 1u8 == 1u8) == (((x >> ((7u8 - ju) as u8)) & 1u8 == 1u8) != ((y
        >> ((7u8 - ju) as u8)) & 1u8 == 1u8))) by (bit_vector)
        requires
            ju < 8,
    ;
}

/// Bits of a packed string in terms of its bytes.
pub proof fn lemma_bit_of_byte(s: Seq<u8>, i: int, j: int)
    requires
        0 <= j < 8,
    ensures
        bit_at(s, 8 * i + j) == byte_bit(s[i], j),
{
    assert((8 * i + j) / 8 == i && (8 * i + j) % 8 == j);
}

/// Testing a byte against the mask `0x80 >> j` reads its bit `j`.
pub proof fn lemma_mask_bit(x: u8, j: u8)
    requires
        j < 8,
    ensures
        ((x & (0x80u8 >> j)) != 0u8) == byte_bit(x, j as int),
{
    lemma_byte_bit_u8(x, j);
    assert(((x & (0x80u8 >> j)) != 0u8) == ((x >> ((7u8 - j) as u8)) & 1u8 == 1u8))
        by (bit_vector)
        requires
            j < 8,
    ;
}

/// Setting bit `j` of a byte with the mask `0x80 >> j` leaves the other bits.
pub proof fn lemma_set_bit(x: u8, j: u8, m: u8)
    requires
        j < 8,
        m < 8,
    ensures
        byte_bit(x | (0x80u8 >> j), m as int) == (m == j || byte_bit(x, m as int)),
{
    lemma_byte_bit_u8(x | (0x80u8 >> j), m);
    lemma_byte_bit_u8(x, m);
    assert((((x | (0x80u8 >> j)) >> ((7u8 - m) as u8)) & 1u8 == 1u8) == (m == j || ((x >> ((7u8
        - m) as u8)) & 1u8 == 1u8))) by (bit_vector)
        requires
            j < 8,
            m < 8,
    ;
}

/// The zero byte has no bit set.
pub proof fn lemma_zero_bits(m: u8)
    requires
        m < 8,
    ensures
        !byte_bit(0u8, m as int),
{
    lemma_byte_bit_u8(0u8, m);
    assert(((0u8 >> ((7u8 - m) as u8)) & 1u8) == 0u8) by (bit_vector);
}

/// Exclusive or with the same key twice gives back the byte.
pub proof fn lemma_xor_twice(x: u8, y: u8)
    ensures
        (x ^ y) ^ y == x,
{
    assert((x ^ y) ^ y == x) by (bit_vector);
}

/// Exclusive or of bytes commutes.
pub proof fn lemma_xor_commutes(x: u8, y: u8)
    ensures
        x ^ y == y ^ x,
{
    assert(x ^ y == y ^ x) by (bit_vector);
}

/// The byte whose bit `j` (0 = most significant) is `f(j)`.
pub open spec fn byte_of_bits(f: spec_fn(int) -> bool) -> u8 {
    (if f(0) { 0x80u8 } else { 0u8 }) | (if f(1) { 0x40u8 } else { 0u8 }) | (if f(2) {
        0x20u8
    } else {
        0u8
    }) | (if f(3) { 0x10u8 } else { 0u8 }) | (if f(4) { 0x08u8 } else { 0u8 }) | (if f(5) {
        0x04u8
    } else {
        0u8
    }) | (if f(6) { 0x02u8 } else { 0u8 }) | (if f(7) { 0x01u8 } else { 0u8 })
}

/// The 1024 bytes whose bit `k` is `f(k)`, for `k` in `0..8192`.
pub open spec fn bits_to_bytes(f: spec_fn(int) -> bool) -> Seq<u8> {
    Seq::new(crate::PACKED_BYTES as nat, |i: int| byte_of_bits(|j: int| f(8 * i + j)))
}

/// The bits of `byte_of_bits(f)` are the values of `f`.
pub proof fn lemma_byte_of_bits(f: spec_fn(int) -> bool, j: int)
    requires
        0 <= j < 8,
    ensures
        byte_bit(byte_of_bits(f), j) == f(j),
{
    let b0 = f(0);
    let b1 = f(1);
    let b2 = f(2);
    let b3 = f(3);
    let b4 = f(4);
    let b5 = f(5);
    let b6 = f(6);
    let b7 = f(7);
    let x = byte_of_bits(f);
    assert(x == (if b0 { 0x80u8 } else { 0u8 }) | (if b1 { 0x40u8 } else { 0u8 }) | (if b2 {
        0x20u8
    } else {
        0u8
    }) | (if b3 { 0x10u8 } else { 0u8 }) | (if b4 { 0x08u8 } else { 0u8 }) | (if b5 {
        0x04u8
    } else {
        0u8
    }) | (if b6 { 0x02u8 } else { 0u8 }) | (if b7 { 0x01u8 } else { 0u8 }));
    let ju = j as u8;
    lemma_byte_bit_u8(x, ju);
    assert(((x >> ((7u8 - ju) as u8)) & 1u8 == 1u8) == (if ju == 0 {
        b0
    } else if ju == 1 {
        b1
    } else if ju == 2 {
        b2
    } else if ju == 3 {
        b3
    } else if ju == 4 {
        b4
    } else if ju == 5 {
        b5
    } else if ju == 6 {
        b6
    } else {
        b7
    })) by (bit_vector)
        requires
            ju < 8,
            x == (if b0 { 0x80u8 } else { 0u8 }) | (if b1 { 0x40u8 } else { 0u8 }) | (if b2 {
                0x20u8
            } else {
                0u8
            }) | (if b3 { 0x10u8 } else { 0u8 }) | (if b4 { 0x08u8 } else { 0u8 }) | (if b5 {
                0x04u8
            } else {
                0u8
            }) | (if b6 { 0x02u8 } else { 0u8 }) | (if b7 { 0x01u8 } else { 0u8 }),
    ;
}

/// The bits of `bits_to_bytes(f)` are the values of `f`.
pub proof fn lemma_bits_to_bytes(f: spec_fn(int) -> bool, k: int)
    requires
        0 <= k < crate::DIMS,
    ensures
        bit_at(bits_to_bytes(f), k) == f(k),
{
    let i = k / 8;
    let j = k % 8;
    let g = |j: int| f(8 * i + j);
    lemma_byte_of_bits(g, j);
    assert(8 * i + j == k);
}

/// A full-length bit string is the packing of its own bits.
pub proof fn lemma_bits_to_bytes_unique(f: spec_fn(int) -> bool, s: Seq<u8>)
    requires
        s.len() == crate::PACKED_BYTES,
        forall|k: int| 0 <= k < crate::DIMS ==> #[trigger] bit_at(s, k) == f(k),
    ensures
        s == bits_to_bytes(f),
{
    assert forall|k: int| 0 <= k < 8 * s.len() implies bit_at(s, k) == bit_at(bits_to_bytes(f), k) by {
        lemma_bits_to_bytes(f, k);
    }
    lemma_bits_ext(s, bits_to_bytes(f));
}

} // verus!
