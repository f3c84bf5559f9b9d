//! Cyclic permutation of the 8192 bits of a hypervector, and its inverse.

use crate::bits::{
    bit_at, bits_to_bytes, lemma_bits_ext, lemma_bits_to_bytes, lemma_bits_to_bytes_unique,
    lemma_shift_left_pair, lemma_shift_right_pair,
};
use crate::hypervector::Hypervector;
use crate::{DIMS, PACKED_BYTES};
use vstd::arithmetic::div_mod::{lemma_fundamental_div_mod, lemma_fundamental_div_mod_converse};
use vstd::prelude::*;

verus! {

/// The shift reduced to one turn: `shift` modulo 8192, in `0..8192`.
pub open spec fn turn(shift: int) -> int {
    shift % (DIMS as int)
}

/// How far `permute(shift)` moves the bits: result bit `k` is source bit
/// `k + rotation_offset(shift)` (modulo 8192). The reduced shift `8q + r`
/// moves whole bytes `q` places up and bits `r` places down.
pub open spec fn rotation_offset(shift: int) -> int {
    turn(shift) % 8 - 8 * (turn(shift) / 8)
}

/// `out` is `src` with its 8192 bits rotated: bit `k` of `out` is bit
/// `k + off` (modulo 8192) of `src`.
pub open spec fn rotated_bits(out: Seq<u8>, src: Seq<u8>, off: int) -> bool {
    &&& out.len() == PACKED_BYTES
    &&& forall|k: int|
        0 <= k < DIMS ==> #[trigger] bit_at(out, k) == bit_at(src, (k + off) % (DIMS as int))
}

/// Packed position arithmetic: byte `x` (taken cyclically) and bit `c` of it.
proof fn lemma_packed_index(x: int, c: int)
    requires
        0 <= c < 8,
    ensures
        ((8 * x + c) % (DIMS as int)) / 8 == x % (PACKED_BYTES as int),
        ((8 * x + c) % (DIMS as int)) % 8 == c,
{
    let q = x / (PACKED_BYTES as int);
    let r = x % (PACKED_BYTES as int);
    lemma_fundamental_div_mod(x, PACKED_BYTES as int);
    assert(x == 1024 * q + r);
    assert(8 * x + c == q * (DIMS as int) + (8 * r + c));
    lemma_fundamental_div_mod_converse(8 * x + c, DIMS as int, q, 8 * r + c);
    lemma_fundamental_div_mod_converse(8 * r + c, 8, r, c);
}

/// Reduces a shift to one turn: `(shift % 8192 + 8192) % 8192`.
fn reduce_shift(shift: i64) -> (s: usize)
    ensures
        s as int == turn(shift as int),
        s < DIMS,
{
    let t: i64 = shift % 8192;
    assert(-8192 < t < 8192);
    assert(t as int == shift as int % 8192 || t as int == shift as int % 8192 - 8192);
    let u: usize = (t + 8192) as usize;
    u % 8192
}

/// The bytes of `data` rotated cyclically `byte_shift` places towards the end.
fn rotate_bytes_up(data: &Vec<u8>, byte_shift: usize) -> (out: Vec<u8>)
    requires
        data@.len() >= PACKED_BYTES,
        byte_shift < PACKED_BYTES,
    ensures
        out@.len() == PACKED_BYTES,
        forall|i: int|
            0 <= i < PACKED_BYTES ==> #[trigger] out@[i] == data@[(i + PACKED_BYTES - byte_shift)
                % (PACKED_BYTES as int)],
{
    let mut out: Vec<u8> = Vec::with_capacity(PACKED_BYTES);
    let mut i: usize = 0;
    while i < PACKED_BYTES
        invariant
            i <= PACKED_BYTES,
            byte_shift < PACKED_BYTES,
            data@.len() >= PACKED_BYTES,
            out@.len() == i,
            forall|j: int|
                0 <= j < i ==> #[trigger] out@[j] == data@[(j + PACKED_BYTES - byte_shift) % (
                PACKED_BYTES as int)],
        decreases PACKED_BYTES - i,
    {
        out.push(data[(i + PACKED_BYTES - byte_shift) % PACKED_BYTES]);
        i = i + 1;
    }
    out
}

/// The bytes of `data` rotated cyclically `byte_shift` places towards the start.
fn rotate_bytes_down(data: &Vec<u8>, byte_shift: usize) -> (out: Vec<u8>)
    requires
        data@.len() >= PACKED_BYTES,
        byte_shift < PACKED_BYTES,
    ensures
        out@.len() == PACKED_BYTES,
        forall|i: int|
            0 <= i < PACKED_BYTES ==> #[trigger] out@[i] == data@[(i + byte_shift) % (
            PACKED_BYTES as int)],
{
    let mut out: Vec<u8> = Vec::with_capacity(PACKED_BYTES);
    let mut i: usize = 0;
    while i < PACKED_BYTES
        invariant
            i <= PACKED_BYTES,
            byte_shift < PACKED_BYTES,
            data@.len() >= PACKED_BYTES,
            out@.len() == i,
            forall|j: int|
                0 <= j < i ==> #[trigger] out@[j] == data@[(j + byte_shift) % (
                PACKED_BYTES as int)],
        decreases PACKED_BYTES - i,
    {
        out.push(data[(i + byte_shift) % PACKED_BYTES]);
        i = i + 1;
    }
    out
}

/// Moves every bit of a packed block `b` places towards the start (cyclically
/// over the whole block).
fn shift_bits_up(rotated: &Vec<u8>, b: u8) -> (out: Vec<u8>)
    requires
        rotated@.len() == PACKED_BYTES,
        1 <= b < 8,
    ensures
        rotated_bits(out@, rotated@, b as int),
{
    let mut out: Vec<u8> = Vec::with_capacity(PACKED_BYTES);
    let mut i: usize = 0;
    while i < PACKED_BYTES
        invariant
            i <= PACKED_BYTES,
            rotated@.len() == PACKED_BYTES,
            1 <= b < 8,
            out@.len() == i,
            forall|j: int|
                0 <= j < i ==> #[trigger] out@[j] == ((rotated@[j] << b) | (rotated@[(j + 1) % (
                PACKED_BYTES as int)] >> ((8u8 - b) as u8))) as u8,
        decreases PACKED_BYTES - i,
    {
        out.push((rotated[i] << b) | (rotated[(i + 1) % PACKED_BYTES] >> (8 - b)));
        i = i + 1;
    }
    assert forall|k: int| 0 <= k < DIMS implies #[trigger] bit_at(out@, k) == bit_at(
        rotated@,
        (k + b) % (DIMS as int),
    ) by {
        let i = k / 8;
        let j = k % 8;
        let x = rotated@[i];
        let y = rotated@[(i + 1) % (PACKED_BYTES as int)];
        lemma_shift_left_pair(x, y, b, j as u8);
        if j + b < 8 {
            lemma_packed_index(i, j + b);
            assert(8 * i + (j + b) == k + b);
        } else {
            lemma_packed_index(i + 1, j + b - 8);
            assert(8 * (i + 1) + (j + b - 8) == k + b);
        }
    }
    out
}

/// Moves every bit of a packed block `b` places towards the end (cyclically
/// over the whole block).
fn shift_bits_down(rotated: &Vec<u8>, b: u8) -> (out: Vec<u8>)
    requires
        rotated@.len() == PACKED_BYTES,
        1 <= b < 8,
    ensures
        rotated_bits(out@, rotated@, -(b as int)),
{
    let mut out: Vec<u8> = Vec::with_capacity(PACKED_BYTES);
    let mut i: usize = 0;
    while i < PACKED_BYTES
        invariant
            i <= PACKED_BYTES,
            rotated@.len() == PACKED_BYTES,
            1 <= b < 8,
            out@.len() == i,
            forall|j: int|
                0 <= j < i ==> #[trigger] out@[j] == ((rotated@[j] >> b) | (rotated@[(j
                + PACKED_BYTES - 1) % (PACKED_BYTES as int)] << ((8u8 - b) as u8))) as u8,
        decreases PACKED_BYTES - i,
    {
        out.push((rotated[i] >> b) | (rotated[(i + PACKED_BYTES - 1) % PACKED_BYTES] << (8 - b)));
        i = i + 1;
    }
    assert forall|k: int| 0 <= k < DIMS implies #[trigger] bit_at(out@, k) == bit_at(
        rotated@,
        (k - b) % (DIMS as int),
    ) by {
        let i = k / 8;
        let j = k % 8;
        let x = rotated@[i];
        let y = rotated@[(i + PACKED_BYTES - 1) % (PACKED_BYTES as int)];
        lemma_shift_right_pair(x, y, b, j as u8);
        if j >= b {
            lemma_packed_index(i, j - b);
            assert(8 * i + (j - b) == k - b);
        } else {
            lemma_packed_index(i + PACKED_BYTES - 1, j + 8 - b);
            lemma_packed_index(i - 1, j + 8 - b);
            assert(8 * (i - 1) + (j + 8 - b) == k - b);
        }
    }
    out
}

/// Cyclic bit arithmetic: reducing an index before adding another offset
/// changes nothing modulo 8192.
proof fn lemma_mod_add(x: int, y: int)
    ensures
        ((x % (DIMS as int)) + y) % (DIMS as int) == (x + y) % (DIMS as int),
{
}

/// Bits of a byte rotation: rotating the bytes `q` places is rotating the bits
/// `8q` places.
proof fn lemma_byte_rotation_bits(out: Seq<u8>, src: Seq<u8>, q: int)
    requires
        out.len() == PACKED_BYTES,
        src.len() >= PACKED_BYTES,
        forall|i: int|
            0 <= i < PACKED_BYTES ==> #[trigger] out[i] == src[(i + q) % (PACKED_BYTES as int)],
    ensures
        rotated_bits(out, src, 8 * q),
{
    assert forall|k: int| 0 <= k < DIMS implies #[trigger] bit_at(out, k) == bit_at(
        src,
        (k + 8 * q) % (DIMS as int),
    ) by {
        let i = k / 8;
        let j = k % 8;
        lemma_packed_index(i + q, j);
        assert(8 * (i + q) + j == k + 8 * q);
        assert(out[i] == src[(i + q) % (PACKED_BYTES as int)]);
    }
}

/// The bytes of `data` (its first 8192 bits) permuted by `shift`.
pub fn permute_data(data: &Vec<u8>, shift: i64) -> (out: Vec<u8>)
    requires
        data@.len() >= PACKED_BYTES,
    ensures
        out@ == permuted(data@, rotation_offset(shift as int)),
{
    let s = reduce_shift(shift);
    let byte_shift = s / 8;
    let bit_shift = s % 8;
    let rotated = rotate_bytes_up(data, byte_shift);
    proof {
        assert forall|i: int| 0 <= i < PACKED_BYTES implies #[trigger] rotated@[i] == data@[(i
            + (-(byte_shift as int))) % (PACKED_BYTES as int)] by {
            assert(rotated@[i] == data@[(i + PACKED_BYTES - byte_shift) % (PACKED_BYTES as int)]);
        }
        lemma_byte_rotation_bits(rotated@, data@, -(byte_shift as int));
    }
    if bit_shift > 0 {
        let shifted = shift_bits_up(&rotated, bit_shift as u8);
        proof {
            assert forall|k: int| 0 <= k < DIMS implies #[trigger] bit_at(shifted@, k) == bit_at(
                data@,
                (k + rotation_offset(shift as int)) % (DIMS as int),
            ) by {
                let k1 = (k + bit_shift) % (DIMS as int);
                assert(bit_at(shifted@, k) == bit_at(rotated@, k1));
                assert(bit_at(rotated@, k1) == bit_at(data@, (k1 + 8 * (-(byte_shift as int))) % (
                DIMS as int)));
                lemma_mod_add(k + bit_shift, 8 * (-(byte_shift as int)));
            }
            lemma_rotated_is_permuted(shifted@, data@, rotation_offset(shift as int));
        }
        shifted
    } else {
        proof {
            lemma_rotated_is_permuted(rotated@, data@, rotation_offset(shift as int));
        }
        rotated
    }
}

/// The bytes of `data` (its first 8192 bits) permuted back by `shift`.
pub fn inverse_permute_data(data: &Vec<u8>, shift: i64) -> (out: Vec<u8>)
    requires
        data@.len() >= PACKED_BYTES,
    ensures
        out@ == permuted(data@, -rotation_offset(shift as int)),
{
    let s = reduce_shift(shift);
    let byte_shift = s / 8;
    let bit_shift = s % 8;
    let rotated = rotate_bytes_down(data, byte_shift);
    proof {
        lemma_byte_rotation_bits(rotated@, data@, byte_shift as int);
    }
    if bit_shift > 0 {
        let shifted = shift_bits_down(&rotated, bit_shift as u8);
        proof {
            assert forall|k: int| 0 <= k < DIMS implies #[trigger] bit_at(shifted@, k) == bit_at(
                data@,
                (k + -rotation_offset(shift as int)) % (DIMS as int),
            ) by {
                let k1 = (k - bit_shift) % (DIMS as int);
                assert(bit_at(shifted@, k) == bit_at(rotated@, k1));
                assert(bit_at(rotated@, k1) == bit_at(data@, (k1 + 8 * byte_shift) % (
                DIMS as int)));
                lemma_mod_add(k - bit_shift, 8 * byte_shift);
            }
            lemma_rotated_is_permuted(shifted@, data@, -rotation_offset(shift as int));
        }
        shifted
    } else {
        proof {
            lemma_rotated_is_permuted(rotated@, data@, -rotation_offset(shift as int));
        }
        rotated
    }
}

/// The 8192 bits of `s` rotated: bit `k` of the result is bit `k + off`
/// (modulo 8192) of `s`.
pub open spec fn permuted(s: Seq<u8>, off: int) -> Seq<u8> {
    bits_to_bytes(|k: int| bit_at(s, (k + off) % (DIMS as int)))
}

/// A rotation is a full 1024-byte vector.
pub proof fn lemma_permuted_len(s: Seq<u8>, off: int)
    ensures
        permuted(s, off).len() == PACKED_BYTES,
{
}

/// The bits of a rotation.
pub proof fn lemma_permuted_bits(s: Seq<u8>, off: int)
    ensures
        rotated_bits(permuted(s, off), s, off),
{
    let f = |k: int| bit_at(s, (k + off) % (DIMS as int));
    assert forall|k: int| 0 <= k < DIMS implies #[trigger] bit_at(permuted(s, off), k) == bit_at(
        s,
        (k + off) % (DIMS as int),
    ) by {
        lemma_bits_to_bytes(f, k);
    }
}

/// A rotation is determined by its bits.
pub proof fn lemma_rotated_is_permuted(out: Seq<u8>, s: Seq<u8>, off: int)
    requires
        rotated_bits(out, s, off),
    ensures
        out == permuted(s, off),
{
    let f = |k: int| bit_at(s, (k + off) % (DIMS as int));
    lemma_bits_to_bytes_unique(f, out);
}

/// Rotating by `off` and then by `-off` gives back a full-length bit string.
proof fn lemma_rotation_undone(src: Seq<u8>, mid: Seq<u8>, out: Seq<u8>, off: int)
    requires
        src.len() == PACKED_BYTES,
        rotated_bits(mid, src, off),
        rotated_bits(out, mid, -off),
    ensures
        out == src,
{
    assert forall|k: int| 0 <= k < 8 * out.len() implies bit_at(out, k) == bit_at(src, k) by {
        let k1 = (k + -off) % (DIMS as int);
        assert(bit_at(out, k) == bit_at(mid, k1));
        assert(bit_at(mid, k1) == bit_at(src, (k1 + off) % (DIMS as int)));
        lemma_mod_add(k + -off, off);
    }
    lemma_bits_ext(out, src);
}

/// Law: `inverse_permute(shift)` undoes `permute(shift)` on a full-length
/// hypervector: the bytes come back exactly.
pub proof fn lemma_inverse_permute_undoes_permute(v: Seq<u8>, shift: int)
    requires
        v.len() == PACKED_BYTES,
    ensures
        permuted(permuted(v, rotation_offset(shift)), -rotation_offset(shift)) == v,
{
    let off = rotation_offset(shift);
    lemma_permuted_bits(v, off);
    lemma_permuted_bits(permuted(v, off), -off);
    lemma_rotation_undone(v, permuted(v, off), permuted(permuted(v, off), -off), off);
}

/// Law: `permute(shift)` undoes `inverse_permute(shift)` on a full-length
/// hypervector: the bytes come back exactly.
pub proof fn lemma_permute_undoes_inverse_permute(v: Seq<u8>, shift: int)
    requires
        v.len() == PACKED_BYTES,
    ensures
        permuted(permuted(v, -rotation_offset(shift)), rotation_offset(shift)) == v,
{
    let ro = rotation_offset(shift);
    let off = -ro;
    assert(-off == ro);
    let mid = permuted(v, off);
    let out = permuted(mid, ro);
    lemma_permuted_bits(v, off);
    lemma_permuted_bits(mid, ro);
    lemma_rotation_undone(v, mid, out, off);
}

/// Permutation by a full turn: `rotation_offset` depends only on the shift
/// modulo 8192.
pub proof fn lemma_offset_periodic(shift: int)
    ensures
        rotation_offset(shift + DIMS as int) == rotation_offset(shift),
{
    vstd::arithmetic::div_mod::lemma_mod_add_multiples_vanish(shift, DIMS as int);
}

impl Hypervector {
    /// Cyclic permutation of the 8192 bits by `shift`: bit `k` of the result is
    /// bit `k + rotation_offset(shift)` (modulo 8192) of this vector, so the
    /// result has exactly 1024 bytes. Name and source text are kept.
    pub fn permute(&self, shift: i64) -> (out: Hypervector)
        requires
            self.data@.len() >= PACKED_BYTES,
        ensures
            out.data@ == permuted(self.data@, rotation_offset(shift as int)),
            out.concept_id@ == self.concept_id@,
            out.source_text@ == self.source_text@,
    {
        Hypervector {
            data: permute_data(&self.data, shift),
            concept_id: self.concept_id.clone(),
            source_text: self.source_text.clone(),
        }
    }

    /// The inverse permutation: bit `k` of the result is bit
    /// `k - rotation_offset(shift)` (modulo 8192) of this vector.
    pub fn inverse_permute(&self, shift: i64) -> (out: Hypervector)
        requires
            self.data@.len() >= PACKED_BYTES,
        ensures
            out.data@ == permuted(self.data@, -rotation_offset(shift as int)),
            out.concept_id@ == self.concept_id@,
            out.source_text@ == self.source_text@,
    {
        Hypervector {
            data: inverse_permute_data(&self.data, shift),
            concept_id: self.concept_id.clone(),
            source_text: self.source_text.clone(),
        }
    }
}

} // verus!
