//! Hamming distance between hypervectors, the quantity behind similarity.

use crate::bits::{bit_at, lemma_bit_of_byte, lemma_byte_bit_u8, lemma_xor_bit};
use crate::hypervector::{xor_bytes, Hypervector};
use crate::permute::{lemma_permuted_bits, permuted};
use crate::{DIMS, PACKED_BYTES};
use vstd::prelude::*;

verus! {

/// How many integers `k` in `lo..hi` satisfy `f`.
pub open spec fn count_range(f: spec_fn(int) -> bool, lo: int, hi: int) -> nat
    decreases hi - lo,
{
    if hi <= lo {
        0
    } else {
        count_range(f, lo, hi - 1) + if f(hi - 1) {
            1nat
        } else {
            0nat
        }
    }
}

/// The length two byte strings have in common.
pub open spec fn common_len(a: Seq<u8>, b: Seq<u8>) -> nat {
    if a.len() <= b.len() {
        a.len()
    } else {
        b.len()
    }
}

/// Whether bit `k` differs between `a` and `b`.
pub open spec fn differs(a: Seq<u8>, b: Seq<u8>) -> spec_fn(int) -> bool {
    |k: int| bit_at(a, k) != bit_at(b, k)
}

/// The Hamming distance: the number of bit positions, over the bytes the two
/// strings have in common, at which they differ.
pub open spec fn hamming(a: Seq<u8>, b: Seq<u8>) -> nat {
    count_range(differs(a, b), 0, 8 * common_len(a, b) as int)
}

/// A count never exceeds the width of its range.
pub proof fn lemma_count_bound(f: spec_fn(int) -> bool, lo: int, hi: int)
    ensures
        count_range(f, lo, hi) <= if hi <= lo {
            0
        } else {
            hi - lo
        },
    decreases hi - lo,
{
    if hi > lo {
        lemma_count_bound(f, lo, hi - 1);
    }
}

/// Predicates that agree on a range count the same there.
pub proof fn lemma_count_ext(f: spec_fn(int) -> bool, g: spec_fn(int) -> bool, lo: int, hi: int)
    requires
        forall|k: int| lo <= k < hi ==> #[trigger] f(k) == g(k),
    ensures
        count_range(f, lo, hi) == count_range(g, lo, hi),
    decreases hi - lo,
{
    if hi > lo {
        lemma_count_ext(f, g, lo, hi - 1);
    }
}

/// A count over a range is the sum of the counts over its two halves.
pub proof fn lemma_count_split(f: spec_fn(int) -> bool, lo: int, mid: int, hi: int)
    requires
        lo <= mid <= hi,
    ensures
        count_range(f, lo, hi) == count_range(f, lo, mid) + count_range(f, mid, hi),
    decreases hi - mid,
{
    if hi > mid {
        lemma_count_split(f, lo, mid, hi - 1);
    }
}

/// Counting `f(k + d)` over `lo..hi` is counting `f` over `lo + d..hi + d`.
pub proof fn lemma_count_shift(f: spec_fn(int) -> bool, g: spec_fn(int) -> bool, d: int, lo: int, hi: int)
    requires
        forall|k: int| #[trigger] g(k) == f(k + d),
    ensures
        count_range(g, lo, hi) == count_range(f, lo + d, hi + d),
    decreases hi - lo,
{
    if hi > lo {
        lemma_count_shift(f, g, d, lo, hi - 1);
    }
}

/// Counting over a cyclic rotation of `0..n` counts the same as over `0..n`.
pub proof fn lemma_count_rotation(f: spec_fn(int) -> bool, g: spec_fn(int) -> bool, n: int, off: int)
    requires
        n > 0,
        forall|k: int| 0 <= k < n ==> #[trigger] g(k) == f((k + off) % n),
    ensures
        count_range(g, 0, n) == count_range(f, 0, n),
{
    let o = off % n;
    assert(0 <= o < n);
    let g1 = |k: int| f(k + o);
    let g2 = |k: int| f(k + o - n);
    lemma_count_split(g, 0, n - o, n);
    assert forall|k: int| 0 <= k < n - o implies #[trigger] g(k) == g1(k) by {
        assert((k + off) % n == k + o) by {
            vstd::arithmetic::div_mod::lemma_add_mod_noop(k, off, n);
            vstd::arithmetic::div_mod::lemma_small_mod(k as nat, n as nat);
            vstd::arithmetic::div_mod::lemma_small_mod((k + o) as nat, n as nat);
        }
    }
    assert forall|k: int| n - o <= k < n implies #[trigger] g(k) == g2(k) by {
        assert((k + off) % n == k + o - n) by {
            vstd::arithmetic::div_mod::lemma_add_mod_noop(k, off, n);
            vstd::arithmetic::div_mod::lemma_small_mod(k as nat, n as nat);
            vstd::arithmetic::div_mod::lemma_fundamental_div_mod_converse(k + o, n, 1, k + o - n);
        }
    }
    lemma_count_ext(g, g1, 0, n - o);
    lemma_count_ext(g, g2, n - o, n);
    lemma_count_shift(f, g1, o, 0, n - o);
    lemma_count_shift(f, g2, o - n, n - o, n);
    lemma_count_split(f, 0, o, n);
}

impl Hypervector {
    /// The number of bits in which the two vectors differ, over the bytes
    /// they have in common.
    pub fn hamming_distance(&self, other: &Hypervector) -> (d: u32)
        requires
            8 * common_len(self.data@, other.data@) <= u32::MAX,
        ensures
            d == hamming(self.data@, other.data@),
    {
        let a = &self.data;
        let b = &other.data;
        let n = if a.len() <= b.len() { a.len() } else { b.len() };
        let ghost f = differs(a@, b@);
        let mut total: u32 = 0;
        let mut i: usize = 0;
        while i < n
            invariant
                i <= n,
                n == common_len(a@, b@),
                8 * n <= u32::MAX,
                f == differs(a@, b@),
                total == count_range(f, 0, 8 * i),
            decreases n - i,
        {
            let z = a[i] ^ b[i];
            let mut j: u8 = 0;
            while j < 8
                invariant
                    i < n,
                    j <= 8,
                    n == common_len(a@, b@),
                    8 * n <= u32::MAX,
                    f == differs(a@, b@),
                    z == a@[i as int] ^ b@[i as int],
                    total == count_range(f, 0, 8 * i + j),
                decreases 8 - j,
            {
                proof {
                    lemma_count_bound(f, 0, 8 * i + j);
                    lemma_byte_bit_u8(z, j);
                    lemma_xor_bit(a@[i as int], b@[i as int], j as int);
                    lemma_bit_of_byte(a@, i as int, j as int);
                    lemma_bit_of_byte(b@, i as int, j as int);
                }
                if (z >> (7 - j)) & 1 == 1 {
                    total = total + 1;
                }
                j = j + 1;
            }
            i = i + 1;
        }
        total
    }
}

/// Law: a vector is at distance zero from itself.
pub proof fn lemma_hamming_self(a: Seq<u8>)
    ensures
        hamming(a, a) == 0,
{
    let n = (8 * common_len(a, a)) as int;
    lemma_count_ext(differs(a, a), |k: int| false, 0, n);
    lemma_count_none(0, n);
}

proof fn lemma_count_none(lo: int, hi: int)
    ensures
        count_range(|k: int| false, lo, hi) == 0,
    decreases hi - lo,
{
    if hi > lo {
        lemma_count_none(lo, hi - 1);
    }
}

/// Law: the distance is symmetric.
pub proof fn lemma_hamming_symmetric(a: Seq<u8>, b: Seq<u8>)
    ensures
        hamming(a, b) == hamming(b, a),
{
    lemma_count_ext(differs(a, b), differs(b, a), 0, (8 * common_len(a, b)) as int);
}

/// Law: binding both vectors with the same key keeps their distance.
pub proof fn lemma_bind_preserves_distance(a: Seq<u8>, b: Seq<u8>, c: Seq<u8>)
    requires
        a.len() == b.len(),
        c.len() >= a.len(),
    ensures
        hamming(xor_bytes(a, c), xor_bytes(b, c)) == hamming(a, b),
{
    let ac = xor_bytes(a, c);
    let bc = xor_bytes(b, c);
    let n = (8 * a.len()) as int;
    assert forall|k: int| 0 <= k < n implies #[trigger] differs(ac, bc)(k) == differs(a, b)(k) by {
        let i = k / 8;
        let j = k % 8;
        lemma_bit_of_byte(ac, i, j);
        lemma_bit_of_byte(bc, i, j);
        lemma_bit_of_byte(a, i, j);
        lemma_bit_of_byte(b, i, j);
        assert(8 * i + j == k);
        lemma_xor_bit(a[i], c[i], j);
        lemma_xor_bit(b[i], c[i], j);
    }
    lemma_count_ext(differs(ac, bc), differs(a, b), 0, n);
}

/// Law: permuting both vectors by the same shift keeps their distance.
pub proof fn lemma_permute_preserves_distance(a: Seq<u8>, b: Seq<u8>, off: int)
    requires
        a.len() == PACKED_BYTES,
        b.len() == PACKED_BYTES,
    ensures
        hamming(permuted(a, off), permuted(b, off)) == hamming(a, b),
{
    let p = permuted(a, off);
    let q = permuted(b, off);
    lemma_permuted_bits(a, off);
    lemma_permuted_bits(b, off);
    let n = DIMS as int;
    let g = differs(p, q);
    let f = differs(a, b);
    assert forall|k: int| 0 <= k < n implies #[trigger] g(k) == f((k + off) % n) by {
        assert(bit_at(p, k) == bit_at(a, (k + off) % n));
        assert(bit_at(q, k) == bit_at(b, (k + off) % n));
    }
    lemma_count_rotation(f, g, n, off);
}

} // verus!
