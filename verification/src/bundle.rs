//! Bundling: the bit-wise majority vote over a set of hypervectors, with a
//! threshold for the sparse variant.

use crate::bits::{
    bit_at, bits_to_bytes, byte_bit, lemma_bit_of_byte, lemma_bits_to_bytes,
    lemma_bits_to_bytes_unique, lemma_mask_bit, lemma_set_bit, lemma_zero_bits,
};
use crate::hypervector::{atomic_data, Hypervector};
use crate::{DIMS, PACKED_BYTES};
use vstd::prelude::*;
use vstd::string::StringSliceAdditionalSpecFns;

verus! {

/// The vote of one packed vector on bit `k`: `+1` if the bit is set, `-1` if
/// it is clear, and no vote past the vector's end.
pub open spec fn vote(v: Seq<u8>, k: int) -> int {
    if 0 <= k && k < 8 * v.len() {
        if bit_at(v, k) {
            1
        } else {
            -1
        }
    } else {
        0
    }
}

/// The sum of the votes of all the vectors on bit `k`.
pub open spec fn tally(vs: Seq<Seq<u8>>, k: int) -> int
    decreases vs.len(),
{
    if vs.len() == 0 {
        0
    } else {
        tally(vs.drop_last(), k) + vote(vs.last(), k)
    }
}

/// The packed data of each hypervector.
pub open spec fn datas(vs: Seq<Hypervector>) -> Seq<Seq<u8>> {
    Seq::new(vs.len(), |i: int| vs[i].data@)
}

/// The majority vote as bytes: bit `k` is set when the tally on it exceeds
/// `threshold`.
pub open spec fn majority(vs: Seq<Seq<u8>>, threshold: int) -> Seq<u8> {
    bits_to_bytes(|k: int| tally(vs, k) > threshold)
}

/// The bits of the majority vote.
pub proof fn lemma_majority_bits(vs: Seq<Seq<u8>>, threshold: int, k: int)
    requires
        0 <= k < DIMS,
    ensures
        bit_at(majority(vs, threshold), k) == (tally(vs, k) > threshold),
{
    lemma_bits_to_bytes(|k: int| tally(vs, k) > threshold, k);
}

/// The vectors a bundle accepts: none longer than 1024 bytes (a longer one
/// would vote on bits past 8192), and fewer than 2^31 of them, so that every
/// tally fits an `i32`.
pub open spec fn bundle_input(vs: Seq<Hypervector>) -> bool {
    &&& vs.len() < 0x8000_0000
    &&& forall|t: int| 0 <= t < vs.len() ==> #[trigger] vs[t].data@.len() <= PACKED_BYTES
}

/// A tally is bounded by the number of voters.
pub proof fn lemma_tally_bound(vs: Seq<Seq<u8>>, k: int)
    ensures
        -vs.len() <= tally(vs, k) <= vs.len(),
    decreases vs.len(),
{
    if vs.len() > 0 {
        lemma_tally_bound(vs.drop_last(), k);
    }
}

/// The votes on every bit from the vectors in `vs` (the bit tallies).
fn tally_votes(vectors: &[Hypervector]) -> (counts: Vec<i32>)
    requires
        bundle_input(vectors@),
    ensures
        counts@.len() == DIMS,
        forall|k: int| 0 <= k < DIMS ==> #[trigger] counts@[k] == tally(datas(vectors@), k),
{
    let ghost vs = datas(vectors@);
    let mut counts: Vec<i32> = vec![0i32; DIMS];
    let mut t: usize = 0;
    proof {
        assert forall|k: int| 0 <= k < DIMS implies #[trigger] counts@[k] == tally(vs.take(0), k)
            by {
            assert(vs.take(0).len() == 0);
        }
    }
    while t < vectors.len()
        invariant
            t <= vectors@.len(),
            bundle_input(vectors@),
            vs == datas(vectors@),
            counts@.len() == DIMS,
            forall|k: int| 0 <= k < DIMS ==> #[trigger] counts@[k] == tally(vs.take(t as int), k),
        decreases vectors@.len() - t,
    {
        let data = &vectors[t].data;
        let ghost before = counts@;
        assert(vs[t as int] == data@);
        assert(data@.len() <= PACKED_BYTES);
        proof {
            assert forall|k: int| 0 <= k < DIMS implies -(t as int) <= #[trigger] before[k] <= t by {
                lemma_tally_bound(vs.take(t as int), k);
            }
        }
        let mut i: usize = 0;
        while i < data.len()
            invariant
                t < vectors@.len(),
                bundle_input(vectors@),
                vs == datas(vectors@),
                data@ == vs[t as int],
                data@.len() <= PACKED_BYTES,
                i <= data@.len(),
                counts@.len() == DIMS,
                before.len() == DIMS,
                forall|k: int| 0 <= k < DIMS ==> #[trigger] before[k] == tally(vs.take(t as int), k),
                forall|k: int| 0 <= k < DIMS ==> -(t as int) <= #[trigger] before[k] <= t,
                forall|k: int|
                    0 <= k < DIMS ==> #[trigger] counts@[k] == before[k] + if k < 8 * i {
                        vote(data@, k)
                    } else {
                        0
                    },
            decreases data@.len() - i,
        {
            let byte = data[i];
            let mut j: u8 = 0;
            while j < 8
                invariant
                    t < vectors@.len(),
                    bundle_input(vectors@),
                    data@.len() <= PACKED_BYTES,
                    i < data@.len(),
                    byte == data@[i as int],
                    j <= 8,
                    counts@.len() == DIMS,
                    before.len() == DIMS,
                    forall|k: int|
                        0 <= k < DIMS ==> -(t as int) <= #[trigger] before[k] <= t,
                    forall|k: int|
                        0 <= k < DIMS ==> #[trigger] counts@[k] == before[k] + if k < 8 * i + j {
                            vote(data@, k)
                        } else {
                            0
                        },
                decreases 8 - j,
            {
                let idx = i * 8 + j as usize;
                proof {
                    lemma_mask_bit(byte, j);
                    lemma_bit_of_byte(data@, i as int, j as int);
                    assert(idx == 8 * i + j);
                    assert(counts@[idx as int] == before[idx as int]);
                }
                let c = counts[idx];
                if byte & (0x80u8 >> j) != 0 {
                    counts.set(idx, c + 1);
                } else {
                    counts.set(idx, c - 1);
                }
                j = j + 1;
            }
            i = i + 1;
        }
        proof {
            assert forall|k: int| 0 <= k < DIMS implies #[trigger] counts@[k] == tally(
                vs.take(t + 1),
                k,
            ) by {
                assert(vs.take(t + 1).drop_last() =~= vs.take(t as int));
                assert(vs.take(t + 1).last() == data@);
            }
        }
        t = t + 1;
    }
    assert(vs.take(vectors@.len() as int) =~= vs);
    counts
}

/// Packs the bits whose tally exceeds `threshold` into 1024 bytes.
fn pack_above(counts: &Vec<i32>, threshold: i32) -> (out: Vec<u8>)
    requires
        counts@.len() == DIMS,
    ensures
        out@.len() == PACKED_BYTES,
        forall|k: int| 0 <= k < DIMS ==> #[trigger] bit_at(out@, k) == (counts@[k] > threshold),
{
    let mut out: Vec<u8> = Vec::with_capacity(PACKED_BYTES);
    let mut i: usize = 0;
    while i < PACKED_BYTES
        invariant
            i <= PACKED_BYTES,
            counts@.len() == DIMS,
            out@.len() == i,
            forall|k: int| 0 <= k < 8 * i ==> #[trigger] bit_at(out@, k) == (counts@[k] > threshold),
        decreases PACKED_BYTES - i,
    {
        let mut byte: u8 = 0;
        let mut j: u8 = 0;
        proof {
            assert forall|m: int| 0 <= m < 8 implies !#[trigger] byte_bit(byte, m) by {
                lemma_zero_bits(m as u8);
            }
        }
        while j < 8
            invariant
                i < PACKED_BYTES,
                j <= 8,
                counts@.len() == DIMS,
                forall|m: int| 0 <= m < j ==> #[trigger] byte_bit(byte, m) == (counts@[8 * i + m] > threshold),
                forall|m: int| j <= m < 8 ==> !#[trigger] byte_bit(byte, m),
            decreases 8 - j,
        {
            let old_byte = byte;
            if counts[i * 8 + j as usize] > threshold {
                byte = byte | (0x80u8 >> j);
                proof {
                    assert forall|m: int| 0 <= m < 8 implies #[trigger] byte_bit(byte, m) == (m == j
                        || byte_bit(old_byte, m)) by {
                        lemma_set_bit(old_byte, j, m as u8);
                    }
                }
            }
            j = j + 1;
        }
        let ghost prev = out@;
        out.push(byte);
        proof {
            assert forall|k: int| 0 <= k < 8 * (i + 1) implies #[trigger] bit_at(out@, k) == (
            counts@[k] > threshold) by {
                let bi = k / 8;
                let bj = k % 8;
                lemma_bit_of_byte(out@, bi, bj);
                assert(8 * bi + bj == k);
                if bi < i {
                    lemma_bit_of_byte(prev, bi, bj);
                    assert(bit_at(prev, k) == (counts@[k] > threshold));
                } else {
                    assert(bi == i);
                    assert(byte_bit(byte, bj) == (counts@[8 * i + bj] > threshold));
                }
            }
        }
        i = i + 1;
    }
    out
}

/// The bits of the majority vote over `vectors`: bit `k` is set when its tally
/// exceeds `threshold`.
pub fn majority_data(vectors: &[Hypervector], threshold: i32) -> (out: Vec<u8>)
    requires
        bundle_input(vectors@),
    ensures
        out@ == majority(datas(vectors@), threshold as int),
{
    let counts = tally_votes(vectors);
    let out = pack_above(&counts, threshold);
    proof {
        lemma_bits_to_bytes_unique(|k: int| tally(datas(vectors@), k) > threshold, out@);
    }
    out
}

/// Bundling: the bit-wise majority of the vectors (a bit is set when more
/// vectors have it set than clear), named `bundle`, with no source text. With
/// no vectors there is nothing to vote on, and the result is the hypervector of
/// the text `zero`.
pub fn bundle(vectors: &[Hypervector]) -> (out: Hypervector)
    requires
        bundle_input(vectors@),
    ensures
        vectors@.len() == 0 ==> {
            &&& out.data@ == atomic_data("zero".spec_bytes())
            &&& out.concept_id@ == "zero"@
            &&& out.source_text@ == "zero"@
        },
        vectors@.len() > 0 ==> {
            &&& out.data@ == majority(datas(vectors@), 0)
            &&& out.concept_id@ == "bundle"@
            &&& out.source_text@ == Seq::<char>::empty()
        },
{
    if vectors.len() == 0 {
        let hv = Hypervector::from_string("zero", None);
        proof {
            reveal_strlit("zero");
        }
        return hv;
    }
    Hypervector {
        data: majority_data(vectors, 0),
        concept_id: String::from_str("bundle"),
        source_text: String::new(),
    }
}

/// Sparse bundling: a bit is set only when its tally exceeds `threshold`
/// (the caller's noise floor times the number of vectors); named
/// `compress_mp4c`, with no source text. With no vectors the result is the
/// hypervector of the text `zero`.
pub fn compress_mp4c(vectors: &[Hypervector], threshold: i32) -> (out: Hypervector)
    requires
        bundle_input(vectors@),
    ensures
        vectors@.len() == 0 ==> {
            &&& out.data@ == atomic_data("zero".spec_bytes())
            &&& out.concept_id@ == "zero"@
            &&& out.source_text@ == "zero"@
        },
        vectors@.len() > 0 ==> {
            &&& out.data@ == majority(datas(vectors@), threshold as int)
            &&& out.concept_id@ == "compress_mp4c"@
            &&& out.source_text@ == Seq::<char>::empty()
        },
{
    if vectors.len() == 0 {
        let hv = Hypervector::from_string("zero", None);
        proof {
            reveal_strlit("zero");
        }
        return hv;
    }
    Hypervector {
        data: majority_data(vectors, threshold),
        concept_id: String::from_str("compress_mp4c"),
        source_text: String::new(),
    }
}

/// Tallies add up over a concatenation of voter lists.
pub proof fn lemma_tally_concat(vs: Seq<Seq<u8>>, ws: Seq<Seq<u8>>, k: int)
    ensures
        tally(vs + ws, k) == tally(vs, k) + tally(ws, k),
    decreases ws.len(),
{
    if ws.len() > 0 {
        assert((vs + ws).drop_last() =~= vs + ws.drop_last());
        assert((vs + ws).last() == ws.last());
        lemma_tally_concat(vs, ws.drop_last(), k);
    } else {
        assert(vs + ws =~= vs);
    }
}

/// Law: bundling does not depend on the order of the groups bundled: the
/// majority over `vs` then `ws` is the majority over `ws` then `vs`.
pub proof fn lemma_bundle_order_free(vs: Seq<Seq<u8>>, ws: Seq<Seq<u8>>, threshold: int)
    ensures
        majority(vs + ws, threshold) == majority(ws + vs, threshold),
{
    let f = |k: int| tally(vs + ws, k) > threshold;
    let g = |k: int| tally(ws + vs, k) > threshold;
    assert forall|k: int| 0 <= k < DIMS implies #[trigger] bit_at(majority(ws + vs, threshold), k) == f(k) by {
        lemma_tally_concat(vs, ws, k);
        lemma_tally_concat(ws, vs, k);
        lemma_majority_bits(ws + vs, threshold, k);
    }
    lemma_bits_to_bytes_unique(f, majority(ws + vs, threshold));
}

/// Law: the bundle of a single full-length vector is that vector.
pub proof fn lemma_bundle_single(a: Seq<u8>)
    requires
        a.len() == PACKED_BYTES,
    ensures
        majority(seq![a], 0) == a,
{
    assert(seq![a].drop_last() =~= Seq::<Seq<u8>>::empty());
    assert(seq![a].last() == a);
    assert(tally(Seq::<Seq<u8>>::empty(), 0) == 0);
    assert forall|k: int| 0 <= k < DIMS implies #[trigger] bit_at(a, k) == (tally(seq![a], k) > 0) by {
        assert(tally(Seq::<Seq<u8>>::empty(), k) == 0);
        assert(tally(seq![a], k) == vote(a, k));
    }
    lemma_bits_to_bytes_unique(|k: int| tally(seq![a], k) > 0, a);
}

/// Law: the bundle of two full-length vectors keeps exactly the bits set in
/// both (a tie of one vote each way is not a majority).
pub proof fn lemma_bundle_pair(a: Seq<u8>, b: Seq<u8>, k: int)
    requires
        a.len() == PACKED_BYTES,
        b.len() == PACKED_BYTES,
        0 <= k < DIMS,
    ensures
        bit_at(majority(seq![a, b], 0), k) == (bit_at(a, k) && bit_at(b, k)),
{
    assert(seq![a, b].drop_last() =~= seq![a]);
    assert(seq![a].drop_last() =~= Seq::<Seq<u8>>::empty());
    assert(seq![a].last() == a);
    assert(seq![a, b].last() == b);
    assert(tally(Seq::<Seq<u8>>::empty(), k) == 0);
    assert(tally(seq![a], k) == vote(a, k));
    assert(tally(seq![a, b], k) == vote(a, k) + vote(b, k));
    lemma_majority_bits(seq![a, b], 0, k);
}

/// Law: raising the threshold only clears bits: every bit kept at the higher
/// threshold is kept at the lower one.
pub proof fn lemma_threshold_monotone(vs: Seq<Seq<u8>>, t_lo: int, t_hi: int, k: int)
    requires
        t_lo <= t_hi,
        0 <= k < DIMS,
    ensures
        bit_at(majority(vs, t_hi), k) ==> bit_at(majority(vs, t_lo), k),
{
    lemma_majority_bits(vs, t_hi, k);
    lemma_majority_bits(vs, t_lo, k);
}

} // verus!
