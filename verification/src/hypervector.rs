//! The hypervector type and its element-wise algebra.

use crate::bits::{lemma_xor_commutes, lemma_xor_twice};
use crate::digest::{sha256, sha256_digest};
use crate::prng::{xorshift_bytes, xorshift_fill};
use crate::text::{prefix_chars, take_chars};
use crate::PACKED_BYTES;
use vstd::prelude::*;
use vstd::string::StringSliceAdditionalSpecFns;

verus! {

/// A packed binary hypervector with the name it is known by and the text it
/// was made from.
#[derive(Clone)]
pub struct Hypervector {
    pub data: Vec<u8>,
    pub concept_id: String,
    pub source_text: String,
}

/// The generator seed taken from a digest: its first eight bytes read as a
/// little-endian `u64`.
pub open spec fn seed_of(d: Seq<u8>) -> u64 {
    (d[0] as u64) | (d[1] as u64) << 8u64 | (d[2] as u64) << 16u64 | (d[3] as u64) << 24u64
        | (d[4] as u64) << 32u64 | (d[5] as u64) << 40u64 | (d[6] as u64) << 48u64 | (d[7]
        as u64) << 56u64
}

/// The bytes of the atomic hypervector of a byte string: the xorshift64
/// stream seeded from the string's SHA-256 digest.
pub open spec fn atomic_data(text: Seq<u8>) -> Seq<u8> {
    xorshift_bytes(seed_of(sha256_digest(text)), PACKED_BYTES as nat)
}

/// The name a hypervector made from `text` gets: the one given, or else the
/// first fifty characters of the text.
pub open spec fn default_concept(text: Seq<char>, concept_id: Option<Seq<char>>) -> Seq<char> {
    match concept_id {
        Some(c) => c,
        None => prefix_chars(text, 50),
    }
}

/// Element-wise exclusive or over the common length of two byte strings.
pub open spec fn xor_bytes(a: Seq<u8>, b: Seq<u8>) -> Seq<u8> {
    Seq::new(if a.len() <= b.len() { a.len() } else { b.len() }, |i: int| a[i] ^ b[i])
}

/// The view of an optional string slice.
pub open spec fn opt_view(o: Option<&str>) -> Option<Seq<char>> {
    match o {
        Some(s) => Some(s@),
        None => None,
    }
}

/// Element-wise exclusive or of two byte vectors over their common length.
pub fn xor_data(a: &Vec<u8>, b: &Vec<u8>) -> (out: Vec<u8>)
    ensures
        out@ == xor_bytes(a@, b@),
{
    let n = if a.len() <= b.len() { a.len() } else { b.len() };
    let mut out: Vec<u8> = Vec::with_capacity(n);
    let mut i: usize = 0;
    while i < n
        invariant
            i <= n,
            n == if a@.len() <= b@.len() { a@.len() } else { b@.len() },
            out@.len() == i,
            forall|j: int| 0 <= j < i ==> out@[j] == a@[j] ^ b@[j],
        decreases n - i,
    {
        out.push(a[i] ^ b[i]);
        i = i + 1;
    }
    assert(out@ =~= xor_bytes(a@, b@));
    out
}

impl Hypervector {
    /// The atomic hypervector of `text`: its bytes come from the xorshift64
    /// stream seeded with the first eight bytes of the SHA-256 digest of the
    /// text's UTF-8 encoding.
    pub fn atomic_from_str(text: &str, concept_id: &str) -> (hv: Hypervector)
        ensures
            hv.data@ == atomic_data(text.spec_bytes()),
            hv.data@.len() == PACKED_BYTES,
            hv.concept_id@ == concept_id@,
            hv.source_text@ == text@,
    {
        let digest = sha256(text.as_bytes());
        let seed: u64 = (digest[0] as u64) | (digest[1] as u64) << 8u64 | (digest[2] as u64)
            << 16u64 | (digest[3] as u64) << 24u64 | (digest[4] as u64) << 32u64 | (digest[5]
            as u64) << 40u64 | (digest[6] as u64) << 48u64 | (digest[7] as u64) << 56u64;
        let data = xorshift_fill(seed, PACKED_BYTES);
        Hypervector {
            data,
            concept_id: String::from_str(concept_id),
            source_text: String::from_str(text),
        }
    }

    /// The hypervector of `text`: atomic data from the text's SHA-256 seed,
    /// named by `concept_id` or else by the first fifty characters of the text.
    pub fn from_string(text: &str, concept_id: Option<&str>) -> (hv: Hypervector)
        ensures
            hv.data@ == atomic_data(text.spec_bytes()),
            hv.data@.len() == PACKED_BYTES,
            hv.concept_id@ == default_concept(text@, opt_view(concept_id)),
            hv.source_text@ == text@,
    {
        let mut hv = Self::atomic_from_str(text, text);
        hv.concept_id = match concept_id {
            Some(c) => String::from_str(c),
            None => take_chars(text, 50),
        };
        hv
    }

    /// A copy with the same bytes, name and source text.
    pub fn copy(&self) -> (out: Hypervector)
        ensures
            out.data@ == self.data@,
            out.concept_id@ == self.concept_id@,
            out.source_text@ == self.source_text@,
    {
        Hypervector {
            data: self.data.clone(),
            concept_id: self.concept_id.clone(),
            source_text: self.source_text.clone(),
        }
    }

    /// Binding: element-wise exclusive or of the two vectors, named
    /// `bound_<self>_<other>`, keeping this vector's source text.
    pub fn bind(&self, other: &Hypervector) -> (out: Hypervector)
        ensures
            out.data@ == xor_bytes(self.data@, other.data@),
            out.concept_id@ == "bound_"@ + self.concept_id@ + "_"@ + other.concept_id@,
            out.source_text@ == self.source_text@,
    {
        let data = xor_data(&self.data, &other.data);
        let mut concept_id = String::from_str("bound_");
        concept_id.append(self.concept_id.as_str());
        concept_id.append("_");
        concept_id.append(other.concept_id.as_str());
        Hypervector { data, concept_id, source_text: self.source_text.clone() }
    }
}

/// Analogy by binding: `b` bound with `a`, then with `c` ("a is to b as c is
/// to ...").
pub fn analogy(a: &Hypervector, b: &Hypervector, c: &Hypervector) -> (out: Hypervector)
    ensures
        out.data@ == xor_bytes(xor_bytes(b.data@, a.data@), c.data@),
        out.concept_id@ == "bound_"@ + ("bound_"@ + b.concept_id@ + "_"@ + a.concept_id@) + "_"@
            + c.concept_id@,
        out.source_text@ == b.source_text@,
{
    b.bind(a).bind(c)
}

/// Law: binding is its own inverse: binding twice with the same key gives the
/// bytes back (the key at least as long as the vector).
pub proof fn lemma_bind_self_inverse(a: Seq<u8>, key: Seq<u8>)
    requires
        key.len() >= a.len(),
    ensures
        xor_bytes(xor_bytes(a, key), key) == a,
{
    assert forall|i: int| 0 <= i < a.len() implies xor_bytes(xor_bytes(a, key), key)[i] == a[i] by {
        lemma_xor_twice(a[i], key[i]);
    }
    assert(xor_bytes(xor_bytes(a, key), key) =~= a);
}

/// Law: binding commutes.
pub proof fn lemma_bind_commutes(a: Seq<u8>, b: Seq<u8>)
    ensures
        xor_bytes(a, b) == xor_bytes(b, a),
{
    assert forall|i: int| 0 <= i < xor_bytes(a, b).len() implies xor_bytes(a, b)[i] == xor_bytes(b, a)[i] by {
        lemma_xor_commutes(a[i], b[i]);
    }
    assert(xor_bytes(a, b) =~= xor_bytes(b, a));
}

/// Law: the analogy `a : b :: a : ?` answers `b` exactly (equal lengths).
pub proof fn lemma_analogy_recovers(a: Seq<u8>, b: Seq<u8>)
    requires
        a.len() == b.len(),
    ensures
        xor_bytes(xor_bytes(b, a), a) == b,
{
    lemma_bind_self_inverse(b, a);
}

} // verus!
