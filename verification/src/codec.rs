//! Text encoding of hypervector data with standard, padded base64 (the
//! `base64` crate), as used when a hypervector is written out and read back.

use crate::hypervector::Hypervector;
use base64::engine::general_purpose::STANDARD;
use base64::Engine;
use vstd::prelude::*;

verus! {

/// The standard padded base64 encoding of a byte string, as
/// `base64::engine::general_purpose::STANDARD` produces it.
pub uninterp spec fn base64_encoding(data: Seq<u8>) -> Seq<char>;

/// What `STANDARD.decode` gives for a text: the bytes, or nothing when the
/// text is not valid padded base64.
pub uninterp spec fn base64_decoding(text: Seq<char>) -> Option<Seq<u8>>;

/// The view of optional bytes.
pub open spec fn bytes_view(r: Option<Vec<u8>>) -> Option<Seq<u8>> {
    match r {
        Some(v) => Some(v@),
        None => None,
    }
}

/// Calls `STANDARD.encode` (engine `GeneralPurpose` with the standard
/// alphabet and padding) on `data`. Trusted: the text is the encoding named
/// `base64_encoding` of exactly these bytes.
#[verifier::external_body]
fn base64_encode(data: &[u8]) -> (text: String)
    ensures
        text@ == base64_encoding(data@),
{
    STANDARD.encode(data)
}

/// Calls `STANDARD.decode` on the bytes of `text`, turning its error into
/// `None`. Trusted: the result is the decoding named `base64_decoding` of the
/// text, and decoding what `STANDARD.encode` produced for some bytes gives
/// those bytes back (the round trip that the engine's canonical padding
/// guarantees).
#[verifier::external_body]
fn base64_decode(text: &str) -> (r: Option<Vec<u8>>)
    ensures
        bytes_view(r) == base64_decoding(text@),
        forall|b: Seq<u8>| #[trigger] base64_encoding(b) == text@ ==> bytes_view(r) == Some(b),
{
    STANDARD.decode(text).ok()
}

impl Hypervector {
    /// The vector's bytes as standard padded base64 text.
    pub fn data_base64(&self) -> (text: String)
        ensures
            text@ == base64_encoding(self.data@),
    {
        base64_encode(self.data.as_slice())
    }

    /// A hypervector from base64 text and its name and source text: `None`
    /// when the text is not valid base64.
    pub fn from_base64(encoded: &str, concept_id: String, source_text: String) -> (r: Option<Hypervector>)
        ensures
            match r {
                Some(hv) => base64_decoding(encoded@) == Some(hv.data@) && hv.concept_id == concept_id
                    && hv.source_text == source_text,
                None => base64_decoding(encoded@) is None,
            },
            forall|b: Seq<u8>| #[trigger] base64_encoding(b) == encoded@ ==> (r matches Some(hv) && hv.data@ == b),
    {
        match base64_decode(encoded) {
            Some(data) => Some(Hypervector { data, concept_id, source_text }),
            None => None,
        }
    }
}

/// Law: reading back what `data_base64` wrote gives the same bytes.
pub proof fn lemma_base64_round_trip(data: Seq<u8>, r: Option<Hypervector>, encoded: Seq<char>)
    requires
        encoded == base64_encoding(data),
        forall|b: Seq<u8>| #[trigger] base64_encoding(b) == encoded ==> (r matches Some(hv) && hv.data@ == b),
    ensures
        r matches Some(hv) && hv.data@ == data,
{
}

} // verus!
