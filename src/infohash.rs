//! The info hash: the SHA-1 digest of the canonically encoded `info` dictionary.
use vstd::prelude::*;
use crate::decode::decode;
use crate::encode::encode;
use crate::error::{Error, ErrorKind};
use crate::grammar::{spec_decode, spec_encode};
use crate::outside::{hex_encode, hex_of, sha1_digest, sha1_of};
use crate::reader::field;
use crate::value::SpecValue;

verus! {

broadcast use vstd::std_specs::vec::group_vec_axioms, vstd::seq::group_seq_axioms;

/// `%xx` for each byte, with lowercase hexadecimal digits.
pub open spec fn url_encoded_of(b: Seq<u8>) -> Seq<char>
    decreases b.len(),
{
    if b.len() == 0 {
        Seq::empty()
    } else {
        url_encoded_of(b.drop_last()) + seq!['%'] + hex_of(seq![b.last()])
    }
}

/// Percent-encodes every byte of `b`.
pub fn url_encode(b: &[u8]) -> (r: String)
    ensures
        r@ == url_encoded_of(b@),
{
    let mut out = String::new();
    let mut i: usize = 0;
    assert(b@.subrange(0, 0) =~= Seq::<u8>::empty());
    while i < b.len()
        invariant
            0 <= i <= b@.len(),
            out@ == url_encoded_of(b@.subrange(0, i as int)),
        decreases b@.len() - i,
    {
        let one = [b[i]];
        let h = hex_encode(vstd::array::array_as_slice(&one));
        out.append("%");
        out.append(h.as_str());
        proof {
            reveal_strlit("%");
            assert(b@.subrange(0, i + 1).drop_last() =~= b@.subrange(0, i as int));
            assert(one@ =~= seq![b@.subrange(0, i + 1).last()]);
        }
        i = i + 1;
    }
    assert(b@.subrange(0, b@.len() as int) =~= b@);
    out
}

/// The 20-byte identifier of a torrent.
#[derive(Debug, Clone, Copy, PartialEq, Eq)]
pub struct InfoHash {
    bytes: [u8; 20],
}

/// The raw bytes of an info hash, as sent in tracker requests.
#[derive(Debug, Clone, Copy, PartialEq, Eq)]
pub struct InfoHashEncoded(pub [u8; 20]);

impl InfoHashEncoded {
    /// Percent-encoded form, as used in HTTP tracker queries.
    pub fn to_url_encoded(&self) -> (r: String)
        ensures
            r@ == url_encoded_of(self.0@),
    {
        url_encode(vstd::array::array_as_slice(&self.0))
    }
}

impl InfoHash {
    pub closed spec fn view(&self) -> Seq<u8> {
        self.bytes@
    }

    /// The info hash of an already encoded `info` dictionary.
    pub fn new(info: &[u8]) -> (r: InfoHash)
        requires
            info@.len() < 0x2000_0000_0000_0000,
        ensures
            r.view() == sha1_of(info@),
    {
        InfoHash { bytes: sha1_digest(info) }
    }

    /// The info hash of a `.torrent` document: its `info` entry, canonically
    /// re-encoded and hashed. Fails when the document does not decode or has
    /// no `info` entry.
    pub fn from_document(doc: &[u8]) -> (r: Result<InfoHash, Error>)
        ensures
            r matches Ok(h) ==> exists|v: SpecValue, iv: SpecValue|
                spec_decode(doc@) == Ok::<SpecValue, ErrorKind>(v) && field(v, "info") == Some(iv)
                    && h.view() == sha1_of(spec_encode(iv)),
            spec_decode(doc@) is Err ==> r is Err,
            (spec_decode(doc@) matches Ok(v) && field(v, "info") is None) ==> r is Err,
            (spec_decode(doc@) matches Ok(v) && (field(v, "info") matches Some(iv)
                && spec_encode(iv).len() < 0x2000_0000_0000_0000)) ==> r is Ok,
    {
        let v = decode(doc)?;
        let info = match v.get_from_dictionary("info") {
            Some(i) => i,
            None => {
                return Err(Error::MissingField("Missing Field: `info`".to_string()));
            },
        };
        let bytes = encode(info);
        if bytes.len() as u64 >= 0x2000_0000_0000_0000u64 {
            return Err(Error::InvalidLength("The info dictionary is too large to hash".to_string()));
        }
        Ok(InfoHash::new(bytes.as_slice()))
    }

    /// The digest bytes.
    pub fn as_bytes(&self) -> (r: [u8; 20])
        ensures
            r@ == self.view(),
    {
        self.bytes
    }

    /// The digest bytes, for tracker requests.
    pub fn as_encoded(&self) -> (r: InfoHashEncoded)
        ensures
            r.0@ == self.view(),
    {
        InfoHashEncoded(self.bytes)
    }

    /// Lowercase hexadecimal form.
    pub fn to_hex(&self) -> (r: String)
        ensures
            r@ == hex_of(self.view()),
    {
        hex_encode(vstd::array::array_as_slice(&self.bytes))
    }

    /// Percent-encoded form, as used in HTTP tracker queries.
    pub fn to_url_encoded(&self) -> (r: String)
        ensures
            r@ == url_encoded_of(self.view()),
    {
        url_encode(vstd::array::array_as_slice(&self.bytes))
    }
}

} // verus!
