//! The calls this library makes into std and outside crates, with what it relies on.
use vstd::prelude::*;
use vstd::utf8::*;

verus! {

/// Relies on std's `String::from_utf8`: it accepts exactly the valid UTF-8
/// byte sequences and the string then holds those bytes.
#[verifier::external_body]
pub(crate) fn utf8_text(b: Vec<u8>) -> (r: Option<String>)
    ensures
        r.is_some() <==> valid_utf8(b@),
        r.is_some() ==> encode_utf8(r.unwrap()@) == b@,
{
    match String::from_utf8(b) {
        Ok(s) => Some(s),
        Err(_) => None,
    }
}

/// The SHA-1 digest of a byte string.
pub uninterp spec fn sha1_of(b: Seq<u8>) -> Seq<u8>;

/// Relies on `sha1_smol::Sha1::from(..).digest().bytes()`: the 20-byte SHA-1
/// digest, a function of the input bytes alone. The digest's bit count is a
/// `u64` product, so the input stays below 2^61 bytes.
#[verifier::external_body]
pub(crate) fn sha1_digest(b: &[u8]) -> (r: [u8; 20])
    requires
        b@.len() < 0x2000_0000_0000_0000,
    ensures
        r@ == sha1_of(b@),
{
    sha1_smol::Sha1::from(b).digest().bytes()
}

/// Lowercase hexadecimal digit of `d < 16`.
pub open spec fn hex_digit(d: int) -> char {
    if d == 0 { '0' } else if d == 1 { '1' } else if d == 2 { '2' } else if d == 3 { '3' }
    else if d == 4 { '4' } else if d == 5 { '5' } else if d == 6 { '6' } else if d == 7 { '7' }
    else if d == 8 { '8' } else if d == 9 { '9' } else if d == 10 { 'a' } else if d == 11 { 'b' }
    else if d == 12 { 'c' } else if d == 13 { 'd' } else if d == 14 { 'e' } else { 'f' }
}

/// Two lowercase hexadecimal digits per byte, high digit first.
pub open spec fn hex_of(b: Seq<u8>) -> Seq<char>
    decreases b.len(),
{
    if b.len() == 0 {
        Seq::empty()
    } else {
        hex_of(b.drop_last()) + seq![hex_digit(b.last() as int / 16), hex_digit(b.last() as int % 16)]
    }
}

/// Relies on `hex::encode`: each byte becomes its two lowercase hexadecimal
/// digits, high digit first.
#[verifier::external_body]
pub(crate) fn hex_encode(b: &[u8]) -> (r: String)
    ensures
        r@ == hex_of(b@),
{
    hex::encode(b)
}

/// Relies on `rand::random`: a value drawn from the thread-local generator.
/// Nothing is promised of the value.
pub assume_specification<T>[ rand::random::<T> ]() -> (r: T)
    where
        rand::distributions::Standard: rand::distributions::Distribution<T>,
;

/// Relies on std's `SystemTime::now` and `duration_since(UNIX_EPOCH)`: the
/// nanoseconds since the Unix epoch, or `None` when the clock is set before
/// it. Nothing is promised of the value.
#[verifier::external_body]
pub(crate) fn nanos_since_epoch() -> (r: Option<u128>) {
    match std::time::SystemTime::now().duration_since(std::time::UNIX_EPOCH) {
        Ok(d) => Some(d.as_nanos()),
        Err(_) => None,
    }
}

/// A byte that form encoding leaves as it is: `*`, `-`, `.`, `_`, digits and letters.
pub open spec fn form_unchanged(b: u8) -> bool {
    b == 42 || b == 45 || b == 46 || b == 95 || (48 <= b <= 57) || (65 <= b <= 90) || (97 <= b <= 122)
}

/// Uppercase hexadecimal digit of `d < 16`, as a byte.
pub open spec fn upper_hex(d: int) -> u8 {
    if d < 10 {
        (48 + d) as u8
    } else {
        (55 + d) as u8
    }
}

/// One byte, form encoded: kept, `+` for a space, else `%XX`.
pub open spec fn form_byte(b: u8) -> Seq<u8> {
    if form_unchanged(b) {
        seq![b]
    } else if b == 32 {
        seq![43u8]
    } else {
        seq![37u8, upper_hex(b as int / 16), upper_hex(b as int % 16)]
    }
}

/// A name or a value, form encoded byte by byte.
pub open spec fn form_part(s: Seq<u8>) -> Seq<u8>
    decreases s.len(),
{
    if s.len() == 0 {
        Seq::empty()
    } else {
        form_part(s.drop_last()) + form_byte(s.last())
    }
}

/// The `application/x-www-form-urlencoded` serialization of name/value pairs,
/// given and returned as UTF-8 bytes: `name=value`, joined by `&`.
pub open spec fn urlencoded_of(pairs: Seq<(Seq<u8>, Seq<u8>)>) -> Seq<u8>
    decreases pairs.len(),
{
    if pairs.len() == 0 {
        Seq::empty()
    } else {
        urlencoded_of(pairs.drop_last()) + (if pairs.len() > 1 {
            seq![38u8]
        } else {
            Seq::empty()
        }) + form_part(pairs.last().0) + seq![61u8] + form_part(pairs.last().1)
    }
}

/// Relies on `serde_urlencoded::to_string` on a sequence of string pairs,
/// which writes each pair with `form_urlencoded::Serializer::append_pair`
/// (`byte_serialize` on the UTF-8 bytes of name and value) and cannot fail
/// on string pairs.
#[verifier::external_body]
pub(crate) fn urlencode_pairs(pairs: &Vec<(String, String)>) -> (r: Option<String>)
    ensures
        r is Some,
        r matches Some(s) ==> encode_utf8(s@) == urlencoded_of(
            Seq::new(pairs@.len(), |i: int| (encode_utf8(pairs@[i].0@), encode_utf8(pairs@[i].1@))),
        ),
{
    match serde_urlencoded::to_string(pairs) {
        Ok(s) => Some(s),
        Err(_) => None,
    }
}

/// The lowercase mapping of a string, as std's `str::to_lowercase` defines it.
pub uninterp spec fn lower_of(s: Seq<char>) -> Seq<char>;

/// Relies on std's `str::to_lowercase`: the result depends on the characters alone.
#[verifier::external_body]
pub(crate) fn lowercase(s: &str) -> (r: String)
    ensures
        r@ == lower_of(s@),
{
    s.to_lowercase()
}

} // verus!
