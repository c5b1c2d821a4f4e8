//! The bencode grammar as mathematics: what decoding means and what the
//! canonical encoding of a value is.
use vstd::prelude::*;
use vstd::utf8::*;
use crate::error::ErrorKind;
use crate::value::{SpecValue, dict_insert};

verus! {

pub open spec fn is_digit(b: u8) -> bool {
    48 <= b <= 57
}

pub open spec fn all_digits(d: Seq<u8>) -> bool {
    forall|i: int| 0 <= i < d.len() ==> is_digit(#[trigger] d[i])
}

/// The number that a string of decimal digits denotes.
pub open spec fn digits_value(d: Seq<u8>) -> nat
    decreases d.len(),
{
    if d.len() == 0 {
        0
    } else {
        digits_value(d.drop_last()) * 10 + (d.last() - 48) as nat
    }
}

/// The shortest decimal digits of `n`.
pub open spec fn nat_digits(n: nat) -> Seq<u8>
    decreases n,
{
    if n < 10 {
        seq![(48 + n) as u8]
    } else {
        nat_digits(n / 10).push((48 + n % 10) as u8)
    }
}

/// Position of the first `c` at or after `from`.
pub open spec fn find_byte(s: Seq<u8>, from: int, c: u8) -> Option<int>
    decreases s.len() - from,
{
    if from < 0 || from >= s.len() {
        None
    } else if s[from] == c {
        Some(from)
    } else {
        find_byte(s, from + 1, c)
    }
}

pub open spec fn two_pow_63() -> nat {
    0x8000_0000_0000_0000
}

/// An integer `i...e` whose tag stands at `pos`.
pub open spec fn spec_parse_int(s: Seq<u8>, pos: int) -> Result<(SpecValue, int), ErrorKind> {
    match find_byte(s, pos + 1, 101u8) {
        None => Err(ErrorKind::InvalidValue),
        Some(e) => {
            let body = s.subrange(pos + 1, e);
            if body.len() == 0 {
                Err(ErrorKind::InvalidType)
            } else {
                let neg = body[0] == 45u8;
                let digits = if neg { body.drop_first() } else { body };
                if digits.len() == 0 || !all_digits(digits) {
                    Err(ErrorKind::InvalidType)
                } else if digits[0] == 48u8 && (digits.len() > 1 || neg) {
                    Err(ErrorKind::InvalidType)
                } else if neg {
                    if digits_value(digits) > two_pow_63() {
                        Err(ErrorKind::InvalidValue)
                    } else {
                        Ok((SpecValue::Int(-digits_value(digits)), e + 1))
                    }
                } else {
                    if digits_value(digits) >= two_pow_63() {
                        Err(ErrorKind::InvalidValue)
                    } else {
                        Ok((SpecValue::Int(digits_value(digits) as int), e + 1))
                    }
                }
            }
        }
    }
}

/// A byte string `<len>:<bytes>` whose first digit stands at `pos`.
pub open spec fn spec_parse_bytes(s: Seq<u8>, pos: int) -> Result<(Seq<u8>, int), ErrorKind> {
    match find_byte(s, pos, 58u8) {
        None => Err(ErrorKind::InvalidValue),
        Some(c) => {
            let d = s.subrange(pos, c);
            if !all_digits(d) {
                Err(ErrorKind::InvalidType)
            } else if digits_value(d) > s.len() - (c + 1) {
                Err(ErrorKind::InvalidType)
            } else {
                Ok((s.subrange(c + 1, c + 1 + digits_value(d)), c + 1 + digits_value(d)))
            }
        }
    }
}

/// A byte string becomes text when it is valid UTF-8.
pub open spec fn string_value(b: Seq<u8>) -> SpecValue {
    if valid_utf8(b) {
        SpecValue::Text(b)
    } else {
        SpecValue::Bytes(b)
    }
}

/// The key bytes that a decoded dictionary key gives.
pub open spec fn key_of(k: SpecValue) -> Result<Seq<u8>, ErrorKind> {
    match k {
        SpecValue::Text(b) => Ok(b),
        SpecValue::Bytes(b) => if valid_utf8(b) {
            Ok(b)
        } else {
            Err(ErrorKind::Custom)
        },
        _ => Err(ErrorKind::InvalidType),
    }
}

/// The value that starts at `pos`, and the position after it.
pub open spec fn spec_parse(s: Seq<u8>, pos: int) -> Result<(SpecValue, int), ErrorKind>
    decreases s.len() - pos, 0nat,
{
    if pos < 0 || pos >= s.len() {
        Err(ErrorKind::EndOfStream)
    } else if is_digit(s[pos]) {
        match spec_parse_bytes(s, pos) {
            Ok((b, e)) => Ok((string_value(b), e)),
            Err(k) => Err(k),
        }
    } else if s[pos] == 105u8 {
        spec_parse_int(s, pos)
    } else if s[pos] == 108u8 {
        spec_parse_list(s, pos + 1, Seq::empty())
    } else if s[pos] == 100u8 {
        spec_parse_dict(s, pos + 1, Seq::empty())
    } else {
        Err(ErrorKind::InvalidType)
    }
}

/// The rest of a list from `p`, after the items `acc`.
pub open spec fn spec_parse_list(s: Seq<u8>, p: int, acc: Seq<SpecValue>) -> Result<(SpecValue, int), ErrorKind>
    decreases s.len() - p, 1nat,
{
    if p < 0 || p >= s.len() {
        Err(ErrorKind::InvalidType)
    } else if s[p] == 101u8 {
        Ok((SpecValue::List(acc), p + 1))
    } else {
        match spec_parse(s, p) {
            Err(k) => Err(k),
            Ok((v, q)) => if p < q && q <= s.len() {
                spec_parse_list(s, q, acc.push(v))
            } else {
                Err(ErrorKind::InvalidType)
            },
        }
    }
}

/// The rest of a dictionary from `p`, after the entries `acc`.
pub open spec fn spec_parse_dict(s: Seq<u8>, p: int, acc: Seq<(Seq<u8>, SpecValue)>) -> Result<(SpecValue, int), ErrorKind>
    decreases s.len() - p, 1nat,
{
    if p < 0 || p >= s.len() {
        Err(ErrorKind::InvalidType)
    } else if s[p] == 101u8 {
        Ok((SpecValue::Dict(acc), p + 1))
    } else {
        match spec_parse(s, p) {
            Err(k) => Err(k),
            Ok((kv, q)) => if p < q && q <= s.len() {
                match key_of(kv) {
                    Err(k) => Err(k),
                    Ok(key) => match spec_parse(s, q) {
                        Err(k) => Err(k),
                        Ok((v, r)) => if q < r && r <= s.len() {
                            spec_parse_dict(s, r, dict_insert(acc, key, v))
                        } else {
                            Err(ErrorKind::InvalidType)
                        },
                    },
                }
            } else {
                Err(ErrorKind::InvalidType)
            },
        }
    }
}

/// Position of the first byte of `s[from..to]` that is not a decimal digit.
pub open spec fn first_non_digit(s: Seq<u8>, from: int, to: int) -> int
    decreases to - from,
{
    if from >= to || !is_digit(s[from]) {
        from
    } else {
        first_non_digit(s, from + 1, to)
    }
}

/// The message of a failed integer at `pos`.
pub open spec fn msg_int(s: Seq<u8>, pos: int) -> Seq<char> {
    match find_byte(s, pos + 1, 101u8) {
        None => "Invalid integer bencode format: missing 'e'"@,
        Some(e) => {
            let body = s.subrange(pos + 1, e);
            if body.len() == 0 {
                "Invalid bencode integer format: empty integer"@
            } else {
                let neg = body[0] == 45u8;
                let digits = if neg { body.drop_first() } else { body };
                if digits.len() == 0 || !all_digits(digits) {
                    "Invalid character in bencode integer"@
                } else if digits[0] == 48u8 && (digits.len() > 1 || neg) {
                    "Invalid integer bencode integer format: leading zeros"@
                } else {
                    "Integer overflow"@
                }
            }
        }
    }
}

/// The message of a failed byte string at `pos`; a non-digit in the length
/// is named when it is a character on its own.
pub open spec fn msg_bytes(s: Seq<u8>, pos: int) -> Seq<char> {
    match find_byte(s, pos, 58u8) {
        None => "Invalid string bencode format: missing ':'"@,
        Some(c) => if !all_digits(s.subrange(pos, c)) {
            let b = seq![s[first_non_digit(s, pos, c)]];
            "Non Digit character found in the length of the string: '"@ + (if valid_utf8(b) {
                decode_utf8(b)
            } else {
                Seq::empty()
            }) + "'"@
        } else {
            "Invalid string bencode format: length is higher than the remaining bytes"@
        },
    }
}

/// The message of the error that decoding at `pos` ends in.
pub open spec fn spec_msg(s: Seq<u8>, pos: int) -> Seq<char>
    decreases s.len() - pos, 0nat,
{
    if pos < 0 || pos >= s.len() {
        "End of stream"@
    } else if is_digit(s[pos]) {
        msg_bytes(s, pos)
    } else if s[pos] == 105u8 {
        msg_int(s, pos)
    } else if s[pos] == 108u8 {
        msg_list(s, pos + 1)
    } else if s[pos] == 100u8 {
        msg_dict(s, pos + 1)
    } else {
        "Invalid bencode format"@
    }
}

pub open spec fn msg_list(s: Seq<u8>, p: int) -> Seq<char>
    decreases s.len() - p, 1nat,
{
    if p < 0 || p >= s.len() {
        "Invalid list format: missing 'e'"@
    } else if s[p] == 101u8 {
        Seq::empty()
    } else {
        match spec_parse(s, p) {
            Err(_) => spec_msg(s, p),
            Ok((_, q)) => if p < q && q <= s.len() {
                msg_list(s, q)
            } else {
                Seq::empty()
            },
        }
    }
}

pub open spec fn msg_dict(s: Seq<u8>, p: int) -> Seq<char>
    decreases s.len() - p, 1nat,
{
    if p < 0 || p >= s.len() {
        "Invalid dictionary format: missing 'e'"@
    } else if s[p] == 101u8 {
        Seq::empty()
    } else {
        match spec_parse(s, p) {
            Err(_) => spec_msg(s, p),
            Ok((kv, q)) => if p < q && q <= s.len() {
                match key_of(kv) {
                    Err(_) => if kv is Bytes {
                        "Dictionary key is not valid UTF-8"@
                    } else {
                        "Only string values are allowed as dictionary keys"@
                    },
                    Ok(_) => match spec_parse(s, q) {
                        Err(_) => spec_msg(s, q),
                        Ok((_, r)) => if q < r && r <= s.len() {
                            msg_dict(s, r)
                        } else {
                            Seq::empty()
                        },
                    },
                }
            } else {
                Seq::empty()
            },
        }
    }
}

/// What decoding a whole buffer gives; bytes after the first value are ignored.
pub open spec fn spec_decode(s: Seq<u8>) -> Result<SpecValue, ErrorKind> {
    match spec_parse(s, 0) {
        Ok((v, _)) => Ok(v),
        Err(k) => Err(k),
    }
}

/// The canonical encoding of a value.
pub open spec fn spec_encode(v: SpecValue) -> Seq<u8>
    decreases v, 1nat,
{
    match v {
        SpecValue::Int(n) => seq![105u8] + int_digits(n) + seq![101u8],
        SpecValue::Bytes(b) => encode_string(b),
        SpecValue::Text(b) => encode_string(b),
        SpecValue::List(l) => seq![108u8] + encode_items(l) + seq![101u8],
        SpecValue::Dict(d) => seq![100u8] + encode_entries(d) + seq![101u8],
    }
}

pub open spec fn int_digits(n: int) -> Seq<u8> {
    if n < 0 {
        seq![45u8] + nat_digits((-n) as nat)
    } else {
        nat_digits(n as nat)
    }
}

pub open spec fn encode_string(b: Seq<u8>) -> Seq<u8> {
    nat_digits(b.len()) + seq![58u8] + b
}

pub open spec fn encode_items(l: Seq<SpecValue>) -> Seq<u8>
    decreases l, 0nat,
{
    if l.len() == 0 {
        Seq::empty()
    } else {
        encode_items(l.drop_last()) + spec_encode(l.last())
    }
}

pub open spec fn encode_entries(d: Seq<(Seq<u8>, SpecValue)>) -> Seq<u8>
    decreases d, 0nat,
{
    if d.len() == 0 {
        Seq::empty()
    } else {
        encode_entries(d.drop_last()) + encode_string(d.last().0) + spec_encode(d.last().1)
    }
}

} // verus!
