//! Decoding bencode bytes into a [`Value`].
use vstd::prelude::*;
use vstd::utf8::*;
use vstd::slice::{slice_subrange, slice_to_vec};
use crate::error::{Error, ErrorKind};
use crate::grammar::{
    all_digits, digits_value, find_byte, is_digit, key_of, spec_decode, spec_parse,
    spec_parse_bytes, spec_parse_dict, spec_parse_int, spec_parse_list, msg_int, msg_bytes, spec_msg,
    msg_list, msg_dict, first_non_digit,
};
use crate::outside::utf8_text;
use crate::value::{
    insert_entry, is_ascii_bytes, text_bytes, view_entries,
    view_list, SpecValue, Value, ValueInput,
};

verus! {

broadcast use vstd::std_specs::vec::group_vec_axioms, vstd::seq::group_seq_axioms;

/// First position of `c` at or after `from`.
fn find_byte_from(s: &[u8], from: usize, c: u8) -> (r: Option<usize>)
    requires
        from <= s@.len(),
    ensures
        r matches Some(i) ==> find_byte(s@, from as int, c) == Some(i as int) && from <= i < s@.len(),
        r is None ==> find_byte(s@, from as int, c) is None,
{
    let mut i = from;
    while i < s.len()
        invariant
            from <= i <= s@.len(),
            find_byte(s@, from as int, c) == find_byte(s@, i as int, c),
        decreases s@.len() - i,
    {
        if s[i] == c {
            return Some(i);
        }
        i = i + 1;
    }
    None
}

proof fn lemma_digits_step(s: Seq<u8>, a: int, i: int)
    requires
        0 <= a <= i < s.len(),
    ensures
        digits_value(s.subrange(a, i + 1)) == digits_value(s.subrange(a, i)) * 10 + (s[i] - 48) as nat,
{
    assert(s.subrange(a, i + 1).drop_last() =~= s.subrange(a, i));
}

proof fn lemma_digits_prefix_le(d: Seq<u8>, k: int)
    requires
        0 <= k <= d.len(),
        all_digits(d),
    ensures
        digits_value(d.subrange(0, k)) <= digits_value(d),
    decreases d.len(),
{
    if k < d.len() {
        let t = d.drop_last();
        assert(t.subrange(0, k) =~= d.subrange(0, k));
        lemma_digits_prefix_le(t, k);
    } else {
        assert(d.subrange(0, k) =~= d);
    }
}

/// Checks that `s[a..b]` holds only decimal digits.
fn check_digits(s: &[u8], a: usize, b: usize) -> (r: bool)
    requires
        a <= b <= s@.len(),
    ensures
        r == all_digits(s@.subrange(a as int, b as int)),
{
    let mut i = a;
    while i < b
        invariant
            a <= i <= b <= s@.len(),
            forall|j: int| a <= j < i ==> is_digit(#[trigger] s@[j]),
        decreases b - i,
    {
        if s[i] < 48 || s[i] > 57 {
            assert(!is_digit(s@.subrange(a as int, b as int)[i - a]));
            return false;
        }
        i = i + 1;
    }
    assert forall|j: int| 0 <= j < b - a implies is_digit(#[trigger] s@.subrange(a as int, b as int)[j]) by {
        assert(s@.subrange(a as int, b as int)[j] == s@[a + j]);
    }
    true
}

/// The value of the digits `s[a..b]` when it is at most `limit`.
fn digits_up_to(s: &[u8], a: usize, b: usize, limit: u64) -> (r: Option<u64>)
    requires
        a <= b <= s@.len(),
        all_digits(s@.subrange(a as int, b as int)),
    ensures
        r matches Some(n) ==> n == digits_value(s@.subrange(a as int, b as int)) && n <= limit,
        r is None ==> digits_value(s@.subrange(a as int, b as int)) > limit,
{
    let mut acc: u64 = 0;
    let mut i = a;
    assert(s@.subrange(a as int, a as int) =~= Seq::<u8>::empty());
    while i < b
        invariant
            a <= i <= b <= s@.len(),
            all_digits(s@.subrange(a as int, b as int)),
            acc == digits_value(s@.subrange(a as int, i as int)),
            acc <= limit,
        decreases b - i,
    {
        assert(s@.subrange(a as int, b as int)[i - a] == s@[i as int]);
        let d = (s[i] - 48) as u64;
        proof {
            lemma_digits_step(s@, a as int, i as int);
        }
        let next: u128 = acc as u128 * 10 + d as u128;
        if next > limit as u128 {
            proof {
                let full = s@.subrange(a as int, b as int);
                assert(full.subrange(0, i + 1 - a) =~= s@.subrange(a as int, i + 1));
                lemma_digits_prefix_le(full, i + 1 - a);
            }
            return None;
        }
        acc = next as u64;
        i = i + 1;
    }
    Some(acc)
}

/// An integer whose `i` tag stands at `pos`.
fn parse_int(s: &[u8], pos: usize) -> (r: Result<(i64, usize), Error>)
    requires
        pos < s@.len(),
        s@[pos as int] == 105u8,
    ensures
        r matches Ok((n, e)) ==> spec_parse_int(s@, pos as int) == Ok::<(SpecValue, int), ErrorKind>((SpecValue::Int(n as int), e as int))
            && pos < e <= s@.len(),
        r matches Err(err) ==> spec_parse_int(s@, pos as int) == Err::<(SpecValue, int), ErrorKind>(err.spec_kind())
            && err.msg() == msg_int(s@, pos as int),
{
    let _n = s.len();
    let e = match find_byte_from(s, pos + 1, 101u8) {
        Some(e) => e,
        None => {
            return Err(Error::InvalidValue("Invalid integer bencode format: missing 'e'".to_string()));
        },
    };
    let ghost body = s@.subrange(pos + 1, e as int);
    if e == pos + 1 {
        return Err(Error::InvalidType("Invalid bencode integer format: empty integer".to_string()));
    }
    assert(body[0] == s@[pos + 1]);
    let neg = s[pos + 1] == 45u8;
    let start = if neg { pos + 2 } else { pos + 1 };
    let ghost digits = if neg { body.drop_first() } else { body };
    assert(digits =~= s@.subrange(start as int, e as int));
    if start == e || !check_digits(s, start, e) {
        return Err(Error::InvalidType("Invalid character in bencode integer".to_string()));
    }
    assert(digits[0] == s@[start as int]);
    if s[start] == 48u8 && (e - start > 1 || neg) {
        return Err(Error::InvalidType("Invalid integer bencode integer format: leading zeros".to_string()));
    }
    let limit: u64 = if neg { 0x8000_0000_0000_0000 } else { 0x7fff_ffff_ffff_ffff };
    match digits_up_to(s, start, e, limit) {
        None => Err(Error::InvalidValue("Integer overflow".to_string())),
        Some(m) => {
            let n: i64 = if !neg {
                m as i64
            } else if m == 0x8000_0000_0000_0000 {
                i64::MIN
            } else {
                -(m as i64)
            };
            Ok((n, e + 1))
        },
    }
}

/// The bytes of a string whose length prefix starts at `pos`.
fn parse_bytes(s: &[u8], pos: usize) -> (r: Result<(Vec<u8>, usize), Error>)
    requires
        pos < s@.len(),
        is_digit(s@[pos as int]),
    ensures
        r matches Ok((b, e)) ==> spec_parse_bytes(s@, pos as int) == Ok::<(Seq<u8>, int), ErrorKind>((b@, e as int)) && pos < e <= s@.len(),
        r matches Err(err) ==> spec_parse_bytes(s@, pos as int) == Err::<(Seq<u8>, int), ErrorKind>(err.spec_kind())
            && err.msg() == msg_bytes(s@, pos as int),
{
    let c = match find_byte_from(s, pos, 58u8) {
        Some(c) => c,
        None => {
            return Err(Error::InvalidValue("Invalid string bencode format: missing ':'".to_string()));
        },
    };
    if !check_digits(s, pos, c) {
        let mut msg = "Non Digit character found in the length of the string: '".to_string();
        let mut i = pos;
        while i < c && 48 <= s[i] && s[i] <= 57
            invariant
                pos <= i <= c <= s@.len(),
                first_non_digit(s@, pos as int, c as int) == first_non_digit(s@, i as int, c as int),
                forall|j: int| pos <= j < i ==> is_digit(#[trigger] s@[j]),
            decreases c - i,
        {
            i = i + 1;
        }
        if i == c {
            assert forall|j: int| 0 <= j < c - pos implies is_digit(#[trigger] s@.subrange(pos as int, c as int)[j]) by {
                assert(s@.subrange(pos as int, c as int)[j] == s@[pos + j]);
            }
        }
        let ghost b = seq![s@[i as int]];
        let one = vec![s[i]];
        assert(one@ =~= b);
        match utf8_text(one) {
            Some(t) => {
                proof {
                    vstd::utf8::encode_utf8_decode_utf8(t@);
                }
                msg.append(t.as_str());
            },
            None => {},
        }
        msg.append("'");
        return Err(Error::InvalidType(msg));
    }
    let rest = s.len() - (c + 1);
    match digits_up_to(s, pos, c, rest as u64) {
        None => Err(Error::InvalidType(
            "Invalid string bencode format: length is higher than the remaining bytes".to_string(),
        )),
        Some(n) => {
            let n = n as usize;
            let b = slice_to_vec(slice_subrange(s, c + 1, c + 1 + n));
            Ok((b, c + 1 + n))
        },
    }
}

pub(crate) proof fn lemma_ascii_valid_utf8(b: Seq<u8>)
    requires
        is_ascii_bytes(b),
    ensures
        valid_utf8(b),
{
    assert(b.subrange(0, 0) =~= Seq::<u8>::empty());
    assert(partial_valid_utf8(b, 0));
    partial_valid_utf8_extend_ascii_block(b, 0, b.len() as int);
    assert(b.subrange(0, b.len() as int) =~= b);
}

/// Decodes the value that starts at `pos` and returns it with the position after it.
pub fn parse_at(s: &[u8], pos: usize) -> (r: Result<(Value, usize), Error>)
    requires
        pos <= s@.len(),
    ensures
        r matches Ok((v, e)) ==> spec_parse(s@, pos as int) == Ok::<(SpecValue, int), ErrorKind>((v@, e as int)) && pos < e <= s@.len(),
        r matches Err(err) ==> spec_parse(s@, pos as int) == Err::<(SpecValue, int), ErrorKind>(err.spec_kind())
            && err.msg() == spec_msg(s@, pos as int),
    decreases s@.len() - pos,
{
    if pos >= s.len() {
        return Err(Error::EndOfStream);
    }
    let tag = s[pos];
    if 48 <= tag && tag <= 57 {
        match parse_bytes(s, pos) {
            Err(err) => Err(err),
            Ok((b, e)) => {
                match utf8_text(b.clone()) {
                    Some(t) => Ok((Value::String(t), e)),
                    None => Ok((Value::Bytes(b), e)),
                }
            },
        }
    } else if tag == 105u8 {
        match parse_int(s, pos) {
            Err(err) => Err(err),
            Ok((n, e)) => Ok((Value::Integer(n), e)),
        }
    } else if tag == 108u8 {
        let mut items: Vec<Value> = Vec::new();
        let mut p = pos + 1;
        while p < s.len() && s[p] != 101u8
            invariant
                pos < p <= s@.len(),
                spec_parse(s@, pos as int) == spec_parse_list(s@, p as int, view_list(items@)),
                spec_msg(s@, pos as int) == msg_list(s@, p as int),
            decreases s@.len() - p,
        {
            match parse_at(s, p) {
                Err(err) => {
                    return Err(err);
                },
                Ok((v, q)) => {
                    assert(items@.push(v).drop_last() =~= items@);
                    items.push(v);
                    p = q;
                },
            }
        }
        if p < s.len() {
            Ok((Value::List(items), p + 1))
        } else {
            Err(Error::InvalidType("Invalid list format: missing 'e'".to_string()))
        }
    } else if tag == 100u8 {
        let mut entries: Vec<(String, Value)> = Vec::new();
        let mut p = pos + 1;
        while p < s.len() && s[p] != 101u8
            invariant
                pos < p <= s@.len(),
                spec_parse(s@, pos as int) == spec_parse_dict(s@, p as int, view_entries(entries@)),
                spec_msg(s@, pos as int) == msg_dict(s@, p as int),
            decreases s@.len() - p,
        {
            let (kv, q) = match parse_at(s, p) {
                Err(err) => {
                    return Err(err);
                },
                Ok(x) => x,
            };
            let ghost kview = kv@;
            let key: String = match kv {
                Value::String(k) => k,
                Value::Bytes(b) => match utf8_text(b) {
                    Some(k) => k,
                    None => {
                        return Err(Error::Custom("Dictionary key is not valid UTF-8".to_string()));
                    },
                },
                _ => {
                    return Err(Error::InvalidType("Only string values are allowed as dictionary keys".to_string()));
                },
            };
            assert(key_of(kview) == Ok::<Seq<u8>, ErrorKind>(text_bytes(key)));
            let (v, r) = match parse_at(s, q) {
                Err(err) => {
                    return Err(err);
                },
                Ok(x) => x,
            };
            insert_entry(&mut entries, key, v);
            p = r;
        }
        if p < s.len() {
            Ok((Value::Dictionary(entries), p + 1))
        } else {
            Err(Error::InvalidType("Invalid dictionary format: missing 'e'".to_string()))
        }
    } else {
        Err(Error::InvalidType("Invalid bencode format".to_string()))
    }
}

/// A cursor over bencode input that decodes one value after another.
pub struct Deserializer<'de> {
    input: &'de [u8],
    pos: usize,
}

impl<'de> Deserializer<'de> {
    pub closed spec fn spec_input(&self) -> Seq<u8> {
        self.input@
    }

    pub closed spec fn spec_pos(&self) -> int {
        self.pos as int
    }

    pub closed spec fn wf(&self) -> bool {
        self.pos <= self.input@.len()
    }

    /// A cursor at the start of `input`.
    pub fn from_bytes(input: &'de [u8]) -> (r: Deserializer<'de>)
        ensures
            r.wf(),
            r.spec_input() == input@,
            r.spec_pos() == 0,
    {
        Deserializer { input, pos: 0 }
    }

    /// A cursor at the start of the bytes of `input`.
    pub fn from_str(input: &'de str) -> (r: Deserializer<'de>)
        ensures
            r.wf(),
            r.spec_input() == encode_utf8(input@),
            r.spec_pos() == 0,
    {
        Deserializer { input: input.as_bytes(), pos: 0 }
    }

    /// Decodes the value at the cursor and moves past it; on failure the
    /// cursor stays where it was.
    pub fn next_value(&mut self) -> (r: Result<Value, Error>)
        requires
            old(self).wf(),
        ensures
            final(self).wf(),
            final(self).spec_input() == old(self).spec_input(),
            r matches Ok(v) ==> spec_parse(old(self).spec_input(), old(self).spec_pos())
                == Ok::<(SpecValue, int), ErrorKind>((v@, final(self).spec_pos())),
            r matches Err(e) ==> spec_parse(old(self).spec_input(), old(self).spec_pos())
                == Err::<(SpecValue, int), ErrorKind>(e.spec_kind()) && final(self).spec_pos() == old(self).spec_pos(),
    {
        match parse_at(self.input, self.pos) {
            Ok((v, e)) => {
                self.pos = e;
                Ok(v)
            },
            Err(e) => Err(e),
        }
    }

    /// The bytes not consumed yet.
    pub fn remaining(&self) -> (r: &'de [u8])
        requires
            self.wf(),
        ensures
            r@ == self.spec_input().subrange(self.spec_pos(), self.spec_input().len() as int),
    {
        slice_subrange(self.input, self.pos, self.input.len())
    }
}

/// Parses text or bytes into a [`Value`]; the bytes after the first value are ignored.
pub fn parse(input: ValueInput) -> (r: Result<Value, Error>)
    ensures
        r matches Ok(v) ==> spec_decode(input.spec_bytes()) == Ok::<SpecValue, ErrorKind>(v@),
        r matches Err(err) ==> spec_decode(input.spec_bytes()) == Err::<SpecValue, ErrorKind>(err.spec_kind())
            && err.msg() == spec_msg(input.spec_bytes(), 0),
{
    decode(input.as_bytes())
}

/// Decodes the first bencode value in `input`; the bytes after it are ignored.
pub fn decode(input: &[u8]) -> (r: Result<Value, Error>)
    ensures
        r matches Ok(v) ==> spec_decode(input@) == Ok::<SpecValue, ErrorKind>(v@),
        r matches Err(err) ==> spec_decode(input@) == Err::<SpecValue, ErrorKind>(err.spec_kind())
            && err.msg() == spec_msg(input@, 0),
{
    match parse_at(input, 0) {
        Ok((v, _)) => Ok(v),
        Err(err) => Err(err),
    }
}

} // verus!
