//! Reading typed fields out of a decoded [`Value`].
use vstd::prelude::*;
use vstd::utf8::*;
use crate::error::{Error, ErrorKind};
use crate::outside::utf8_text;
use crate::value::{dict_get, text_bytes, SpecValue, Value};

verus! {

broadcast use vstd::std_specs::vec::group_vec_axioms, vstd::seq::group_seq_axioms;

/// The entry `k` of a dictionary value.
pub open spec fn field(v: SpecValue, k: &str) -> Option<SpecValue> {
    match v {
        SpecValue::Dict(d) => dict_get(d, encode_utf8(k@)),
        _ => None,
    }
}

/// A text field: UTF-8 text, or a byte string that is valid UTF-8.
pub open spec fn spec_text(v: SpecValue) -> Result<Seq<u8>, ErrorKind> {
    match v {
        SpecValue::Text(b) => Ok(b),
        SpecValue::Bytes(b) => if valid_utf8(b) {
            Ok(b)
        } else {
            Err(ErrorKind::InvalidValue)
        },
        _ => Err(ErrorKind::InvalidType),
    }
}

/// The raw bytes of a byte-string or text field.
pub open spec fn spec_raw(v: SpecValue) -> Result<Seq<u8>, ErrorKind> {
    match v {
        SpecValue::Text(b) => Ok(b),
        SpecValue::Bytes(b) => Ok(b),
        _ => Err(ErrorKind::InvalidType),
    }
}

pub open spec fn spec_int(v: SpecValue) -> Result<int, ErrorKind> {
    match v {
        SpecValue::Int(n) => Ok(n),
        _ => Err(ErrorKind::InvalidType),
    }
}

/// A non-negative integer of at most `max`.
pub open spec fn spec_bounded(v: SpecValue, max: int) -> Result<nat, ErrorKind> {
    match v {
        SpecValue::Int(n) => if 0 <= n <= max {
            Ok(n as nat)
        } else {
            Err(ErrorKind::InvalidValue)
        },
        _ => Err(ErrorKind::InvalidType),
    }
}

/// A list whose items are all text.
pub open spec fn spec_texts(l: Seq<SpecValue>) -> Result<Seq<Seq<u8>>, ErrorKind>
    decreases l.len(),
{
    if l.len() == 0 {
        Ok(Seq::empty())
    } else {
        match spec_texts(l.drop_last()) {
            Err(k) => Err(k),
            Ok(p) => match spec_text(l.last()) {
                Err(k) => Err(k),
                Ok(t) => Ok(p.push(t)),
            },
        }
    }
}

pub open spec fn spec_text_list(v: SpecValue) -> Result<Seq<Seq<u8>>, ErrorKind> {
    match v {
        SpecValue::List(l) => spec_texts(l),
        _ => Err(ErrorKind::InvalidType),
    }
}

/// A list of lists of text.
pub open spec fn spec_text_lists(l: Seq<SpecValue>) -> Result<Seq<Seq<Seq<u8>>>, ErrorKind>
    decreases l.len(),
{
    if l.len() == 0 {
        Ok(Seq::empty())
    } else {
        match spec_text_lists(l.drop_last()) {
            Err(k) => Err(k),
            Ok(p) => match spec_text_list(l.last()) {
                Err(k) => Err(k),
                Ok(t) => Ok(p.push(t)),
            },
        }
    }
}

pub open spec fn spec_text_list_list(v: SpecValue) -> Result<Seq<Seq<Seq<u8>>>, ErrorKind> {
    match v {
        SpecValue::List(l) => spec_text_lists(l),
        _ => Err(ErrorKind::InvalidType),
    }
}

pub open spec fn opt_text(f: Option<SpecValue>) -> Result<Option<Seq<u8>>, ErrorKind> {
    match f {
        None => Ok(None),
        Some(v) => match spec_text(v) {
            Ok(x) => Ok(Some(x)),
            Err(k) => Err(k),
        },
    }
}

pub open spec fn opt_int(f: Option<SpecValue>) -> Result<Option<int>, ErrorKind> {
    match f {
        None => Ok(None),
        Some(v) => match spec_int(v) {
            Ok(x) => Ok(Some(x)),
            Err(k) => Err(k),
        },
    }
}

pub open spec fn opt_u8(f: Option<SpecValue>) -> Result<Option<nat>, ErrorKind> {
    match f {
        None => Ok(None),
        Some(v) => match spec_bounded(v, 255) {
            Ok(x) => Ok(Some(x)),
            Err(k) => Err(k),
        },
    }
}

pub open spec fn opt_text_list(f: Option<SpecValue>) -> Result<Option<Seq<Seq<u8>>>, ErrorKind> {
    match f {
        None => Ok(None),
        Some(v) => match spec_text_list(v) {
            Ok(x) => Ok(Some(x)),
            Err(k) => Err(k),
        },
    }
}

pub open spec fn opt_text_list_list(f: Option<SpecValue>) -> Result<Option<Seq<Seq<Seq<u8>>>>, ErrorKind> {
    match f {
        None => Ok(None),
        Some(v) => match spec_text_list_list(v) {
            Ok(x) => Ok(Some(x)),
            Err(k) => Err(k),
        },
    }
}

pub open spec fn req_usize(f: Option<SpecValue>) -> Result<nat, ErrorKind> {
    match f {
        None => Err(ErrorKind::MissingField),
        Some(v) => spec_bounded(v, usize::MAX as int),
    }
}

pub open spec fn req_text(f: Option<SpecValue>) -> Result<Seq<u8>, ErrorKind> {
    match f {
        None => Err(ErrorKind::MissingField),
        Some(v) => spec_text(v),
    }
}

pub open spec fn req_raw(f: Option<SpecValue>) -> Result<Seq<u8>, ErrorKind> {
    match f {
        None => Err(ErrorKind::MissingField),
        Some(v) => spec_raw(v),
    }
}

pub open spec fn req_text_list(f: Option<SpecValue>) -> Result<Seq<Seq<u8>>, ErrorKind> {
    match f {
        None => Err(ErrorKind::MissingField),
        Some(v) => spec_text_list(v),
    }
}

pub open spec fn strings_view(s: Seq<String>) -> Seq<Seq<u8>> {
    Seq::new(s.len(), |i: int| text_bytes(s[i]))
}

pub open spec fn string_lists_view(s: Seq<Vec<String>>) -> Seq<Seq<Seq<u8>>> {
    Seq::new(s.len(), |i: int| strings_view(s[i]@))
}

pub open spec fn opt_text_view(o: Option<String>) -> Option<Seq<u8>> {
    match o {
        Some(s) => Some(text_bytes(s)),
        None => None,
    }
}

proof fn lemma_texts_prefix_err(l: Seq<SpecValue>, k: int)
    requires
        0 <= k <= l.len(),
        spec_texts(l.subrange(0, k)) is Err,
    ensures
        spec_texts(l) == spec_texts(l.subrange(0, k)),
    decreases l.len() - k,
{
    if k == l.len() {
        assert(l.subrange(0, k) =~= l);
    } else {
        assert(l.subrange(0, k + 1).drop_last() =~= l.subrange(0, k));
        lemma_texts_prefix_err(l, k + 1);
    }
}

proof fn lemma_text_lists_prefix_err(l: Seq<SpecValue>, k: int)
    requires
        0 <= k <= l.len(),
        spec_text_lists(l.subrange(0, k)) is Err,
    ensures
        spec_text_lists(l) == spec_text_lists(l.subrange(0, k)),
    decreases l.len() - k,
{
    if k == l.len() {
        assert(l.subrange(0, k) =~= l);
    } else {
        assert(l.subrange(0, k + 1).drop_last() =~= l.subrange(0, k));
        lemma_text_lists_prefix_err(l, k + 1);
    }
}

pub fn read_text(v: &Value) -> (r: Result<String, Error>)
    ensures
        r matches Ok(s) ==> spec_text(v@) == Ok::<Seq<u8>, ErrorKind>(text_bytes(s)),
        r matches Err(e) ==> spec_text(v@) == Err::<Seq<u8>, ErrorKind>(e.spec_kind()),
{
    match v {
        Value::String(s) => Ok(s.clone()),
        Value::Bytes(b) => match utf8_text(b.clone()) {
            Some(s) => Ok(s),
            None => Err(Error::InvalidValue("Text is not valid UTF-8".to_string())),
        },
        _ => Err(Error::InvalidType("Expected a string".to_string())),
    }
}

pub fn read_raw(v: &Value) -> (r: Result<&[u8], Error>)
    ensures
        r matches Ok(b) ==> spec_raw(v@) == Ok::<Seq<u8>, ErrorKind>(b@),
        r matches Err(e) ==> spec_raw(v@) == Err::<Seq<u8>, ErrorKind>(e.spec_kind()),
{
    match v {
        Value::String(s) => Ok(s.as_str().as_bytes()),
        Value::Bytes(b) => Ok(b.as_slice()),
        _ => Err(Error::InvalidType("Expected a byte string".to_string())),
    }
}

pub fn read_int(v: &Value) -> (r: Result<i64, Error>)
    ensures
        r matches Ok(n) ==> spec_int(v@) == Ok::<int, ErrorKind>(n as int),
        r matches Err(e) ==> spec_int(v@) == Err::<int, ErrorKind>(e.spec_kind()),
{
    match v {
        Value::Integer(n) => Ok(*n),
        _ => Err(Error::InvalidType("Expected an integer".to_string())),
    }
}

pub fn read_usize(v: &Value) -> (r: Result<usize, Error>)
    ensures
        r matches Ok(n) ==> spec_bounded(v@, usize::MAX as int) == Ok::<nat, ErrorKind>(n as nat),
        r matches Err(e) ==> spec_bounded(v@, usize::MAX as int) == Err::<nat, ErrorKind>(e.spec_kind()),
{
    match v {
        Value::Integer(n) => {
            if *n >= 0 && (*n as u64) <= (usize::MAX as u64) {
                Ok(*n as usize)
            } else {
                Err(Error::InvalidValue("Integer out of range".to_string()))
            }
        },
        _ => Err(Error::InvalidType("Expected an integer".to_string())),
    }
}

pub fn read_u8(v: &Value) -> (r: Result<u8, Error>)
    ensures
        r matches Ok(n) ==> spec_bounded(v@, 255) == Ok::<nat, ErrorKind>(n as nat),
        r matches Err(e) ==> spec_bounded(v@, 255) == Err::<nat, ErrorKind>(e.spec_kind()),
{
    match v {
        Value::Integer(n) => {
            if *n >= 0 && *n <= 255 {
                Ok(*n as u8)
            } else {
                Err(Error::InvalidValue("Integer out of range".to_string()))
            }
        },
        _ => Err(Error::InvalidType("Expected an integer".to_string())),
    }
}

pub fn read_text_list(v: &Value) -> (r: Result<Vec<String>, Error>)
    ensures
        r matches Ok(s) ==> spec_text_list(v@) == Ok::<Seq<Seq<u8>>, ErrorKind>(strings_view(s@)),
        r matches Err(e) ==> spec_text_list(v@) == Err::<Seq<Seq<u8>>, ErrorKind>(e.spec_kind()),
{
    match v {
        Value::List(l) => {
            proof {
                crate::value::lemma_view_list(l@);
            }
            let ghost lv = crate::value::view_list(l@);
            let mut out: Vec<String> = Vec::new();
            let mut i: usize = 0;
            assert(lv.subrange(0, 0) =~= Seq::<SpecValue>::empty());
            assert(strings_view(out@) =~= Seq::<Seq<u8>>::empty());
            while i < l.len()
                invariant
                    *v == Value::List(*l),
                    lv == crate::value::view_list(l@),
                    lv.len() == l@.len(),
                    forall|j: int| 0 <= j < l@.len() ==> #[trigger] lv[j] == l@[j]@,
                    0 <= i <= l@.len(),
                    spec_texts(lv.subrange(0, i as int)) == Ok::<Seq<Seq<u8>>, ErrorKind>(strings_view(out@)),
                decreases l@.len() - i,
            {
                assert(lv.subrange(0, i + 1).drop_last() =~= lv.subrange(0, i as int));
                assert(lv.subrange(0, i + 1).last() == l@[i as int]@);
                let t = match read_text(&l[i]) {
                    Ok(t) => t,
                    Err(e) => {
                        proof {
                            assert(lv.subrange(0, l@.len() as int) =~= lv);
                            lemma_texts_prefix_err(lv, i as int + 1);
                        }
                        return Err(e);
                    },
                };
                let ghost prev = out@;
                out.push(t);
                assert(strings_view(out@) =~= strings_view(prev).push(text_bytes(t)));
                i = i + 1;
            }
            assert(lv.subrange(0, l@.len() as int) =~= lv);
            Ok(out)
        },
        _ => Err(Error::InvalidType("Expected a list".to_string())),
    }
}

pub fn read_text_list_list(v: &Value) -> (r: Result<Vec<Vec<String>>, Error>)
    ensures
        r matches Ok(s) ==> spec_text_list_list(v@) == Ok::<Seq<Seq<Seq<u8>>>, ErrorKind>(string_lists_view(s@)),
        r matches Err(e) ==> spec_text_list_list(v@) == Err::<Seq<Seq<Seq<u8>>>, ErrorKind>(e.spec_kind()),
{
    match v {
        Value::List(l) => {
            proof {
                crate::value::lemma_view_list(l@);
            }
            let ghost lv = crate::value::view_list(l@);
            let mut out: Vec<Vec<String>> = Vec::new();
            let mut i: usize = 0;
            assert(lv.subrange(0, 0) =~= Seq::<SpecValue>::empty());
            assert(string_lists_view(out@) =~= Seq::<Seq<Seq<u8>>>::empty());
            while i < l.len()
                invariant
                    *v == Value::List(*l),
                    lv == crate::value::view_list(l@),
                    lv.len() == l@.len(),
                    forall|j: int| 0 <= j < l@.len() ==> #[trigger] lv[j] == l@[j]@,
                    0 <= i <= l@.len(),
                    spec_text_lists(lv.subrange(0, i as int)) == Ok::<Seq<Seq<Seq<u8>>>, ErrorKind>(string_lists_view(out@)),
                decreases l@.len() - i,
            {
                assert(lv.subrange(0, i + 1).drop_last() =~= lv.subrange(0, i as int));
                assert(lv.subrange(0, i + 1).last() == l@[i as int]@);
                let t = match read_text_list(&l[i]) {
                    Ok(t) => t,
                    Err(e) => {
                        proof {
                            assert(lv.subrange(0, l@.len() as int) =~= lv);
                            lemma_text_lists_prefix_err(lv, i as int + 1);
                        }
                        return Err(e);
                    },
                };
                let ghost prev = out@;
                let ghost tv = strings_view(t@);
                out.push(t);
                assert(string_lists_view(out@) =~= string_lists_view(prev).push(tv));
                i = i + 1;
            }
            assert(lv.subrange(0, l@.len() as int) =~= lv);
            Ok(out)
        },
        _ => Err(Error::InvalidType("Expected a list".to_string())),
    }
}

pub fn field_opt_text(d: &Value, k: &str) -> (r: Result<Option<String>, Error>)
    ensures
        r matches Ok(o) ==> opt_text(field(d@, k)) == Ok::<Option<Seq<u8>>, ErrorKind>(opt_text_view(o)),
        r matches Err(e) ==> opt_text(field(d@, k)) == Err::<Option<Seq<u8>>, ErrorKind>(e.spec_kind()),
{
    match d.get_from_dictionary(k) {
        None => Ok(None),
        Some(v) => match read_text(v) {
            Ok(s) => Ok(Some(s)),
            Err(e) => Err(e),
        },
    }
}

pub fn field_opt_int(d: &Value, k: &str) -> (r: Result<Option<i64>, Error>)
    ensures
        r matches Ok(o) ==> opt_int(field(d@, k)) == Ok::<Option<int>, ErrorKind>(match o {
            Some(n) => Some(n as int),
            None => None,
        }),
        r matches Err(e) ==> opt_int(field(d@, k)) == Err::<Option<int>, ErrorKind>(e.spec_kind()),
{
    match d.get_from_dictionary(k) {
        None => Ok(None),
        Some(v) => match read_int(v) {
            Ok(n) => Ok(Some(n)),
            Err(e) => Err(e),
        },
    }
}

pub fn field_opt_u8(d: &Value, k: &str) -> (r: Result<Option<u8>, Error>)
    ensures
        r matches Ok(o) ==> opt_u8(field(d@, k)) == Ok::<Option<nat>, ErrorKind>(match o {
            Some(n) => Some(n as nat),
            None => None,
        }),
        r matches Err(e) ==> opt_u8(field(d@, k)) == Err::<Option<nat>, ErrorKind>(e.spec_kind()),
{
    match d.get_from_dictionary(k) {
        None => Ok(None),
        Some(v) => match read_u8(v) {
            Ok(n) => Ok(Some(n)),
            Err(e) => Err(e),
        },
    }
}

pub fn field_opt_text_list(d: &Value, k: &str) -> (r: Result<Option<Vec<String>>, Error>)
    ensures
        r matches Ok(o) ==> opt_text_list(field(d@, k)) == Ok::<Option<Seq<Seq<u8>>>, ErrorKind>(match o {
            Some(l) => Some(strings_view(l@)),
            None => None,
        }),
        r matches Err(e) ==> opt_text_list(field(d@, k)) == Err::<Option<Seq<Seq<u8>>>, ErrorKind>(e.spec_kind()),
{
    match d.get_from_dictionary(k) {
        None => Ok(None),
        Some(v) => match read_text_list(v) {
            Ok(l) => Ok(Some(l)),
            Err(e) => Err(e),
        },
    }
}

pub fn field_opt_text_list_list(d: &Value, k: &str) -> (r: Result<Option<Vec<Vec<String>>>, Error>)
    ensures
        r matches Ok(o) ==> opt_text_list_list(field(d@, k)) == Ok::<Option<Seq<Seq<Seq<u8>>>>, ErrorKind>(match o {
            Some(l) => Some(string_lists_view(l@)),
            None => None,
        }),
        r matches Err(e) ==> opt_text_list_list(field(d@, k)) == Err::<Option<Seq<Seq<Seq<u8>>>>, ErrorKind>(e.spec_kind()),
{
    match d.get_from_dictionary(k) {
        None => Ok(None),
        Some(v) => match read_text_list_list(v) {
            Ok(l) => Ok(Some(l)),
            Err(e) => Err(e),
        },
    }
}

pub fn field_req_usize(d: &Value, k: &str) -> (r: Result<usize, Error>)
    ensures
        r matches Ok(n) ==> req_usize(field(d@, k)) == Ok::<nat, ErrorKind>(n as nat),
        r matches Err(e) ==> req_usize(field(d@, k)) == Err::<nat, ErrorKind>(e.spec_kind()),
{
    match d.get_from_dictionary(k) {
        None => Err(Error::MissingField("Missing Field".to_string())),
        Some(v) => read_usize(v),
    }
}

pub fn field_req_text(d: &Value, k: &str) -> (r: Result<String, Error>)
    ensures
        r matches Ok(s) ==> req_text(field(d@, k)) == Ok::<Seq<u8>, ErrorKind>(text_bytes(s)),
        r matches Err(e) ==> req_text(field(d@, k)) == Err::<Seq<u8>, ErrorKind>(e.spec_kind()),
{
    match d.get_from_dictionary(k) {
        None => Err(Error::MissingField("Missing Field".to_string())),
        Some(v) => read_text(v),
    }
}

pub fn field_req_raw<'a>(d: &'a Value, k: &str) -> (r: Result<&'a [u8], Error>)
    ensures
        r matches Ok(b) ==> req_raw(field(d@, k)) == Ok::<Seq<u8>, ErrorKind>(b@),
        r matches Err(e) ==> req_raw(field(d@, k)) == Err::<Seq<u8>, ErrorKind>(e.spec_kind()),
{
    match d.get_from_dictionary(k) {
        None => Err(Error::MissingField("Missing Field".to_string())),
        Some(v) => read_raw(v),
    }
}

pub fn field_req_text_list(d: &Value, k: &str) -> (r: Result<Vec<String>, Error>)
    ensures
        r matches Ok(l) ==> req_text_list(field(d@, k)) == Ok::<Seq<Seq<u8>>, ErrorKind>(strings_view(l@)),
        r matches Err(e) ==> req_text_list(field(d@, k)) == Err::<Seq<Seq<u8>>, ErrorKind>(e.spec_kind()),
{
    match d.get_from_dictionary(k) {
        None => Err(Error::MissingField("Missing Field".to_string())),
        Some(v) => read_text_list(v),
    }
}

} // verus!
