//! The bencode document model and its mathematical view.
use vstd::prelude::*;
use vstd::utf8::*;

verus! {

broadcast use vstd::std_specs::vec::group_vec_axioms, vstd::seq::group_seq_axioms;

/// Any bencode document.
///
/// Dictionaries are kept as a list of entries. A well-formed dictionary has
/// its keys in strictly increasing byte order, so that each key occurs once
/// and the canonical encoding is the stored order.
#[derive(Debug)]
pub enum Value {
    Integer(i64),
    Bytes(Vec<u8>),
    String(String),
    List(Vec<Value>),
    Dictionary(Vec<(String, Value)>),
}

/// Mathematical view of a [`Value`]: text is held as its UTF-8 bytes.
pub enum SpecValue {
    Int(int),
    Bytes(Seq<u8>),
    Text(Seq<u8>),
    List(Seq<SpecValue>),
    Dict(Seq<(Seq<u8>, SpecValue)>),
}

/// UTF-8 bytes of a string.
pub open spec fn text_bytes(s: String) -> Seq<u8> {
    encode_utf8(s@)
}

pub open spec fn view_value(v: Value) -> SpecValue
    decreases v, 1nat,
{
    match v {
        Value::Integer(n) => SpecValue::Int(n as int),
        Value::Bytes(b) => SpecValue::Bytes(b@),
        Value::String(s) => SpecValue::Text(text_bytes(s)),
        Value::List(l) => SpecValue::List(view_list(l@)),
        Value::Dictionary(d) => SpecValue::Dict(view_entries(d@)),
    }
}

pub open spec fn view_list(s: Seq<Value>) -> Seq<SpecValue>
    decreases s, 0nat,
{
    if s.len() == 0 {
        Seq::empty()
    } else {
        view_list(s.drop_last()).push(view_value(s.last()))
    }
}

pub open spec fn view_entries(s: Seq<(String, Value)>) -> Seq<(Seq<u8>, SpecValue)>
    decreases s, 0nat,
{
    if s.len() == 0 {
        Seq::empty()
    } else {
        view_entries(s.drop_last()).push((text_bytes(s.last().0), view_value(s.last().1)))
    }
}

/// Input of [`crate::decode::parse`]: text or raw bytes.
pub enum ValueInput<'a> {
    Str(&'a str),
    Bytes(&'a [u8]),
}

impl<'a> ValueInput<'a> {
    /// The bytes that the input stands for.
    pub open spec fn spec_bytes(&self) -> Seq<u8> {
        match self {
            ValueInput::Str(s) => encode_utf8(s@),
            ValueInput::Bytes(b) => b@,
        }
    }

    /// The bytes that the input stands for.
    pub fn as_bytes(&self) -> (r: &'a [u8])
        ensures
            r@ == self.spec_bytes(),
    {
        match self {
            ValueInput::Str(s) => s.as_bytes(),
            ValueInput::Bytes(b) => b,
        }
    }
}

impl<'a> From<&'a str> for ValueInput<'a> {
    fn from(s: &'a str) -> (r: ValueInput<'a>) {
        ValueInput::Str(s)
    }
}

impl<'a> vstd::std_specs::convert::FromSpecImpl<&'a str> for ValueInput<'a> {
    open spec fn obeys_from_spec() -> bool {
        true
    }

    open spec fn from_spec(s: &'a str) -> ValueInput<'a> {
        ValueInput::Str(s)
    }
}

impl<'a> From<&'a [u8]> for ValueInput<'a> {
    fn from(b: &'a [u8]) -> (r: ValueInput<'a>) {
        ValueInput::Bytes(b)
    }
}

impl<'a> vstd::std_specs::convert::FromSpecImpl<&'a [u8]> for ValueInput<'a> {
    open spec fn obeys_from_spec() -> bool {
        true
    }

    open spec fn from_spec(b: &'a [u8]) -> ValueInput<'a> {
        ValueInput::Bytes(b)
    }
}

impl<'a, const N: usize> From<&'a [u8; N]> for ValueInput<'a> {
    fn from(b: &'a [u8; N]) -> (r: ValueInput<'a>) {
        ValueInput::Bytes(vstd::array::array_as_slice(b))
    }
}

impl<'a, const N: usize> vstd::std_specs::convert::FromSpecImpl<&'a [u8; N]> for ValueInput<'a> {
    open spec fn obeys_from_spec() -> bool {
        true
    }

    open spec fn from_spec(b: &'a [u8; N]) -> ValueInput<'a> {
        ValueInput::Bytes(vstd::array::spec_array_as_slice(b))
    }
}

impl View for Value {
    type V = SpecValue;

    open spec fn view(&self) -> SpecValue {
        view_value(*self)
    }
}


impl Value {
    /// The value stored under `key` when this is a dictionary.
    pub fn get_from_dictionary(&self, key: &str) -> (r: Option<&Value>)
        ensures
            self@ is Dict ==> match r {
                Some(x) => dict_get(self@->Dict_0, encode_utf8(key@)) == Some(x@),
                None => dict_get(self@->Dict_0, encode_utf8(key@)) is None,
            },
            !(self@ is Dict) ==> r is None,
    {
        match self {
            Value::Dictionary(d) => {
                proof {
                    lemma_view_entries(d@);
                }
                let ghost e = view_entries(d@);
                assert(e.subrange(0, e.len() as int) =~= e);
                let mut i: usize = 0;
                while i < d.len()
                    invariant
                        *self == Value::Dictionary(*d),
                        0 <= i <= d@.len(),
                        e == view_entries(d@),
                        e.len() == d@.len(),
                        forall|j: int|
                            0 <= j < d@.len() ==> #[trigger] e[j] == (text_bytes(d@[j].0), view_value(d@[j].1)),
                        dict_get(e, encode_utf8(key@)) == dict_get(e.subrange(i as int, e.len() as int), encode_utf8(key@)),
                    decreases d@.len() - i,
                {
                    let ghost rest = e.subrange(i as int, e.len() as int);
                    assert(rest.drop_first() =~= e.subrange(i + 1, e.len() as int));
                    assert(rest[0] == e[i as int]);
                    if bytes_eq(d[i].0.as_str().as_bytes(), key.as_bytes()) {
                        return Some(&d[i].1);
                    }
                    i = i + 1;
                }
                None
            },
            _ => None,
        }
    }
}

/// Structural equality of two values, through their views.
pub fn value_eq(a: &Value, b: &Value) -> (r: bool)
    ensures
        r == (a@ == b@),
    decreases a@,
{
    match (a, b) {
        (Value::Integer(x), Value::Integer(y)) => *x == *y,
        (Value::Bytes(x), Value::Bytes(y)) => bytes_eq(x.as_slice(), y.as_slice()),
        (Value::String(x), Value::String(y)) => bytes_eq(x.as_str().as_bytes(), y.as_str().as_bytes()),
        (Value::List(x), Value::List(y)) => {
            proof {
                lemma_view_list(x@);
                lemma_view_list(y@);
            }
            if x.len() != y.len() {
                return false;
            }
            let mut i: usize = 0;
            while i < x.len()
                invariant
                    *a == Value::List(*x),
                    *b == Value::List(*y),
                    x@.len() == y@.len(),
                    0 <= i <= x@.len(),
                    view_list(x@).len() == x@.len(),
                    view_list(y@).len() == y@.len(),
                    forall|j: int| 0 <= j < x@.len() ==> #[trigger] view_list(x@)[j] == view_value(x@[j]),
                    forall|j: int| 0 <= j < y@.len() ==> #[trigger] view_list(y@)[j] == view_value(y@[j]),
                    forall|j: int| 0 <= j < i ==> view_value(#[trigger] x@[j]) == view_value(y@[j]),
                decreases x@.len() - i,
            {
                proof {
                    let sv = a@;
                    assert(decreases_to!(sv => sv->List_0));
                    assert(decreases_to!(sv->List_0 => sv->List_0[i as int]));
                }
                if !value_eq(&x[i], &y[i]) {
                    assert(view_list(x@)[i as int] != view_list(y@)[i as int]);
                    return false;
                }
                i = i + 1;
            }
            assert(view_list(x@) =~= view_list(y@));
            true
        },
        (Value::Dictionary(x), Value::Dictionary(y)) => {
            proof {
                lemma_view_entries(x@);
                lemma_view_entries(y@);
            }
            if x.len() != y.len() {
                return false;
            }
            let mut i: usize = 0;
            while i < x.len()
                invariant
                    *a == Value::Dictionary(*x),
                    *b == Value::Dictionary(*y),
                    x@.len() == y@.len(),
                    0 <= i <= x@.len(),
                    view_entries(x@).len() == x@.len(),
                    view_entries(y@).len() == y@.len(),
                    forall|j: int| 0 <= j < x@.len() ==> #[trigger] view_entries(x@)[j] == (text_bytes(x@[j].0), view_value(x@[j].1)),
                    forall|j: int| 0 <= j < y@.len() ==> #[trigger] view_entries(y@)[j] == (text_bytes(y@[j].0), view_value(y@[j].1)),
                    forall|j: int| 0 <= j < i ==> #[trigger] view_entries(x@)[j] == view_entries(y@)[j],
                decreases x@.len() - i,
            {
                proof {
                    let sv = a@;
                    assert(decreases_to!(sv => sv->Dict_0));
                    assert(decreases_to!(sv->Dict_0 => sv->Dict_0[i as int]));
                    assert(decreases_to!(sv->Dict_0[i as int] => sv->Dict_0[i as int].1));
                }
                if !bytes_eq(x[i].0.as_str().as_bytes(), y[i].0.as_str().as_bytes()) {
                    assert(view_entries(x@)[i as int] != view_entries(y@)[i as int]);
                    return false;
                }
                if !value_eq(&x[i].1, &y[i].1) {
                    assert(view_entries(x@)[i as int] != view_entries(y@)[i as int]);
                    return false;
                }
                i = i + 1;
            }
            assert(view_entries(x@) =~= view_entries(y@));
            true
        },
        _ => false,
    }
}

impl PartialEq for Value {
    fn eq(&self, o: &Value) -> (r: bool) {
        value_eq(self, o)
    }
}

impl vstd::std_specs::cmp::PartialEqSpecImpl for Value {
    open spec fn obeys_eq_spec() -> bool {
        true
    }

    open spec fn eq_spec(&self, o: &Value) -> bool {
        self@ == o@
    }
}

/// Strict lexicographic order on byte strings.
pub open spec fn lex_lt(a: Seq<u8>, b: Seq<u8>) -> bool
    decreases a.len(),
{
    if a.len() == 0 {
        b.len() > 0
    } else if b.len() == 0 {
        false
    } else if a[0] < b[0] {
        true
    } else if a[0] > b[0] {
        false
    } else {
        lex_lt(a.drop_first(), b.drop_first())
    }
}

/// Keys in strictly increasing order.
pub open spec fn keys_sorted(d: Seq<(Seq<u8>, SpecValue)>) -> bool {
    forall|i: int, j: int| 0 <= i < j < d.len() ==> lex_lt(#[trigger] d[i].0, #[trigger] d[j].0)
}

/// The dictionary after setting `k` to `v`: an existing entry for `k` is
/// replaced, otherwise the entry goes where the key order puts it.
pub open spec fn dict_insert(d: Seq<(Seq<u8>, SpecValue)>, k: Seq<u8>, v: SpecValue) -> Seq<(Seq<u8>, SpecValue)>
    decreases d.len(),
{
    if d.len() == 0 {
        seq![(k, v)]
    } else if d[0].0 == k {
        seq![(k, v)] + d.drop_first()
    } else if lex_lt(k, d[0].0) {
        seq![(k, v)] + d
    } else {
        seq![d[0]] + dict_insert(d.drop_first(), k, v)
    }
}

/// The value stored under `k`, if any.
pub open spec fn dict_get(d: Seq<(Seq<u8>, SpecValue)>, k: Seq<u8>) -> Option<SpecValue>
    decreases d.len(),
{
    if d.len() == 0 {
        None
    } else if d[0].0 == k {
        Some(d[0].1)
    } else {
        dict_get(d.drop_first(), k)
    }
}

/// All bytes below 128.
pub open spec fn is_ascii_bytes(b: Seq<u8>) -> bool {
    forall|i: int| 0 <= i < b.len() ==> b[i] < 128
}

/// A value that decoding can produce: text is valid UTF-8, byte strings are
/// not, dictionary keys are sorted, unique and valid UTF-8.
pub open spec fn well_formed(v: SpecValue) -> bool
    decreases v,
{
    match v {
        SpecValue::Int(n) => i64::MIN <= n <= i64::MAX,
        SpecValue::Bytes(b) => !valid_utf8(b),
        SpecValue::Text(b) => valid_utf8(b),
        SpecValue::List(l) => forall|i: int| 0 <= i < l.len() ==> well_formed(#[trigger] l[i]),
        SpecValue::Dict(d) => keys_sorted(d) && (forall|i: int|
            0 <= i < d.len() ==> valid_utf8(#[trigger] d[i].0) && well_formed(d[i].1)),
    }
}


pub proof fn lemma_lex_irreflexive(a: Seq<u8>)
    ensures
        !lex_lt(a, a),
    decreases a.len(),
{
    if a.len() > 0 {
        lemma_lex_irreflexive(a.drop_first());
    }
}

pub proof fn lemma_lex_asymmetric(a: Seq<u8>, b: Seq<u8>)
    ensures
        !(lex_lt(a, b) && lex_lt(b, a)),
    decreases a.len(),
{
    if a.len() > 0 && b.len() > 0 && a[0] == b[0] {
        lemma_lex_asymmetric(a.drop_first(), b.drop_first());
    }
}

pub proof fn lemma_lex_total(a: Seq<u8>, b: Seq<u8>)
    ensures
        a == b || lex_lt(a, b) || lex_lt(b, a),
    decreases a.len(),
{
    if a.len() > 0 && b.len() > 0 && a[0] == b[0] {
        lemma_lex_total(a.drop_first(), b.drop_first());
        if a.drop_first() == b.drop_first() {
            assert(a =~= seq![a[0]] + a.drop_first());
            assert(b =~= seq![b[0]] + b.drop_first());
        }
    } else if a.len() == 0 && b.len() == 0 {
        assert(a =~= b);
    }
}

pub proof fn lemma_lex_transitive(a: Seq<u8>, b: Seq<u8>, c: Seq<u8>)
    requires
        lex_lt(a, b),
        lex_lt(b, c),
    ensures
        lex_lt(a, c),
    decreases a.len(),
{
    if a.len() > 0 && b.len() > 0 && c.len() > 0 && a[0] == b[0] && b[0] == c[0] {
        lemma_lex_transitive(a.drop_first(), b.drop_first(), c.drop_first());
    }
}

pub proof fn lemma_view_list(s: Seq<Value>)
    ensures
        view_list(s).len() == s.len(),
        forall|i: int| 0 <= i < s.len() ==> #[trigger] view_list(s)[i] == view_value(s[i]),
    decreases s.len(),
{
    if s.len() > 0 {
        lemma_view_list(s.drop_last());
    }
}

pub proof fn lemma_view_entries(s: Seq<(String, Value)>)
    ensures
        view_entries(s).len() == s.len(),
        forall|i: int|
            0 <= i < s.len() ==> #[trigger] view_entries(s)[i] == (text_bytes(s[i].0), view_value(s[i].1)),
    decreases s.len(),
{
    if s.len() > 0 {
        lemma_view_entries(s.drop_last());
    }
}

/// Where the key order puts `k`: after every smaller key, at an equal key or before a larger one.
pub proof fn lemma_dict_insert_at(d: Seq<(Seq<u8>, SpecValue)>, k: Seq<u8>, v: SpecValue, i: int)
    requires
        0 <= i <= d.len(),
        forall|j: int| 0 <= j < i ==> lex_lt(#[trigger] d[j].0, k),
        i < d.len() ==> !lex_lt(d[i].0, k),
    ensures
        i < d.len() && d[i].0 == k ==> dict_insert(d, k, v) == d.subrange(0, i).push((k, v)) + d.subrange(i + 1, d.len() as int),
        !(i < d.len() && d[i].0 == k) ==> dict_insert(d, k, v) == d.subrange(0, i).push((k, v)) + d.subrange(i, d.len() as int),
    decreases i,
{
    if i == 0 {
        if d.len() > 0 && d[0].0 != k {
            lemma_lex_total(d[0].0, k);
        }
        assert(d.subrange(0, 0).push((k, v)) =~= seq![(k, v)]);
        assert(d.subrange(1, d.len() as int) =~= d.drop_first());
        assert(d.subrange(0, d.len() as int) =~= d);
    } else {
        lemma_lex_irreflexive(k);
        lemma_lex_asymmetric(d[0].0, k);
        let t = d.drop_first();
        assert forall|j: int| 0 <= j < i - 1 implies lex_lt(#[trigger] t[j].0, k) by {
            assert(t[j] == d[j + 1]);
        }
        lemma_dict_insert_at(t, k, v, i - 1);
        assert(d.subrange(0, i).push((k, v)) =~= seq![d[0]] + t.subrange(0, i - 1).push((k, v)));
        if i < d.len() {
            assert(d.subrange(i + 1, d.len() as int) =~= t.subrange(i, t.len() as int));
            assert(seq![d[0]] + (t.subrange(0, i - 1).push((k, v)) + t.subrange(i, t.len() as int))
                =~= seq![d[0]] + t.subrange(0, i - 1).push((k, v)) + t.subrange(i, t.len() as int));
        }
        assert(d.subrange(i, d.len() as int) =~= t.subrange(i - 1, t.len() as int));
        assert(seq![d[0]] + (t.subrange(0, i - 1).push((k, v)) + t.subrange(i - 1, t.len() as int))
            =~= seq![d[0]] + t.subrange(0, i - 1).push((k, v)) + t.subrange(i - 1, t.len() as int));
    }
}

/// `a < b` in byte order.
pub fn bytes_lt(a: &[u8], b: &[u8]) -> (r: bool)
    ensures
        r == lex_lt(a@, b@),
{
    let mut i: usize = 0;
    assert(a@.subrange(0, a@.len() as int) =~= a@);
    assert(b@.subrange(0, b@.len() as int) =~= b@);
    while i < a.len() && i < b.len()
        invariant
            0 <= i <= a@.len(),
            i <= b@.len(),
            lex_lt(a@, b@) == lex_lt(a@.subrange(i as int, a@.len() as int), b@.subrange(i as int, b@.len() as int)),
        decreases a@.len() - i,
    {
        let x = a[i];
        let y = b[i];
        proof {
            let ra = a@.subrange(i as int, a@.len() as int);
            let rb = b@.subrange(i as int, b@.len() as int);
            assert(ra.drop_first() =~= a@.subrange(i + 1, a@.len() as int));
            assert(rb.drop_first() =~= b@.subrange(i + 1, b@.len() as int));
        }
        if x < y {
            return true;
        }
        if x > y {
            return false;
        }
        i = i + 1;
    }
    i == a.len() && i < b.len()
}

/// `a == b` as byte strings.
pub fn bytes_eq(a: &[u8], b: &[u8]) -> (r: bool)
    ensures
        r == (a@ == b@),
{
    if a.len() != b.len() {
        return false;
    }
    let mut i: usize = 0;
    while i < a.len()
        invariant
            a@.len() == b@.len(),
            0 <= i <= a@.len(),
            forall|j: int| 0 <= j < i ==> a@[j] == b@[j],
        decreases a@.len() - i,
    {
        if a[i] != b[i] {
            return false;
        }
        i = i + 1;
    }
    assert(a@ =~= b@);
    true
}

/// Sets `k` to `v` in a dictionary kept in key order.
pub fn insert_entry(entries: &mut Vec<(String, Value)>, k: String, v: Value)
    ensures
        view_entries(final(entries)@) == dict_insert(view_entries(old(entries)@), text_bytes(k), v@),
{
    let ghost d = view_entries(entries@);
    proof {
        lemma_view_entries(entries@);
    }
    let mut i: usize = 0;
    while i < entries.len() && bytes_lt(entries[i].0.as_str().as_bytes(), k.as_str().as_bytes())
        invariant
            0 <= i <= entries@.len(),
            d == view_entries(entries@),
            d.len() == entries@.len(),
            forall|j: int|
                0 <= j < entries@.len() ==> #[trigger] d[j] == (text_bytes(entries@[j].0), view_value(entries@[j].1)),
            forall|j: int| 0 <= j < i ==> lex_lt(#[trigger] d[j].0, text_bytes(k)),
        decreases entries@.len() - i,
    {
        i = i + 1;
    }
    proof {
        lemma_dict_insert_at(d, text_bytes(k), v@, i as int);
    }
    let ghost kv = (text_bytes(k), v@);
    if i < entries.len() && bytes_eq(entries[i].0.as_str().as_bytes(), k.as_str().as_bytes()) {
        entries.remove(i);
        entries.insert(i, (k, v));
        proof {
            lemma_view_entries(entries@);
            assert(view_entries(entries@) =~= d.subrange(0, i as int).push(kv) + d.subrange(i + 1, d.len() as int));
        }
    } else {
        entries.insert(i, (k, v));
        proof {
            lemma_view_entries(entries@);
            assert(view_entries(entries@) =~= d.subrange(0, i as int).push(kv) + d.subrange(i as int, d.len() as int));
        }
    }
}

} // verus!
