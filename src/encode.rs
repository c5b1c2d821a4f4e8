//! Canonical bencode encoding of a [`Value`].
use vstd::prelude::*;
use crate::grammar::{encode_entries, encode_items, encode_string, int_digits, nat_digits, spec_encode};
use crate::value::{lemma_view_entries, lemma_view_list, text_bytes, view_entries, view_list, SpecValue, Value};

verus! {

broadcast use vstd::std_specs::vec::group_vec_axioms, vstd::seq::group_seq_axioms;

/// Appends the decimal digits of `n`.
pub fn push_decimal(out: &mut Vec<u8>, n: u64)
    ensures
        final(out)@ == old(out)@ + nat_digits(n as nat),
    decreases n,
{
    if n < 10 {
        out.push((48 + n) as u8);
        assert(out@ =~= old(out)@ + nat_digits(n as nat));
    } else {
        push_decimal(out, n / 10);
        out.push((48 + n % 10) as u8);
        assert(out@ =~= old(out)@ + nat_digits(n as nat));
    }
}

/// Appends `b` as a length-prefixed byte string.
fn push_string(out: &mut Vec<u8>, b: &[u8])
    ensures
        final(out)@ == old(out)@ + encode_string(b@),
{
    push_decimal(out, b.len() as u64);
    out.push(58u8);
    let ghost mid = out@;
    let mut i: usize = 0;
    while i < b.len()
        invariant
            0 <= i <= b@.len(),
            out@ == mid + b@.subrange(0, i as int),
        decreases b@.len() - i,
    {
        out.push(b[i]);
        assert(out@ =~= mid + b@.subrange(0, i + 1));
        i = i + 1;
    }
    assert(b@.subrange(0, b@.len() as int) =~= b@);
    assert(out@ =~= old(out)@ + encode_string(b@));
}

/// Appends the canonical encoding of `v`.
pub fn encode_into(v: &Value, out: &mut Vec<u8>)
    ensures
        final(out)@ == old(out)@ + spec_encode(v@),
    decreases v@,
{
    match v {
        Value::Integer(n) => {
            out.push(105u8);
            if *n < 0 {
                out.push(45u8);
                let m: u64 = if *n == i64::MIN { 0x8000_0000_0000_0000 } else { (-*n) as u64 };
                push_decimal(out, m);
            } else {
                push_decimal(out, *n as u64);
            }
            out.push(101u8);
            assert(out@ =~= old(out)@ + (seq![105u8] + int_digits(*n as int) + seq![101u8]));
        },
        Value::Bytes(b) => {
            push_string(out, b.as_slice());
        },
        Value::String(s) => {
            push_string(out, s.as_str().as_bytes());
        },
        Value::List(l) => {
            out.push(108u8);
            let ghost start = out@;
            proof {
                lemma_view_list(l@);
                assert(l@.subrange(0, 0) =~= Seq::<Value>::empty());
            }
            let mut i: usize = 0;
            while i < l.len()
                invariant
                    *v == Value::List(*l),
                    0 <= i <= l@.len(),
                    out@ == start + encode_items(view_list(l@.subrange(0, i as int))),
                decreases l@.len() - i,
            {
                proof {
                    lemma_view_list(l@);
                    assert(v@ == SpecValue::List(view_list(l@)));
                    let sv = v@;
                    assert(decreases_to!(sv => sv->List_0));
                    assert(decreases_to!(sv->List_0 => sv->List_0[i as int]));
                    assert(decreases_to!(v@ => l@[i as int]@));
                }
                encode_into(&l[i], out);
                proof {
                    let vl = view_list(l@.subrange(0, i as int));
                    assert(l@.subrange(0, i + 1).drop_last() =~= l@.subrange(0, i as int));
                    assert(l@.subrange(0, i + 1).last() == l@[i as int]);
                    assert(vl.push(l@[i as int]@).drop_last() =~= vl);
                    assert(out@ =~= start + encode_items(view_list(l@.subrange(0, i + 1))));
                }
                i = i + 1;
            }
            out.push(101u8);
            assert(l@.subrange(0, l@.len() as int) =~= l@);
            assert(out@ =~= old(out)@ + spec_encode(v@));
        },
        Value::Dictionary(d) => {
            out.push(100u8);
            let ghost start = out@;
            proof {
                assert(d@.subrange(0, 0) =~= Seq::<(String, Value)>::empty());
            }
            let mut i: usize = 0;
            while i < d.len()
                invariant
                    *v == Value::Dictionary(*d),
                    0 <= i <= d@.len(),
                    out@ == start + encode_entries(view_entries(d@.subrange(0, i as int))),
                decreases d@.len() - i,
            {
                let entry = &d[i];
                push_string(out, entry.0.as_str().as_bytes());
                proof {
                    lemma_view_entries(d@);
                    assert(v@ == SpecValue::Dict(view_entries(d@)));
                    let sv = v@;
                    assert(decreases_to!(sv => sv->Dict_0));
                    assert(decreases_to!(sv->Dict_0 => sv->Dict_0[i as int]));
                    assert(decreases_to!(sv->Dict_0[i as int] => sv->Dict_0[i as int].1));
                    assert(decreases_to!(v@ => d@[i as int].1@));
                }
                encode_into(&entry.1, out);
                proof {
                    let ve = view_entries(d@.subrange(0, i as int));
                    assert(d@.subrange(0, i + 1).drop_last() =~= d@.subrange(0, i as int));
                    assert(d@.subrange(0, i + 1).last() == d@[i as int]);
                    let x = (text_bytes(d@[i as int].0), d@[i as int].1@);
                    assert(ve.push(x).drop_last() =~= ve);
                    assert(out@ =~= start + encode_entries(view_entries(d@.subrange(0, i + 1))));
                }
                i = i + 1;
            }
            out.push(101u8);
            assert(d@.subrange(0, d@.len() as int) =~= d@);
            assert(out@ =~= old(out)@ + spec_encode(v@));
        },
    }
}

/// A buffer that canonical encodings are appended to.
pub struct Serializer {
    buffer: Vec<u8>,
}

impl Serializer {
    pub closed spec fn spec_bytes(&self) -> Seq<u8> {
        self.buffer@
    }

    /// An empty buffer.
    pub fn new() -> (r: Serializer)
        ensures
            r.spec_bytes() == Seq::<u8>::empty(),
    {
        Serializer { buffer: Vec::new() }
    }

    /// Appends the canonical encoding of `v`.
    pub fn serialize(&mut self, v: &Value)
        ensures
            final(self).spec_bytes() == old(self).spec_bytes() + spec_encode(v@),
    {
        encode_into(v, &mut self.buffer);
    }

    /// The bytes written so far.
    pub fn into_vec(self) -> (r: Vec<u8>)
        ensures
            r@ == self.spec_bytes(),
    {
        self.buffer
    }
}

/// The canonical encoding of `v`: dictionaries are written in their stored
/// key order, which for a well-formed value is the sorted order.
pub fn encode(v: &Value) -> (r: Vec<u8>)
    ensures
        r@ == spec_encode(v@),
{
    let mut out: Vec<u8> = Vec::new();
    encode_into(v, &mut out);
    assert(out@ =~= spec_encode(v@));
    out
}

} // verus!
