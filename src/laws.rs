//! Laws of the codec: decoding inverts the canonical encoding, and the
//! encoding of a dictionary does not depend on the order its keys were set.
use vstd::prelude::*;
use vstd::utf8::*;
use crate::error::ErrorKind;
use crate::grammar::{
    all_digits, digits_value, encode_entries, encode_items, encode_string, find_byte, int_digits,
    key_of, nat_digits, spec_decode, spec_encode, spec_parse, spec_parse_dict,
    spec_parse_list, string_value,
};
use crate::value::{
    dict_get, dict_insert, keys_sorted, lemma_dict_insert_at, lemma_lex_asymmetric,
    lemma_lex_total, lemma_lex_transitive, lemma_lex_irreflexive, lex_lt, well_formed, SpecValue, Value,
};

verus! {

/// `t` stands in `s` from `pos` on.
pub open spec fn occurs_at(s: Seq<u8>, pos: int, t: Seq<u8>) -> bool {
    0 <= pos && pos + t.len() <= s.len() && forall|j: int| 0 <= j < t.len() ==> s[pos + j] == #[trigger] t[j]
}

proof fn lemma_occurs_split(s: Seq<u8>, pos: int, a: Seq<u8>, b: Seq<u8>)
    requires
        occurs_at(s, pos, a + b),
    ensures
        occurs_at(s, pos, a),
        occurs_at(s, pos + a.len(), b),
{
    assert forall|j: int| 0 <= j < a.len() implies s[pos + j] == #[trigger] a[j] by {
        assert((a + b)[j] == a[j]);
    }
    assert forall|j: int| 0 <= j < b.len() implies s[pos + a.len() + j] == #[trigger] b[j] by {
        assert((a + b)[a.len() + j] == b[j]);
    }
}

proof fn lemma_occurs_first(s: Seq<u8>, pos: int, t: Seq<u8>)
    requires
        occurs_at(s, pos, t),
        t.len() > 0,
    ensures
        s[pos] == t[0],
{
    assert(s[pos + 0] == t[0]);
}

pub(crate) proof fn lemma_nat_digits(n: nat)
    ensures
        nat_digits(n).len() >= 1,
        all_digits(nat_digits(n)),
        digits_value(nat_digits(n)) == n,
        nat_digits(n)[0] == 48u8 ==> n == 0 && nat_digits(n).len() == 1,
    decreases n,
{
    if n >= 10 {
        lemma_nat_digits(n / 10);
        let d = nat_digits(n / 10);
        assert(nat_digits(n).drop_last() =~= d);
        assert(nat_digits(n)[0] == d[0]);
        assert(nat_digits(n).last() == (48 + n % 10) as u8);
        assert(n == (n / 10) * 10 + n % 10);
        assert(((48 + n % 10) as u8 - 48) as nat == n % 10);
        assert(digits_value(nat_digits(n)) == digits_value(d) * 10 + (nat_digits(n).last() - 48) as nat);
    } else {
        assert(nat_digits(n).drop_last() =~= Seq::<u8>::empty());
        assert(nat_digits(n).last() == (48 + n) as u8);
        assert(digits_value(nat_digits(n)) == digits_value(Seq::<u8>::empty()) * 10 + (nat_digits(n).last() - 48) as nat);
    }
}

proof fn lemma_find_at(s: Seq<u8>, from: int, c: u8, e: int)
    requires
        0 <= from <= e < s.len(),
        s[e] == c,
        forall|j: int| from <= j < e ==> s[j] != c,
    ensures
        find_byte(s, from, c) == Some(e),
    decreases e - from,
{
    if from < e {
        lemma_find_at(s, from + 1, c, e);
    }
}

proof fn lemma_encode_head(v: SpecValue)
    ensures
        spec_encode(v).len() >= 1,
        spec_encode(v)[0] != 101u8,
{
    match v {
        SpecValue::Bytes(b) => lemma_nat_digits(b.len()),
        SpecValue::Text(b) => lemma_nat_digits(b.len()),
        _ => {},
    }
}

proof fn lemma_parse_string(b: Seq<u8>, s: Seq<u8>, pos: int)
    requires
        occurs_at(s, pos, encode_string(b)),
    ensures
        spec_parse(s, pos) == Ok::<(SpecValue, int), ErrorKind>(
            (string_value(b), pos + encode_string(b).len()),
        ),
{
    let nd = nat_digits(b.len());
    lemma_nat_digits(b.len());
    lemma_occurs_split(s, pos, nd + seq![58u8], b);
    lemma_occurs_split(s, pos, nd, seq![58u8]);
    let c = pos + nd.len();
    lemma_occurs_first(s, pos, nd);
    assert forall|j: int| pos <= j < c implies s[j] != 58u8 by {
        assert(s[pos + (j - pos)] == nd[j - pos]);
    }
    lemma_occurs_first(s, c, seq![58u8]);
    lemma_find_at(s, pos, 58u8, c);
    assert(s.subrange(pos, c) =~= nd);
    assert(s.subrange(c + 1, c + 1 + b.len()) =~= b);
}

proof fn lemma_encode_items_cons(l: Seq<SpecValue>)
    requires
        l.len() > 0,
    ensures
        encode_items(l) == spec_encode(l[0]) + encode_items(l.drop_first()),
    decreases l.len(),
{
    if l.len() == 1 {
        assert(l.drop_last() =~= Seq::<SpecValue>::empty());
        assert(l.drop_first() =~= Seq::<SpecValue>::empty());
        assert(encode_items(l) =~= spec_encode(l[0]) + encode_items(l.drop_first()));
    } else {
        lemma_encode_items_cons(l.drop_last());
        assert(l.drop_last().drop_first() =~= l.drop_first().drop_last());
        assert(l.drop_first().last() == l.last());
        assert(encode_items(l) =~= spec_encode(l[0]) + encode_items(l.drop_first()));
    }
}

proof fn lemma_encode_entries_cons(d: Seq<(Seq<u8>, SpecValue)>)
    requires
        d.len() > 0,
    ensures
        encode_entries(d) == encode_string(d[0].0) + spec_encode(d[0].1) + encode_entries(d.drop_first()),
    decreases d.len(),
{
    if d.len() == 1 {
        assert(d.drop_last() =~= Seq::<(Seq<u8>, SpecValue)>::empty());
        assert(d.drop_first() =~= Seq::<(Seq<u8>, SpecValue)>::empty());
        assert(encode_entries(d) =~= encode_string(d[0].0) + spec_encode(d[0].1) + encode_entries(d.drop_first()));
    } else {
        lemma_encode_entries_cons(d.drop_last());
        assert(d.drop_last().drop_first() =~= d.drop_first().drop_last());
        assert(d.drop_first().last() == d.last());
        assert(encode_entries(d) =~= encode_string(d[0].0) + spec_encode(d[0].1) + encode_entries(d.drop_first()));
    }
}

proof fn lemma_parse_encoded(v: SpecValue, s: Seq<u8>, pos: int)
    requires
        well_formed(v),
        occurs_at(s, pos, spec_encode(v)),
    ensures
        spec_parse(s, pos) == Ok::<(SpecValue, int), ErrorKind>((v, pos + spec_encode(v).len())),
    decreases v, 0int,
{
    match v {
        SpecValue::Int(n) => {
            let body = int_digits(n);
            lemma_occurs_split(s, pos, seq![105u8] + body, seq![101u8]);
            lemma_occurs_split(s, pos, seq![105u8], body);
            lemma_occurs_first(s, pos, seq![105u8]);
            let e = pos + 1 + body.len();
            lemma_occurs_first(s, e, seq![101u8]);
            let m: nat = if n < 0 { (-n) as nat } else { n as nat };
            lemma_nat_digits(m);
            let nd = nat_digits(m);
            assert forall|j: int| pos + 1 <= j < e implies s[j] != 101u8 by {
                assert(s[pos + 1 + (j - pos - 1)] == body[j - pos - 1]);
                if n < 0 && j > pos + 1 {
                    assert(body[j - pos - 1] == nd[j - pos - 2]);
                }
                if n >= 0 {
                    assert(body[j - pos - 1] == nd[j - pos - 1]);
                }
            }
            lemma_find_at(s, pos + 1, 101u8, e);
            assert(s.subrange(pos + 1, e) =~= body);
            if n < 0 {
                assert(body.drop_first() =~= nd);
            } else {
                assert(body[0] == nd[0]);
            }
        },
        SpecValue::Bytes(b) => {
            lemma_parse_string(b, s, pos);
        },
        SpecValue::Text(b) => {
            lemma_parse_string(b, s, pos);
        },
        SpecValue::List(l) => {
            lemma_occurs_split(s, pos, seq![108u8] + encode_items(l), seq![101u8]);
            lemma_occurs_split(s, pos, seq![108u8], encode_items(l));
            lemma_occurs_first(s, pos, seq![108u8]);
            assert(l.subrange(0, l.len() as int) =~= l);
            assert(encode_items(l) + seq![101u8] =~= (seq![108u8] + encode_items(l) + seq![101u8]).subrange(1, spec_encode(v).len() as int));
            assert forall|j: int| 0 <= j < (encode_items(l) + seq![101u8]).len() implies s[pos + 1 + j] == #[trigger] (encode_items(l) + seq![101u8])[j] by {
                assert(s[pos + (1 + j)] == spec_encode(v)[1 + j]);
            }
            assert(l.subrange(0, 0) =~= Seq::<SpecValue>::empty());
            lemma_parse_items(l, 0, s, pos + 1);
        },
        SpecValue::Dict(d) => {
            lemma_occurs_split(s, pos, seq![100u8] + encode_entries(d), seq![101u8]);
            lemma_occurs_split(s, pos, seq![100u8], encode_entries(d));
            lemma_occurs_first(s, pos, seq![100u8]);
            assert(d.subrange(0, d.len() as int) =~= d);
            assert forall|j: int| 0 <= j < (encode_entries(d) + seq![101u8]).len() implies s[pos + 1 + j] == #[trigger] (encode_entries(d) + seq![101u8])[j] by {
                assert(s[pos + (1 + j)] == spec_encode(v)[1 + j]);
            }
            assert(d.subrange(0, 0) =~= Seq::<(Seq<u8>, SpecValue)>::empty());
            lemma_parse_entries(d, 0, s, pos + 1);
        },
    }
}

proof fn lemma_parse_items(l: Seq<SpecValue>, k: int, s: Seq<u8>, p: int)
    requires
        0 <= k <= l.len(),
        forall|i: int| 0 <= i < l.len() ==> well_formed(#[trigger] l[i]),
        occurs_at(s, p, encode_items(l.subrange(k, l.len() as int)) + seq![101u8]),
    ensures
        spec_parse_list(s, p, l.subrange(0, k)) == Ok::<(SpecValue, int), ErrorKind>(
            (SpecValue::List(l), p + encode_items(l.subrange(k, l.len() as int)).len() + 1),
        ),
    decreases l, l.len() - k,
{
    let rest = l.subrange(k, l.len() as int);
    lemma_occurs_split(s, p, encode_items(rest), seq![101u8]);
    if k == l.len() {
        assert(rest =~= Seq::<SpecValue>::empty());
        lemma_occurs_first(s, p + encode_items(rest).len(), seq![101u8]);
        assert(l.subrange(0, k) =~= l);
    } else {
        lemma_encode_items_cons(rest);
        assert(rest[0] == l[k]);
        assert(rest.drop_first() =~= l.subrange(k + 1, l.len() as int));
        let ek = spec_encode(l[k]);
        assert(encode_items(rest) + seq![101u8] =~= ek + (encode_items(rest.drop_first()) + seq![101u8]));
        lemma_occurs_split(s, p, ek, encode_items(rest.drop_first()) + seq![101u8]);
        lemma_encode_head(l[k]);
        lemma_occurs_first(s, p, ek);
        assert(decreases_to!(l => l[k]));
        lemma_parse_encoded(l[k], s, p);
        assert(l.subrange(0, k).push(l[k]) =~= l.subrange(0, k + 1));
        lemma_parse_items(l, k + 1, s, p + ek.len());
    }
}

proof fn lemma_parse_entries(d: Seq<(Seq<u8>, SpecValue)>, k: int, s: Seq<u8>, p: int)
    requires
        0 <= k <= d.len(),
        keys_sorted(d),
        forall|i: int| 0 <= i < d.len() ==> valid_utf8(#[trigger] d[i].0) && well_formed(d[i].1),
        occurs_at(s, p, encode_entries(d.subrange(k, d.len() as int)) + seq![101u8]),
    ensures
        spec_parse_dict(s, p, d.subrange(0, k)) == Ok::<(SpecValue, int), ErrorKind>(
            (SpecValue::Dict(d), p + encode_entries(d.subrange(k, d.len() as int)).len() + 1),
        ),
    decreases d, d.len() - k,
{
    let rest = d.subrange(k, d.len() as int);
    lemma_occurs_split(s, p, encode_entries(rest), seq![101u8]);
    if k == d.len() {
        assert(rest =~= Seq::<(Seq<u8>, SpecValue)>::empty());
        lemma_occurs_first(s, p + encode_entries(rest).len(), seq![101u8]);
        assert(d.subrange(0, k) =~= d);
    } else {
        lemma_encode_entries_cons(rest);
        assert(rest[0] == d[k]);
        assert(rest.drop_first() =~= d.subrange(k + 1, d.len() as int));
        let key = d[k].0;
        let val = d[k].1;
        let ks = encode_string(key);
        let ev = spec_encode(val);
        let tail = encode_entries(rest.drop_first()) + seq![101u8];
        assert(encode_entries(rest) + seq![101u8] =~= ks + (ev + tail));
        lemma_occurs_split(s, p, ks, ev + tail);
        lemma_occurs_split(s, p + ks.len(), ev, tail);
        lemma_nat_digits(key.len());
        lemma_occurs_first(s, p, ks);
        lemma_parse_string(key, s, p);
        assert(key_of(string_value(key)) == Ok::<Seq<u8>, ErrorKind>(key));
        assert(decreases_to!(d => d[k]));
        assert(decreases_to!(d[k] => d[k].1));
        lemma_parse_encoded(val, s, p + ks.len());
        lemma_encode_head(val);
        let acc = d.subrange(0, k);
        assert forall|j: int| 0 <= j < acc.len() implies crate::value::lex_lt(#[trigger] acc[j].0, key) by {
            assert(acc[j] == d[j]);
        }
        lemma_dict_insert_at(acc, key, val, k);
        assert(acc.subrange(0, k).push((key, val)) + acc.subrange(k, k) =~= d.subrange(0, k + 1));
        lemma_parse_entries(d, k + 1, s, p + ks.len() + ev.len());
    }
}

proof fn lemma_insert_head(x: (Seq<u8>, SpecValue), t: Seq<(Seq<u8>, SpecValue)>, k: Seq<u8>, v: SpecValue)
    ensures
        dict_insert(seq![x] + t, k, v) == (if x.0 == k {
            seq![(k, v)] + t
        } else if lex_lt(k, x.0) {
            seq![(k, v)] + (seq![x] + t)
        } else {
            seq![x] + dict_insert(t, k, v)
        }),
{
    assert((seq![x] + t).drop_first() =~= t);
    assert((seq![x] + t)[0] == x);
}

proof fn lemma_insert_commute(d: Seq<(Seq<u8>, SpecValue)>, k1: Seq<u8>, v1: SpecValue, k2: Seq<u8>, v2: SpecValue)
    requires
        k1 != k2,
    ensures
        dict_insert(dict_insert(d, k1, v1), k2, v2) == dict_insert(dict_insert(d, k2, v2), k1, v1),
    decreases d.len(),
{
    lemma_lex_total(k1, k2);
    lemma_lex_asymmetric(k1, k2);
    let e = Seq::<(Seq<u8>, SpecValue)>::empty();
    if d.len() == 0 {
        assert(seq![(k1, v1)] =~= seq![(k1, v1)] + e);
        assert(seq![(k2, v2)] =~= seq![(k2, v2)] + e);
        lemma_insert_head((k1, v1), e, k2, v2);
        lemma_insert_head((k2, v2), e, k1, v1);
        assert(seq![(k1, v1)] + (seq![(k2, v2)] + e) =~= seq![(k1, v1)] + seq![(k2, v2)]);
        assert(seq![(k2, v2)] + (seq![(k1, v1)] + e) =~= seq![(k2, v2)] + seq![(k1, v1)]);
    } else {
        let h = d[0];
        let t = d.drop_first();
        assert(d =~= seq![h] + t);
        lemma_lex_total(k1, h.0);
        lemma_lex_total(k2, h.0);
        lemma_lex_asymmetric(k1, h.0);
        lemma_lex_asymmetric(k2, h.0);
        if lex_lt(k1, h.0) && lex_lt(h.0, k2) {
            lemma_lex_transitive(k1, h.0, k2);
        }
        if lex_lt(k2, h.0) && lex_lt(h.0, k1) {
            lemma_lex_transitive(k2, h.0, k1);
        }
        lemma_insert_commute(t, k1, v1, k2, v2);
        lemma_insert_head(h, t, k1, v1);
        lemma_insert_head(h, t, k2, v2);
        lemma_insert_head((k1, v1), t, k2, v2);
        lemma_insert_head((k2, v2), t, k1, v1);
        lemma_insert_head((k1, v1), d, k2, v2);
        lemma_insert_head((k2, v2), d, k1, v1);
        lemma_insert_head(h, dict_insert(t, k1, v1), k2, v2);
        lemma_insert_head(h, dict_insert(t, k2, v2), k1, v1);
        lemma_insert_head((k1, v1), dict_insert(t, k2, v2), k2, v2);
        lemma_insert_head((k2, v2), dict_insert(t, k1, v1), k1, v1);
        lemma_insert_head((k1, v1), seq![h] + dict_insert(t, k2, v2), k2, v2);
        lemma_insert_head((k2, v2), seq![h] + dict_insert(t, k1, v1), k1, v1);
        lemma_insert_head((k1, v1), seq![(k2, v2)] + t, k2, v2);
        lemma_insert_head((k2, v2), seq![(k1, v1)] + t, k1, v1);
        lemma_insert_head((k1, v1), seq![(k2, v2)] + d, k2, v2);
        lemma_insert_head((k2, v2), seq![(k1, v1)] + d, k1, v1);
    }
}

/// Setting two different keys of a dictionary in either order gives the same
/// dictionary, and so byte-identical canonical encodings.
pub proof fn law_insert_order(d: Seq<(Seq<u8>, SpecValue)>, k1: Seq<u8>, v1: SpecValue, k2: Seq<u8>, v2: SpecValue)
    requires
        k1 != k2,
    ensures
        dict_insert(dict_insert(d, k1, v1), k2, v2) == dict_insert(dict_insert(d, k2, v2), k1, v1),
        spec_encode(SpecValue::Dict(dict_insert(dict_insert(d, k1, v1), k2, v2))) == spec_encode(
            SpecValue::Dict(dict_insert(dict_insert(d, k2, v2), k1, v1)),
        ),
{
    lemma_insert_commute(d, k1, v1, k2, v2);
}

proof fn lemma_insert_props(d: Seq<(Seq<u8>, SpecValue)>, k: Seq<u8>, v: SpecValue)
    ensures
        forall|i: int| 0 <= i < dict_insert(d, k, v).len() ==> #[trigger] dict_insert(d, k, v)[i] == (k, v)
            || d.contains(dict_insert(d, k, v)[i]),
        keys_sorted(d) ==> keys_sorted(dict_insert(d, k, v)),
    decreases d.len(),
{
    let r = dict_insert(d, k, v);
    if d.len() == 0 {
    } else if d[0].0 == k {
        assert forall|i: int| 0 <= i < r.len() implies #[trigger] r[i] == (k, v) || d.contains(r[i]) by {
            if i > 0 {
                assert(r[i] == d[i]);
            }
        }
        if keys_sorted(d) {
            assert forall|i: int, j: int| 0 <= i < j < r.len() implies lex_lt(#[trigger] r[i].0, #[trigger] r[j].0) by {
                assert(r[j] == d[j]);
                if i > 0 {
                    assert(r[i] == d[i]);
                }
            }
        }
    } else if lex_lt(k, d[0].0) {
        assert forall|i: int| 0 <= i < r.len() implies #[trigger] r[i] == (k, v) || d.contains(r[i]) by {
            if i > 0 {
                assert(r[i] == d[i - 1]);
            }
        }
        if keys_sorted(d) {
            assert forall|i: int, j: int| 0 <= i < j < r.len() implies lex_lt(#[trigger] r[i].0, #[trigger] r[j].0) by {
                assert(r[j] == d[j - 1]);
                if i > 0 {
                    assert(r[i] == d[i - 1]);
                } else if j > 1 {
                    lemma_lex_transitive(k, d[0].0, d[j - 1].0);
                }
            }
        }
    } else {
        let t = d.drop_first();
        lemma_insert_props(t, k, v);
        let rt = dict_insert(t, k, v);
        assert(r == seq![d[0]] + rt);
        assert forall|i: int| 0 <= i < r.len() implies #[trigger] r[i] == (k, v) || d.contains(r[i]) by {
            if i > 0 {
                assert(r[i] == rt[i - 1]);
                if rt[i - 1] != (k, v) {
                    let j = choose|j: int| 0 <= j < t.len() && t[j] == rt[i - 1];
                    assert(d[j + 1] == t[j]);
                }
            } else {
                assert(d[0] == r[0]);
            }
        }
        if keys_sorted(d) {
            lemma_lex_total(k, d[0].0);
            assert(keys_sorted(t)) by {
                assert forall|i: int, j: int| 0 <= i < j < t.len() implies lex_lt(#[trigger] t[i].0, #[trigger] t[j].0) by {
                    assert(t[i] == d[i + 1] && t[j] == d[j + 1]);
                }
            }
            assert forall|i: int, j: int| 0 <= i < j < r.len() implies lex_lt(#[trigger] r[i].0, #[trigger] r[j].0) by {
                assert(r[j] == rt[j - 1]);
                if i > 0 {
                    assert(r[i] == rt[i - 1]);
                } else {
                    if rt[j - 1] == (k, v) {
                    } else {
                        let m = choose|m: int| 0 <= m < t.len() && t[m] == rt[j - 1];
                        assert(d[m + 1] == t[m]);
                    }
                }
            }
        }
    }
}

proof fn lemma_parse_wf(s: Seq<u8>, pos: int)
    ensures
        spec_parse(s, pos) matches Ok((v, _)) ==> well_formed(v),
    decreases s.len() - pos, 0nat,
{
    if 0 <= pos < s.len() {
        if s[pos] == 108u8 && !is_digit_byte(s[pos]) {
            lemma_list_wf(s, pos + 1, Seq::empty());
        } else if s[pos] == 100u8 && !is_digit_byte(s[pos]) {
            lemma_dict_wf(s, pos + 1, Seq::empty());
        }
    }
}

spec fn is_digit_byte(b: u8) -> bool {
    48 <= b <= 57
}

proof fn lemma_list_wf(s: Seq<u8>, p: int, acc: Seq<SpecValue>)
    requires
        forall|i: int| 0 <= i < acc.len() ==> well_formed(#[trigger] acc[i]),
    ensures
        spec_parse_list(s, p, acc) matches Ok((v, _)) ==> well_formed(v),
    decreases s.len() - p, 1nat,
{
    if 0 <= p < s.len() && s[p] != 101u8 {
        lemma_parse_wf(s, p);
        if let Ok((v, q)) = spec_parse(s, p) {
            if p < q && q <= s.len() {
                lemma_list_wf(s, q, acc.push(v));
            }
        }
    }
}

proof fn lemma_dict_wf(s: Seq<u8>, p: int, acc: Seq<(Seq<u8>, SpecValue)>)
    requires
        keys_sorted(acc),
        forall|i: int| 0 <= i < acc.len() ==> valid_utf8(#[trigger] acc[i].0) && well_formed(acc[i].1),
    ensures
        spec_parse_dict(s, p, acc) matches Ok((v, _)) ==> well_formed(v),
    decreases s.len() - p, 1nat,
{
    if 0 <= p < s.len() && s[p] != 101u8 {
        if let Ok((kv, q)) = spec_parse(s, p) {
            if p < q && q <= s.len() {
                if let Ok(key) = key_of(kv) {
                    lemma_parse_wf(s, p);
                    lemma_parse_wf(s, q);
                    if let Ok((v, r)) = spec_parse(s, q) {
                        if q < r && r <= s.len() {
                            lemma_insert_props(acc, key, v);
                            assert(valid_utf8(key));
                            assert(well_formed(v));
                            let na = dict_insert(acc, key, v);
                            assert forall|i: int| 0 <= i < na.len() implies valid_utf8(#[trigger] na[i].0) && well_formed(na[i].1) by {
                                if na[i] != (key, v) {
                                    assert(acc.contains(na[i]));
                                    let j = choose|j: int| 0 <= j < acc.len() && acc[j] == na[i];
                                    assert(valid_utf8(acc[j].0));
                                }
                            }
                            assert(keys_sorted(na));
                            assert forall|i: int| 0 <= i < na.len() implies well_formed(#[trigger] na[i].1) by {
                                if na[i] == (key, v) {
                                    assert(na[i].1 == v);
                                } else {
                                    assert(acc.contains(na[i]));
                                    let j = choose|j: int| 0 <= j < acc.len() && acc[j] == na[i];
                                    assert(valid_utf8(acc[j].0));
                                    assert(well_formed(acc[j].1));
                                    assert(na[i].1 == acc[j].1);
                                }
                            }
                            lemma_dict_wf(s, r, na);
                        }
                    }
                }
            }
        }
    }
}

/// Every value that decoding gives is well-formed: integers fit in 64 bits,
/// text is valid UTF-8 and byte strings are not, and dictionary keys are valid
/// UTF-8, unique and sorted.
pub proof fn law_decoded_well_formed(input: Seq<u8>)
    ensures
        spec_decode(input) matches Ok(v) ==> well_formed(v),
{
    lemma_parse_wf(input, 0);
}

/// The dictionary that setting the pairs of `ps` one after another gives.
pub open spec fn insert_all(ps: Seq<(Seq<u8>, SpecValue)>) -> Seq<(Seq<u8>, SpecValue)>
    decreases ps.len(),
{
    if ps.len() == 0 {
        Seq::empty()
    } else {
        dict_insert(insert_all(ps.drop_last()), ps.last().0, ps.last().1)
    }
}

/// No key occurs twice in `ps`.
pub open spec fn keys_distinct(ps: Seq<(Seq<u8>, SpecValue)>) -> bool {
    forall|i: int, j: int| 0 <= i < j < ps.len() ==> #[trigger] ps[i].0 != #[trigger] ps[j].0
}

proof fn lemma_get_insert(d: Seq<(Seq<u8>, SpecValue)>, k: Seq<u8>, v: SpecValue, x: Seq<u8>)
    ensures
        dict_get(dict_insert(d, k, v), x) == (if x == k { Some(v) } else { dict_get(d, x) }),
    decreases d.len(),
{
    let r = dict_insert(d, k, v);
    if d.len() == 0 {
        assert(r == seq![(k, v)]);
        assert(r[0] == (k, v));
        assert(r.drop_first() =~= Seq::<(Seq<u8>, SpecValue)>::empty());
        assert(dict_get(Seq::<(Seq<u8>, SpecValue)>::empty(), x) is None);
    } else if d[0].0 == k {
        assert(r[0] == (k, v));
        assert(r.drop_first() =~= d.drop_first());
    } else if lex_lt(k, d[0].0) {
        assert(r[0] == (k, v));
        assert(r.drop_first() =~= d);
    } else {
        lemma_get_insert(d.drop_first(), k, v, x);
        assert(r[0] == d[0]);
        assert(r.drop_first() =~= dict_insert(d.drop_first(), k, v));
    }
}

proof fn lemma_get_some_is_key(d: Seq<(Seq<u8>, SpecValue)>, x: Seq<u8>)
    ensures
        dict_get(d, x) matches Some(v) ==> exists|i: int| 0 <= i < d.len() && d[i] == (x, v),
        dict_get(d, x) is None ==> forall|i: int| 0 <= i < d.len() ==> d[i].0 != x,
    decreases d.len(),
{
    if d.len() > 0 {
        lemma_get_some_is_key(d.drop_first(), x);
        if d[0].0 != x {
            if let Some(v) = dict_get(d, x) {
                let i = choose|i: int| 0 <= i < d.drop_first().len() && d.drop_first()[i] == (x, v);
                assert(d[i + 1] == (x, v));
            } else {
                assert forall|i: int| 0 <= i < d.len() implies d[i].0 != x by {
                    if i > 0 {
                        assert(d[i] == d.drop_first()[i - 1]);
                    }
                }
            }
        }
    }
}

/// In a sorted dictionary every key leads to the entry that holds it.
proof fn lemma_get_sorted(d: Seq<(Seq<u8>, SpecValue)>, i: int)
    requires
        keys_sorted(d),
        0 <= i < d.len(),
    ensures
        dict_get(d, d[i].0) == Some(d[i].1),
    decreases i,
{
    if i > 0 {
        lemma_lex_irreflexive(d[0].0);
        assert(lex_lt(d[0].0, d[i].0));
        let t = d.drop_first();
        assert forall|a: int, b: int| 0 <= a < b < t.len() implies lex_lt(#[trigger] t[a].0, #[trigger] t[b].0) by {
            assert(t[a] == d[a + 1] && t[b] == d[b + 1]);
        }
        assert(t[i - 1] == d[i]);
        lemma_get_sorted(t, i - 1);
    }
}

/// Two sorted dictionaries that give the same value for every key are equal.
proof fn lemma_sorted_unique(a: Seq<(Seq<u8>, SpecValue)>, b: Seq<(Seq<u8>, SpecValue)>)
    requires
        keys_sorted(a),
        keys_sorted(b),
        forall|x: Seq<u8>| #[trigger] dict_get(a, x) == dict_get(b, x),
    ensures
        a == b,
    decreases a.len() + b.len(),
{
    if a.len() == 0 && b.len() == 0 {
        assert(a =~= b);
    } else if a.len() == 0 {
        lemma_get_sorted(b, 0);
        assert(dict_get(a, b[0].0) is None);
    } else if b.len() == 0 {
        lemma_get_sorted(a, 0);
        assert(dict_get(b, a[0].0) is None);
    } else {
        let a0 = a[0].0;
        let b0 = b[0].0;
        lemma_get_sorted(a, 0);
        lemma_get_sorted(b, 0);
        lemma_get_some_is_key(a, b0);
        lemma_get_some_is_key(b, a0);
        lemma_lex_total(a0, b0);
        lemma_lex_asymmetric(a0, b0);
        lemma_lex_irreflexive(a0);
        lemma_lex_irreflexive(b0);
        if a0 != b0 {
            if lex_lt(a0, b0) {
                let i = choose|i: int| 0 <= i < b.len() && b[i] == (a0, a[0].1);
                if i > 0 {
                    assert(lex_lt(b0, b[i].0));
                }
            } else {
                let i = choose|i: int| 0 <= i < a.len() && a[i] == (b0, b[0].1);
                if i > 0 {
                    assert(lex_lt(a0, a[i].0));
                }
            }
        }
        assert(a0 == b0);
        assert(a[0].1 == b[0].1);
        let ta = a.drop_first();
        let tb = b.drop_first();
        assert forall|p: int, q: int| 0 <= p < q < ta.len() implies lex_lt(#[trigger] ta[p].0, #[trigger] ta[q].0) by {
            assert(ta[p] == a[p + 1] && ta[q] == a[q + 1]);
        }
        assert forall|p: int, q: int| 0 <= p < q < tb.len() implies lex_lt(#[trigger] tb[p].0, #[trigger] tb[q].0) by {
            assert(tb[p] == b[p + 1] && tb[q] == b[q + 1]);
        }
        assert forall|x: Seq<u8>| #[trigger] dict_get(ta, x) == dict_get(tb, x) by {
            if x == a0 {
                lemma_get_some_is_key(ta, x);
                lemma_get_some_is_key(tb, x);
                if let Some(v) = dict_get(ta, x) {
                    let i = choose|i: int| 0 <= i < ta.len() && ta[i] == (x, v);
                    assert(a[i + 1] == ta[i]);
                    assert(lex_lt(a[0].0, a[i + 1].0));
                }
                if let Some(v) = dict_get(tb, x) {
                    let i = choose|i: int| 0 <= i < tb.len() && tb[i] == (x, v);
                    assert(b[i + 1] == tb[i]);
                    assert(lex_lt(b[0].0, b[i + 1].0));
                }
            } else {
                assert(dict_get(a, x) == dict_get(ta, x));
                assert(dict_get(b, x) == dict_get(tb, x));
            }
        }
        lemma_sorted_unique(ta, tb);
        assert(a =~= seq![a[0]] + ta);
        assert(b =~= seq![b[0]] + tb);
    }
}

/// Setting the pairs in order leaves each key with its value: with distinct
/// keys, a key's value is the one it is paired with.
proof fn lemma_get_insert_all(ps: Seq<(Seq<u8>, SpecValue)>, x: Seq<u8>)
    requires
        keys_distinct(ps),
    ensures
        keys_sorted(insert_all(ps)),
        forall|v: SpecValue| dict_get(insert_all(ps), x) == Some(v) <==> #[trigger] ps.contains((x, v)),
        dict_get(insert_all(ps), x) is None <==> forall|i: int| 0 <= i < ps.len() ==> #[trigger] ps[i].0 != x,
    decreases ps.len(),
{
    if ps.len() > 0 {
        let p = ps.drop_last();
        assert forall|i: int, j: int| 0 <= i < j < p.len() implies #[trigger] p[i].0 != #[trigger] p[j].0 by {
            assert(p[i] == ps[i] && p[j] == ps[j]);
        }
        lemma_get_insert_all(p, x);
        lemma_insert_props(insert_all(p), ps.last().0, ps.last().1);
        lemma_get_insert(insert_all(p), ps.last().0, ps.last().1, x);
        let l = ps.last();
        assert forall|v: SpecValue| dict_get(insert_all(ps), x) == Some(v) <==> #[trigger] ps.contains((x, v)) by {
            if ps.contains((x, v)) {
                let i = choose|i: int| 0 <= i < ps.len() && ps[i] == (x, v);
                if i < ps.len() - 1 {
                    assert(p[i] == ps[i]);
                    assert(p.contains((x, v)));
                    assert(ps[i].0 != ps[ps.len() - 1].0);
                }
            }
            if p.contains((x, v)) {
                let i = choose|i: int| 0 <= i < p.len() && p[i] == (x, v);
                assert(ps[i] == p[i]);
            }
            if x == l.0 && p.contains((x, v)) {
                let i = choose|i: int| 0 <= i < p.len() && p[i] == (x, v);
                assert(ps[i].0 != ps[ps.len() - 1].0);
            }
        }
        assert((forall|i: int| 0 <= i < ps.len() ==> #[trigger] ps[i].0 != x) <==> (l.0 != x && forall|i: int| 0 <= i < p.len() ==> #[trigger] p[i].0 != x)) by {
            if l.0 != x && forall|i: int| 0 <= i < p.len() ==> #[trigger] p[i].0 != x {
                assert forall|i: int| 0 <= i < ps.len() implies #[trigger] ps[i].0 != x by {
                    if i < p.len() {
                        assert(ps[i] == p[i]);
                    }
                }
            }
            if forall|i: int| 0 <= i < ps.len() ==> #[trigger] ps[i].0 != x {
                assert(ps[ps.len() - 1] == l);
                assert forall|i: int| 0 <= i < p.len() implies #[trigger] p[i].0 != x by {
                    assert(ps[i] == p[i]);
                }
            }
        }
    }
}

/// Setting the same pairs, with distinct keys, in any two orders gives the
/// same dictionary, and so byte-identical canonical encodings.
pub proof fn law_insert_any_order(ps: Seq<(Seq<u8>, SpecValue)>, qs: Seq<(Seq<u8>, SpecValue)>)
    requires
        keys_distinct(ps),
        keys_distinct(qs),
        ps.to_set() == qs.to_set(),
    ensures
        insert_all(ps) == insert_all(qs),
        spec_encode(SpecValue::Dict(insert_all(ps))) == spec_encode(SpecValue::Dict(insert_all(qs))),
{
    assert forall|x: Seq<u8>| #[trigger] dict_get(insert_all(ps), x) == dict_get(insert_all(qs), x) by {
        lemma_get_insert_all(ps, x);
        lemma_get_insert_all(qs, x);
        assert forall|v: SpecValue| ps.contains((x, v)) == qs.contains((x, v)) by {
            assert(ps.to_set().contains((x, v)) == ps.contains((x, v)));
            assert(qs.to_set().contains((x, v)) == qs.contains((x, v)));
        }
        if dict_get(insert_all(ps), x) is None && !(dict_get(insert_all(qs), x) is None) {
            let j = choose|j: int| 0 <= j < qs.len() && qs[j].0 == x;
            assert(qs.contains((x, qs[j].1)));
            assert(ps.contains((x, qs[j].1)));
            let i = choose|i: int| 0 <= i < ps.len() && ps[i] == (x, qs[j].1);
            assert(ps[i].0 == x);
        }
        if dict_get(insert_all(qs), x) is None && !(dict_get(insert_all(ps), x) is None) {
            let j = choose|j: int| 0 <= j < ps.len() && ps[j].0 == x;
            assert(ps.contains((x, ps[j].1)));
            assert(qs.contains((x, ps[j].1)));
            let i = choose|i: int| 0 <= i < qs.len() && qs[i] == (x, ps[j].1);
            assert(qs[i].0 == x);
        }
        if let Some(v) = dict_get(insert_all(ps), x) {
            assert(ps.contains((x, v)));
        }
    }
    lemma_get_insert_all(ps, Seq::empty());
    lemma_get_insert_all(qs, Seq::empty());
    lemma_sorted_unique(insert_all(ps), insert_all(qs));
}

/// Decoding the canonical encoding of a well-formed value gives that value back.
pub proof fn law_round_trip(v: Value)
    requires
        well_formed(v@),
    ensures
        spec_decode(spec_encode(v@)) == Ok::<SpecValue, ErrorKind>(v@),
{
    let e = spec_encode(v@);
    assert forall|j: int| 0 <= j < e.len() implies e[0 + j] == #[trigger] e[j] by {}
    lemma_parse_encoded(v@, e, 0);
}

} // verus!
