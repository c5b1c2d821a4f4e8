//! Splitting text at every occurrence of a needle.
use vstd::prelude::*;
use vstd::utf8::*;
use crate::value::bytes_eq;

verus! {

broadcast use vstd::std_specs::vec::group_vec_axioms, vstd::seq::group_seq_axioms;

/// `n` occurs in `h` at byte `i`, starting and ending on character boundaries.
pub open spec fn occurs(h: Seq<u8>, n: Seq<u8>, i: int) -> bool {
    0 <= i && i + n.len() <= h.len() && h.subrange(i, i + n.len()) == n && is_char_boundary(h, i)
        && is_char_boundary(h, i + n.len())
}

/// The first occurrence of `n` in `h` at or after `from`.
pub open spec fn first_occurrence(h: Seq<u8>, n: Seq<u8>, from: int) -> Option<int>
    decreases h.len() + 1 - from,
{
    if from < 0 || from + n.len() > h.len() {
        None
    } else if occurs(h, n, from) {
        Some(from)
    } else {
        first_occurrence(h, n, from + 1)
    }
}

/// The pieces of `h` between the occurrences of the non-empty `n`, as bytes.
pub open spec fn split_pieces(h: Seq<u8>, n: Seq<u8>) -> Seq<Seq<u8>>
    decreases h.len(),
{
    match first_occurrence(h, n, 0) {
        Some(i) => if n.len() > 0 && 0 <= i && i + n.len() <= h.len() {
            seq![h.subrange(0, i)] + split_pieces(h.subrange(i + n.len(), h.len() as int), n)
        } else {
            seq![h]
        },
        None => seq![h],
    }
}

/// The first occurrence of `needle` in `h`.
fn find_occurrence(h: &str, needle: &str) -> (r: Option<usize>)
    requires
        encode_utf8(needle@).len() > 0,
    ensures
        match r {
            Some(i) => first_occurrence(encode_utf8(h@), encode_utf8(needle@), 0) == Some(i as int),
            None => first_occurrence(encode_utf8(h@), encode_utf8(needle@), 0) is None,
        },
{
    let hb = h.as_bytes();
    let nb = needle.as_bytes();
    if nb.len() > hb.len() {
        return None;
    }
    let last = hb.len() - nb.len();
    let mut i: usize = 0;
    while i <= last
        invariant
            hb@ == encode_utf8(h@),
            nb@ == encode_utf8(needle@),
            nb@.len() > 0,
            hb@.len() <= usize::MAX,
            last == hb@.len() - nb@.len(),
            0 <= i <= last + 1,
            first_occurrence(hb@, nb@, 0) == first_occurrence(hb@, nb@, i as int),
        decreases last + 1 - i,
    {
        let window = vstd::slice::slice_subrange(hb, i, i + nb.len());
        if bytes_eq(window, nb) && h.is_char_boundary(i) && h.is_char_boundary(i + nb.len()) {
            return Some(i);
        }
        i = i + 1;
    }
    None
}

/// A lazy split of a text at a needle; the remainder is `None` once the last
/// piece has been handed out.
#[derive(Debug, Clone, Copy)]
pub struct Strsplit<'a> {
    pub remainder: Option<&'a str>,
    pub needle: &'a str,
}

impl<'a> Strsplit<'a> {
    /// The pieces still to come, as bytes.
    pub open spec fn spec_pieces(&self) -> Seq<Seq<u8>> {
        match self.remainder {
            Some(r) => split_pieces(encode_utf8(r@), encode_utf8(self.needle@)),
            None => Seq::empty(),
        }
    }

    /// A split of `haystack` at `needle`, which must not be empty.
    pub fn new(haystack: &'a str, needle: &'a str) -> (r: Strsplit<'a>)
        requires
            needle@.len() > 0,
        ensures
            r.remainder == Some(haystack),
            r.needle == needle,
    {
        Strsplit { remainder: Some(haystack), needle }
    }

    /// The next piece.
    pub fn next_piece(&mut self) -> (r: Option<&'a str>)
        requires
            old(self).needle@.len() > 0,
        ensures
            final(self).needle == old(self).needle,
            old(self).spec_pieces().len() == 0 ==> r is None && final(self).spec_pieces().len() == 0,
            old(self).spec_pieces().len() > 0 ==> (r matches Some(p) && encode_utf8(p@) == old(self).spec_pieces()[0])
                && final(self).spec_pieces() == old(self).spec_pieces().drop_first(),
            match (old(self).remainder, final(self).remainder) {
                (Some(a), Some(b)) => encode_utf8(b@).len() < encode_utf8(a@).len(),
                (None, Some(_)) => false,
                _ => true,
            },
    {
        proof {
            let nb = encode_utf8(self.needle@);
            assert(nb.len() > 0) by {
                vstd::utf8::encode_utf8_first_scalar(self.needle@);
            }
        }
        match self.remainder {
            None => None,
            Some(rem) => {
                let ghost h = encode_utf8(rem@);
                let ghost n = encode_utf8(self.needle@);
                match find_occurrence(rem, self.needle) {
                    Some(i) => {
                        let m = self.needle.len();
                        let hb = rem.as_bytes();
                        let _hn = hb.len();
                        proof {
                            lemma_first_occurrence(h, n, 0);
                        }
                        let (before, _) = rem.split_at(i);
                        let (_, after) = rem.split_at(i + m);
                        proof {
                            vstd::utf8::encode_utf8_decode_utf8(before@);
                            vstd::utf8::encode_utf8_decode_utf8(after@);
                        }
                        self.remainder = Some(after);
                        Some(before)
                    },
                    None => {
                        self.remainder = None;
                        Some(rem)
                    },
                }
            },
        }
    }

    /// All the pieces, in order.
    pub fn into_vec(self) -> (r: Vec<&'a str>)
        requires
            self.needle@.len() > 0,
        ensures
            r@.len() == self.spec_pieces().len(),
            forall|i: int| 0 <= i < r@.len() ==> encode_utf8(#[trigger] r@[i]@) == self.spec_pieces()[i],
    {
        let mut s = self;
        let mut out: Vec<&'a str> = Vec::new();
        loop
            invariant
                s.needle == self.needle,
                self.needle@.len() > 0,
                self.spec_pieces() =~= Seq::new(out@.len(), |i: int| encode_utf8(out@[i]@)) + s.spec_pieces(),
            ensures
                self.spec_pieces() == Seq::new(out@.len(), |i: int| encode_utf8(out@[i]@)),
            decreases match s.remainder {
                Some(r) => encode_utf8(r@).len() + 1,
                None => 0,
            },
        {
            let ghost before = s.spec_pieces();
            let ghost prev = out@;
            match s.next_piece() {
                Some(p) => {
                    out.push(p);
                    assert(Seq::new(out@.len(), |i: int| encode_utf8(out@[i]@)) =~= Seq::new(prev.len(), |i: int| encode_utf8(prev[i]@)).push(encode_utf8(p@)));
                    assert(before =~= seq![before[0]] + before.drop_first());
                },
                None => {
                    assert(before.len() == 0);
                    assert(self.spec_pieces() =~= Seq::new(out@.len(), |i: int| encode_utf8(out@[i]@)));
                    break;
                },
            }
        }
        assert(self.spec_pieces().len() == out@.len());
        out
    }
}

proof fn lemma_first_occurrence(h: Seq<u8>, n: Seq<u8>, from: int)
    requires
        0 <= from,
    ensures
        first_occurrence(h, n, from) matches Some(i) ==> occurs(h, n, i),
    decreases h.len() + 1 - from,
{
    if from + n.len() <= h.len() && !occurs(h, n, from) {
        lemma_first_occurrence(h, n, from + 1);
    }
}

/// Splitting of text at a needle.
pub trait StrsplitExt {
    /// A lazy split at `needle`, which must not be empty.
    fn strsplit<'a>(&'a self, needle: &'a str) -> (r: Strsplit<'a>)
        requires
            needle@.len() > 0,
    ;

    /// The text before the first occurrence of `needle`, or all of it.
    fn till_needle<'a>(&'a self, needle: &'a str) -> (r: &'a str)
        requires
            needle@.len() > 0,
    ;
}

impl StrsplitExt for str {
    fn strsplit<'a>(&'a self, needle: &'a str) -> (r: Strsplit<'a>) {
        Strsplit::new(self, needle)
    }

    fn till_needle<'a>(&'a self, needle: &'a str) -> (r: &'a str) {
        till_needle(self, needle)
    }
}

/// The text before the first occurrence of `needle` in `text`, or all of it.
pub fn till_needle<'a>(text: &'a str, needle: &'a str) -> (r: &'a str)
    requires
        needle@.len() > 0,
    ensures
        encode_utf8(r@) == split_pieces(encode_utf8(text@), encode_utf8(needle@))[0],
{
    let mut s = Strsplit::new(text, needle);
    proof {
        assert(s.spec_pieces().len() > 0);
    }
    match s.next_piece() {
        Some(p) => p,
        None => text,
    }
}

} // verus!
