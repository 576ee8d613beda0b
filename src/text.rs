//! A cursor over UTF-8 text: its tokens are `char`s, each of which occupies
//! one to four bytes of the buffer.
use crate::error::Needed;
use crate::stream::{lemma_units_split, lemma_units_step, units, Stream, Tokens};
use vstd::prelude::*;
use vstd::utf8::*;

verus! {

/// A cursor over a string buffer.
#[derive(Debug, Clone, Copy, PartialEq, Eq)]
pub struct Text<'a> {
    pub data: &'a str,
    pub partial: bool,
}

/// The full lowercase mapping of a `char`.
pub uninterp spec fn lowercase_of(c: char) -> Seq<char>;

/// Relies on `char::to_lowercase`: the lowercase mapping of a char, which
/// depends on the char alone.
#[verifier::external_body]
fn lowercase(c: char) -> (r: String)
    ensures
        r@ == lowercase_of(c),
{
    c.to_lowercase().collect::<String>()
}

/// The number of bytes in the UTF-8 encoding of `c`.
fn char_width(c: char) -> (r: usize)
    ensures
        r as nat == Text::width(c),
{
    let v = c as u32;
    proof {
        char_is_scalar(c);
    }
    if v <= 0x7F {
        1
    } else if v <= 0x7FF {
        2
    } else if v <= 0xFFFF {
        3
    } else {
        4
    }
}

proof fn lemma_text_units(cs: Seq<char>)
    ensures
        units::<Text>(cs) == encode_utf8(cs).len(),
    decreases cs.len(),
{
    if cs.len() > 0 {
        lemma_text_units(cs.drop_first());
    }
}

proof fn lemma_encode_concat(a: Seq<char>, b: Seq<char>)
    ensures
        encode_utf8(a + b) == encode_utf8(a) + encode_utf8(b),
    decreases a.len(),
{
    if a.len() == 0 {
        assert(a + b =~= b);
        assert(encode_utf8(a) + encode_utf8(b) =~= encode_utf8(b));
    } else {
        assert((a + b).drop_first() =~= a.drop_first() + b);
        assert((a + b)[0] == a[0]);
        lemma_encode_concat(a.drop_first(), b);
        assert(encode_utf8(a + b) =~= encode_utf8(a) + encode_utf8(b));
    }
}

/// The end of a whole number of chars is a char boundary.
proof fn lemma_boundary(a: Seq<char>, b: Seq<char>)
    ensures
        is_char_boundary(encode_utf8(a + b), encode_utf8(a).len() as int),
    decreases a.len(),
{
    let bytes = encode_utf8(a + b);
    encode_utf8_valid_utf8(a + b);
    lemma_encode_concat(a, b);
    if a.len() > 0 {
        let rest = a.drop_first();
        assert((a + b).drop_first() =~= rest + b);
        assert((a + b)[0] == a[0]);
        encode_utf8_first_scalar(a + b);
        let w = encode_scalar(a[0] as u32).len();
        Text::lemma_width(a[0]);
        assert(pop_first_scalar(bytes) =~= encode_utf8(rest + b));
        lemma_boundary(rest, b);
    }
}

/// Splitting the encoding at a char count splits the chars there.
proof fn lemma_split_views(s: &str, k: int, head: &str, tail: &str)
    requires
        0 <= k <= s@.len(),
        encode_utf8(head@) == encode_utf8(s@).subrange(0, encode_utf8(s@.take(k)).len() as int),
        encode_utf8(tail@) == encode_utf8(s@).subrange(
            encode_utf8(s@.take(k)).len() as int,
            encode_utf8(s@).len() as int,
        ),
    ensures
        head@ == s@.take(k),
        tail@ == s@.skip(k),
{
    assert(s@ =~= s@.take(k) + s@.skip(k));
    lemma_encode_concat(s@.take(k), s@.skip(k));
    assert(encode_utf8(head@) =~= encode_utf8(s@.take(k)));
    assert(encode_utf8(tail@) =~= encode_utf8(s@.skip(k)));
    encode_utf8_decode_utf8(head@);
    encode_utf8_decode_utf8(s@.take(k));
    encode_utf8_decode_utf8(tail@);
    encode_utf8_decode_utf8(s@.skip(k));
}

impl<'a> Text<'a> {
    /// A streaming cursor: more text may follow the buffer.
    pub fn new(data: &'a str) -> (r: Text<'a>)
        ensures
            r.data == data,
            r.partial,
    {
        Text { data, partial: true }
    }

    /// A complete cursor: the buffer holds the whole input.
    pub fn complete(data: &'a str) -> (r: Text<'a>)
        ensures
            r.data == data,
            !r.partial,
    {
        Text { data, partial: false }
    }

    pub fn as_str(&self) -> (r: &'a str)
        ensures
            r == self.data,
    {
        self.data
    }
}

impl<'a> Tokens for Text<'a> {
    type Token = char;

    open spec fn width(c: char) -> nat {
        encode_scalar(c as u32).len()
    }

    proof fn lemma_width(c: char) {
        let v = c as u32;
        if has_width_1_encoding(v) {
        } else if has_width_2_encoding(v) {
        } else if has_width_3_encoding(v) {
        } else {
        }
    }
}

impl<'a> Stream for Text<'a> {
    type Slice = &'a str;

    open spec fn tokens(&self) -> Seq<char> {
        self.data@
    }

    open spec fn partial(&self) -> bool {
        self.partial
    }

    open spec fn slice_tokens(s: &'a str) -> Seq<char> {
        s@
    }

    open spec fn char_of(c: char) -> char {
        c
    }

    open spec fn same_no_case(a: char, b: char) -> bool {
        lowercase_of(a) == lowercase_of(b)
    }

    open spec fn shortfall(s: Seq<char>, n: nat) -> Needed {
        Needed::Unknown
    }

    fn is_partial(&self) -> (r: bool) {
        self.partial
    }

    fn input_len(&self) -> (r: usize) {
        proof {
            lemma_text_units(self.data@);
        }
        self.data.as_bytes().len()
    }

    fn next_token(&self) -> (r: Option<(Self, char)>) {
        let mut it = self.data.chars();
        match it.next() {
            None => None,
            Some(c) => {
                let w = char_width(c);
                proof {
                    lemma_units_step::<Text>(self.data@, 0);
                    assert(self.data@.take(0) =~= Seq::<char>::empty());
                }
                let (rest, _) = self.next_slice(w, Ghost(1));
                assert(self.data@.skip(1) =~= self.data@.drop_first());
                Some((rest, c))
            },
        }
    }

    fn next_slice(&self, offset: usize, count: Ghost<int>) -> (r: (Self, &'a str)) {
        let ghost cs = self.data@;
        proof {
            let k = count@;
            lemma_text_units(cs.take(k));
            assert(cs =~= cs.take(k) + cs.skip(k));
            lemma_boundary(cs.take(k), cs.skip(k));
        }
        let (head, tail) = self.data.split_at(offset);
        proof {
            lemma_split_views(self.data, count@, head, tail);
        }
        (Text { data: tail, partial: self.partial }, head)
    }

    fn offset_at(&self, n: usize) -> (r: Result<usize, Needed>) {
        let mut cur = *self;
        let mut i: usize = 0;
        while i < n
            invariant
                0 <= i <= n,
                i <= self.data@.len(),
                cur.data@ == self.data@.skip(i as int),
                cur.partial == self.partial,
            decreases n - i,
        {
            match cur.next_token() {
                None => {
                    return Err(Needed::Unknown);
                },
                Some((rest, _)) => {
                    assert(self.data@.skip(i as int).drop_first() =~= self.data@.skip(i + 1));
                    cur = rest;
                    i = i + 1;
                },
            }
        }
        let total = self.input_len();
        let left = cur.input_len();
        proof {
            lemma_units_split::<Text>(self.data@, n as int);
        }
        Ok(total - left)
    }

    fn with_slice(&self, s: &'a str) -> (r: Self) {
        Text { data: s, partial: self.partial }
    }

    fn slice_len(s: &'a str) -> (r: usize) {
        proof {
            lemma_text_units(s@);
        }
        s.as_bytes().len()
    }

    fn token_eq(a: char, b: char) -> (r: bool) {
        a == b
    }

    fn token_eq_no_case(a: char, b: char) -> (r: bool) {
        let la = lowercase(a);
        let lb = lowercase(b);
        la == lb
    }

    fn as_char(c: char) -> (r: char) {
        c
    }

    fn push_slice(s: &'a str, out: &mut Vec<char>) {
        let ghost start = out@;
        let mut cur = Text { data: s, partial: true };
        let ghost mut k: int = 0;
        loop
            invariant
                0 <= k <= s@.len(),
                cur.data@ == s@.skip(k),
                out@ == start + s@.take(k),
            ensures
                out@ == start + s@,
            decreases cur.data@.len(),
        {
            match cur.next_token() {
                None => {
                    assert(s@.take(k) =~= s@);
                    break;
                },
                Some((rest, c)) => {
                    out.push(c);
                    assert(s@.take(k + 1) =~= s@.take(k) + seq![c]);
                    assert(s@.skip(k).drop_first() =~= s@.skip(k + 1));
                    proof {
                        k = k + 1;
                    }
                    cur = rest;
                },
            }
        }
    }
}

} // verus!
