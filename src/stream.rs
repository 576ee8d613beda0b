//! The input cursor: an immutable view of the tokens that remain, with a flag
//! that says whether more may still be appended to it.
use crate::error::Needed;
use vstd::prelude::*;
use vstd::slice::slice_subrange;

verus! {

/// The physical size (in storage units) of a token sequence.
pub open spec fn units<S: Tokens>(s: Seq<S::Token>) -> nat
    decreases s.len(),
{
    if s.len() == 0 {
        0
    } else {
        S::width(s[0]) + units::<S>(s.drop_first())
    }
}

/// The tokens of a cursor, each of which occupies `width` storage units.
pub trait Tokens {
    type Token: Copy;

    spec fn width(t: Self::Token) -> nat;

    proof fn lemma_width(t: Self::Token)
        ensures
            Self::width(t) >= 1,
    ;
}

/// What a cursor needs from its token sequence.
///
/// `tokens` is what remains to be read; `partial` is true where the end of the
/// buffer may not be the end of the input (streaming), false where it is
/// (complete). A token occupies `width` storage units: offsets handed to
/// `next_slice` and lengths returned by `input_len` are in units.
pub trait Stream: Tokens + Sized + Copy {
    type Slice: Copy;

    spec fn tokens(&self) -> Seq<Self::Token>;

    spec fn partial(&self) -> bool;

    spec fn slice_tokens(s: Self::Slice) -> Seq<Self::Token>;

    spec fn char_of(t: Self::Token) -> char;

    spec fn same_no_case(a: Self::Token, b: Self::Token) -> bool;

    /// What `offset_at(n)` reports when fewer than `n` tokens are buffered.
    spec fn shortfall(s: Seq<Self::Token>, n: nat) -> Needed;

    fn is_partial(&self) -> (r: bool)
        ensures
            r == self.partial(),
    ;

    fn input_len(&self) -> (r: usize)
        ensures
            r as nat == units::<Self>(self.tokens()),
    ;

    fn next_token(&self) -> (r: Option<(Self, Self::Token)>)
        ensures
            match r {
                None => self.tokens().len() == 0,
                Some((rest, t)) => {
                    &&& self.tokens().len() > 0
                    &&& t == self.tokens()[0]
                    &&& rest.tokens() == self.tokens().drop_first()
                    &&& rest.partial() == self.partial()
                },
            },
    ;

    /// Splits off the first `count` tokens, which occupy `offset` units.
    fn next_slice(&self, offset: usize, count: Ghost<int>) -> (r: (Self, Self::Slice))
        requires
            0 <= count@ <= self.tokens().len(),
            offset == units::<Self>(self.tokens().take(count@)),
        ensures
            r.0.tokens() == self.tokens().skip(count@),
            r.0.partial() == self.partial(),
            Self::slice_tokens(r.1) == self.tokens().take(count@),
    ;

    /// The unit offset of the first `n` tokens, or how much is missing.
    fn offset_at(&self, n: usize) -> (r: Result<usize, Needed>)
        ensures
            n <= self.tokens().len() ==> r is Ok && r->Ok_0 as nat == units::<Self>(
                self.tokens().take(n as int),
            ),
            n > self.tokens().len() ==> r == Err::<usize, Needed>(
                Self::shortfall(self.tokens(), n as nat),
            ),
    ;

    /// A cursor over `s`, in the same mode as `self`.
    fn with_slice(&self, s: Self::Slice) -> (r: Self)
        ensures
            r.tokens() == Self::slice_tokens(s),
            r.partial() == self.partial(),
    ;

    fn slice_len(s: Self::Slice) -> (r: usize)
        ensures
            r as nat == units::<Self>(Self::slice_tokens(s)),
    ;

    fn token_eq(a: Self::Token, b: Self::Token) -> (r: bool)
        ensures
            r == (a == b),
    ;

    fn token_eq_no_case(a: Self::Token, b: Self::Token) -> (r: bool)
        ensures
            r == Self::same_no_case(a, b),
    ;

    fn as_char(t: Self::Token) -> (r: char)
        ensures
            r == Self::char_of(t),
    ;

    fn push_slice(s: Self::Slice, out: &mut Vec<Self::Token>)
        ensures
            final(out)@ == old(out)@ + Self::slice_tokens(s),
    ;
}

pub proof fn lemma_units_concat<S: Tokens>(a: Seq<S::Token>, b: Seq<S::Token>)
    ensures
        units::<S>(a + b) == units::<S>(a) + units::<S>(b),
    decreases a.len(),
{
    if a.len() == 0 {
        assert(a + b =~= b);
    } else {
        assert((a + b).drop_first() =~= a.drop_first() + b);
        lemma_units_concat::<S>(a.drop_first(), b);
    }
}

pub proof fn lemma_units_split<S: Tokens>(s: Seq<S::Token>, k: int)
    requires
        0 <= k <= s.len(),
    ensures
        units::<S>(s) == units::<S>(s.take(k)) + units::<S>(s.skip(k)),
{
    assert(s =~= s.take(k) + s.skip(k));
    lemma_units_concat::<S>(s.take(k), s.skip(k));
}

pub proof fn lemma_units_one<S: Tokens>(t: S::Token)
    ensures
        units::<S>(seq![t]) == S::width(t),
{
    assert(seq![t].drop_first() =~= Seq::<S::Token>::empty());
    assert(units::<S>(Seq::<S::Token>::empty()) == 0);
    assert(seq![t][0] == t);
}

pub proof fn lemma_units_step<S: Tokens>(s: Seq<S::Token>, k: int)
    requires
        0 <= k < s.len(),
    ensures
        units::<S>(s.take(k + 1)) == units::<S>(s.take(k)) + S::width(s[k]),
{
    assert(s.take(k + 1) =~= s.take(k) + seq![s[k]]);
    lemma_units_concat::<S>(s.take(k), seq![s[k]]);
    lemma_units_one::<S>(s[k]);
}

/// Units grow strictly with the number of tokens.
pub proof fn lemma_units_grow<S: Tokens>(s: Seq<S::Token>, j: int, k: int)
    requires
        0 <= j < k <= s.len(),
    ensures
        units::<S>(s.take(j)) < units::<S>(s.take(k)),
    decreases k - j,
{
    lemma_units_step::<S>(s, k - 1);
    S::lemma_width(s[k - 1]);
    if j < k - 1 {
        lemma_units_grow::<S>(s, j, k - 1);
    }
}

/// A token occupies at least one unit.
pub proof fn lemma_units_len<S: Tokens>(s: Seq<S::Token>)
    ensures
        s.len() <= units::<S>(s),
    decreases s.len(),
{
    if s.len() > 0 {
        S::lemma_width(s[0]);
        lemma_units_len::<S>(s.drop_first());
    }
}

pub proof fn lemma_units_prefix<S: Tokens>(s: Seq<S::Token>, k: int)
    requires
        0 <= k <= s.len(),
    ensures
        units::<S>(s.take(k)) <= units::<S>(s),
{
    lemma_units_split::<S>(s, k);
}

/// A cursor over a byte buffer.
#[derive(Debug, Clone, Copy, PartialEq, Eq)]
pub struct Bytes<'a> {
    pub data: &'a [u8],
    pub partial: bool,
}

pub open spec fn ascii_lower(b: u8) -> u8 {
    if 65 <= b <= 90 {
        (b + 32) as u8
    } else {
        b
    }
}

proof fn lemma_bytes_units(s: Seq<u8>)
    ensures
        units::<Bytes>(s) == s.len(),
    decreases s.len(),
{
    if s.len() > 0 {
        lemma_bytes_units(s.drop_first());
    }
}

impl<'a> Bytes<'a> {
    /// A streaming cursor: more bytes may follow the buffer.
    pub fn new(data: &'a [u8]) -> (r: Bytes<'a>)
        ensures
            r.data == data,
            r.partial,
    {
        Bytes { data, partial: true }
    }

    /// A complete cursor: the buffer holds the whole input.
    pub fn complete(data: &'a [u8]) -> (r: Bytes<'a>)
        ensures
            r.data == data,
            !r.partial,
    {
        Bytes { data, partial: false }
    }

    pub fn as_slice(&self) -> (r: &'a [u8])
        ensures
            r == self.data,
    {
        self.data
    }
}

impl<'a> Tokens for Bytes<'a> {
    type Token = u8;

    open spec fn width(t: u8) -> nat {
        1
    }

    proof fn lemma_width(t: u8) {
    }
}

impl<'a> Stream for Bytes<'a> {
    type Slice = &'a [u8];

    open spec fn tokens(&self) -> Seq<u8> {
        self.data@
    }

    open spec fn partial(&self) -> bool {
        self.partial
    }

    open spec fn slice_tokens(s: &'a [u8]) -> Seq<u8> {
        s@
    }

    open spec fn char_of(t: u8) -> char {
        t as char
    }

    open spec fn same_no_case(a: u8, b: u8) -> bool {
        ascii_lower(a) == ascii_lower(b)
    }

    open spec fn shortfall(s: Seq<u8>, n: nat) -> Needed {
        Needed::of(n - s.len())
    }

    fn is_partial(&self) -> (r: bool) {
        self.partial
    }

    fn input_len(&self) -> (r: usize) {
        proof {
            lemma_bytes_units(self.data@);
        }
        self.data.len()
    }

    fn next_token(&self) -> (r: Option<(Self, u8)>) {
        let n = self.data.len();
        if n == 0 {
            None
        } else {
            let rest = slice_subrange(self.data, 1, n);
            assert(rest@ =~= self.data@.drop_first());
            Some((Bytes { data: rest, partial: self.partial }, self.data[0]))
        }
    }

    fn next_slice(&self, offset: usize, count: Ghost<int>) -> (r: (Self, &'a [u8])) {
        proof {
            lemma_bytes_units(self.data@.take(count@));
        }
        let n = self.data.len();
        let rest = slice_subrange(self.data, offset, n);
        let head = slice_subrange(self.data, 0, offset);
        assert(rest@ =~= self.data@.skip(count@));
        assert(head@ =~= self.data@.take(count@));
        (Bytes { data: rest, partial: self.partial }, head)
    }

    fn offset_at(&self, n: usize) -> (r: Result<usize, Needed>) {
        let len = self.data.len();
        if n <= len {
            proof {
                lemma_bytes_units(self.data@.take(n as int));
            }
            Ok(n)
        } else {
            Err(Needed::new(n - len))
        }
    }

    fn with_slice(&self, s: &'a [u8]) -> (r: Self) {
        Bytes { data: s, partial: self.partial }
    }

    fn slice_len(s: &'a [u8]) -> (r: usize) {
        proof {
            lemma_bytes_units(s@);
        }
        s.len()
    }

    fn token_eq(a: u8, b: u8) -> (r: bool) {
        a == b
    }

    fn token_eq_no_case(a: u8, b: u8) -> (r: bool) {
        let la: u8 = if 65 <= a && a <= 90 { a + 32 } else { a };
        let lb: u8 = if 65 <= b && b <= 90 { b + 32 } else { b };
        la == lb
    }

    fn as_char(t: u8) -> (r: char) {
        t as char
    }

    fn push_slice(s: &'a [u8], out: &mut Vec<u8>) {
        let ghost start = out@;
        let mut i: usize = 0;
        while i < s.len()
            invariant
                0 <= i <= s@.len(),
                out@ == start + s@.take(i as int),
            decreases s@.len() - i,
        {
            out.push(s[i]);
            i = i + 1;
            assert(s@.take(i as int) =~= s@.take(i - 1) + seq![s@[i - 1]]);
        }
        assert(s@.take(s@.len() as int) =~= s@);
    }
}

} // verus!
