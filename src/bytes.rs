//! The primitive matchers: literal tags, predicate-bounded spans, fixed-length
//! and delimiter-bounded extraction.
//!
//! Each matcher's result is pinned down by a spec-level `Verdict` over the
//! cursor's tokens, and `delivers` says how a verdict shows in the result.
use crate::error::{ErrMode, Error, ErrorKind, IResult, Needed};
use crate::stream::{
    lemma_units_grow, lemma_units_len, lemma_units_prefix, lemma_units_split, units, Stream,
};
use vstd::prelude::*;

verus! {

/// What a matcher decides on a token sequence.
pub enum Verdict {
    /// Match the first `n` tokens.
    Take(nat),
    /// Fail with this kind, at the start of the input.
    Fail(ErrorKind),
    /// Ask for more input.
    More(Needed),
}

/// `r` is the result that verdict `v` calls for on `input`.
pub open spec fn delivers<S: Stream>(input: S, r: IResult<S, S::Slice>, v: Verdict) -> bool {
    match v {
        Verdict::Take(k) => match r {
            Ok((rest, out)) => {
                &&& k <= input.tokens().len()
                &&& rest.tokens() == input.tokens().skip(k as int)
                &&& rest.partial() == input.partial()
                &&& S::slice_tokens(out) == input.tokens().take(k as int)
            },
            Err(_) => false,
        },
        Verdict::Fail(kind) => r == Err::<(S, S::Slice), ErrMode<Error<S>>>(
            ErrMode::Backtrack(Error { input, kind }),
        ),
        Verdict::More(n) => r == Err::<(S, S::Slice), ErrMode<Error<S>>>(ErrMode::Incomplete(n)),
    }
}

/// A token predicate that always answers, and always the same way.
pub open spec fn pure_pred<T, P: Fn(T) -> bool>(p: P) -> bool {
    &&& forall|t: T| #[trigger] p.requires((t,))
    &&& forall|t: T, b: bool| #[trigger] p.ensures((t,), b) ==> b == p.ensures((t,), true)
}

/// The tokens on which `p` answers `want`.
pub open spec fn answers<T, P: Fn(T) -> bool>(p: P, want: bool) -> spec_fn(T) -> bool {
    |t: T| p.ensures((t,), true) == want
}

/// The tokens whose membership in `set` is `want`.
pub open spec fn in_set<T>(set: Seq<T>, want: bool) -> spec_fn(T) -> bool {
    |t: T| set.contains(t) == want
}

/// How many tokens at the front of `s` satisfy `keep`.
pub open spec fn lead<T>(s: Seq<T>, keep: spec_fn(T) -> bool) -> nat
    decreases s.len(),
{
    if s.len() > 0 && keep(s[0]) {
        1 + lead(s.drop_first(), keep)
    } else {
        0
    }
}

/// Zero or more tokens that satisfy `keep`.
pub open spec fn span_verdict<T>(s: Seq<T>, keep: spec_fn(T) -> bool, partial: bool) -> Verdict {
    let k = lead(s, keep);
    if k < s.len() {
        Verdict::Take(k)
    } else if partial {
        Verdict::More(Needed::Size(1))
    } else {
        Verdict::Take(k)
    }
}

/// One or more tokens that satisfy `keep`.
pub open spec fn span1_verdict<T>(
    s: Seq<T>,
    keep: spec_fn(T) -> bool,
    partial: bool,
    kind: ErrorKind,
) -> Verdict {
    let k = lead(s, keep);
    if k < s.len() {
        if k == 0 {
            Verdict::Fail(kind)
        } else {
            Verdict::Take(k)
        }
    } else if partial {
        Verdict::More(Needed::Size(1))
    } else if k == 0 {
        Verdict::Fail(kind)
    } else {
        Verdict::Take(k)
    }
}

/// Between `m` and `n` tokens that satisfy `keep`, as many as there are.
pub open spec fn span_m_n_verdict<T>(
    s: Seq<T>,
    keep: spec_fn(T) -> bool,
    m: nat,
    n: nat,
    partial: bool,
) -> Verdict {
    let k = lead(s, keep);
    if k < s.len() {
        if k >= m {
            Verdict::Take(if k <= n { k } else { n })
        } else {
            Verdict::Fail(ErrorKind::TakeWhileMN)
        }
    } else if k >= n {
        Verdict::Take(n)
    } else if partial {
        Verdict::More(Needed::of(if m > k { m - k } else { 1 }))
    } else if k >= m {
        Verdict::Take(k)
    } else {
        Verdict::Fail(ErrorKind::TakeWhileMN)
    }
}

/// Exactly `n` tokens.
pub open spec fn take_verdict<S: Stream>(s: Seq<S::Token>, n: nat, partial: bool) -> Verdict {
    if n <= s.len() {
        Verdict::Take(n)
    } else if partial {
        Verdict::More(S::shortfall(s, n))
    } else {
        Verdict::Fail(ErrorKind::Eof)
    }
}

/// How a cursor's prefix compares with a pattern.
#[derive(Debug, Clone, Copy, PartialEq, Eq, Structural)]
pub enum CompareResult {
    /// The cursor starts with the pattern.
    Matches,
    /// The cursor is shorter than the pattern and agrees with it so far.
    Incomplete,
    /// Some token disagrees.
    Mismatch,
}

pub open spec fn token_agrees<S: Stream>(x: S::Token, y: S::Token, no_case: bool) -> bool {
    if no_case {
        S::same_no_case(x, y)
    } else {
        x == y
    }
}

/// `a` and `b` have the same length and agree token by token.
pub open spec fn agree<S: Stream>(a: Seq<S::Token>, b: Seq<S::Token>, no_case: bool) -> bool {
    &&& a.len() == b.len()
    &&& forall|j: int| 0 <= j < a.len() ==> token_agrees::<S>(#[trigger] a[j], b[j], no_case)
}

pub open spec fn compare_spec<S: Stream>(
    s: Seq<S::Token>,
    p: Seq<S::Token>,
    no_case: bool,
) -> CompareResult {
    if s.len() >= p.len() {
        if agree::<S>(s.take(p.len() as int), p, no_case) {
            CompareResult::Matches
        } else {
            CompareResult::Mismatch
        }
    } else if agree::<S>(s, p.take(s.len() as int), no_case) {
        CompareResult::Incomplete
    } else {
        CompareResult::Mismatch
    }
}

/// The literal `p` (compared exactly, or with case folded).
pub open spec fn tag_verdict<S: Stream>(
    s: Seq<S::Token>,
    p: Seq<S::Token>,
    no_case: bool,
    partial: bool,
) -> Verdict {
    match compare_spec::<S>(s, p, no_case) {
        CompareResult::Matches => Verdict::Take(p.len()),
        CompareResult::Incomplete => if partial {
            Verdict::More(Needed::of(units::<S>(p) - units::<S>(s)))
        } else {
            Verdict::Fail(ErrorKind::Tag)
        },
        CompareResult::Mismatch => Verdict::Fail(ErrorKind::Tag),
    }
}

pub open spec fn occurs_at<T>(s: Seq<T>, p: Seq<T>, i: int) -> bool {
    0 <= i && i + p.len() <= s.len() && s.subrange(i, i + p.len()) == p
}

/// The first position, from `i` on, at which `p` occurs in `s`.
pub open spec fn find_from<T>(s: Seq<T>, p: Seq<T>, i: int) -> Option<nat>
    decreases s.len() + 1 - i,
{
    if i < 0 || i + p.len() > s.len() {
        None
    } else if occurs_at(s, p, i) {
        Some(i as nat)
    } else {
        find_from(s, p, i + 1)
    }
}

/// The tokens before the first occurrence of `p` (at least one if `nonempty`).
pub open spec fn until_verdict<T>(s: Seq<T>, p: Seq<T>, nonempty: bool, partial: bool) -> Verdict {
    match find_from(s, p, 0) {
        None => if partial {
            Verdict::More(Needed::Unknown)
        } else {
            Verdict::Fail(ErrorKind::TakeUntil)
        },
        Some(i) => if nonempty && i == 0 {
            Verdict::Fail(ErrorKind::TakeUntil)
        } else {
            Verdict::Take(i)
        },
    }
}

pub proof fn lemma_lead<T>(s: Seq<T>, keep: spec_fn(T) -> bool, k: int)
    requires
        0 <= k <= s.len(),
        forall|j: int| 0 <= j < k ==> keep(#[trigger] s[j]),
        k < s.len() ==> !keep(s[k]),
    ensures
        lead(s, keep) == k,
    decreases k,
{
    if k > 0 {
        let t = s.drop_first();
        assert forall|j: int| 0 <= j < k - 1 implies keep(#[trigger] t[j]) by {
            assert(t[j] == s[j + 1]);
        }
        if k < s.len() {
            assert(t[k - 1] == s[k]);
        }
        lemma_lead(t, keep, k - 1);
    }
}

pub proof fn lemma_lead_bounds<T>(s: Seq<T>, keep: spec_fn(T) -> bool)
    ensures
        lead(s, keep) <= s.len(),
        forall|j: int| 0 <= j < lead(s, keep) ==> keep(#[trigger] s[j]),
        lead(s, keep) < s.len() ==> !keep(s[lead(s, keep) as int]),
    decreases s.len(),
{
    if s.len() > 0 && keep(s[0]) {
        let t = s.drop_first();
        lemma_lead_bounds(t, keep);
        assert forall|j: int| 0 <= j < lead(s, keep) implies keep(#[trigger] s[j]) by {
            if j > 0 {
                assert(s[j] == t[j - 1]);
            }
        }
        if lead(s, keep) < s.len() {
            assert(s[lead(s, keep) as int] == t[lead(t, keep) as int]);
        }
    }
}

/// Counts the tokens at the front of `input` on which `pred` answers `want`;
/// returns that count, its unit offset, and whether a token stopped the count.
fn scan<S: Stream, P: Fn(S::Token) -> bool>(input: &S, pred: &P, want: bool) -> (r: (
    usize,
    usize,
    bool,
))
    requires
        pure_pred(*pred),
    ensures
        r.0 == lead(input.tokens(), answers(*pred, want)),
        r.0 <= input.tokens().len(),
        r.1 == units::<S>(input.tokens().take(r.0 as int)),
        r.2 == (r.0 < input.tokens().len()),
{
    let ghost s = input.tokens();
    let ghost keep = answers(*pred, want);
    let mut cur = *input;
    let mut i: usize = 0;
    let total = input.input_len();
    proof {
        lemma_units_len::<S>(s);
    }
    let found;
    loop
        invariant
            pure_pred(*pred),
            keep == answers(*pred, want),
            s == input.tokens(),
            total == units::<S>(s),
            s.len() <= total,
            0 <= i <= s.len(),
            cur.tokens() == s.skip(i as int),
            forall|j: int| 0 <= j < i ==> keep(#[trigger] s[j]),
        ensures
            0 <= i <= s.len(),
            cur.tokens() == s.skip(i as int),
            forall|j: int| 0 <= j < i ==> keep(#[trigger] s[j]),
            found == (i < s.len()),
            i < s.len() ==> !keep(s[i as int]),
        decreases s.len() - i,
    {
        match cur.next_token() {
            None => {
                found = false;
                break;
            },
            Some((rest, t)) => {
                assert(t == s[i as int]);
                let b = pred(t);
                if b != want {
                    found = true;
                    break;
                }
                assert(s.skip(i as int).drop_first() =~= s.skip(i + 1));
                proof {
                    lemma_units_prefix::<S>(s, i + 1);
                }
                cur = rest;
                i = i + 1;
            },
        }
    }
    proof {
        lemma_lead(s, keep, i as int);
        lemma_units_split::<S>(s, i as int);
    }
    let left = cur.input_len();
    (i, total - left, found)
}

/// Splits `input` after its first `k` tokens, which occupy `off` units.
fn split_at<S: Stream>(input: &S, off: usize, k: Ghost<nat>) -> (r: IResult<S, S::Slice>)
    requires
        k@ <= input.tokens().len(),
        off == units::<S>(input.tokens().take(k@ as int)),
    ensures
        delivers(*input, r, Verdict::Take(k@)),
{
    Ok(input.next_slice(off, Ghost(k@ as int)))
}

fn fail<S: Stream, O>(input: S, kind: ErrorKind) -> (r: IResult<S, O>)
    ensures
        r == Err::<(S, O), ErrMode<Error<S>>>(ErrMode::Backtrack(Error { input, kind })),
{
    Err(ErrMode::Backtrack(Error { input, kind }))
}

/// Zero or more tokens on which `pred` answers `want`.
fn span<S: Stream, P: Fn(S::Token) -> bool>(input: S, pred: &P, want: bool) -> (r: IResult<
    S,
    S::Slice,
>)
    requires
        pure_pred(*pred),
    ensures
        delivers(input, r, span_verdict(input.tokens(), answers(*pred, want), input.partial())),
{
    let (k, off, found) = scan(&input, pred, want);
    if !found && input.is_partial() {
        Err(ErrMode::Incomplete(Needed::Size(1)))
    } else {
        split_at(&input, off, Ghost(k as nat))
    }
}

/// One or more tokens on which `pred` answers `want`.
fn span1<S: Stream, P: Fn(S::Token) -> bool>(input: S, pred: &P, want: bool, kind: ErrorKind) -> (r:
    IResult<S, S::Slice>)
    requires
        pure_pred(*pred),
    ensures
        delivers(
            input,
            r,
            span1_verdict(input.tokens(), answers(*pred, want), input.partial(), kind),
        ),
{
    let (k, off, found) = scan(&input, pred, want);
    if !found && input.is_partial() {
        Err(ErrMode::Incomplete(Needed::Size(1)))
    } else if k == 0 {
        fail(input, kind)
    } else {
        split_at(&input, off, Ghost(k as nat))
    }
}

/// The longest prefix that holds no token on which `pred` is true; in
/// streaming mode, more input is needed where no such token is buffered.
pub fn split_at_offset<S: Stream, P: Fn(S::Token) -> bool>(input: S, pred: P) -> (r: IResult<
    S,
    S::Slice,
>)
    requires
        pure_pred(pred),
    ensures
        delivers(input, r, span_verdict(input.tokens(), answers(pred, false), input.partial())),
{
    span(input, &pred, false)
}

/// As `split_at_offset`, but fails with `kind` where that prefix is empty.
pub fn split_at_offset1<S: Stream, P: Fn(S::Token) -> bool>(
    input: S,
    pred: P,
    kind: ErrorKind,
) -> (r: IResult<S, S::Slice>)
    requires
        pure_pred(pred),
    ensures
        delivers(
            input,
            r,
            span1_verdict(input.tokens(), answers(pred, false), input.partial(), kind),
        ),
{
    span1(input, &pred, false, kind)
}

/// The longest prefix of tokens that satisfy `list`; in streaming mode, more
/// input is needed where every buffered token satisfies it.
pub fn take_while<S: Stream, P: Fn(S::Token) -> bool>(list: P, input: S) -> (r: IResult<
    S,
    S::Slice,
>)
    requires
        pure_pred(list),
    ensures
        delivers(input, r, span_verdict(input.tokens(), answers(list, true), input.partial())),
{
    span(input, &list, true)
}

/// The longest prefix, at least one token long, of tokens that satisfy
/// `list`; in streaming mode, more input is needed where every buffered token
/// satisfies it.
pub fn take_while1<S: Stream, P: Fn(S::Token) -> bool>(list: P, input: S) -> (r: IResult<
    S,
    S::Slice,
>)
    requires
        pure_pred(list),
    ensures
        delivers(
            input,
            r,
            span1_verdict(
                input.tokens(),
                answers(list, true),
                input.partial(),
                ErrorKind::TakeWhile1,
            ),
        ),
{
    span1(input, &list, true, ErrorKind::TakeWhile1)
}

/// The longest prefix of tokens that fail `list`; in streaming mode, more
/// input is needed where every buffered token fails it.
pub fn take_till<S: Stream, P: Fn(S::Token) -> bool>(list: P, input: S) -> (r: IResult<
    S,
    S::Slice,
>)
    requires
        pure_pred(list),
    ensures
        delivers(input, r, span_verdict(input.tokens(), answers(list, false), input.partial())),
{
    span(input, &list, false)
}

/// The longest prefix, at least one token long, of tokens that fail `list`;
/// in streaming mode, more input is needed where every buffered token fails
/// it.
pub fn take_till1<S: Stream, P: Fn(S::Token) -> bool>(list: P, input: S) -> (r: IResult<
    S,
    S::Slice,
>)
    requires
        pure_pred(list),
    ensures
        delivers(
            input,
            r,
            span1_verdict(
                input.tokens(),
                answers(list, false),
                input.partial(),
                ErrorKind::TakeTill1,
            ),
        ),
{
    span1(input, &list, false, ErrorKind::TakeTill1)
}

/// Between `m` and `n` tokens that satisfy `list`: as many as there are, up
/// to `n`.
pub fn take_while_m_n<S: Stream, P: Fn(S::Token) -> bool>(
    m: usize,
    n: usize,
    list: P,
    input: S,
) -> (r: IResult<S, S::Slice>)
    requires
        pure_pred(list),
    ensures
        delivers(
            input,
            r,
            span_m_n_verdict(
                input.tokens(),
                answers(list, true),
                m as nat,
                n as nat,
                input.partial(),
            ),
        ),
{
    let (k, off, found) = scan(&input, &list, true);
    if found {
        if k >= m {
            if k <= n {
                split_at(&input, off, Ghost(k as nat))
            } else {
                take_exactly(&input, n)
            }
        } else {
            fail(input, ErrorKind::TakeWhileMN)
        }
    } else if k >= n {
        take_exactly(&input, n)
    } else if input.is_partial() {
        let needed = if m > k {
            m - k
        } else {
            1
        };
        Err(ErrMode::Incomplete(Needed::new(needed)))
    } else if k >= m {
        split_at(&input, off, Ghost(k as nat))
    } else {
        fail(input, ErrorKind::TakeWhileMN)
    }
}

/// The first `n` tokens, which are known to be buffered.
fn take_exactly<S: Stream>(input: &S, n: usize) -> (r: IResult<S, S::Slice>)
    requires
        n <= input.tokens().len(),
    ensures
        delivers(*input, r, Verdict::Take(n as nat)),
{
    match input.offset_at(n) {
        Ok(off) => split_at(input, off, Ghost(n as nat)),
        Err(_) => Err(ErrMode::Incomplete(Needed::Unknown)),
    }
}

/// The first `count` tokens.
pub fn take<S: Stream>(count: usize, input: S) -> (r: IResult<S, S::Slice>)
    ensures
        delivers(input, r, take_verdict::<S>(input.tokens(), count as nat, input.partial())),
{
    match input.offset_at(count) {
        Ok(off) => split_at(&input, off, Ghost(count as nat)),
        Err(needed) => if input.is_partial() {
            Err(ErrMode::Incomplete(needed))
        } else {
            fail(input, ErrorKind::Eof)
        },
    }
}

/// Compares the front of `input` with `pat`, token by token (with case
/// folded where `no_case`); on a match, also returns how many units of
/// `input` the matched tokens occupy.
pub fn compare<S: Stream>(input: &S, pat: S::Slice, no_case: bool) -> (r: (CompareResult, usize))
    ensures
        r.0 == compare_spec::<S>(input.tokens(), S::slice_tokens(pat), no_case),
        r.0 == CompareResult::Matches ==> r.1 as nat == units::<S>(
            input.tokens().take(S::slice_tokens(pat).len() as int),
        ),
{
    let ghost s = input.tokens();
    let ghost p = S::slice_tokens(pat);
    let mut a = *input;
    let mut b = input.with_slice(pat);
    let total = input.input_len();
    let ghost mut i: int = 0;
    assert(s.skip(0) =~= s);
    assert(p.skip(0) =~= p);
    loop
        invariant
            s == input.tokens(),
            p == S::slice_tokens(pat),
            0 <= i <= s.len(),
            i <= p.len(),
            a.tokens() == s.skip(i),
            b.tokens() == p.skip(i),
            total == units::<S>(s),
            forall|j: int| 0 <= j < i ==> token_agrees::<S>(#[trigger] s[j], p[j], no_case),
        decreases p.len() - i,
    {
        match b.next_token() {
            None => {
                assert(agree::<S>(s.take(p.len() as int), p, no_case));
                proof {
                    lemma_units_split::<S>(s, i);
                }
                let left = a.input_len();
                return (CompareResult::Matches, total - left);
            },
            Some((b2, pt)) => match a.next_token() {
                None => {
                    assert(agree::<S>(s, p.take(s.len() as int), no_case));
                    return (CompareResult::Incomplete, 0);
                },
                Some((a2, it)) => {
                    assert(it == s[i] && pt == p[i]);
                    let same = if no_case {
                        S::token_eq_no_case(it, pt)
                    } else {
                        S::token_eq(it, pt)
                    };
                    if !same {
                        proof {
                            if s.len() >= p.len() {
                                assert(s.take(p.len() as int)[i] == s[i]);
                            } else {
                                assert(p.take(s.len() as int)[i] == p[i]);
                            }
                        }
                        return (CompareResult::Mismatch, 0);
                    }
                    assert(s.skip(i).drop_first() =~= s.skip(i + 1));
                    assert(p.skip(i).drop_first() =~= p.skip(i + 1));
                    a = a2;
                    b = b2;
                    proof {
                        i = i + 1;
                    }
                },
            },
        }
    }
}

fn tag_with<S: Stream>(input: S, t: S::Slice, no_case: bool) -> (r: IResult<S, S::Slice>)
    ensures
        delivers(
            input,
            r,
            tag_verdict::<S>(input.tokens(), S::slice_tokens(t), no_case, input.partial()),
        ),
{
    let (c, off) = compare(&input, t, no_case);
    match c {
        CompareResult::Matches => split_at(&input, off, Ghost(S::slice_tokens(t).len())),
        CompareResult::Incomplete => if input.is_partial() {
            let tl = S::slice_len(t);
            let il = input.input_len();
            let short = if tl > il {
                tl - il
            } else {
                0
            };
            Err(ErrMode::Incomplete(Needed::new(short)))
        } else {
            fail(input, ErrorKind::Tag)
        },
        CompareResult::Mismatch => fail(input, ErrorKind::Tag),
    }
}

/// The literal `pattern` at the front of the input.
pub fn tag<S: Stream>(pattern: S::Slice, input: S) -> (r: IResult<S, S::Slice>)
    ensures
        delivers(
            input,
            r,
            tag_verdict::<S>(input.tokens(), S::slice_tokens(pattern), false, input.partial()),
        ),
{
    tag_with(input, pattern, false)
}

/// The literal `pattern` at the front of the input, with case folded.
pub fn tag_no_case<S: Stream>(pattern: S::Slice, input: S) -> (r: IResult<S, S::Slice>)
    ensures
        delivers(
            input,
            r,
            tag_verdict::<S>(input.tokens(), S::slice_tokens(pattern), true, input.partial()),
        ),
{
    tag_with(input, pattern, true)
}

/// The unit offset of the first occurrence of `pat` in `input`.
pub fn find_slice<S: Stream>(input: &S, pat: S::Slice) -> (r: Option<usize>)
    ensures
        match find_from(input.tokens(), S::slice_tokens(pat), 0) {
            None => r is None,
            Some(i) => r is Some && r->0 as nat == units::<S>(input.tokens().take(i as int)),
        },
{
    let ghost s = input.tokens();
    let ghost p = S::slice_tokens(pat);
    let mut cur = *input;
    let total = input.input_len();
    let ghost mut i: int = 0;
    assert(s.skip(0) =~= s);
    loop
        invariant
            s == input.tokens(),
            p == S::slice_tokens(pat),
            0 <= i <= s.len(),
            cur.tokens() == s.skip(i),
            total == units::<S>(s),
            find_from(s, p, 0) == find_from(s, p, i),
        decreases s.len() - i,
    {
        let (c, _) = compare(&cur, pat, false);
        proof {
            if occurs_at(s, p, i) {
                assert(s.skip(i).take(p.len() as int) =~= s.subrange(i, i + p.len()));
            }
        }
        match c {
            CompareResult::Matches => {
                assert(s.subrange(i, i + p.len()) =~= p) by {
                    assert(s.skip(i).take(p.len() as int) =~= s.subrange(i, i + p.len()));
                    assert forall|j: int| 0 <= j < p.len() implies s.subrange(i, i + p.len())[j]
                        == p[j] by {
                        assert(s.skip(i).take(p.len() as int)[j] == s.subrange(i, i + p.len())[j]);
                    }
                }
                proof {
                    lemma_units_split::<S>(s, i);
                }
                let left = cur.input_len();
                return Some(total - left);
            },
            _ => {},
        }
        match cur.next_token() {
            None => {
                return None;
            },
            Some((rest, _)) => {
                assert(s.skip(i).drop_first() =~= s.skip(i + 1));
                cur = rest;
                proof {
                    i = i + 1;
                }
            },
        }
    }
}

/// The tokens before the first occurrence of `pattern`, which is not consumed.
pub fn take_until<S: Stream>(pattern: S::Slice, input: S) -> (r: IResult<S, S::Slice>)
    ensures
        delivers(
            input,
            r,
            until_verdict(input.tokens(), S::slice_tokens(pattern), false, input.partial()),
        ),
{
    let ghost at = find_from(input.tokens(), S::slice_tokens(pattern), 0);
    match find_slice(&input, pattern) {
        None => if input.is_partial() {
            Err(ErrMode::Incomplete(Needed::Unknown))
        } else {
            fail(input, ErrorKind::TakeUntil)
        },
        Some(off) => {
            proof {
                lemma_find_bound(input.tokens(), S::slice_tokens(pattern), 0);
            }
            split_at(&input, off, Ghost(at->0))
        },
    }
}

/// As `take_until`, but fails where `pattern` comes first.
pub fn take_until1<S: Stream>(pattern: S::Slice, input: S) -> (r: IResult<S, S::Slice>)
    ensures
        delivers(
            input,
            r,
            until_verdict(input.tokens(), S::slice_tokens(pattern), true, input.partial()),
        ),
{
    let ghost at = find_from(input.tokens(), S::slice_tokens(pattern), 0);
    match find_slice(&input, pattern) {
        None => if input.is_partial() {
            Err(ErrMode::Incomplete(Needed::Unknown))
        } else {
            fail(input, ErrorKind::TakeUntil)
        },
        Some(off) => {
            proof {
                lemma_find_bound(input.tokens(), S::slice_tokens(pattern), 0);
                if at->0 > 0 {
                    lemma_units_grow::<S>(input.tokens(), 0, at->0 as int);
                }
                assert(input.tokens().take(0) =~= Seq::<S::Token>::empty());
            }
            if off == 0 {
                fail(input, ErrorKind::TakeUntil)
            } else {
                split_at(&input, off, Ghost(at->0))
            }
        },
    }
}

/// The outcome of a matcher of one token that `accept`s it; an empty buffer
/// asks for one more token in streaming mode, and fails with `kind` otherwise.
pub open spec fn single<S: Stream>(
    input: S,
    r: IResult<S, S::Token>,
    accept: spec_fn(S::Token) -> bool,
    kind: ErrorKind,
) -> bool {
    let s = input.tokens();
    if s.len() == 0 {
        if input.partial() {
            r == Err::<(S, S::Token), ErrMode<Error<S>>>(ErrMode::Incomplete(Needed::Size(1)))
        } else {
            r == Err::<(S, S::Token), ErrMode<Error<S>>>(ErrMode::Backtrack(Error { input, kind }))
        }
    } else if accept(s[0]) {
        match r {
            Ok((rest, t)) => {
                &&& t == s[0]
                &&& rest.tokens() == s.drop_first()
                &&& rest.partial() == input.partial()
            },
            Err(_) => false,
        }
    } else {
        r == Err::<(S, S::Token), ErrMode<Error<S>>>(ErrMode::Backtrack(Error { input, kind }))
    }
}

pub open spec fn any_token<T>() -> spec_fn(T) -> bool {
    |t: T| true
}

/// Whether `t` is one of the tokens of `set`.
fn contains<S: Stream>(input: &S, set: S::Slice, t: S::Token) -> (r: bool)
    ensures
        r == S::slice_tokens(set).contains(t),
{
    let ghost q = S::slice_tokens(set);
    let mut cur = input.with_slice(set);
    let ghost mut i: int = 0;
    assert(q.skip(0) =~= q);
    loop
        invariant
            q == S::slice_tokens(set),
            0 <= i <= q.len(),
            cur.tokens() == q.skip(i),
            forall|j: int| 0 <= j < i ==> q[j] != t,
        decreases q.len() - i,
    {
        match cur.next_token() {
            None => {
                assert(!q.contains(t));
                return false;
            },
            Some((rest, x)) => {
                assert(x == q[i]);
                if S::token_eq(x, t) {
                    return true;
                }
                assert(q.skip(i).drop_first() =~= q.skip(i + 1));
                cur = rest;
                proof {
                    i = i + 1;
                }
            },
        }
    }
}

/// As `scan`, for the tokens whose membership in `set` is `want`.
fn scan_set<S: Stream>(input: &S, set: S::Slice, want: bool) -> (r: (usize, usize, bool))
    ensures
        r.0 == lead(input.tokens(), in_set(S::slice_tokens(set), want)),
        r.0 <= input.tokens().len(),
        r.1 == units::<S>(input.tokens().take(r.0 as int)),
        r.2 == (r.0 < input.tokens().len()),
{
    let ghost s = input.tokens();
    let ghost keep = in_set(S::slice_tokens(set), want);
    let mut cur = *input;
    let mut i: usize = 0;
    let total = input.input_len();
    proof {
        lemma_units_len::<S>(s);
    }
    let found;
    loop
        invariant
            keep == in_set(S::slice_tokens(set), want),
            s == input.tokens(),
            total == units::<S>(s),
            s.len() <= total,
            0 <= i <= s.len(),
            cur.tokens() == s.skip(i as int),
            forall|j: int| 0 <= j < i ==> keep(#[trigger] s[j]),
        ensures
            0 <= i <= s.len(),
            cur.tokens() == s.skip(i as int),
            forall|j: int| 0 <= j < i ==> keep(#[trigger] s[j]),
            found == (i < s.len()),
            i < s.len() ==> !keep(s[i as int]),
        decreases s.len() - i,
    {
        match cur.next_token() {
            None => {
                found = false;
                break;
            },
            Some((rest, t)) => {
                assert(t == s[i as int]);
                if contains(input, set, t) != want {
                    found = true;
                    break;
                }
                assert(s.skip(i as int).drop_first() =~= s.skip(i + 1));
                cur = rest;
                i = i + 1;
            },
        }
    }
    proof {
        lemma_lead(s, keep, i as int);
        lemma_units_split::<S>(s, i as int);
    }
    let left = cur.input_len();
    (i, total - left, found)
}

fn span_set1<S: Stream>(input: S, set: S::Slice, want: bool, kind: ErrorKind) -> (r: IResult<
    S,
    S::Slice,
>)
    ensures
        delivers(
            input,
            r,
            span1_verdict(input.tokens(), in_set(S::slice_tokens(set), want), input.partial(), kind),
        ),
{
    let (k, off, found) = scan_set(&input, set, want);
    if !found && input.is_partial() {
        Err(ErrMode::Incomplete(Needed::Size(1)))
    } else if k == 0 {
        fail(input, kind)
    } else {
        split_at(&input, off, Ghost(k as nat))
    }
}

/// The longest nonempty prefix of tokens that are all in `set`.
pub fn is_a<S: Stream>(set: S::Slice, input: S) -> (r: IResult<S, S::Slice>)
    ensures
        delivers(
            input,
            r,
            span1_verdict(
                input.tokens(),
                in_set(S::slice_tokens(set), true),
                input.partial(),
                ErrorKind::IsA,
            ),
        ),
{
    span_set1(input, set, true, ErrorKind::IsA)
}

/// The longest nonempty prefix of tokens none of which is in `set`.
pub fn is_not<S: Stream>(set: S::Slice, input: S) -> (r: IResult<S, S::Slice>)
    ensures
        delivers(
            input,
            r,
            span1_verdict(
                input.tokens(),
                in_set(S::slice_tokens(set), false),
                input.partial(),
                ErrorKind::IsNot,
            ),
        ),
{
    span_set1(input, set, false, ErrorKind::IsNot)
}

/// Any one token.
pub fn any<S: Stream>(input: S) -> (r: IResult<S, S::Token>)
    ensures
        single(input, r, any_token(), ErrorKind::Eof),
{
    match input.next_token() {
        Some(p) => Ok(p),
        None => if input.is_partial() {
            Err(ErrMode::Incomplete(Needed::Size(1)))
        } else {
            fail(input, ErrorKind::Eof)
        },
    }
}

fn single_in<S: Stream>(input: S, set: S::Slice, want: bool, kind: ErrorKind) -> (r: IResult<
    S,
    S::Token,
>)
    ensures
        single(input, r, in_set(S::slice_tokens(set), want), kind),
{
    match input.next_token() {
        Some((rest, t)) => if contains(&input, set, t) == want {
            Ok((rest, t))
        } else {
            fail(input, kind)
        },
        None => if input.is_partial() {
            Err(ErrMode::Incomplete(Needed::Size(1)))
        } else {
            fail(input, kind)
        },
    }
}

/// One token that is in `set`.
pub fn one_of<S: Stream>(set: S::Slice, input: S) -> (r: IResult<S, S::Token>)
    ensures
        single(input, r, in_set(S::slice_tokens(set), true), ErrorKind::OneOf),
{
    single_in(input, set, true, ErrorKind::OneOf)
}

/// One token that is not in `set`.
pub fn none_of<S: Stream>(set: S::Slice, input: S) -> (r: IResult<S, S::Token>)
    ensures
        single(input, r, in_set(S::slice_tokens(set), false), ErrorKind::NoneOf),
{
    single_in(input, set, false, ErrorKind::NoneOf)
}

proof fn lemma_find_bound<T>(s: Seq<T>, p: Seq<T>, i: int)
    ensures
        find_from(s, p, i) matches Some(j) ==> i <= j && j + p.len() <= s.len(),
    decreases s.len() + 1 - i,
{
    if !(i < 0 || i + p.len() > s.len()) && !occurs_at(s, p, i) {
        lemma_find_bound(s, p, i + 1);
    }
}

} // verus!
