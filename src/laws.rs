//! Properties that relate the matchers' verdicts across inputs.
use crate::bytes::{
    agree, compare_spec, find_from, lead, lemma_lead, lemma_lead_bounds, occurs_at,
    span1_verdict, span_m_n_verdict, span_verdict, tag_verdict, take_verdict, token_agrees,
    until_verdict, CompareResult, Verdict,
};
use crate::error::{ErrorKind, Needed};
use crate::stream::{lemma_units_grow, units, Stream};
use vstd::prelude::*;

verus! {

/// A literal, in streaming mode, asks for exactly the units still missing
/// while the buffered input is a proper prefix of it, and fails as soon as
/// one buffered token differs from it, however short the input.
pub proof fn tag_prefix_law<S: Stream>(s: Seq<S::Token>, p: Seq<S::Token>)
    ensures
        s.len() < p.len() && s == p.take(s.len() as int) ==> {
            &&& units::<S>(s) < units::<S>(p)
            &&& tag_verdict::<S>(s, p, false, true) == Verdict::More(
                Needed::of(units::<S>(p) - units::<S>(s)),
            )
            &&& Needed::of(units::<S>(p) - units::<S>(s)) is Size
        },
        (exists|j: int| 0 <= j < s.len() && j < p.len() && s[j] != p[j]) ==> {
            &&& tag_verdict::<S>(s, p, false, true) == Verdict::Fail(ErrorKind::Tag)
            &&& tag_verdict::<S>(s, p, false, false) == Verdict::Fail(ErrorKind::Tag)
        },
        s.len() >= p.len() && s.take(p.len() as int) == p ==> tag_verdict::<S>(
            s,
            p,
            false,
            true,
        ) == Verdict::Take(p.len()),
{
    if s.len() < p.len() && s == p.take(s.len() as int) {
        assert(agree::<S>(s, p.take(s.len() as int), false));
        lemma_units_grow::<S>(p, s.len() as int, p.len() as int);
        assert(p.take(p.len() as int) =~= p);
    }
    if exists|j: int| 0 <= j < s.len() && j < p.len() && s[j] != p[j] {
        let j = choose|j: int| 0 <= j < s.len() && j < p.len() && s[j] != p[j];
        if s.len() >= p.len() {
            assert(s.take(p.len() as int)[j] == s[j]);
            assert(!token_agrees::<S>(s.take(p.len() as int)[j], p[j], false));
        } else {
            assert(p.take(s.len() as int)[j] == p[j]);
            assert(!token_agrees::<S>(s[j], p.take(s.len() as int)[j], false));
        }
    }
    if s.len() >= p.len() && s.take(p.len() as int) == p {
        assert(agree::<S>(s.take(p.len() as int), p, false));
    }
}

/// In streaming mode, a span whose predicate holds for every buffered token
/// asks for one more token instead of matching early; so does a span that
/// needs at least one token.
pub proof fn span_needs_more_law<T>(s: Seq<T>, keep: spec_fn(T) -> bool, kind: ErrorKind)
    requires
        forall|j: int| 0 <= j < s.len() ==> keep(#[trigger] s[j]),
    ensures
        span_verdict(s, keep, true) == Verdict::More(Needed::Size(1)),
        span1_verdict(s, keep, true, kind) == Verdict::More(Needed::Size(1)),
{
    lemma_lead(s, keep, s.len() as int);
}

/// A bounded span matches between `m` and `n` tokens; where the run of
/// tokens that satisfy the predicate has length `k` and is known to end (a
/// token stops it, or it already reaches `n`), it matches `min(k, n)` tokens
/// if `k >= m`. A run shorter than `m` fails where a token stops it, and asks
/// for more in streaming mode where the buffer ends first.
pub proof fn span_m_n_law<T>(s: Seq<T>, keep: spec_fn(T) -> bool, m: nat, n: nat, partial: bool)
    requires
        m <= n,
    ensures
        span_m_n_verdict(s, keep, m, n, partial) matches Verdict::Take(t) ==> m <= t <= n && t
            <= s.len(),
        ({
            let k = lead(s, keep);
            (k < s.len() || k >= n) && k >= m ==> span_m_n_verdict(s, keep, m, n, partial)
                == Verdict::Take(if k <= n { k } else { n })
        }),
        ({
            let k = lead(s, keep);
            k < m && k < s.len() ==> span_m_n_verdict(s, keep, m, n, partial) == Verdict::Fail(
                ErrorKind::TakeWhileMN,
            )
        }),
        ({
            let k = lead(s, keep);
            k < m && k == s.len() && partial ==> span_m_n_verdict(s, keep, m, n, partial) is More
        }),
{
    lemma_lead_bounds(s, keep);
}

/// Feeding a literal what it asked for: where the buffered input is a
/// proper prefix of the literal, appending the rest of the literal makes it
/// match, and appending a token that differs from the next one makes it fail.
pub proof fn tag_resume_law<S: Stream>(s: Seq<S::Token>, p: Seq<S::Token>, t: S::Token)
    requires
        tag_verdict::<S>(s, p, false, true) is More,
    ensures
        tag_verdict::<S>(s + p.skip(s.len() as int), p, false, true) == Verdict::Take(p.len()),
        t != p[s.len() as int] ==> tag_verdict::<S>(s.push(t), p, false, true) == Verdict::Fail(
            ErrorKind::Tag,
        ),
{
    assert(compare_spec::<S>(s, p, false) == CompareResult::Incomplete);
    assert(s =~= p.take(s.len() as int)) by {
        assert forall|j: int| 0 <= j < s.len() implies s[j] == p.take(s.len() as int)[j] by {
            assert(token_agrees::<S>(s[j], p.take(s.len() as int)[j], false));
        }
    }
    let full = s + p.skip(s.len() as int);
    assert(full =~= p);
    assert(full.take(p.len() as int) =~= p);
    tag_prefix_law::<S>(full, p);
    if t != p[s.len() as int] {
        let u = s.push(t);
        assert(u[s.len() as int] == t);
        tag_prefix_law::<S>(u, p);
    }
}

/// Feeding a fixed-length take: where it asked for more, any input that
/// holds at least `n` tokens makes it match exactly `n`.
pub proof fn take_resume_law<S: Stream>(s: Seq<S::Token>, extra: Seq<S::Token>, n: nat)
    requires
        take_verdict::<S>(s, n, true) is More,
        s.len() + extra.len() >= n,
    ensures
        take_verdict::<S>(s + extra, n, true) == Verdict::Take(n),
        take_verdict::<S>(s + extra, n, false) == Verdict::Take(n),
{
}

/// Feeding a span that asked for more: a token that ends the run makes it
/// match the whole run buffered so far.
pub proof fn span_resume_law<T>(s: Seq<T>, keep: spec_fn(T) -> bool, t: T, kind: ErrorKind)
    requires
        span_verdict(s, keep, true) is More,
        !keep(t),
    ensures
        span_verdict(s.push(t), keep, true) == Verdict::Take(s.len()),
        s.len() > 0 ==> span1_verdict(s.push(t), keep, true, kind) == Verdict::Take(s.len()),
{
    lemma_lead_bounds(s, keep);
    let u = s.push(t);
    assert forall|j: int| 0 <= j < s.len() implies keep(#[trigger] u[j]) by {
        assert(u[j] == s[j]);
    }
    assert(u[s.len() as int] == t);
    lemma_lead(u, keep, s.len() as int);
}

proof fn lemma_find_reaches<T>(s: Seq<T>, p: Seq<T>, i: int, k: int)
    requires
        0 <= i <= k,
        occurs_at(s, p, k),
    ensures
        find_from(s, p, i) matches Some(j) && i <= j <= k,
    decreases k - i,
{
    if !occurs_at(s, p, i) {
        lemma_find_reaches(s, p, i + 1, k);
    }
}

/// Feeding a delimiter search that asked for more: once the delimiter itself
/// is appended, the search matches, and what it takes is at most the input
/// buffered before.
pub proof fn until_resume_law<T>(s: Seq<T>, p: Seq<T>, nonempty: bool)
    requires
        until_verdict(s, p, nonempty, true) is More,
    ensures
        until_verdict(s + p, p, false, true) matches Verdict::Take(i) && i <= s.len(),
{
    let t = s + p;
    assert(t.subrange(s.len() as int, (s.len() + p.len()) as int) =~= p);
    lemma_find_reaches(t, p, 0, s.len() as int);
}

} // verus!
