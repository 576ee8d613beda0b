//! Escape decoding: alternate a parser of normal text with a control char
//! followed by an escaped sequence.
//!
//! Both decoders walk the input in steps. A step is either a nonempty match
//! of the normal parser, or the control char (where the normal parser
//! backtracks) followed by a match of the escape parser. The contracts say
//! that the decoder took a chain of such steps from the start of the input,
//! and how the chain ended.
use crate::error::{ErrMode, Error, ErrorKind, IResult, Needed};
use crate::sequence::{advancing, fails_with, suffix_of, total, yields};
use crate::stream::{lemma_units_grow, lemma_units_len, lemma_units_split, units, Stream};
use vstd::prelude::*;

verus! {

/// `x1` is `x` without its first token.
pub open spec fn after_first<S: Stream>(x: S, x1: S) -> bool {
    &&& x.tokens().len() > 0
    &&& x1.tokens() == x.tokens().drop_first()
    &&& x1.partial() == x.partial()
}

/// The normal parser backtracks at `x`, and `x` starts with the control char.
pub open spec fn at_control<S: Stream, O1, F: Fn(S) -> IResult<S, O1>>(
    normal: F,
    ctrl: char,
    x: S,
) -> bool {
    &&& exists|e: Error<S>| fails_with(normal, x, ErrMode::Backtrack(e))
    &&& x.tokens().len() > 0
    &&& S::char_of(x.tokens()[0]) == ctrl
}

/// One step from `x` to `y`: a nonempty normal span, or
/// the control char and an escaped sequence; `y` is not empty.
pub open spec fn escape_step<S: Stream, O1, O2, F, G>(
    normal: F,
    ctrl: char,
    escapable: G,
    x: S,
    y: S,
) -> bool where F: Fn(S) -> IResult<S, O1>, G: Fn(S) -> IResult<S, O2> {
    &&& 0 < y.tokens().len() < x.tokens().len()
    &&& {
        ||| exists|o: O1| yields(normal, x, y, o)
        ||| at_control(normal, ctrl, x) && exists|x1: S, o: O2|
            after_first(x, x1) && yields(escapable, x1, y, o)
    }
}

/// `xs` is a chain of steps that starts at `input`.
pub open spec fn escape_trace<S: Stream, O1, O2, F, G>(
    normal: F,
    ctrl: char,
    escapable: G,
    input: S,
    xs: Seq<S>,
) -> bool where F: Fn(S) -> IResult<S, O1>, G: Fn(S) -> IResult<S, O2> {
    &&& xs.len() >= 1
    &&& xs[0] == input
    &&& forall|j: int|
        0 <= j < xs.len() - 1 ==> #[trigger] escape_step::<S, O1, O2, F, G>(
            normal,
            ctrl,
            escapable,
            xs[j],
            xs[j + 1],
        )
}

/// The normal parser matches at `x` without consuming anything.
pub open spec fn stalls<S: Stream, O1, F: Fn(S) -> IResult<S, O1>>(normal: F, x: S) -> bool {
    exists|y: S, o: O1| yields(normal, x, y, o) && y.tokens().len() == x.tokens().len()
}

/// The scan ends cleanly at `x`: the normal parser backtracks on a token that
/// is not the control char, or, in complete mode, matches nothing there.
pub open spec fn ends_clean<S: Stream, O1, F: Fn(S) -> IResult<S, O1>>(
    normal: F,
    ctrl: char,
    x: S,
) -> bool {
    &&& x.tokens().len() > 0
    &&& {
        ||| !x.partial() && stalls(normal, x)
        ||| exists|e: Error<S>|
            fails_with(normal, x, ErrMode::Backtrack(e)) && S::char_of(x.tokens()[0]) != ctrl
    }
}

/// The input runs out at `x`, or a step from `x` consumes all of it, or, in
/// streaming mode, the normal parser matches nothing at `x` (more input could
/// still extend it).
pub open spec fn runs_out<S: Stream, O1, O2, F, G>(normal: F, ctrl: char, escapable: G, x: S) -> bool where
    F: Fn(S) -> IResult<S, O1>,
    G: Fn(S) -> IResult<S, O2>,
 {
    ||| x.tokens().len() == 0
    ||| x.tokens().len() > 0 && x.partial() && stalls(normal, x)
    ||| x.tokens().len() > 0 && exists|y: S, o: O1| yields(normal, x, y, o) && y.tokens().len() == 0
    ||| at_control(normal, ctrl, x) && x.tokens().len() > 1 && exists|x1: S, y: S, o: O2|
        after_first(x, x1) && yields(escapable, x1, y, o) && y.tokens().len() == 0
}

/// `x` is the control char alone.
pub open spec fn dangles<S: Stream, O1, F: Fn(S) -> IResult<S, O1>>(
    normal: F,
    ctrl: char,
    x: S,
) -> bool {
    at_control(normal, ctrl, x) && x.tokens().len() == 1
}

/// A parser stops the scan at `x` with `e`.
pub open spec fn breaks_with<S: Stream, O1, O2, F, G>(
    normal: F,
    ctrl: char,
    escapable: G,
    x: S,
    e: ErrMode<Error<S>>,
) -> bool where F: Fn(S) -> IResult<S, O1>, G: Fn(S) -> IResult<S, O2> {
    ||| fails_with(normal, x, e) && !(e is Backtrack)
    ||| at_control(normal, ctrl, x) && x.tokens().len() > 1 && exists|x1: S|
        after_first(x, x1) && fails_with(escapable, x1, e)
}

/// `r` matches the input up to where `x` starts.
pub open spec fn split_before<S: Stream>(input: S, x: S, r: IResult<S, S::Slice>) -> bool {
    match r {
        Ok((rest, out)) => {
            &&& rest.tokens() == x.tokens()
            &&& rest.partial() == input.partial()
            &&& S::slice_tokens(out) == input.tokens().take(
                input.tokens().len() - x.tokens().len(),
            )
        },
        Err(_) => false,
    }
}

/// How a scan that reached `x` ends, as `r`.
pub open spec fn escape_end<S: Stream, O1, O2, F, G>(
    normal: F,
    ctrl: char,
    escapable: G,
    input: S,
    x: S,
    r: IResult<S, S::Slice>,
) -> bool where F: Fn(S) -> IResult<S, O1>, G: Fn(S) -> IResult<S, O2> {
    ||| ends_clean(normal, ctrl, x) && split_before(input, x, r)
    ||| runs_out(normal, ctrl, escapable, x) && if input.partial() {
        r == Err::<(S, S::Slice), ErrMode<Error<S>>>(ErrMode::Incomplete(Needed::Unknown))
    } else {
        r is Ok && r->Ok_0.0.tokens().len() == 0 && r->Ok_0.0.partial() == input.partial()
            && S::slice_tokens(r->Ok_0.1) == input.tokens()
    }
    ||| dangles(normal, ctrl, x) && if input.partial() {
        r == Err::<(S, S::Slice), ErrMode<Error<S>>>(ErrMode::Incomplete(Needed::Size(1)))
    } else {
        r == Err::<(S, S::Slice), ErrMode<Error<S>>>(
            ErrMode::Backtrack(Error { input, kind: ErrorKind::Escaped }),
        )
    }
    ||| r is Err && breaks_with(normal, ctrl, escapable, x, r->Err_0)
}

proof fn lemma_suffix_trans<S: Stream>(z: S, y: S, x: S)
    requires
        suffix_of(z, y),
        suffix_of(y, x),
    ensures
        suffix_of(z, x),
{
    let dx = x.tokens().len() - y.tokens().len();
    let dy = y.tokens().len() - z.tokens().len();
    assert(z.tokens() =~= x.tokens().skip(dx + dy));
}

/// Units tell a suffix's length: it is empty, or as long as the whole, exactly
/// when its units say so.
proof fn lemma_suffix_units<S: Stream>(y: S, x: S)
    requires
        suffix_of(y, x),
    ensures
        units::<S>(y.tokens()) <= units::<S>(x.tokens()),
        (units::<S>(y.tokens()) == units::<S>(x.tokens())) == (y.tokens().len()
            == x.tokens().len()),
        (units::<S>(y.tokens()) == 0) == (y.tokens().len() == 0),
{
    let d = x.tokens().len() - y.tokens().len();
    lemma_units_split::<S>(x.tokens(), d);
    assert(x.tokens().take(0) =~= Seq::<S::Token>::empty());
    if d > 0 {
        lemma_units_grow::<S>(x.tokens(), 0, d);
    }
    lemma_units_len::<S>(y.tokens());
    if y.tokens().len() == 0 {
        assert(units::<S>(y.tokens()) == 0);
    }
}

/// Splits `input` where its suffix `x` starts.
fn split_before_exec<S: Stream>(input: &S, x: &S) -> (r: IResult<S, S::Slice>)
    requires
        suffix_of(*x, *input),
    ensures
        split_before(*input, *x, r),
{
    let ghost k = input.tokens().len() - x.tokens().len();
    proof {
        lemma_units_split::<S>(input.tokens(), k);
    }
    let total_len = input.input_len();
    let left = x.input_len();
    let (_, out) = input.next_slice(total_len - left, Ghost(k));
    Ok((*x, out))
}

/// The whole of `input`, matched.
fn all_of<S: Stream>(input: &S) -> (r: IResult<S, S::Slice>)
    ensures
        r is Ok && r->Ok_0.0.tokens().len() == 0 && r->Ok_0.0.partial() == input.partial()
            && S::slice_tokens(r->Ok_0.1) == input.tokens(),
{
    let ghost k = input.tokens().len() as int;
    let total_len = input.input_len();
    assert(input.tokens().take(k) =~= input.tokens());
    let (rest, out) = input.next_slice(total_len, Ghost(k));
    Ok((rest, out))
}

/// What a scan that ran out of input returns.
fn ran_out<S: Stream>(input: &S) -> (r: IResult<S, S::Slice>)
    ensures
        if input.partial() {
            r == Err::<(S, S::Slice), ErrMode<Error<S>>>(ErrMode::Incomplete(Needed::Unknown))
        } else {
            r is Ok && r->Ok_0.0.tokens().len() == 0 && r->Ok_0.0.partial() == input.partial()
                && S::slice_tokens(r->Ok_0.1) == input.tokens()
        },
{
    if input.is_partial() {
        Err(ErrMode::Incomplete(Needed::Unknown))
    } else {
        all_of(input)
    }
}

/// Matches normal spans and escape sequences, in any order, and returns the
/// input they cover, escape sequences included.
///
/// `normal` must not match the control char. The scan stops cleanly where
/// `normal` backtracks on a token other than the control char. In streaming
/// mode, running out of input, or a normal match that consumes nothing, asks
/// for more; in complete mode both end the match.
pub fn escaped<S: Stream, O1, O2, F, G>(
    normal: F,
    control_char: char,
    escapable: G,
    input: S,
) -> (r: IResult<S, S::Slice>) where F: Fn(S) -> IResult<S, O1>, G: Fn(S) -> IResult<S, O2>
    requires
        total(normal),
        total(escapable),
        advancing(normal),
        advancing(escapable),
    ensures
        exists|xs: Seq<S>|
            escape_trace::<S, O1, O2, F, G>(normal, control_char, escapable, input, xs)
                && escape_end::<S, O1, O2, F, G>(
                normal,
                control_char,
                escapable,
                input,
                xs.last(),
                r,
            ),
{
    let mut i = input;
    let ghost mut xs: Seq<S> = seq![input];
    assert(input.tokens().skip(0) =~= input.tokens());
    loop
        invariant
            total(normal),
            total(escapable),
            advancing(normal),
            advancing(escapable),
            escape_trace::<S, O1, O2, F, G>(normal, control_char, escapable, input, xs),
            xs.last() == i,
            suffix_of(i, input),
        decreases i.tokens().len(),
    {
        let current_len = i.input_len();
        proof {
            lemma_suffix_units(i, i);
            assert(i.tokens().skip(0) =~= i.tokens());
        }
        if current_len == 0 {
            let r = ran_out(&input);
            assert(runs_out::<S, O1, O2, F, G>(normal, control_char, escapable, i));
            assert(escape_end::<S, O1, O2, F, G>(normal, control_char, escapable, input, i, r));
            return r;
        }
        match normal(i) {
            Ok((i2, o)) => {
                assert(yields(normal, i, i2, o));
                proof {
                    lemma_suffix_units(i2, i);
                }
                let l2 = i2.input_len();
                if l2 == 0 {
                    let r = ran_out(&input);
                    assert(runs_out::<S, O1, O2, F, G>(normal, control_char, escapable, i));
                    assert(escape_end::<S, O1, O2, F, G>(
                        normal,
                        control_char,
                        escapable,
                        input,
                        i,
                        r,
                    ));
                    return r;
                } else if l2 == current_len {
                    assert(stalls(normal, i));
                    if input.is_partial() {
                        let r: IResult<S, S::Slice> = Err(ErrMode::Incomplete(Needed::Unknown));
                        assert(runs_out::<S, O1, O2, F, G>(normal, control_char, escapable, i));
                        assert(escape_end::<S, O1, O2, F, G>(
                            normal,
                            control_char,
                            escapable,
                            input,
                            i,
                            r,
                        ));
                        return r;
                    }
                    let r = split_before_exec(&input, &i);
                    assert(ends_clean(normal, control_char, i));
                    assert(escape_end::<S, O1, O2, F, G>(
                        normal,
                        control_char,
                        escapable,
                        input,
                        i,
                        r,
                    ));
                    return r;
                } else {
                    proof {
                        lemma_suffix_trans(i2, i, input);
                        assert(escape_step::<S, O1, O2, F, G>(
                            normal,
                            control_char,
                            escapable,
                            i,
                            i2,
                        ));
                        let old_xs = xs;
                        xs = xs.push(i2);
                        assert forall|j: int| 0 <= j < xs.len() - 1 implies #[trigger] escape_step::<
                            S,
                            O1,
                            O2,
                            F,
                            G,
                        >(normal, control_char, escapable, xs[j], xs[j + 1]) by {
                            if j < old_xs.len() - 1 {
                                assert(xs[j] == old_xs[j] && xs[j + 1] == old_xs[j + 1]);
                            }
                        }
                    }
                    i = i2;
                }
            },
            Err(ErrMode::Backtrack(e)) => {
                assert(fails_with(normal, i, ErrMode::Backtrack(e)));
                match i.next_token() {
                    None => {
                        return Err(ErrMode::Incomplete(Needed::Unknown));
                    },
                    Some((i1, t)) => {
                        if S::as_char(t) == control_char {
                            assert(at_control(normal, control_char, i));
                            proof {
                                assert(i.tokens().drop_first() =~= i.tokens().skip(1));
                                lemma_suffix_units(i1, i);
                            }
                            if i1.input_len() == 0 {
                                let r: IResult<S, S::Slice> = if input.is_partial() {
                                    Err(ErrMode::Incomplete(Needed::Size(1)))
                                } else {
                                    Err(
                                        ErrMode::Backtrack(
                                            Error { input, kind: ErrorKind::Escaped },
                                        ),
                                    )
                                };
                                assert(dangles(normal, control_char, i));
                                assert(escape_end::<S, O1, O2, F, G>(
                                    normal,
                                    control_char,
                                    escapable,
                                    input,
                                    i,
                                    r,
                                ));
                                return r;
                            }
                            match escapable(i1) {
                                Ok((i2, o)) => {
                                    assert(yields(escapable, i1, i2, o));
                                    proof {
                                        lemma_suffix_units(i2, i1);
                                    }
                                    if i2.input_len() == 0 {
                                        let r = ran_out(&input);
                                        assert(runs_out::<S, O1, O2, F, G>(
                                            normal,
                                            control_char,
                                            escapable,
                                            i,
                                        ));
                                        assert(escape_end::<S, O1, O2, F, G>(
                                            normal,
                                            control_char,
                                            escapable,
                                            input,
                                            i,
                                            r,
                                        ));
                                        return r;
                                    }
                                    proof {
                                        lemma_suffix_trans(i1, i, input);
                                        lemma_suffix_trans(i2, i1, input);
                                        assert(escape_step::<S, O1, O2, F, G>(
                                            normal,
                                            control_char,
                                            escapable,
                                            i,
                                            i2,
                                        ));
                                        let old_xs = xs;
                                        xs = xs.push(i2);
                                        assert forall|j: int|
                                            0 <= j < xs.len()
                                                - 1 implies #[trigger] escape_step::<
                                            S,
                                            O1,
                                            O2,
                                            F,
                                            G,
                                        >(
                                            normal,
                                            control_char,
                                            escapable,
                                            xs[j],
                                            xs[j + 1],
                                        ) by {
                                            if j < old_xs.len() - 1 {
                                                assert(xs[j] == old_xs[j] && xs[j + 1]
                                                    == old_xs[j + 1]);
                                            }
                                        }
                                    }
                                    i = i2;
                                },
                                Err(e2) => {
                                    let r: IResult<S, S::Slice> = Err(e2);
                                    assert(after_first(i, i1) && fails_with(escapable, i1, e2));
                                    assert(i.tokens().len() > 1);
                                    assert(breaks_with::<S, O1, O2, F, G>(
                                        normal,
                                        control_char,
                                        escapable,
                                        i,
                                        e2,
                                    ));
                                    assert(escape_end::<S, O1, O2, F, G>(
                                        normal,
                                        control_char,
                                        escapable,
                                        input,
                                        i,
                                        r,
                                    ));
                                    return r;
                                },
                            }
                        } else {
                            let r = split_before_exec(&input, &i);
                            assert(ends_clean(normal, control_char, i));
                            assert(escape_end::<S, O1, O2, F, G>(
                                normal,
                                control_char,
                                escapable,
                                input,
                                i,
                                r,
                            ));
                            return r;
                        }
                    },
                }
            },
            Err(e) => {
                let r: IResult<S, S::Slice> = Err(e);
                assert(breaks_with::<S, O1, O2, F, G>(normal, control_char, escapable, i, e));
                assert(escape_end::<S, O1, O2, F, G>(normal, control_char, escapable, input, i, r));
                return r;
            },
        }
    }
}

/// The pieces, joined in order.
pub open spec fn joined<T>(ps: Seq<Seq<T>>) -> Seq<T>
    decreases ps.len(),
{
    if ps.len() == 0 {
        Seq::empty()
    } else {
        joined(ps.drop_last()) + ps.last()
    }
}

/// One step of a transforming scan from `x` to `y`, whose value is `piece`.
pub open spec fn transform_step<S: Stream, F, G>(
    normal: F,
    ctrl: char,
    transform: G,
    x: S,
    y: S,
    piece: Seq<S::Token>,
) -> bool where F: Fn(S) -> IResult<S, S::Slice>, G: Fn(S) -> IResult<S, S::Slice> {
    &&& 0 < y.tokens().len() < x.tokens().len()
    &&& {
        ||| exists|o: S::Slice| yields(normal, x, y, o) && S::slice_tokens(o) == piece
        ||| at_control(normal, ctrl, x) && exists|x1: S, o: S::Slice|
            after_first(x, x1) && yields(transform, x1, y, o) && S::slice_tokens(o) == piece
    }
}

/// `xs` is a chain of transforming steps from `input`, with values `ps`.
pub open spec fn transform_trace<S: Stream, F, G>(
    normal: F,
    ctrl: char,
    transform: G,
    input: S,
    xs: Seq<S>,
    ps: Seq<Seq<S::Token>>,
) -> bool where F: Fn(S) -> IResult<S, S::Slice>, G: Fn(S) -> IResult<S, S::Slice> {
    &&& xs.len() >= 1
    &&& ps.len() == xs.len() - 1
    &&& xs[0] == input
    &&& forall|j: int|
        0 <= j < xs.len() - 1 ==> #[trigger] transform_step(
            normal,
            ctrl,
            transform,
            xs[j],
            xs[j + 1],
            ps[j],
        )
}

/// `r` holds `out` and what remains where the input ran out.
pub open spec fn done_with<S: Stream>(
    input: S,
    r: IResult<S, Vec<S::Token>>,
    out: Seq<S::Token>,
) -> bool {
    if input.partial() {
        r == Err::<(S, Vec<S::Token>), ErrMode<Error<S>>>(ErrMode::Incomplete(Needed::Unknown))
    } else {
        &&& r is Ok
        &&& r->Ok_0.0.tokens().len() == 0
        &&& r->Ok_0.0.partial() == input.partial()
        &&& r->Ok_0.1@ == out
    }
}

/// `r` holds `out` and leaves `x`.
pub open spec fn stopped_at<S: Stream>(x: S, r: IResult<S, Vec<S::Token>>, out: Seq<S::Token>) -> bool {
    &&& r is Ok
    &&& r->Ok_0.0 == x
    &&& r->Ok_0.1@ == out
}

/// How a transforming scan that reached `x` with output `acc` ends, as `r`.
pub open spec fn transform_end<S: Stream, F, G>(
    normal: F,
    ctrl: char,
    transform: G,
    input: S,
    x: S,
    acc: Seq<S::Token>,
    r: IResult<S, Vec<S::Token>>,
) -> bool where F: Fn(S) -> IResult<S, S::Slice>, G: Fn(S) -> IResult<S, S::Slice> {
    ||| x.tokens().len() > 0 && exists|y: S, o: S::Slice|
        yields(normal, x, y, o) && y.tokens().len() == x.tokens().len() && if input.partial() {
            r == Err::<(S, Vec<S::Token>), ErrMode<Error<S>>>(ErrMode::Incomplete(Needed::Unknown))
        } else {
            stopped_at(x, r, acc + S::slice_tokens(o))
        }
    ||| x.tokens().len() > 0 && (exists|e: Error<S>|
        fails_with(normal, x, ErrMode::Backtrack(e))) && S::char_of(x.tokens()[0]) != ctrl
        && stopped_at(x, r, acc)
    ||| x.tokens().len() == 0 && done_with(input, r, acc)
    ||| x.tokens().len() > 0 && exists|y: S, o: S::Slice|
        yields(normal, x, y, o) && y.tokens().len() == 0 && done_with(
            input,
            r,
            acc + S::slice_tokens(o),
        )
    ||| at_control(normal, ctrl, x) && x.tokens().len() > 1 && exists|x1: S, y: S, o: S::Slice|
        after_first(x, x1) && yields(transform, x1, y, o) && y.tokens().len() == 0 && done_with(
            input,
            r,
            acc + S::slice_tokens(o),
        )
    ||| dangles(normal, ctrl, x) && if input.partial() {
        r == Err::<(S, Vec<S::Token>), ErrMode<Error<S>>>(ErrMode::Incomplete(Needed::Size(1)))
    } else {
        r == Err::<(S, Vec<S::Token>), ErrMode<Error<S>>>(
            ErrMode::Backtrack(Error { input, kind: ErrorKind::Escaped }),
        )
    }
    ||| r is Err && breaks_with(normal, ctrl, transform, x, r->Err_0)
}

fn finish<S: Stream>(input: &S, rest: S, res: Vec<S::Token>) -> (r: IResult<S, Vec<S::Token>>)
    requires
        rest.tokens().len() == 0,
        rest.partial() == input.partial(),
    ensures
        done_with(*input, r, res@),
{
    if input.is_partial() {
        Err(ErrMode::Incomplete(Needed::Unknown))
    } else {
        Ok((rest, res))
    }
}

/// As `escaped`, but returns the decoded text: the values of the normal spans
/// and of the escape sequences, joined in order, with the control chars
/// dropped.
pub fn escaped_transform<S: Stream, F, G>(
    normal: F,
    control_char: char,
    transform: G,
    input: S,
) -> (r: IResult<S, Vec<S::Token>>) where
    F: Fn(S) -> IResult<S, S::Slice>,
    G: Fn(S) -> IResult<S, S::Slice>,

    requires
        total(normal),
        total(transform),
        advancing(normal),
        advancing(transform),
    ensures
        exists|xs: Seq<S>, ps: Seq<Seq<S::Token>>|
            transform_trace(normal, control_char, transform, input, xs, ps) && transform_end(
                normal,
                control_char,
                transform,
                input,
                xs.last(),
                joined(ps),
                r,
            ),
{
    let mut i = input;
    let mut res: Vec<S::Token> = Vec::new();
    let ghost mut xs: Seq<S> = seq![input];
    let ghost mut ps: Seq<Seq<S::Token>> = Seq::empty();
    assert(input.tokens().skip(0) =~= input.tokens());
    assert(res@ =~= joined(ps));
    loop
        invariant
            total(normal),
            total(transform),
            advancing(normal),
            advancing(transform),
            transform_trace(normal, control_char, transform, input, xs, ps),
            xs.last() == i,
            suffix_of(i, input),
            res@ == joined(ps),
        decreases i.tokens().len(),
    {
        let current_len = i.input_len();
        proof {
            lemma_suffix_units(i, i);
            assert(i.tokens().skip(0) =~= i.tokens());
        }
        if current_len == 0 {
            let r = finish(&input, i, res);
            assert(transform_end(normal, control_char, transform, input, i, joined(ps), r));
            return r;
        }
        match normal(i) {
            Ok((i2, o)) => {
                assert(yields(normal, i, i2, o));
                proof {
                    lemma_suffix_units(i2, i);
                }
                let ghost before = res@;
                S::push_slice(o, &mut res);
                let l2 = i2.input_len();
                if l2 == 0 {
                    let r = finish(&input, i2, res);
                    assert(transform_end(normal, control_char, transform, input, i, before, r));
                    return r;
                } else if l2 == current_len {
                    if input.is_partial() {
                        let r: IResult<S, Vec<S::Token>> = Err(
                            ErrMode::Incomplete(Needed::Unknown),
                        );
                        assert(transform_end(
                            normal,
                            control_char,
                            transform,
                            input,
                            i,
                            before,
                            r,
                        ));
                        return r;
                    }
                    let r: IResult<S, Vec<S::Token>> = Ok((i, res));
                    assert(stopped_at(i, r, before + S::slice_tokens(o)));
                    assert(transform_end(normal, control_char, transform, input, i, before, r));
                    return r;
                } else {
                    proof {
                        lemma_suffix_trans(i2, i, input);
                        let piece = S::slice_tokens(o);
                        assert(transform_step(normal, control_char, transform, i, i2, piece));
                        let old_xs = xs;
                        let old_ps = ps;
                        xs = xs.push(i2);
                        ps = ps.push(piece);
                        assert(ps.drop_last() =~= old_ps);
                        assert forall|j: int| 0 <= j < xs.len() - 1 implies #[trigger] transform_step(
                            normal,
                            control_char,
                            transform,
                            xs[j],
                            xs[j + 1],
                            ps[j],
                        ) by {
                            if j < old_xs.len() - 1 {
                                assert(xs[j] == old_xs[j] && xs[j + 1] == old_xs[j + 1] && ps[j]
                                    == old_ps[j]);
                            }
                        }
                    }
                    i = i2;
                }
            },
            Err(ErrMode::Backtrack(e)) => {
                assert(fails_with(normal, i, ErrMode::Backtrack(e)));
                match i.next_token() {
                    None => {
                        return Err(ErrMode::Incomplete(Needed::Unknown));
                    },
                    Some((i1, t)) => {
                        if S::as_char(t) == control_char {
                            assert(at_control(normal, control_char, i));
                            proof {
                                assert(i.tokens().drop_first() =~= i.tokens().skip(1));
                                lemma_suffix_units(i1, i);
                            }
                            if i1.input_len() == 0 {
                                let r: IResult<S, Vec<S::Token>> = if input.is_partial() {
                                    Err(ErrMode::Incomplete(Needed::Size(1)))
                                } else {
                                    Err(
                                        ErrMode::Backtrack(
                                            Error { input, kind: ErrorKind::Escaped },
                                        ),
                                    )
                                };
                                assert(dangles(normal, control_char, i));
                                assert(transform_end(
                                    normal,
                                    control_char,
                                    transform,
                                    input,
                                    i,
                                    joined(ps),
                                    r,
                                ));
                                return r;
                            }
                            match transform(i1) {
                                Ok((i2, o)) => {
                                    assert(yields(transform, i1, i2, o));
                                    assert(after_first(i, i1));
                                    proof {
                                        lemma_suffix_units(i2, i1);
                                    }
                                    let ghost before = res@;
                                    S::push_slice(o, &mut res);
                                    if i2.input_len() == 0 {
                                        let r = finish(&input, i2, res);
                                        assert(transform_end(
                                            normal,
                                            control_char,
                                            transform,
                                            input,
                                            i,
                                            before,
                                            r,
                                        ));
                                        return r;
                                    }
                                    proof {
                                        lemma_suffix_trans(i1, i, input);
                                        lemma_suffix_trans(i2, i1, input);
                                        let piece = S::slice_tokens(o);
                                        assert(transform_step(
                                            normal,
                                            control_char,
                                            transform,
                                            i,
                                            i2,
                                            piece,
                                        ));
                                        let old_xs = xs;
                                        let old_ps = ps;
                                        xs = xs.push(i2);
                                        ps = ps.push(piece);
                                        assert(ps.drop_last() =~= old_ps);
                                        assert forall|j: int|
                                            0 <= j < xs.len()
                                                - 1 implies #[trigger] transform_step(
                                            normal,
                                            control_char,
                                            transform,
                                            xs[j],
                                            xs[j + 1],
                                            ps[j],
                                        ) by {
                                            if j < old_xs.len() - 1 {
                                                assert(xs[j] == old_xs[j] && xs[j + 1]
                                                    == old_xs[j + 1] && ps[j] == old_ps[j]);
                                            }
                                        }
                                    }
                                    i = i2;
                                },
                                Err(e2) => {
                                    let r: IResult<S, Vec<S::Token>> = Err(e2);
                                    assert(after_first(i, i1) && fails_with(transform, i1, e2));
                                    assert(i.tokens().len() > 1);
                                    assert(breaks_with(normal, control_char, transform, i, e2));
                                    assert(transform_end(
                                        normal,
                                        control_char,
                                        transform,
                                        input,
                                        i,
                                        joined(ps),
                                        r,
                                    ));
                                    return r;
                                },
                            }
                        } else {
                            let r: IResult<S, Vec<S::Token>> = Ok((i, res));
                            assert(stopped_at(i, r, joined(ps)));
                            assert(transform_end(
                                normal,
                                control_char,
                                transform,
                                input,
                                i,
                                joined(ps),
                                r,
                            ));
                            return r;
                        }
                    },
                }
            },
            Err(e) => {
                let r: IResult<S, Vec<S::Token>> = Err(e);
                assert(breaks_with(normal, control_char, transform, i, e));
                assert(transform_end(normal, control_char, transform, input, i, joined(ps), r));
                return r;
            },
        }
    }
}

/// `a` and `b` hold the same tokens, in the same mode.
pub open spec fn same_view<S: Stream>(a: S, b: S) -> bool {
    a.tokens() == b.tokens() && a.partial() == b.partial()
}

/// `f`'s outcome depends only on the tokens and mode of its input: on two
/// such inputs it matches on both, leaving the same tokens, or fails on both,
/// backtracking on both or on neither.
pub open spec fn view_pure<S: Stream, O, F: Fn(S) -> IResult<S, O>>(f: F) -> bool {
    forall|x1: S, x2: S, r1: IResult<S, O>, r2: IResult<S, O>|
        #![trigger f.ensures((x1,), r1), f.ensures((x2,), r2)]
        f.ensures((x1,), r1) && f.ensures((x2,), r2) && same_view(x1, x2) ==> {
            &&& (r1 is Ok <==> r2 is Ok)
            &&& r1 is Ok && r2 is Ok ==> r1->Ok_0.0.tokens() == r2->Ok_0.0.tokens()
            &&& r1 is Err && r2 is Err ==> (r1->Err_0 is Backtrack <==> r2->Err_0 is Backtrack)
        }
}

/// The scan cannot step on from `x`.
pub open spec fn escape_stop<S: Stream, O1, O2, F, G>(normal: F, ctrl: char, escapable: G, x: S) -> bool where
    F: Fn(S) -> IResult<S, O1>,
    G: Fn(S) -> IResult<S, O2>,
 {
    ||| ends_clean(normal, ctrl, x)
    ||| runs_out(normal, ctrl, escapable, x)
    ||| dangles(normal, ctrl, x)
    ||| exists|e: ErrMode<Error<S>>| breaks_with(normal, ctrl, escapable, x, e)
}

/// Two steps from inputs with the same view reach the same view.
proof fn lemma_steps_agree<S: Stream, O1, O2, F, G>(
    normal: F,
    ctrl: char,
    escapable: G,
    x: S,
    y: S,
    x2: S,
    y2: S,
) where F: Fn(S) -> IResult<S, O1>, G: Fn(S) -> IResult<S, O2>
    requires
        view_pure(normal),
        view_pure(escapable),
        advancing(normal),
        advancing(escapable),
        same_view(x, x2),
        escape_step::<S, O1, O2, F, G>(normal, ctrl, escapable, x, y),
        escape_step::<S, O1, O2, F, G>(normal, ctrl, escapable, x2, y2),
    ensures
        same_view(y, y2),
{
    if exists|o: O1| yields(normal, x, y, o) {
        let o = choose|o: O1| yields(normal, x, y, o);
        assert(suffix_of(y, x));
        if exists|o2: O1| yields(normal, x2, y2, o2) {
            let o2 = choose|o2: O1| yields(normal, x2, y2, o2);
            assert(suffix_of(y2, x2));
        } else {
            let e2 = choose|e: Error<S>| fails_with(normal, x2, ErrMode::Backtrack(e));
            assert(fails_with(normal, x2, ErrMode::Backtrack(e2)));
        }
    } else {
        let e = choose|e: Error<S>| fails_with(normal, x, ErrMode::Backtrack(e));
        assert(fails_with(normal, x, ErrMode::Backtrack(e)));
        let (x1, o) = choose|x1: S, o: O2| after_first(x, x1) && yields(escapable, x1, y, o);
        assert(suffix_of(y, x1));
        if exists|o2: O1| yields(normal, x2, y2, o2) {
            let o2 = choose|o2: O1| yields(normal, x2, y2, o2);
            assert(yields(normal, x2, y2, o2));
        } else {
            let (x12, o2) = choose|x1: S, o: O2|
                after_first(x2, x1) && yields(escapable, x1, y2, o);
            assert(suffix_of(y2, x12));
            assert(same_view(x1, x12));
        }
    }
}

/// A scan that stops at `x` cannot step from an input with the same view.
proof fn lemma_stop_blocks_step<S: Stream, O1, O2, F, G>(
    normal: F,
    ctrl: char,
    escapable: G,
    x: S,
    x2: S,
    y2: S,
) where F: Fn(S) -> IResult<S, O1>, G: Fn(S) -> IResult<S, O2>
    requires
        view_pure(normal),
        view_pure(escapable),
        advancing(escapable),
        same_view(x, x2),
        escape_stop::<S, O1, O2, F, G>(normal, ctrl, escapable, x),
    ensures
        !escape_step::<S, O1, O2, F, G>(normal, ctrl, escapable, x2, y2),
{
    if !escape_step::<S, O1, O2, F, G>(normal, ctrl, escapable, x2, y2) {
        return;
    }
    if exists|o2: O1| yields(normal, x2, y2, o2) {
        let o2 = choose|o2: O1| yields(normal, x2, y2, o2);
        assert(yields(normal, x2, y2, o2));
        if exists|y: S, o: O1| yields(normal, x, y, o) && y.tokens().len() == x.tokens().len() {
            let (y, o) = choose|y: S, o: O1|
                yields(normal, x, y, o) && y.tokens().len() == x.tokens().len();
            assert(yields(normal, x, y, o));
        } else if exists|y: S, o: O1| yields(normal, x, y, o) && y.tokens().len() == 0 {
            let (y, o) = choose|y: S, o: O1| yields(normal, x, y, o) && y.tokens().len() == 0;
            assert(yields(normal, x, y, o));
        } else if exists|e: Error<S>| fails_with(normal, x, ErrMode::Backtrack(e)) {
            let e = choose|e: Error<S>| fails_with(normal, x, ErrMode::Backtrack(e));
            assert(fails_with(normal, x, ErrMode::Backtrack(e)));
        } else if exists|e: ErrMode<Error<S>>| breaks_with(normal, ctrl, escapable, x, e) {
            let e = choose|e: ErrMode<Error<S>>| breaks_with(normal, ctrl, escapable, x, e);
            assert(fails_with(normal, x, e));
        }
    } else {
        let e2 = choose|e: Error<S>| fails_with(normal, x2, ErrMode::Backtrack(e));
        assert(fails_with(normal, x2, ErrMode::Backtrack(e2)));
        let (x12, o2) = choose|x1: S, o: O2| after_first(x2, x1) && yields(escapable, x1, y2, o);
        assert(yields(escapable, x12, y2, o2));
        assert(suffix_of(y2, x12));
        if exists|y: S, o: O1| yields(normal, x, y, o) {
            let (y, o) = choose|y: S, o: O1| yields(normal, x, y, o);
            assert(yields(normal, x, y, o));
        } else if exists|x1: S, y: S, o: O2|
            after_first(x, x1) && yields(escapable, x1, y, o) && y.tokens().len() == 0 {
            let (x1, y, o) = choose|x1: S, y: S, o: O2|
                after_first(x, x1) && yields(escapable, x1, y, o) && y.tokens().len() == 0;
            assert(same_view(x1, x12));
            assert(yields(escapable, x1, y, o));
        } else if exists|e: ErrMode<Error<S>>| breaks_with(normal, ctrl, escapable, x, e) {
            let e = choose|e: ErrMode<Error<S>>| breaks_with(normal, ctrl, escapable, x, e);
            if fails_with(normal, x, e) && !(e is Backtrack) {
                assert(fails_with(normal, x, e));
            } else {
                let x1 = choose|x1: S| after_first(x, x1) && fails_with(escapable, x1, e);
                assert(same_view(x1, x12));
                assert(fails_with(escapable, x1, e));
            }
        }
    }
}

proof fn lemma_traces_agree<S: Stream, O1, O2, F, G>(
    normal: F,
    ctrl: char,
    escapable: G,
    input: S,
    xs: Seq<S>,
    ys: Seq<S>,
    j: int,
) where F: Fn(S) -> IResult<S, O1>, G: Fn(S) -> IResult<S, O2>
    requires
        view_pure(normal),
        view_pure(escapable),
        advancing(normal),
        advancing(escapable),
        escape_trace::<S, O1, O2, F, G>(normal, ctrl, escapable, input, xs),
        escape_trace::<S, O1, O2, F, G>(normal, ctrl, escapable, input, ys),
        0 <= j < xs.len(),
        j < ys.len(),
    ensures
        forall|k: int| 0 <= k <= j ==> same_view(#[trigger] xs[k], ys[k]),
    decreases j,
{
    if j > 0 {
        lemma_traces_agree::<S, O1, O2, F, G>(normal, ctrl, escapable, input, xs, ys, j - 1);
        let k = j - 1;
        assert(escape_step::<S, O1, O2, F, G>(normal, ctrl, escapable, xs[k], xs[k + 1]));
        assert(escape_step::<S, O1, O2, F, G>(normal, ctrl, escapable, ys[k], ys[k + 1]));
        lemma_steps_agree::<S, O1, O2, F, G>(
            normal,
            ctrl,
            escapable,
            xs[j - 1],
            xs[j],
            ys[j - 1],
            ys[j],
        );
    }
}

/// Scans come out the same: with parsers whose outcome depends only on the
/// tokens they are given, two scans of one input that both stop visit
/// inputs with the same tokens at every step, so they split the input at the
/// same boundaries.
pub proof fn escape_scan_unique<S: Stream, O1, O2, F, G>(
    normal: F,
    ctrl: char,
    escapable: G,
    input: S,
    xs: Seq<S>,
    ys: Seq<S>,
) where F: Fn(S) -> IResult<S, O1>, G: Fn(S) -> IResult<S, O2>
    requires
        view_pure(normal),
        view_pure(escapable),
        advancing(normal),
        advancing(escapable),
        escape_trace::<S, O1, O2, F, G>(normal, ctrl, escapable, input, xs),
        escape_trace::<S, O1, O2, F, G>(normal, ctrl, escapable, input, ys),
        escape_stop::<S, O1, O2, F, G>(normal, ctrl, escapable, xs.last()),
        escape_stop::<S, O1, O2, F, G>(normal, ctrl, escapable, ys.last()),
    ensures
        xs.len() == ys.len(),
        forall|j: int| 0 <= j < xs.len() ==> same_view(#[trigger] xs[j], ys[j]),
{
    let j = if xs.len() < ys.len() {
        xs.len() - 1
    } else {
        ys.len() - 1
    };
    lemma_traces_agree::<S, O1, O2, F, G>(normal, ctrl, escapable, input, xs, ys, j);
    if xs.len() < ys.len() {
        lemma_stop_blocks_step::<S, O1, O2, F, G>(
            normal,
            ctrl,
            escapable,
            xs[j],
            ys[j],
            ys[j + 1],
        );
    } else if ys.len() < xs.len() {
        assert(same_view(ys[j], xs[j]));
        lemma_stop_blocks_step::<S, O1, O2, F, G>(
            normal,
            ctrl,
            escapable,
            ys[j],
            xs[j],
            xs[j + 1],
        );
    }
}

proof fn lemma_end_stops<S: Stream, O1, O2, F, G>(
    normal: F,
    ctrl: char,
    escapable: G,
    input: S,
    x: S,
    r: IResult<S, S::Slice>,
) where F: Fn(S) -> IResult<S, O1>, G: Fn(S) -> IResult<S, O2>
    requires
        escape_end::<S, O1, O2, F, G>(normal, ctrl, escapable, input, x, r),
    ensures
        escape_stop::<S, O1, O2, F, G>(normal, ctrl, escapable, x),
{
    if r is Err && breaks_with(normal, ctrl, escapable, x, r->Err_0) {
        assert(breaks_with(normal, ctrl, escapable, x, r->Err_0));
    }
}

proof fn lemma_transform_is_escape<S: Stream, F, G>(
    normal: F,
    ctrl: char,
    transform: G,
    input: S,
    xs: Seq<S>,
    ps: Seq<Seq<S::Token>>,
    r: IResult<S, Vec<S::Token>>,
) where F: Fn(S) -> IResult<S, S::Slice>, G: Fn(S) -> IResult<S, S::Slice>
    requires
        transform_trace(normal, ctrl, transform, input, xs, ps),
        transform_end(normal, ctrl, transform, input, xs.last(), joined(ps), r),
    ensures
        escape_trace::<S, S::Slice, S::Slice, F, G>(normal, ctrl, transform, input, xs),
        escape_stop::<S, S::Slice, S::Slice, F, G>(normal, ctrl, transform, xs.last()),
{
    assert forall|j: int| 0 <= j < xs.len() - 1 implies #[trigger] escape_step::<
        S,
        S::Slice,
        S::Slice,
        F,
        G,
    >(normal, ctrl, transform, xs[j], xs[j + 1]) by {
        assert(transform_step(normal, ctrl, transform, xs[j], xs[j + 1], ps[j]));
    }
    let x = xs.last();
    if r is Err && breaks_with(normal, ctrl, transform, x, r->Err_0) {
        assert(breaks_with(normal, ctrl, transform, x, r->Err_0));
    }
}

/// Decoding with a transform splits the input where plain escape matching
/// does: where `escaped` (its chain `xs`, its result `r1`) and
/// `escaped_transform` (its chain `ys` with values `ps`, its result `r2`)
/// scan one input with the same parsers, whose outcome depends only on the
/// tokens they are given, both chains visit the same inputs, step by step,
/// and so end at the same boundary.
pub proof fn escaped_transform_rescan_law<S: Stream, F, G>(
    normal: F,
    ctrl: char,
    transform: G,
    input: S,
    xs: Seq<S>,
    r1: IResult<S, S::Slice>,
    ys: Seq<S>,
    ps: Seq<Seq<S::Token>>,
    r2: IResult<S, Vec<S::Token>>,
) where F: Fn(S) -> IResult<S, S::Slice>, G: Fn(S) -> IResult<S, S::Slice>
    requires
        view_pure(normal),
        view_pure(transform),
        advancing(normal),
        advancing(transform),
        escape_trace::<S, S::Slice, S::Slice, F, G>(normal, ctrl, transform, input, xs),
        escape_end::<S, S::Slice, S::Slice, F, G>(normal, ctrl, transform, input, xs.last(), r1),
        transform_trace(normal, ctrl, transform, input, ys, ps),
        transform_end(normal, ctrl, transform, input, ys.last(), joined(ps), r2),
    ensures
        xs.len() == ys.len(),
        forall|j: int| 0 <= j < xs.len() ==> same_view(#[trigger] xs[j], ys[j]),
        same_view(xs.last(), ys.last()),
{
    lemma_end_stops::<S, S::Slice, S::Slice, F, G>(normal, ctrl, transform, input, xs.last(), r1);
    lemma_transform_is_escape(normal, ctrl, transform, input, ys, ps, r2);
    escape_scan_unique::<S, S::Slice, S::Slice, F, G>(normal, ctrl, transform, input, xs, ys);
    assert(same_view(xs[xs.len() - 1], ys[ys.len() - 1]));
}

/// Scanning twice gives the same split: two runs of `escaped` on one input,
/// with parsers whose outcome depends only on the tokens they are given, visit
/// the same inputs step by step.
pub proof fn escaped_rescan_law<S: Stream, O1, O2, F, G>(
    normal: F,
    ctrl: char,
    escapable: G,
    input: S,
    xs: Seq<S>,
    r1: IResult<S, S::Slice>,
    ys: Seq<S>,
    r2: IResult<S, S::Slice>,
) where F: Fn(S) -> IResult<S, O1>, G: Fn(S) -> IResult<S, O2>
    requires
        view_pure(normal),
        view_pure(escapable),
        advancing(normal),
        advancing(escapable),
        escape_trace::<S, O1, O2, F, G>(normal, ctrl, escapable, input, xs),
        escape_end::<S, O1, O2, F, G>(normal, ctrl, escapable, input, xs.last(), r1),
        escape_trace::<S, O1, O2, F, G>(normal, ctrl, escapable, input, ys),
        escape_end::<S, O1, O2, F, G>(normal, ctrl, escapable, input, ys.last(), r2),
    ensures
        xs.len() == ys.len(),
        forall|j: int| 0 <= j < xs.len() ==> same_view(#[trigger] xs[j], ys[j]),
{
    lemma_end_stops::<S, O1, O2, F, G>(normal, ctrl, escapable, input, xs.last(), r1);
    lemma_end_stops::<S, O1, O2, F, G>(normal, ctrl, escapable, input, ys.last(), r2);
    escape_scan_unique::<S, O1, O2, F, G>(normal, ctrl, escapable, input, xs, ys);
}

} // verus!
