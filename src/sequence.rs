//! Sequencing: run parsers left to right, threading the remaining input and
//! stopping at the first one that does not match.
//!
//! A parser is any `Fn(S) -> IResult<S, O>`. The combinators promise what
//! follows from the parsers' own contracts: each value they return was
//! returned by the parser that produced it, on the input the previous parser
//! left.
use crate::error::{ErrMode, Error, IResult};
use crate::stream::{lemma_units_split, Stream};
use vstd::prelude::*;

verus! {

/// `f` accepts every input.
pub open spec fn total<S, O, F: Fn(S) -> IResult<S, O>>(f: F) -> bool {
    forall|i: S| #[trigger] f.requires((i,))
}

/// `f`, run on `i`, may match, leave `rest` and produce `o`.
pub open spec fn yields<S, O, F: Fn(S) -> IResult<S, O>>(f: F, i: S, rest: S, o: O) -> bool {
    f.ensures((i,), Ok::<(S, O), ErrMode<Error<S>>>((rest, o)))
}

/// `f`, run on `i`, may stop with `e`.
pub open spec fn fails_with<S, O, F: Fn(S) -> IResult<S, O>>(
    f: F,
    i: S,
    e: ErrMode<Error<S>>,
) -> bool {
    f.ensures((i,), Err::<(S, O), ErrMode<Error<S>>>(e))
}

/// `rest` is what is left of `input` after some of its tokens were consumed.
pub open spec fn suffix_of<S: Stream>(rest: S, input: S) -> bool {
    &&& rest.tokens().len() <= input.tokens().len()
    &&& rest.tokens() == input.tokens().skip(input.tokens().len() - rest.tokens().len())
    &&& rest.partial() == input.partial()
}

/// Every match of `f` consumes a prefix of its input and returns the rest.
pub open spec fn advancing<S: Stream, O, F: Fn(S) -> IResult<S, O>>(f: F) -> bool {
    forall|i: S, rest: S, o: O| #[trigger] yields(f, i, rest, o) ==> suffix_of(rest, i)
}

/// Runs `first`, then `second` on what it left; returns both values.
pub fn pair<S, O1, O2, F, G>(first: F, second: G, input: S) -> (r: IResult<S, (O1, O2)>) where
    F: Fn(S) -> IResult<S, O1>,
    G: Fn(S) -> IResult<S, O2>,

    requires
        total(first),
        total(second),
    ensures
        r is Ok ==> exists|mid: S|
            yields(first, input, mid, r->Ok_0.1.0) && yields(second, mid, r->Ok_0.0, r->Ok_0.1.1),
        r is Err ==> fails_with(first, input, r->Err_0) || exists|mid: S, v: O1|
            yields(first, input, mid, v) && fails_with(second, mid, r->Err_0),
{
    match first(input) {
        Ok((mid, a)) => match second(mid) {
            Ok((rest, b)) => {
                assert(yields(first, input, mid, a) && yields(second, mid, rest, b));
                let res: IResult<S, (O1, O2)> = Ok((rest, (a, b)));
                assert(res->Ok_0.0 == rest && res->Ok_0.1.0 == a && res->Ok_0.1.1 == b);
                assert(exists|m: S| yields(first, input, m, a) && yields(second, m, rest, b));
                res
            },
            Err(e) => {
                assert(yields(first, input, mid, a) && fails_with(second, mid, e));
                Err(e)
            },
        },
        Err(e) => Err(e),
    }
}

/// Runs `first`, `sep` and `second` in turn; returns the values of `first`
/// and `second`.
pub fn separated_pair<S, O1, O2, O3, F, G, H>(first: F, sep: G, second: H, input: S) -> (r:
    IResult<S, (O1, O3)>) where
    F: Fn(S) -> IResult<S, O1>,
    G: Fn(S) -> IResult<S, O2>,
    H: Fn(S) -> IResult<S, O3>,

    requires
        total(first),
        total(sep),
        total(second),
    ensures
        r is Ok ==> exists|m1: S, m2: S, w: O2|
            yields(first, input, m1, r->Ok_0.1.0) && yields(sep, m1, m2, w) && yields(
                second,
                m2,
                r->Ok_0.0,
                r->Ok_0.1.1,
            ),
        r is Err ==> {
            ||| fails_with(first, input, r->Err_0)
            ||| exists|m1: S, v: O1| yields(first, input, m1, v) && fails_with(sep, m1, r->Err_0)
            ||| exists|m1: S, m2: S, v: O1, w: O2|
                yields(first, input, m1, v) && yields(sep, m1, m2, w) && fails_with(
                    second,
                    m2,
                    r->Err_0,
                )
        },
{
    match first(input) {
        Ok((m1, a)) => match sep(m1) {
            Ok((m2, b)) => match second(m2) {
                Ok((rest, c)) => {
                    assert(yields(first, input, m1, a) && yields(sep, m1, m2, b) && yields(
                        second,
                        m2,
                        rest,
                        c,
                    ));
                    Ok((rest, (a, c)))
                },
                Err(e) => {
                    assert(yields(first, input, m1, a) && yields(sep, m1, m2, b) && fails_with(
                        second,
                        m2,
                        e,
                    ));
                    Err(e)
                },
            },
            Err(e) => {
                assert(yields(first, input, m1, a) && fails_with(sep, m1, e));
                Err(e)
            },
        },
        Err(e) => Err(e),
    }
}

/// Runs `first`, then `second`; returns the value of `second`.
pub fn preceded<S, O1, O2, F, G>(first: F, second: G, input: S) -> (r: IResult<S, O2>) where
    F: Fn(S) -> IResult<S, O1>,
    G: Fn(S) -> IResult<S, O2>,

    requires
        total(first),
        total(second),
    ensures
        r is Ok ==> exists|mid: S, v: O1|
            yields(first, input, mid, v) && yields(second, mid, r->Ok_0.0, r->Ok_0.1),
        r is Err ==> fails_with(first, input, r->Err_0) || exists|mid: S, v: O1|
            yields(first, input, mid, v) && fails_with(second, mid, r->Err_0),
{
    match first(input) {
        Ok((mid, a)) => match second(mid) {
            Ok((rest, b)) => {
                assert(yields(first, input, mid, a) && yields(second, mid, rest, b));
                Ok((rest, b))
            },
            Err(e) => {
                assert(yields(first, input, mid, a) && fails_with(second, mid, e));
                Err(e)
            },
        },
        Err(e) => Err(e),
    }
}

/// Runs `first`, then `second`; returns the value of `first`.
pub fn terminated<S, O1, O2, F, G>(first: F, second: G, input: S) -> (r: IResult<S, O1>) where
    F: Fn(S) -> IResult<S, O1>,
    G: Fn(S) -> IResult<S, O2>,

    requires
        total(first),
        total(second),
    ensures
        r is Ok ==> exists|mid: S, w: O2|
            yields(first, input, mid, r->Ok_0.1) && yields(second, mid, r->Ok_0.0, w),
        r is Err ==> fails_with(first, input, r->Err_0) || exists|mid: S, v: O1|
            yields(first, input, mid, v) && fails_with(second, mid, r->Err_0),
{
    match first(input) {
        Ok((mid, a)) => match second(mid) {
            Ok((rest, b)) => {
                assert(yields(first, input, mid, a) && yields(second, mid, rest, b));
                let res: IResult<S, O1> = Ok((rest, a));
                assert(res->Ok_0.0 == rest && res->Ok_0.1 == a);
                assert(exists|m: S, w: O2| yields(first, input, m, a) && yields(second, m, rest, w));
                res
            },
            Err(e) => {
                assert(yields(first, input, mid, a) && fails_with(second, mid, e));
                Err(e)
            },
        },
        Err(e) => Err(e),
    }
}

/// Runs `first`, `second` and `third` in turn; returns the value of `second`.
pub fn delimited<S, O1, O2, O3, F, G, H>(first: F, second: G, third: H, input: S) -> (r: IResult<
    S,
    O2,
>) where
    F: Fn(S) -> IResult<S, O1>,
    G: Fn(S) -> IResult<S, O2>,
    H: Fn(S) -> IResult<S, O3>,

    requires
        total(first),
        total(second),
        total(third),
    ensures
        r is Ok ==> exists|m1: S, m2: S, v: O1, w: O3|
            yields(first, input, m1, v) && yields(second, m1, m2, r->Ok_0.1) && yields(
                third,
                m2,
                r->Ok_0.0,
                w,
            ),
        r is Err ==> {
            ||| fails_with(first, input, r->Err_0)
            ||| exists|m1: S, v: O1| yields(first, input, m1, v) && fails_with(second, m1, r->Err_0)
            ||| exists|m1: S, m2: S, v: O1, w: O2|
                yields(first, input, m1, v) && yields(second, m1, m2, w) && fails_with(
                    third,
                    m2,
                    r->Err_0,
                )
        },
{
    match first(input) {
        Ok((m1, a)) => match second(m1) {
            Ok((m2, b)) => match third(m2) {
                Ok((rest, c)) => {
                    assert(yields(first, input, m1, a) && yields(second, m1, m2, b) && yields(
                        third,
                        m2,
                        rest,
                        c,
                    ));
                    assert(exists|x1: S, x2: S, v: O1, w: O3|
                        yields(first, input, x1, v) && yields(second, x1, x2, b) && yields(
                            third,
                            x2,
                            rest,
                            w,
                        ));
                    let res: IResult<S, O2> = Ok((rest, b));
                    assert(res->Ok_0.0 == rest && res->Ok_0.1 == b);
                    res
                },
                Err(e) => {
                    assert(yields(first, input, m1, a) && yields(second, m1, m2, b) && fails_with(
                        third,
                        m2,
                        e,
                    ));
                    Err(e)
                },
            },
            Err(e) => {
                assert(yields(first, input, m1, a) && fails_with(second, m1, e));
                Err(e)
            },
        },
        Err(e) => Err(e),
    }
}

/// A fixed number of parsers, which `tuple` runs in turn.
pub trait Parsers<S, O> {
    /// Every parser accepts every input.
    spec fn ready(&self) -> bool;

    /// `r` is an outcome of running the parsers in turn on `input`.
    spec fn outcome(&self, input: S, r: IResult<S, O>) -> bool;

    fn parse_all(&self, input: S) -> (r: IResult<S, O>)
        requires
            self.ready(),
        ensures
            self.outcome(input, r),
    ;
}

impl<S> Parsers<S, ()> for () {
    open spec fn ready(&self) -> bool {
        true
    }

    open spec fn outcome(&self, input: S, r: IResult<S, ()>) -> bool {
        r == Ok::<(S, ()), ErrMode<Error<S>>>((input, ()))
    }

    fn parse_all(&self, input: S) -> (r: IResult<S, ()>) {
        Ok((input, ()))
    }
}

impl<S, O1, F: Fn(S) -> IResult<S, O1>> Parsers<S, (O1,)> for (F,) {
    open spec fn ready(&self) -> bool {
        total(self.0)
    }

    open spec fn outcome(&self, input: S, r: IResult<S, (O1,)>) -> bool {
        &&& r is Ok ==> yields(self.0, input, r->Ok_0.0, r->Ok_0.1.0)
        &&& r is Err ==> fails_with(self.0, input, r->Err_0)
    }

    fn parse_all(&self, input: S) -> (r: IResult<S, (O1,)>) {
        match (self.0)(input) {
            Ok((rest, a)) => {
                let res: IResult<S, (O1,)> = Ok((rest, (a,)));
                assert(res->Ok_0.0 == rest && res->Ok_0.1.0 == a);
                res
            },
            Err(e) => Err(e),
        }
    }
}

impl<S, O1, O2, F: Fn(S) -> IResult<S, O1>, G: Fn(S) -> IResult<S, O2>> Parsers<
    S,
    (O1, O2),
> for (F, G) {
    open spec fn ready(&self) -> bool {
        total(self.0) && total(self.1)
    }

    open spec fn outcome(&self, input: S, r: IResult<S, (O1, O2)>) -> bool {
        &&& r is Ok ==> exists|mid: S|
            yields(self.0, input, mid, r->Ok_0.1.0) && yields(self.1, mid, r->Ok_0.0, r->Ok_0.1.1)
        &&& r is Err ==> fails_with(self.0, input, r->Err_0) || exists|mid: S, v: O1|
            yields(self.0, input, mid, v) && fails_with(self.1, mid, r->Err_0)
    }

    fn parse_all(&self, input: S) -> (r: IResult<S, (O1, O2)>) {
        match (self.0)(input) {
            Ok((mid, a)) => match (self.1)(mid) {
                Ok((rest, b)) => {
                    let res: IResult<S, (O1, O2)> = Ok((rest, (a, b)));
                    assert(res->Ok_0.0 == rest && res->Ok_0.1.0 == a && res->Ok_0.1.1 == b);
                    assert(yields(self.0, input, mid, a) && yields(self.1, mid, rest, b));
                    res
                },
                Err(e) => {
                    assert(yields(self.0, input, mid, a) && fails_with(self.1, mid, e));
                    Err(e)
                },
            },
            Err(e) => Err(e),
        }
    }
}

impl<
    S,
    O1,
    O2,
    O3,
    F: Fn(S) -> IResult<S, O1>,
    G: Fn(S) -> IResult<S, O2>,
    H: Fn(S) -> IResult<S, O3>,
> Parsers<S, (O1, O2, O3)> for (F, G, H) {
    open spec fn ready(&self) -> bool {
        total(self.0) && total(self.1) && total(self.2)
    }

    open spec fn outcome(&self, input: S, r: IResult<S, (O1, O2, O3)>) -> bool {
        &&& r is Ok ==> exists|m1: S, m2: S|
            yields(self.0, input, m1, r->Ok_0.1.0) && yields(self.1, m1, m2, r->Ok_0.1.1) && yields(
                self.2,
                m2,
                r->Ok_0.0,
                r->Ok_0.1.2,
            )
        &&& r is Err ==> {
            ||| fails_with(self.0, input, r->Err_0)
            ||| exists|m1: S, v: O1| yields(self.0, input, m1, v) && fails_with(self.1, m1, r->Err_0)
            ||| exists|m1: S, m2: S, v: O1, w: O2|
                yields(self.0, input, m1, v) && yields(self.1, m1, m2, w) && fails_with(
                    self.2,
                    m2,
                    r->Err_0,
                )
        }
    }

    fn parse_all(&self, input: S) -> (r: IResult<S, (O1, O2, O3)>) {
        match (self.0)(input) {
            Ok((m1, a)) => match (self.1)(m1) {
                Ok((m2, b)) => match (self.2)(m2) {
                    Ok((rest, c)) => {
                        let res: IResult<S, (O1, O2, O3)> = Ok((rest, (a, b, c)));
                        assert(res->Ok_0.0 == rest && res->Ok_0.1.0 == a && res->Ok_0.1.1 == b
                            && res->Ok_0.1.2 == c);
                        assert(yields(self.0, input, m1, a) && yields(self.1, m1, m2, b) && yields(
                            self.2,
                            m2,
                            rest,
                            c,
                        ));
                        res
                    },
                    Err(e) => {
                        assert(yields(self.0, input, m1, a) && yields(self.1, m1, m2, b)
                            && fails_with(self.2, m2, e));
                        Err(e)
                    },
                },
                Err(e) => {
                    assert(yields(self.0, input, m1, a) && fails_with(self.1, m1, e));
                    Err(e)
                },
            },
            Err(e) => Err(e),
        }
    }
}

/// Runs each of a fixed number of parsers in turn; returns all their values.
pub fn tuple<S, O, P: Parsers<S, O>>(parsers: P, input: S) -> (r: IResult<S, O>)
    requires
        parsers.ready(),
    ensures
        parsers.outcome(input, r),
{
    parsers.parse_all(input)
}

/// Runs `parser` and returns, in place of its value, the input it consumed.
pub fn recognize<S: Stream, O, F: Fn(S) -> IResult<S, O>>(parser: F, input: S) -> (r: IResult<
    S,
    S::Slice,
>)
    requires
        total(parser),
        advancing(parser),
    ensures
        match r {
            Ok((rest, out)) => {
                &&& exists|o: O| yields(parser, input, rest, o)
                &&& suffix_of(rest, input)
                &&& S::slice_tokens(out) == input.tokens().take(
                    input.tokens().len() - rest.tokens().len(),
                )
            },
            Err(e) => fails_with(parser, input, e),
        },
{
    match parser(input) {
        Ok((rest, o)) => {
            assert(yields(parser, input, rest, o));
            let ghost k = input.tokens().len() - rest.tokens().len();
            proof {
                lemma_units_split::<S>(input.tokens(), k);
            }
            let total_len = input.input_len();
            let left = rest.input_len();
            let (_, out) = input.next_slice(total_len - left, Ghost(k));
            Ok((rest, out))
        },
        Err(e) => Err(e),
    }
}

} // verus!
