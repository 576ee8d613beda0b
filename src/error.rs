//! The three-way outcome of a parser: a match, a failure, or a request for
//! more input.
use vstd::prelude::*;

verus! {

/// How much more input a streaming parser needs before it can decide.
#[derive(Debug, Clone, Copy, PartialEq, Eq, Structural)]
pub enum Needed {
    /// More input is needed, but how much cannot be told.
    Unknown,
    /// At least this many more units (never zero).
    Size(usize),
}

impl Needed {
    /// `n` more units, or `Unknown` where `n` is zero.
    pub open spec fn of(n: int) -> Needed {
        if n <= 0 {
            Needed::Unknown
        } else {
            Needed::Size(n as usize)
        }
    }

    pub fn new(n: usize) -> (r: Needed)
        ensures
            r == Needed::of(n as int),
    {
        if n == 0 {
            Needed::Unknown
        } else {
            Needed::Size(n)
        }
    }

    pub fn is_known(&self) -> (r: bool)
        ensures
            r == (*self is Size),
    {
        match self {
            Needed::Unknown => false,
            Needed::Size(_) => true,
        }
    }
}

/// Which primitive failed.
#[derive(Debug, Clone, Copy, PartialEq, Eq, Structural)]
pub enum ErrorKind {
    Tag,
    OneOf,
    NoneOf,
    IsA,
    IsNot,
    TakeWhile1,
    TakeWhileMN,
    TakeTill1,
    TakeUntil,
    Eof,
    Escaped,
    Alpha,
}

/// A failure: the input at which the failing parser was started, and its kind.
#[derive(Debug, Clone, Copy, PartialEq, Eq)]
pub struct Error<I> {
    pub input: I,
    pub kind: ErrorKind,
}

impl<I> Error<I> {
    pub fn new(input: I, kind: ErrorKind) -> (r: Error<I>)
        ensures
            r == (Error { input, kind }),
    {
        Error { input, kind }
    }
}

/// Why a parser did not match.
#[derive(Debug, Clone, Copy, PartialEq, Eq)]
pub enum ErrMode<E> {
    /// The buffered input ends before a verdict can be reached.
    Incomplete(Needed),
    /// An ordinary failure: an alternative may be tried.
    Backtrack(E),
    /// A failure that forbids trying alternatives.
    Cut(E),
}

/// What a parser returns: the remaining input and a value, or why it stopped.
pub type IResult<I, O> = Result<(I, O), ErrMode<Error<I>>>;

} // verus!
