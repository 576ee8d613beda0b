//! Streaming parser combinators over byte and text cursors, with verified
//! boundary behaviour: every matcher states exactly when it matches, fails,
//! or asks for more input.
pub mod bytes;
pub mod error;
pub mod escape;
pub mod laws;
pub mod sequence;
pub mod stream;
pub mod text;

pub use bytes::{
    any, compare, find_slice, is_a, is_not, none_of, one_of, split_at_offset, split_at_offset1,
    tag, tag_no_case, take, take_till, take_till1, take_until, take_until1, take_while,
    take_while1, take_while_m_n, CompareResult,
};
pub use error::{ErrMode, Error, ErrorKind, IResult, Needed};
pub use escape::{escaped, escaped_transform};
pub use sequence::{
    delimited, pair, preceded, recognize, separated_pair, terminated, tuple, Parsers,
};
pub use stream::{Bytes, Stream, Tokens};
pub use text::Text;
