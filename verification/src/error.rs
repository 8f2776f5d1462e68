//! The error that every fallible operation returns.
use vstd::prelude::*;
use vstd::utf8::*;

verus! {

/// What went wrong, and where when the place is known.
#[derive(Debug, PartialEq, Eq)]
pub struct Error {
    pub msg: String,
    /// 1-based line
    pub line: Option<usize>,
    /// 1-based column, or the byte offset into a path expression
    pub col: Option<usize>,
}

/// The contents of an [`Error`], with the message as UTF-8 bytes.
pub struct ErrorView {
    pub msg: Seq<u8>,
    pub line: Option<int>,
    pub col: Option<int>,
}

impl View for Error {
    type V = ErrorView;

    open spec fn view(&self) -> ErrorView {
        ErrorView {
            msg: encode_utf8(self.msg@),
            line: match self.line {
                Some(n) => Some(n as int),
                None => None,
            },
            col: match self.col {
                Some(n) => Some(n as int),
                None => None,
            },
        }
    }
}

/// An error without a place.
pub open spec fn plain_error(msg: Seq<u8>) -> ErrorView {
    ErrorView { msg, line: None, col: None }
}

} // verus!
