//! Located errors: a message together with a half-open byte range.

use vstd::prelude::*;

verus! {

/// A half-open range `[start, end)` of byte offsets into the logical input.
#[derive(Debug, Clone, Copy, PartialEq, Eq, Structural, PartialOrd, Ord, Hash)]
pub struct Span(pub usize, pub usize);

impl Span {
    /// The span from `start` (inclusive) to `end` (exclusive).
    pub fn new(start: usize, end: usize) -> (s: Self)
        ensures
            s == Span(start, end),
    {
        Span(start, end)
    }

    /// A span is ordered when it does not end before it starts.
    pub open spec fn ordered(self) -> bool {
        self.0 <= self.1
    }
}

impl Default for Span {
    fn default() -> (s: Self)
        ensures
            s == Span(0, 0),
    {
        Span(0, 0)
    }
}

/// A failure to parse: where it happened and what was expected there.
#[derive(Debug, Clone, PartialEq, Eq, Hash)]
pub struct Error {
    pub msg: String,
    pub span: Span,
}

impl Error {
    /// An error over `span` carrying the message `msg`.
    pub fn new(span: Span, msg: &str) -> (e: Error)
        ensures
            e.span == span,
            e.msg@ == msg@,
    {
        Error { msg: msg.to_owned(), span }
    }

    /// Whether this error covers `span` and says `msg`.
    pub open spec fn is(self, span: Span, msg: Seq<char>) -> bool {
        self.span == span && self.msg@ == msg
    }
}

impl Default for Error {
    fn default() -> (e: Self)
        ensures
            e.is(Span(0, 0), "unknown"@),
    {
        Error::new(Span(0, 0), "unknown")
    }
}

/// What an error says: the model of `Error`.
pub struct Fault {
    pub span: Span,
    pub msg: Seq<char>,
}

impl View for Error {
    type V = Fault;

    open spec fn view(&self) -> Fault {
        Fault { span: self.span, msg: self.msg@ }
    }
}

} // verus!
