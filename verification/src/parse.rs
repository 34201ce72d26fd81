//! The parser interface and the parsers of optional and empty input.

use vstd::prelude::*;
use crate::error::{Error, Span};
use crate::source::Source;
use crate::utf8::is_position;

verus! {

/// A span lies in the input when it is ordered and both its ends are valid positions.
pub open spec fn span_in(input: Seq<u8>, span: Span) -> bool {
    &&& span.ordered()
    &&& is_position(input, span.0 as int)
    &&& is_position(input, span.1 as int)
}

/// A parser: a way to read a value off a source.
///
/// Every parser leaves the input as it is, moves forward when it succeeds and
/// leaves the source where it found it when it fails.
///
/// A parser may also be exact: then what it does is a function of the input
/// and the position it starts at. `end` says where it stops when it succeeds,
/// `yields` which value it then returns and `reports` which error it returns
/// when it fails. The parsers of this crate are exact wherever the parsers
/// they are made of are. A parser that states no model is not exact, and its
/// `end`, `yields` and `reports` say nothing.
pub trait Parse {
    /// The value that a successful parse returns.
    type Output: Default;

    /// Whether the parser follows the model that `end`, `yields` and `reports` give.
    open spec fn exact() -> bool {
        false
    }

    /// The position after a successful parse that starts at `pos`, or `None`
    /// when the parser fails there.
    open spec fn end(input: Seq<u8>, pos: int) -> Option<int> {
        None
    }

    /// Whether `out` is what a successful parse at `pos` returns.
    open spec fn yields(input: Seq<u8>, pos: int, out: Self::Output) -> bool {
        true
    }

    /// Whether `err` is what a failing parse at `pos` returns.
    open spec fn reports(input: Seq<u8>, pos: int, err: Error) -> bool {
        true
    }

    /// Runs the parser at the current position of `src`.
    fn parse<S: Source>(src: &mut S) -> (r: Result<Self::Output, Error>)
        requires
            old(src).inv(),
        ensures
            final(src).inv(),
            final(src).input() == old(src).input(),
            match r {
                Ok(v) => old(src).position() <= final(src).position(),
                Err(e) => final(src).position() == old(src).position() && span_in(
                    old(src).input(),
                    e.span,
                ),
            },
            Self::exact() ==> match r {
                Ok(v) => {
                    &&& Self::end(old(src).input(), old(src).position()) == Some(
                        final(src).position(),
                    )
                    &&& Self::yields(old(src).input(), old(src).position(), v)
                },
                Err(e) => {
                    &&& Self::end(old(src).input(), old(src).position()) is None
                    &&& Self::reports(old(src).input(), old(src).position(), e)
                },
            },
    ;
}

/// An optional parser never fails: where `T` fails it yields `None` and consumes nothing.
impl<T: Parse> Parse for Option<T> {
    type Output = Option<T::Output>;

    open spec fn exact() -> bool {
        T::exact()
    }

    open spec fn end(input: Seq<u8>, pos: int) -> Option<int> {
        match T::end(input, pos) {
            Some(e) => Some(e),
            None => Some(pos),
        }
    }

    open spec fn yields(input: Seq<u8>, pos: int, out: Self::Output) -> bool {
        match out {
            Some(v) => T::end(input, pos) is Some && T::yields(input, pos, v),
            None => T::end(input, pos) is None,
        }
    }

    open spec fn reports(input: Seq<u8>, pos: int, err: Error) -> bool {
        false
    }

    fn parse<S: Source>(src: &mut S) -> (r: Result<Self::Output, Error>)
        ensures
            r is Ok,
            r matches Ok(None) ==> final(src).position() == old(src).position(),
    {
        match T::parse(src) {
            Ok(v) => Ok(Some(v)),
            Err(_) => Ok(None),
        }
    }
}

/// The empty parser succeeds everywhere and consumes nothing.
impl Parse for () {
    type Output = ();

    open spec fn exact() -> bool {
        true
    }

    open spec fn end(input: Seq<u8>, pos: int) -> Option<int> {
        Some(pos)
    }

    open spec fn yields(input: Seq<u8>, pos: int, out: Self::Output) -> bool {
        true
    }

    open spec fn reports(input: Seq<u8>, pos: int, err: Error) -> bool {
        false
    }

    fn parse<S: Source>(src: &mut S) -> (r: Result<Self::Output, Error>) {
        Ok(())
    }
}

} // verus!
