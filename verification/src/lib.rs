//! A PEG-style parser combinator library over position-addressable UTF-8
//! sources.
//!
//! A parser reads a value off a [`Source`] and leaves the source where it
//! found it when it fails. Parsers are put together from the primitives and
//! combinators of [`util`], written down as grammars in the language of
//! [`dsl`] and [`grammar`] and run by the [`interpreter`], or built for
//! expressions with operators by [`pratt`]. What each of them does is stated
//! over the bytes of the input: [`semantics`] says what a grammar means.

use vstd::prelude::*;

pub mod ast;
pub mod ast_transform;
pub mod chars;
pub mod derive;
pub mod dsl;
pub mod error;
pub mod float;
pub mod grammar;
pub mod integer;
pub mod interpreter;
pub mod literal;
pub mod parse;
pub mod pratt;
pub mod semantics;
pub mod source;
pub mod stream;
pub mod utf8;
pub mod util;

pub use error::{Error, Fault, Span};
pub use parse::{span_in, Parse};
pub use source::{Character, IntoSource, Source, StrSource};

verus! {

/// Runs the parser `T` on `src`.
///
/// The result is the one that `T` gives on the bytes of `src`, at the
/// position at which `src` stands: their start, unless `src` is a source
/// that has moved already.
pub fn parse<T: Parse, S: IntoSource>(src: S) -> (r: Result<T::Output, Error>)
    requires
        src.ready(),
    ensures
        T::exact() ==> match r {
            Ok(v) => T::end(src.bytes(), src.start()) is Some && T::yields(
                src.bytes(),
                src.start(),
                v,
            ),
            Err(e) => T::end(src.bytes(), src.start()) is None && T::reports(
                src.bytes(),
                src.start(),
                e,
            ),
        },
        r matches Err(e) ==> span_in(src.bytes(), e.span),
{
    let mut source = src.into();
    T::parse(&mut source)
}

/// Runs the parser `T` on `src`, on the caller's thread.
///
/// Parsing never waits here, so this does what `parse` does.
pub fn parse_blocking<T: Parse, S: IntoSource>(src: S) -> (r: Result<T::Output, Error>)
    requires
        src.ready(),
    ensures
        T::exact() ==> match r {
            Ok(v) => T::end(src.bytes(), src.start()) is Some && T::yields(
                src.bytes(),
                src.start(),
                v,
            ),
            Err(e) => T::end(src.bytes(), src.start()) is None && T::reports(
                src.bytes(),
                src.start(),
                e,
            ),
        },
        r matches Err(e) ==> span_in(src.bytes(), e.span),
{
    parse::<T, S>(src)
}

} // verus!
