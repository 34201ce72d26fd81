//! Rust literals as text and what they stand for.
//!
//! What a literal stands for is asked of `syn`. A literal that `syn` reads
//! has its value by its text alone; whether `syn` reads a given text is for
//! `syn` to say, call by call.

use vstd::prelude::*;

verus! {

/// What a Rust string literal stands for: the text between its quotes with
/// the escapes resolved, or nothing where `text` is no string literal.
pub uninterp spec fn lit_str_value(text: Seq<char>) -> Option<Seq<char>>;

/// What a Rust character literal stands for, or nothing where `text` is no
/// character literal.
pub uninterp spec fn lit_char_value(text: Seq<char>) -> Option<char>;

/// `syn::parse_str::<syn::LitStr>` reads `text` as one Rust string literal,
/// and `syn::LitStr::value` gives what the literal stands for: where the
/// call succeeds, that value depends on `text` alone. Where it does not,
/// the message of the error of `syn` comes back, and nothing is claimed.
#[verifier::external_body]
pub(crate) fn unquote(text: &str) -> (r: Result<String, String>)
    ensures
        r matches Ok(s) ==> lit_str_value(text@) == Some(s@),
{
    match syn::parse_str::<syn::LitStr>(text) {
        Ok(lit) => Ok(lit.value()),
        Err(e) => Err(e.to_string()),
    }
}

/// `syn::parse_str::<syn::LitChar>` reads `text` as one Rust character
/// literal, and `syn::LitChar::value` gives the character it stands for:
/// where the call succeeds, that character depends on `text` alone. Where
/// it does not, the message of the error of `syn` comes back, and nothing
/// is claimed.
#[verifier::external_body]
pub(crate) fn unquote_char(text: &str) -> (r: Result<char, String>)
    ensures
        r matches Ok(c) ==> lit_char_value(text@) == Some(c),
{
    match syn::parse_str::<syn::LitChar>(text) {
        Ok(lit) => Ok(lit.value()),
        Err(e) => Err(e.to_string()),
    }
}

} // verus!
