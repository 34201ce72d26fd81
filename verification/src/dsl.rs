//! The grammar language as text: parsers that read a grammar off a source
//! and build its syntax tree.
//!
//! A grammar is a list of alternatives separated by `|`. An alternative is
//! a sequence of terms, each with an optional quantifier behind it. A term
//! is a string literal, a character literal, the name of a rule, a
//! character class in brackets or a group in parentheses; in front of it may
//! stand `$name:` to bind it, `!` to look ahead for its absence or `_` to
//! discard what it yields.
//!
//! What each parser reads is given by a function of the input and the
//! position: `read_term` for `parse_term` and so on. What a string literal
//! stands for is asked of `syn`, once for every place of the input at which
//! one may stand, before anything is read; the parsers take the answers as
//! a list and are functions of the input, the position and that list.

use vstd::prelude::*;
use vstd::string::*;
use crate::ast::{
    choice_view, terms_view, Alternative, Alternatives, AlternativesView, Quantifier,
    QuantifierView, SpecialTerm, SpecialView, Term, TermView,
};
use crate::chars::{id_continue, id_start};
use crate::error::{Error, Span};
use crate::integer::{literal, Literal};
use crate::literal::{lit_str_value, unquote};
use crate::parse::{span_in, Parse};
use crate::source::{after_char, Source};
use crate::utf8::{is_position, lemma_ascii_at, lemma_step_is_position, scalar_at};
use crate::util::{item_count, items_end, repeat, WHITESPACE};

verus! {

/// How deep groups, separators and type arguments may nest in a grammar.
pub const MAX_DEPTH: usize = 64;

/// What every parser of this module keeps to: it leaves the input as it is,
/// moves forward when it succeeds, and stays where it was when it fails.
pub open spec fn kept<S: Source, V>(before: S, after: S, r: Result<V, Error>) -> bool {
    &&& after.inv()
    &&& after.input() == before.input()
    &&& match r {
        Ok(_) => before.position() <= after.position(),
        Err(e) => after.position() == before.position() && span_in(before.input(), e.span),
    }
}

/// Whether a parser read what it was to read: it succeeded with a value
/// whose model is the one expected and stopped at the position expected, or
/// failed where nothing was to be read.
pub open spec fn read_as<S: Source, T: View>(
    after: S,
    r: Result<T, Error>,
    expected: Option<(T::V, int)>,
) -> bool {
    match expected {
        Some((v, end)) => r matches Ok(t) && t@ == v && after.position() == end,
        None => r is Err,
    }
}

/// The position behind the whitespace that stands at `pos`.
pub open spec fn blanks(input: Seq<u8>, pos: int) -> int {
    items_end::<WHITESPACE>(
        input,
        pos,
        None,
        item_count::<WHITESPACE>(input, pos, None, usize::MAX as nat),
    )
}

/// The characters from `pos` on that `ok` admits, and the position behind
/// them.
pub open spec fn char_run(input: Seq<u8>, pos: int, ok: spec_fn(char) -> bool) -> (Seq<char>, int)
    decreases input.len() - pos,
{
    match scalar_at(input, pos) {
        Some((c, n)) => if ok(c) && n >= 1 && pos + n <= input.len() {
            let rest = char_run(input, pos + n, ok);
            (seq![c] + rest.0, rest.1)
        } else {
            (Seq::empty(), pos)
        },
        None => (Seq::empty(), pos),
    }
}

/// The characters that stand from `from` up to `to`.
pub open spec fn text_between(input: Seq<u8>, from: int, to: int) -> Seq<char>
    decreases to - from,
{
    if from >= to {
        Seq::empty()
    } else {
        match scalar_at(input, from) {
            Some((c, n)) => if n < 1 || n > to - from {
                Seq::empty()
            } else {
                seq![c] + text_between(input, from + n, to)
            },
            None => Seq::empty(),
        }
    }
}

/// The identifier at `pos` and the position behind it: a character that
/// can start an identifier and the characters behind it that can continue
/// one.
pub open spec fn read_ident(input: Seq<u8>, pos: int) -> Option<(Seq<char>, int)> {
    match scalar_at(input, pos) {
        Some((c, n)) => if id_start(c) {
            let rest = char_run(input, pos + n, |c: char| id_continue(c));
            Some((seq![c] + rest.0, rest.1))
        } else {
            None
        },
        None => None,
    }
}

/// The position behind the double quote that closes the string literal
/// whose inside starts at `pos`. A backslash takes the character behind it
/// along, so that an escaped quote does not close.
pub open spec fn string_close(input: Seq<u8>, pos: int) -> Option<int>
    decreases input.len() - pos,
{
    match scalar_at(input, pos) {
        Some((c, n)) => if n < 1 || pos + n > input.len() {
            None
        } else if c == '"' {
            Some(pos + n)
        } else if c == '\\' {
            match scalar_at(input, pos + n) {
                Some((d, m)) => if m < 1 || pos + n + m > input.len() {
                    None
                } else {
                    string_close(input, pos + n + m)
                },
                None => None,
            }
        } else {
            string_close(input, pos + n)
        },
        None => None,
    }
}

/// What the list of literals holds for the position `pos`, from its `i`-th
/// entry on: the text of the first entry for that position.
pub open spec fn value_at(lits: Seq<(usize, String)>, pos: int, i: int) -> Option<Seq<char>>
    decreases lits.len() - i,
{
    if i < 0 || i >= lits.len() {
        None
    } else if lits[i].0 == pos {
        Some(lits[i].1@)
    } else {
        value_at(lits, pos, i + 1)
    }
}

/// Whether a string literal that stands for `v` begins at `pos`: it reaches
/// from a double quote to the one that closes it, and that stretch is a
/// string literal as Rust writes them.
pub open spec fn literal_at(input: Seq<u8>, pos: int, v: Seq<char>) -> bool {
    after_char(input, pos, '"') matches Some(inside) && string_close(input, inside) matches Some(
        end,
    ) && lit_str_value(text_between(input, pos, end)) == Some(v)
}

/// Whether every entry of the list holds what the string literal at its
/// position stands for.
pub open spec fn literals_of(input: Seq<u8>, lits: Seq<(usize, String)>) -> bool {
    forall|i: int|
        0 <= i < lits.len() ==> literal_at(input, (#[trigger] lits[i]).0 as int, lits[i].1@)
}

/// Whether no double quote stands in the input, so that it holds no string
/// literal.
pub open spec fn quoteless(input: Seq<u8>) -> bool {
    forall|i: int| 0 <= i < input.len() ==> input[i] != 0x22
}

/// What the string literal at `pos` stands for, and the position behind
/// it. The literal reaches from a double quote to the one that closes it,
/// and what it stands for is what the list of literals holds for `pos`.
pub open spec fn read_string(input: Seq<u8>, pos: int, lits: Seq<(usize, String)>) -> Option<
    (Seq<char>, int),
> {
    match after_char(input, pos, '"') {
        Some(inside) => match string_close(input, inside) {
            Some(end) => match value_at(lits, pos, 0) {
                Some(v) => Some((v, end)),
                None => None,
            },
            None => None,
        },
        None => None,
    }
}

/// The character of the character literal at `pos`, one character between
/// single quotes, and the position behind the literal.
pub open spec fn read_char_lit(input: Seq<u8>, pos: int) -> Option<(char, int)> {
    match after_char(input, pos, '\'') {
        Some(inside) => match scalar_at(input, inside) {
            Some((c, n)) => match after_char(input, inside + n, '\'') {
                Some(end) => Some((c, end)),
                None => None,
            },
            None => None,
        },
        None => None,
    }
}

/// Skips whitespace.
fn skip_blanks<S: Source>(src: &mut S)
    requires
        old(src).inv(),
    ensures
        final(src).inv(),
        final(src).input() == old(src).input(),
        old(src).position() <= final(src).position(),
        final(src).position() == blanks(old(src).input(), old(src).position()),
{
    let _ = repeat::<WHITESPACE, S>(src, usize::MAX, None, false);
}

/// Fails at `start`, to which the source is put back.
fn fail<S: Source, V>(src: &mut S, start: usize, msg: &str) -> (r: Result<V, Error>)
    requires
        old(src).inv(),
        is_position(old(src).input(), start as int),
    ensures
        final(src).inv(),
        final(src).input() == old(src).input(),
        final(src).position() == start,
        r matches Err(e) && e.span == Span(start, start),
{
    src.set_position(start);
    Err(Error::new(Span::new(start, start), msg))
}

/// The text of the input from `start` up to the current position.
fn capture<S: Source>(src: &mut S, start: usize) -> (text: String)
    requires
        old(src).inv(),
        is_position(old(src).input(), start as int),
        start <= old(src).position(),
    ensures
        final(src).inv(),
        final(src).input() == old(src).input(),
        final(src).position() == old(src).position(),
        text@ == text_between(old(src).input(), start as int, old(src).position()),
{
    let ghost input = src.input();
    let end = src.current_position();
    let mut text = String::new();
    src.set_position(start);
    proof {
        assert(text@ + text_between(input, start as int, end as int) =~= text_between(
            input,
            start as int,
            end as int,
        ));
    }
    loop
        invariant
            src.inv(),
            src.input() == input,
            input == old(src).input(),
            src.position() <= end,
            end == old(src).position(),
            is_position(input, end as int),
            text_between(input, start as int, end as int) == text@ + text_between(
                input,
                src.position(),
                end as int,
            ),
        ensures
            src.inv(),
            src.input() == input,
            is_position(input, end as int),
            text_between(input, start as int, end as int) == text@,
        decreases end - src.position(),
    {
        let here = src.current_position();
        if here >= end {
            assert(text@ + Seq::<char>::empty() =~= text@);
            break ;
        }
        match src.peek() {
            Some(c) => {
                if c.length > end - here {
                    assert(text@ + Seq::<char>::empty() =~= text@);
                    break ;
                }
                proof {
                    lemma_step_is_position(input, here as int);
                    assert(text@ + (seq![c.ch] + text_between(input, here + c.length, end as int))
                        =~= text@.push(c.ch) + text_between(input, here + c.length, end as int));
                }
                text.push(c.ch);
                src.set_position(here + c.length);
            },
            None => {
                assert(text@ + Seq::<char>::empty() =~= text@);
                break ;
            },
        }
    }
    src.set_position(end);
    text
}

/// An identifier: a character that can start one, then characters that can
/// continue one.
pub fn parse_ident<S: Source>(src: &mut S) -> (r: Result<String, Error>)
    requires
        old(src).inv(),
    ensures
        kept(*old(src), *final(src), r),
        match read_ident(old(src).input(), old(src).position()) {
            Some((name, end)) => r matches Ok(s) && s@ == name && final(src).position() == end,
            None => r is Err,
        },
{
    let ghost input = src.input();
    let start = src.current_position();
    let mut buf = String::new();
    match src.peek() {
        Some(c) => {
            if unicode_id_start::is_id_start(c.ch) {
                proof {
                    lemma_step_is_position(src.input(), start as int);
                }
                buf.push(c.ch);
                src.set_position(start + c.length);
            } else {
                return Err(Error::new(Span::new(start, start), "error parsing ident"));
            }
        },
        None => {
            return Err(Error::new(Span::new(start, start), "error parsing ident"));
        },
    }
    let ghost ok = |c: char| id_continue(c);
    let ghost from = src.position();
    let ghost first = buf@[0];
    let ghost mut read: Seq<char> = Seq::empty();
    proof {
        assert(read + char_run(input, from, ok).0 =~= char_run(input, from, ok).0);
        assert(seq![first] + read =~= buf@);
    }
    loop
        invariant
            src.inv(),
            src.input() == input,
            input == old(src).input(),
            old(src).position() <= src.position(),
            ok == |c: char| id_continue(c),
            buf@ == seq![first] + read,
            char_run(input, from, ok) == (
                read + char_run(input, src.position(), ok).0,
                char_run(input, src.position(), ok).1,
            ),
        ensures
            src.inv(),
            src.input() == input,
            old(src).position() <= src.position(),
            buf@ == seq![first] + read,
            char_run(input, from, ok) == (read, src.position()),
        decreases src.input().len() - src.position(),
    {
        let here = src.current_position();
        match src.peek() {
            Some(c) => {
                if unicode_id_start::is_id_continue(c.ch) {
                    proof {
                        lemma_step_is_position(src.input(), here as int);
                        let rest = char_run(input, here + c.length, ok);
                        assert(ok(c.ch));
                        assert(read + (seq![c.ch] + rest.0) =~= read.push(c.ch) + rest.0);
                        assert(buf@.push(c.ch) =~= seq![first] + read.push(c.ch));
                        read = read.push(c.ch);
                    }
                    buf.push(c.ch);
                    src.set_position(here + c.length);
                } else {
                    proof {
                        assert(!ok(c.ch));
                        assert(read + Seq::<char>::empty() =~= read);
                    }
                    break ;
                }
            },
            None => {
                proof {
                    assert(read + Seq::<char>::empty() =~= read);
                }
                break ;
            },
        }
    }
    Ok(buf)
}

/// Moves behind the double quote that closes the string literal whose
/// inside starts at the current position, or says that none closes it.
fn close_string<S: Source>(src: &mut S) -> (closed: bool)
    requires
        old(src).inv(),
    ensures
        final(src).inv(),
        final(src).input() == old(src).input(),
        old(src).position() <= final(src).position(),
        match string_close(old(src).input(), old(src).position()) {
            Some(end) => closed && final(src).position() == end,
            None => !closed,
        },
{
    let ghost input = src.input();
    loop
        invariant
            src.inv(),
            src.input() == input,
            input == old(src).input(),
            old(src).position() <= src.position(),
            string_close(input, old(src).position()) == string_close(input, src.position()),
        decreases input.len() - src.position(),
    {
        let here = src.current_position();
        match src.peek() {
            Some(c) => {
                proof {
                    lemma_step_is_position(input, here as int);
                }
                src.set_position(here + c.length);
                if c.ch == '"' {
                    return true;
                }
                if c.ch == '\\' {
                    let next = src.current_position();
                    match src.peek() {
                        Some(d) => {
                            proof {
                                lemma_step_is_position(input, next as int);
                            }
                            src.set_position(next + d.length);
                        },
                        None => {
                            return false;
                        },
                    }
                }
            },
            None => {
                return false;
            },
        }
    }
}

/// A string literal, from a double quote to the one that closes it. Yields
/// what the list of literals holds for the place at which it begins, and
/// fails where the list holds nothing for it.
pub fn parse_string_lit<S: Source>(
    src: &mut S,
    lits: &Vec<(usize, String)>,
) -> (r: Result<String, Error>)
    requires
        old(src).inv(),
    ensures
        kept(*old(src), *final(src), r),
        match read_string(old(src).input(), old(src).position(), lits@) {
            Some((v, end)) => r matches Ok(s) && s@ == v && final(src).position() == end,
            None => r is Err,
        },
{
    let start = src.current_position();
    if !src.match_char('"') {
        return Err(Error::new(Span::new(start, start), "error parsing string"));
    }
    if !close_string(src) {
        let end = src.current_position();
        src.set_position(start);
        return Err(Error::new(Span::new(start, end), "error parsing string"));
    }
    let end = src.current_position();
    match find_value(lits, start) {
        Some(value) => Ok(value),
        None => {
            src.set_position(start);
            Err(Error::new(Span::new(start, end), "malformed string literal"))
        },
    }
}

/// What the list of literals holds for the position `pos`.
fn find_value(lits: &Vec<(usize, String)>, pos: usize) -> (r: Option<String>)
    ensures
        match r {
            Some(s) => value_at(lits@, pos as int, 0) == Some(s@),
            None => value_at(lits@, pos as int, 0) is None,
        },
{
    let mut i: usize = 0;
    while i < lits.len()
        invariant
            i <= lits@.len(),
            value_at(lits@, pos as int, 0) == value_at(lits@, pos as int, i as int),
        decreases lits@.len() - i,
    {
        if lits[i].0 == pos {
            return Some(lits[i].1.clone());
        }
        i = i + 1;
    }
    None
}

/// Asks for every place from the current position on at which a string
/// literal may stand what that literal stands for, and lists the answers by
/// their places. A literal that is refused gets no entry. Where no double
/// quote stands in the input, nothing is asked.
pub fn string_literals<S: Source>(src: &mut S) -> (lits: Vec<(usize, String)>)
    requires
        old(src).inv(),
    ensures
        final(src).inv(),
        final(src).input() == old(src).input(),
        final(src).position() == old(src).position(),
        literals_of(old(src).input(), lits@),
        quoteless(old(src).input()) ==> lits@ == Seq::<(usize, String)>::empty(),
{
    let ghost input = src.input();
    let start = src.current_position();
    let mut lits: Vec<(usize, String)> = Vec::new();
    loop
        invariant
            src.inv(),
            src.input() == input,
            input == old(src).input(),
            start == old(src).position(),
            is_position(input, start as int),
            literals_of(input, lits@),
            quoteless(input) ==> lits@.len() == 0,
        decreases input.len() - src.position(),
    {
        let here = src.current_position();
        if src.match_char('"') {
            proof {
                lemma_ascii_at(input, here as int);
            }
            if close_string(src) {
                let text = capture(src, here);
                match unquote(text.as_str()) {
                    Ok(value) => {
                        let ghost before = lits@;
                        lits.push((here, value));
                        assert forall|i: int| 0 <= i < lits@.len() implies literal_at(
                            input,
                            (#[trigger] lits@[i]).0 as int,
                            lits@[i].1@,
                        ) by {
                            if i < before.len() {
                                assert(lits@[i] == before[i]);
                            }
                        }
                    },
                    Err(_) => {},
                }
            }
            src.set_position(here);
        }
        match src.peek() {
            Some(c) => {
                proof {
                    lemma_step_is_position(input, here as int);
                }
                src.set_position(here + c.length);
            },
            None => {
                break ;
            },
        }
    }
    src.set_position(start);
    proof {
        if quoteless(input) {
            assert(lits@ =~= Seq::<(usize, String)>::empty());
        }
    }
    lits
}

/// A character literal: one character between single quotes.
pub fn parse_char_lit<S: Source>(src: &mut S) -> (r: Result<char, Error>)
    requires
        old(src).inv(),
    ensures
        kept(*old(src), *final(src), r),
        match read_char_lit(old(src).input(), old(src).position()) {
            Some((c, end)) => r matches Ok(v) && v == c && final(src).position() == end,
            None => r is Err,
        },
{
    let start = src.current_position();
    if !src.match_char('\'') {
        return Err(Error::new(Span::new(start, start), "expected character '''"));
    }
    let here = src.current_position();
    let c = match src.peek() {
        Some(c) => {
            proof {
                lemma_step_is_position(src.input(), here as int);
            }
            src.set_position(here + c.length);
            c.ch
        },
        None => {
            return fail(src, start, "expected character");
        },
    };
    if !src.match_char('\'') {
        return fail(src, start, "expected character '''");
    }
    Ok(c)
}

/// Whether `c` can stand in a name of a type: a letter without accent, a
/// digit or an underscore.
pub open spec fn name_char(c: char) -> bool {
    ('a' <= c <= 'z') || ('A' <= c <= 'Z') || ('0' <= c <= '9') || c == '_'
}

/// The position behind the name that stands at `pos`: one or more
/// characters of a name.
pub open spec fn name_end(input: Seq<u8>, pos: int) -> Option<int> {
    let run = char_run(input, pos, |c: char| name_char(c));
    if run.1 > pos {
        Some(run.1)
    } else {
        None
    }
}

/// The position behind the `::` that stands at `pos`.
pub open spec fn colons_end(input: Seq<u8>, pos: int) -> Option<int> {
    match after_char(input, pos, ':') {
        Some(mid) => after_char(input, mid, ':'),
        None => None,
    }
}

/// The position behind the type arguments that stand at `pos`: a list of
/// types between angle brackets, separated by commas. The list may be
/// empty only where `may_be_empty` is set.
pub open spec fn type_args_end(input: Seq<u8>, pos: int, may_be_empty: bool, depth: nat) -> Option<
    int,
>
    decreases depth, 0int, 0int,
{
    match after_char(input, pos, '<') {
        Some(inside) => if depth == 0 {
            None
        } else {
            let list = match type_end(input, inside, (depth - 1) as nat) {
                Some(first) => Some(type_list_end(input, first, (depth - 1) as nat)),
                None => if may_be_empty {
                    Some(inside)
                } else {
                    None
                },
            };
            match list {
                Some(end) => after_char(input, end, '>'),
                None => None,
            }
        },
        None => None,
    }
}

/// The position behind the types that follow the first of a list, each
/// behind a comma. A comma that no type follows is not part of the list.
pub open spec fn type_list_end(input: Seq<u8>, pos: int, depth: nat) -> int
    decreases depth, 3int, input.len() - pos,
{
    match after_char(input, pos, ',') {
        Some(behind) => match type_end(input, behind, depth) {
            Some(end) => if end <= pos || end > input.len() {
                end
            } else {
                type_list_end(input, end, depth)
            },
            None => pos,
        },
        None => pos,
    }
}

/// The position behind the segments that follow the first name of a path,
/// each behind `::`: type arguments or a name.
pub open spec fn segments_end(input: Seq<u8>, pos: int, depth: nat) -> int
    decreases depth, 1int, input.len() - pos,
{
    match colons_end(input, pos) {
        Some(behind) => {
            let found = match type_args_end(input, behind, false, depth) {
                Some(end) => Some(end),
                None => name_end(input, behind),
            };
            match found {
                Some(end) => if end <= pos || end > input.len() {
                    pos
                } else {
                    segments_end(input, end, depth)
                },
                None => pos,
            }
        },
        None => pos,
    }
}

/// The position behind the path of a type that stands at `pos`, with the
/// whitespace around it: type arguments alone, which `::` may precede, or a
/// name, the segments behind it and type arguments at its end.
pub open spec fn type_end(input: Seq<u8>, pos: int, depth: nat) -> Option<int>
    decreases depth, 2int, 0int,
{
    let begin = blanks(input, pos);
    let start = match colons_end(input, begin) {
        Some(p) => p,
        None => begin,
    };
    match type_args_end(input, start, true, depth) {
        Some(end) => Some(blanks(input, end)),
        None => match name_end(input, begin) {
            Some(name) => {
                let segments = segments_end(input, name, depth);
                let end = match type_args_end(input, segments, true, depth) {
                    Some(e) => e,
                    None => segments,
                };
                Some(blanks(input, end))
            },
            None => None,
        },
    }
}

/// A character of a name of a type.
fn is_name_char(c: char) -> (b: bool)
    ensures
        b == name_char(c),
{
    ('a' <= c && c <= 'z') || ('A' <= c && c <= 'Z') || ('0' <= c && c <= '9') || c == '_'
}

/// One or more characters of a name.
fn parse_name<S: Source>(src: &mut S) -> (r: Result<(), Error>)
    requires
        old(src).inv(),
    ensures
        kept(*old(src), *final(src), r),
        match name_end(old(src).input(), old(src).position()) {
            Some(end) => r is Ok && final(src).position() == end && old(src).position() < end,
            None => r is Err,
        },
{
    let ghost input = src.input();
    let ghost ok = |c: char| name_char(c);
    let start = src.current_position();
    loop
        invariant
            src.inv(),
            src.input() == input,
            input == old(src).input(),
            start == old(src).position(),
            start <= src.position(),
            ok == |c: char| name_char(c),
            char_run(input, start as int, ok).1 == char_run(input, src.position(), ok).1,
        ensures
            src.inv(),
            src.input() == input,
            start <= src.position(),
            char_run(input, start as int, ok).1 == src.position(),
        decreases src.input().len() - src.position(),
    {
        let here = src.current_position();
        match src.peek() {
            Some(c) => {
                if is_name_char(c.ch) {
                    proof {
                        lemma_step_is_position(src.input(), here as int);
                        assert(ok(c.ch));
                    }
                    src.set_position(here + c.length);
                } else {
                    assert(!ok(c.ch));
                    break ;
                }
            },
            None => {
                break ;
            },
        }
    }
    if src.current_position() == start {
        return Err(Error::new(Span::new(start, start), "failed to match character class"));
    }
    Ok(())
}

/// Matches `::`.
fn match_colons<S: Source>(src: &mut S) -> (b: bool)
    requires
        old(src).inv(),
    ensures
        final(src).inv(),
        final(src).input() == old(src).input(),
        match colons_end(old(src).input(), old(src).position()) {
            Some(end) => b && final(src).position() == end && old(src).position() < end,
            None => !b && final(src).position() == old(src).position(),
        },
{
    let start = src.current_position();
    if !src.match_char(':') {
        return false;
    }
    proof {
        lemma_step_is_position(src.input(), start as int);
    }
    let mid = src.current_position();
    if !src.match_char(':') {
        src.set_position(start);
        return false;
    }
    proof {
        lemma_step_is_position(src.input(), mid as int);
    }
    true
}

/// The error of a string literal that did not match at `pos`.
fn expected_literal(pos: usize, lit: &str) -> (e: Error)
    ensures
        e.span == Span(pos, pos),
{
    let mut msg = String::from_str("expected string literal '");
    msg.append(lit);
    msg.append("'");
    Error { msg, span: Span(pos, pos) }
}

/// A list of types between angle brackets, separated by commas. The list
/// may be empty only where `may_be_empty` is set.
fn parse_type_arguments<S: Source>(src: &mut S, may_be_empty: bool, depth: usize) -> (r: Result<
    (),
    Error,
>)
    requires
        old(src).inv(),
    ensures
        kept(*old(src), *final(src), r),
        match type_args_end(old(src).input(), old(src).position(), may_be_empty, depth as nat) {
            Some(end) => r is Ok && final(src).position() == end && old(src).position() < end,
            None => r is Err,
        },
    decreases depth, 0int,
{
    let ghost input = src.input();
    let start = src.current_position();
    if !src.match_char('<') {
        return Err(expected_literal(start, "<"));
    }
    proof {
        lemma_step_is_position(src.input(), start as int);
    }
    if depth == 0 {
        return fail(src, start, "grammar nests too deep");
    }
    let inside = src.current_position();
    match parse_type(src, depth - 1) {
        Ok(_) => {
            let ghost first = src.position();
            loop
                invariant
                    src.inv(),
                    src.input() == input,
                    input == old(src).input(),
                    start == old(src).position(),
                    start < src.position(),
                    is_position(src.input(), start as int),
                    depth > 0,
                    type_list_end(input, first, (depth - 1) as nat) == type_list_end(
                        input,
                        src.position(),
                        (depth - 1) as nat,
                    ),
                ensures
                    src.inv(),
                    src.input() == input,
                    start < src.position(),
                    is_position(src.input(), start as int),
                    type_list_end(input, first, (depth - 1) as nat) == src.position(),
                decreases src.input().len() - src.position(),
            {
                let here = src.current_position();
                if !src.match_char(',') {
                    break ;
                }
                match parse_type(src, depth - 1) {
                    Ok(_) => {
                        if src.current_position() <= here {
                            break ;
                        }
                    },
                    Err(_) => {
                        src.set_position(here);
                        break ;
                    },
                }
            }
        },
        Err(e) => {
            if !may_be_empty {
                src.set_position(start);
                return Err(e);
            }
        },
    }
    let here = src.current_position();
    if !src.match_char('>') {
        src.set_position(start);
        return Err(expected_literal(here, ">"));
    }
    Ok(())
}

/// A path of a Rust type, as far as a grammar needs it to name a rule:
/// names joined by `::`, with type arguments in angle brackets, surrounded
/// by whitespace.
pub fn parse_type<S: Source>(src: &mut S, depth: usize) -> (r: Result<(), Error>)
    requires
        old(src).inv(),
    ensures
        kept(*old(src), *final(src), r),
        match type_end(old(src).input(), old(src).position(), depth as nat) {
            Some(end) => r is Ok && final(src).position() == end && old(src).position() < end,
            None => r is Err,
        },
    decreases depth, 1int,
{
    let ghost input = src.input();
    let start = src.current_position();
    skip_blanks(src);
    let begin = src.current_position();
    let _ = match_colons(src);
    match parse_type_arguments(src, true, depth) {
        Ok(_) => {
            skip_blanks(src);
            return Ok(());
        },
        Err(_) => {
            src.set_position(begin);
        },
    }
    match parse_name(src) {
        Ok(_) => {},
        Err(e) => {
            src.set_position(start);
            return Err(e);
        },
    }
    let ghost name = src.position();
    loop
        invariant
            src.inv(),
            src.input() == input,
            input == old(src).input(),
            start == old(src).position(),
            start < src.position(),
            is_position(src.input(), start as int),
            segments_end(input, name, depth as nat) == segments_end(
                input,
                src.position(),
                depth as nat,
            ),
        ensures
            src.inv(),
            src.input() == input,
            start < src.position(),
            segments_end(input, name, depth as nat) == src.position(),
        decreases src.input().len() - src.position(),
    {
        let here = src.current_position();
        if !match_colons(src) {
            break ;
        }
        let found = match parse_type_arguments(src, false, depth) {
            Ok(_) => true,
            Err(_) => parse_name(src).is_ok(),
        };
        if !found || src.current_position() <= here {
            src.set_position(here);
            break ;
        }
    }
    let _ = parse_type_arguments(src, true, depth);
    skip_blanks(src);
    Ok(())
}

/// The ranges of a character class from `pos` on and the position behind
/// them: character literals, each of which may be followed by `-` and the
/// character literal that ends its range, with whitespace between them.
pub open spec fn class_entries(input: Seq<u8>, pos: int) -> (Seq<(char, Option<char>)>, int)
    decreases input.len() - pos,
{
    let begin = blanks(input, pos);
    match read_char_lit(input, begin) {
        Some((lo, behind)) => {
            let range = match after_char(input, behind, '-') {
                Some(dash) => match read_char_lit(input, dash) {
                    Some((hi, end)) => (Some(hi), end),
                    None => (None, behind),
                },
                None => (None, behind),
            };
            if range.1 <= pos || range.1 > input.len() {
                (seq![(lo, range.0)], range.1)
            } else {
                let rest = class_entries(input, range.1);
                (seq![(lo, range.0)] + rest.0, rest.1)
            }
        },
        None => (Seq::empty(), begin),
    }
}

/// The character class at `pos` and the position behind it: between
/// brackets an optional `^` and the ranges, of which there must be one.
pub open spec fn read_class(input: Seq<u8>, pos: int) -> Option<(TermView, int)> {
    match after_char(input, pos, '[') {
        Some(inside) => {
            let negated = after_char(input, inside, '^');
            let entries = class_entries(
                input,
                match negated {
                    Some(p) => p,
                    None => inside,
                },
            );
            match after_char(input, blanks(input, entries.1), ']') {
                Some(end) => if entries.0.len() == 0 {
                    None
                } else {
                    Some((TermView::Class { negative: negated is Some, ranges: entries.0 }, end))
                },
                None => None,
            }
        },
        None => None,
    }
}

/// The term at `pos` and the position behind it.
///
/// Whitespace may stand in front of a term and behind it. A term is, in
/// this order, a string literal, a character literal, the path of a type
/// that names a rule, just as it is written, a character class or a group:
/// a grammar between parentheses, one level deeper.
pub open spec fn read_term(
    input: Seq<u8>,
    pos: int,
    depth: nat,
    lits: Seq<(usize, String)>,
) -> Option<(TermView, int)>
    decreases depth, 1int, 0int,
{
    let begin = blanks(input, pos);
    match read_string(input, begin, lits) {
        Some((v, end)) => Some((TermView::Text(v), blanks(input, end))),
        None => match read_char_lit(input, begin) {
            Some((c, end)) => Some((TermView::Character(c), blanks(input, end))),
            None => match type_end(input, begin, depth) {
                Some(end) => Some(
                    (TermView::Rule(text_between(input, begin, end)), blanks(input, end)),
                ),
                None => match read_class(input, begin) {
                    Some((class, end)) => Some((class, blanks(input, end))),
                    None => match after_char(input, begin, '(') {
                        Some(inside) => if depth == 0 {
                            None
                        } else {
                            let group = read_alternatives(input, inside, (depth - 1) as nat, lits);
                            match after_char(input, group.1, ')') {
                                Some(end) => Some((TermView::Group(group.0), blanks(input, end))),
                                None => None,
                            }
                        },
                        None => None,
                    },
                },
            },
        },
    }
}

/// The number at `pos`, as the machine's word, and the position behind it.
pub open spec fn read_number(input: Seq<u8>, pos: int) -> Option<(usize, int)> {
    match literal::<usize>(input, pos) {
        Literal::Number(n, end) => Some((n as usize, end)),
        _ => None,
    }
}

/// The bounds between braces at `pos` and the position behind them:
/// `{min}`, `{min,}` or `{min,max}`.
pub open spec fn read_bounds(input: Seq<u8>, pos: int) -> Option<(QuantifierView, int)> {
    match after_char(input, pos, '{') {
        Some(inside) => match read_number(input, inside) {
            Some((min, behind)) => {
                let comma = after_char(input, behind, ',');
                let next = match comma {
                    Some(p) => p,
                    None => behind,
                };
                match after_char(input, next, '}') {
                    Some(end) => Some((QuantifierView::Min(min), end)),
                    None => if comma is Some {
                        match read_number(input, next) {
                            Some((max, last)) => match after_char(input, last, '}') {
                                Some(end) => Some((QuantifierView::Range(min, max), end)),
                                None => None,
                            },
                            None => None,
                        }
                    } else {
                        None
                    },
                }
            },
            None => None,
        },
        None => None,
    }
}

/// The quantifier at `pos` and the position behind it: `?`, `+`, `**` and
/// a term that separates, one level deeper, `*`, bounds between braces, or
/// nothing, which stands for exactly once.
pub open spec fn read_quantifier(
    input: Seq<u8>,
    pos: int,
    depth: nat,
    lits: Seq<(usize, String)>,
) -> (QuantifierView, int)
    decreases depth, 2int, 0int,
{
    match after_char(input, pos, '?') {
        Some(end) => (QuantifierView::Optional, end),
        None => match after_char(input, pos, '+') {
            Some(end) => (QuantifierView::AtLeastOnce, end),
            None => match after_char(input, pos, '*') {
                Some(one) => {
                    let separator = if depth == 0 {
                        None
                    } else {
                        match after_char(input, one, '*') {
                            Some(two) => read_term(input, two, (depth - 1) as nat, lits),
                            None => None,
                        }
                    };
                    match separator {
                        Some((t, end)) => (QuantifierView::Separated(Box::new(t)), end),
                        None => (QuantifierView::Unlimited, one),
                    }
                },
                None => match read_bounds(input, pos) {
                    Some(bounds) => bounds,
                    None => (QuantifierView::Once, pos),
                },
            },
        },
    }
}

/// The term at `pos` with its quantifier, and the position behind them.
pub open spec fn read_quantified(
    input: Seq<u8>,
    pos: int,
    depth: nat,
    lits: Seq<(usize, String)>,
) -> Option<
    (TermView, QuantifierView, int),
>
    decreases depth, 3int, 0int,
{
    match read_term(input, pos, depth, lits) {
        Some((t, behind)) => {
            let q = read_quantifier(input, behind, depth, lits);
            Some((t, q.0, q.1))
        },
        None => None,
    }
}

/// The special term at `pos` and the position behind it.
///
/// Behind whitespace, `$` with a name and a colon binds the term that
/// follows, `!` looks ahead for the absence of the term that follows and
/// `_` discards what the term that follows yields. What does not read as
/// one of these is read as a plain term.
pub open spec fn read_special(
    input: Seq<u8>,
    pos: int,
    depth: nat,
    lits: Seq<(usize, String)>,
) -> Option<(SpecialView, int)>
    decreases depth, 4int, 0int,
{
    let begin = blanks(input, pos);
    let marked = match after_char(input, begin, '$') {
        Some(p) => match read_ident(input, p) {
            Some((name, behind)) => match after_char(input, behind, ':') {
                Some(colon) => match read_quantified(input, colon, depth, lits) {
                    Some((t, q, end)) => Some((SpecialView::Binding(name, t, q), end)),
                    None => None,
                },
                None => None,
            },
            None => None,
        },
        None => match after_char(input, begin, '!') {
            Some(p) => match read_quantified(input, p, depth, lits) {
                Some((t, q, end)) => Some((SpecialView::Lookahead(t, q), end)),
                None => None,
            },
            None => match after_char(input, begin, '_') {
                Some(p) => match read_quantified(input, p, depth, lits) {
                    Some((t, q, end)) => Some((SpecialView::Quiet(t, q), end)),
                    None => None,
                },
                None => None,
            },
        },
    };
    match marked {
        Some(m) => Some(m),
        None => match read_quantified(input, pos, depth, lits) {
            Some((t, q, end)) => Some((SpecialView::Plain(t, q), end)),
            None => None,
        },
    }
}

/// The sequence of terms at `pos` and the position behind it: as many
/// special terms as stand there.
pub open spec fn read_alternative(
    input: Seq<u8>,
    pos: int,
    depth: nat,
    lits: Seq<(usize, String)>,
) -> (Seq<SpecialView>, int)
    decreases depth, 5int, input.len() - pos,
{
    match read_special(input, pos, depth, lits) {
        Some((t, end)) => if end <= pos || end > input.len() {
            (seq![t], end)
        } else {
            let rest = read_alternative(input, end, depth, lits);
            (seq![t] + rest.0, rest.1)
        },
        None => (Seq::empty(), pos),
    }
}

/// The alternatives at `pos` and the position behind them: sequences of
/// terms with `|` between them.
pub open spec fn read_choice(
    input: Seq<u8>,
    pos: int,
    depth: nat,
    lits: Seq<(usize, String)>,
) -> (Seq<Seq<SpecialView>>, int)
    decreases depth, 6int, input.len() - pos,
{
    let first = read_alternative(input, pos, depth, lits);
    match after_char(input, first.1, '|') {
        Some(next) => if next <= pos || next > input.len() {
            (seq![first.0], next)
        } else {
            let rest = read_choice(input, next, depth, lits);
            (seq![first.0] + rest.0, rest.1)
        },
        None => (seq![first.0], first.1),
    }
}

/// The grammar at `pos` and the position behind it. Nothing is shared
/// between its alternatives yet.
pub open spec fn read_alternatives(
    input: Seq<u8>,
    pos: int,
    depth: nat,
    lits: Seq<(usize, String)>,
) -> (AlternativesView, int)
    decreases depth, 7int, 0int,
{
    let choice = read_choice(input, pos, depth, lits);
    (AlternativesView { preparse: Seq::empty(), alternatives: choice.0 }, choice.1)
}

/// A character class: between brackets an optional `^` and then
/// characters, each of which may be followed by `-` and the character that
/// ends its range. A class without characters is refused.
pub fn parse_class<S: Source>(src: &mut S) -> (r: Result<Term, Error>)
    requires
        old(src).inv(),
    ensures
        kept(*old(src), *final(src), r),
        read_as(*final(src), r, read_class(old(src).input(), old(src).position())),
{
    let ghost input = src.input();
    let start = src.current_position();
    if !src.match_char('[') {
        return Err(Error::new(Span::new(start, start), "expected character '['"));
    }
    let negative = src.match_char('^');
    let mut ranges: Vec<(char, Option<char>)> = Vec::new();
    let ghost first = src.position();
    proof {
        assert(ranges@ + class_entries(input, first).0 =~= class_entries(input, first).0);
    }
    loop
        invariant_except_break
            class_entries(input, first) == (
                ranges@ + class_entries(input, src.position()).0,
                class_entries(input, src.position()).1,
            ),
        invariant
            src.inv(),
            src.input() == input,
            input == old(src).input(),
            start == old(src).position(),
            start <= src.position(),
            is_position(src.input(), start as int),
        ensures
            src.inv(),
            src.input() == input,
            start <= src.position(),
            is_position(src.input(), start as int),
            class_entries(input, first) == (ranges@, src.position()),
        decreases src.input().len() - src.position(),
    {
        let here = src.current_position();
        skip_blanks(src);
        let lo = match parse_char_lit(src) {
            Ok(c) => c,
            Err(_) => {
                assert(ranges@ + Seq::<(char, Option<char>)>::empty() =~= ranges@);
                break ;
            },
        };
        let mid = src.current_position();
        let hi = if src.match_char('-') {
            match parse_char_lit(src) {
                Ok(c) => Some(c),
                Err(_) => {
                    src.set_position(mid);
                    None
                },
            }
        } else {
            None
        };
        let ghost earlier = ranges@;
        ranges.push((lo, hi));
        let now = src.current_position();
        proof {
            if !(now <= here || now > input.len()) {
                let rest = class_entries(input, now as int);
                assert(earlier + (seq![(lo, hi)] + rest.0) =~= ranges@ + rest.0);
            } else {
                assert(earlier + seq![(lo, hi)] =~= ranges@);
            }
        }
        if now <= here {
            break ;
        }
    }
    skip_blanks(src);
    if !src.match_char(']') {
        return fail(src, start, "expected character ']'");
    }
    if ranges.len() == 0 {
        return fail(src, start, "empty character class");
    }
    Ok(Term::class(negative, ranges))
}

/// A term: a string literal, a character literal, the name of a rule, a
/// character class or a group, with whitespace around it.
pub fn parse_term<S: Source>(
    src: &mut S,
    depth: usize,
    lits: &Vec<(usize, String)>,
) -> (r: Result<Term, Error>)
    requires
        old(src).inv(),
    ensures
        kept(*old(src), *final(src), r),
        read_as(
            *final(src),
            r,
            read_term(old(src).input(), old(src).position(), depth as nat, lits@),
        ),
    decreases depth, 1int,
{
    let start = src.current_position();
    skip_blanks(src);
    let begin = src.current_position();
    if let Ok(s) = parse_string_lit(src, lits) {
        skip_blanks(src);
        return Ok(Term::String(s));
    }
    if let Ok(c) = parse_char_lit(src) {
        skip_blanks(src);
        return Ok(Term::character(c));
    }
    if let Ok(_) = parse_type(src, depth) {
        let name = capture(src, begin);
        skip_blanks(src);
        return Ok(Term::Rule(name));
    }
    if let Ok(class) = parse_class(src) {
        skip_blanks(src);
        return Ok(class);
    }
    if src.match_char('(') {
        if depth == 0 {
            return fail(src, start, "grammar nests too deep");
        }
        let alts = parse_alternatives(src, depth - 1, lits);
        if src.match_char(')') {
            skip_blanks(src);
            return Ok(Term::Group(alts));
        }
        let here = src.current_position();
        src.set_position(start);
        return Err(Error::new(Span::new(here, here), "expected character ')'"));
    }
    src.set_position(start);
    Err(Error::new(Span::new(begin, begin), "expected Term"))
}

/// A number as the machine's word.
fn parse_number<S: Source>(src: &mut S) -> (r: Option<usize>)
    requires
        old(src).inv(),
    ensures
        final(src).inv(),
        final(src).input() == old(src).input(),
        match read_number(old(src).input(), old(src).position()) {
            Some((n, end)) => r == Some(n) && final(src).position() == end && old(src).position()
                <= end,
            None => r is None && final(src).position() == old(src).position(),
        },
{
    match <usize as Parse>::parse(src) {
        Ok(n) => Some(n),
        Err(_) => None,
    }
}

/// Bounds between braces.
fn parse_bounds<S: Source>(src: &mut S) -> (r: Option<Quantifier>)
    requires
        old(src).inv(),
    ensures
        final(src).inv(),
        final(src).input() == old(src).input(),
        match read_bounds(old(src).input(), old(src).position()) {
            Some((q, end)) => r matches Some(v) && v@ == q && final(src).position() == end
                && old(src).position() <= end,
            None => r is None && final(src).position() == old(src).position(),
        },
{
    let start = src.current_position();
    if !src.match_char('{') {
        return None;
    }
    if let Some(min) = parse_number(src) {
        let comma = src.match_char(',');
        if src.match_char('}') {
            return Some(Quantifier::RepeatMin { min });
        }
        if comma {
            if let Some(max) = parse_number(src) {
                if src.match_char('}') {
                    return Some(Quantifier::Repeat { min, max });
                }
            }
        }
    }
    src.set_position(start);
    None
}

/// A quantifier: `?`, `+`, `**` and a separator, `*`, `{min}`, `{min,}`,
/// `{min,max}`, or nothing, which stands for exactly once.
pub fn parse_quantifier<S: Source>(
    src: &mut S,
    depth: usize,
    lits: &Vec<(usize, String)>,
) -> (q: Quantifier)
    requires
        old(src).inv(),
    ensures
        final(src).inv(),
        final(src).input() == old(src).input(),
        old(src).position() <= final(src).position(),
        (q@, final(src).position()) == read_quantifier(
            old(src).input(),
            old(src).position(),
            depth as nat,
            lits@,
        ),
    decreases depth, 2int,
{
    if src.match_char('?') {
        return Quantifier::Optional;
    }
    if src.match_char('+') {
        return Quantifier::RepeatAtleastOnce;
    }
    if src.match_char('*') {
        let one = src.current_position();
        if depth > 0 && src.match_char('*') {
            match parse_term(src, depth - 1, lits) {
                Ok(t) => {
                    return Quantifier::RepeatSeperate { seperator: Box::new(t) };
                },
                Err(_) => {
                    src.set_position(one);
                },
            }
        }
        return Quantifier::RepeatUnlimited;
    }
    match parse_bounds(src) {
        Some(q) => q,
        None => Quantifier::Once,
    }
}

/// A term with the quantifier behind it.
fn parse_quantified<S: Source>(
    src: &mut S,
    depth: usize,
    lits: &Vec<(usize, String)>,
) -> (r: Option<(Term, Quantifier)>)
    requires
        old(src).inv(),
    ensures
        final(src).inv(),
        final(src).input() == old(src).input(),
        match read_quantified(old(src).input(), old(src).position(), depth as nat, lits@) {
            Some((t, q, end)) => {
                &&& r matches Some(v) && v.0@ == t && v.1@ == q
                &&& final(src).position() == end
                &&& old(src).position() <= end
            },
            None => r is None && final(src).position() == old(src).position(),
        },
    decreases depth, 3int,
{
    match parse_term(src, depth, lits) {
        Ok(t) => {
            let q = parse_quantifier(src, depth, lits);
            Some((t, q))
        },
        Err(_) => None,
    }
}

/// A term with what may stand in front of it and the quantifier behind it.
pub fn parse_special<S: Source>(
    src: &mut S,
    depth: usize,
    lits: &Vec<(usize, String)>,
) -> (r: Result<SpecialTerm, Error>)
    requires
        old(src).inv(),
    ensures
        kept(*old(src), *final(src), r),
        read_as(
            *final(src),
            r,
            read_special(old(src).input(), old(src).position(), depth as nat, lits@),
        ),
    decreases depth, 4int,
{
    let start = src.current_position();
    skip_blanks(src);
    if src.match_char('$') {
        if let Ok(name) = parse_ident(src) {
            if src.match_char(':') {
                if let Some((term, q)) = parse_quantified(src, depth, lits) {
                    return Ok(SpecialTerm::Binding(name, term, q));
                }
            }
        }
    } else if src.match_char('!') {
        if let Some((term, q)) = parse_quantified(src, depth, lits) {
            return Ok(SpecialTerm::NegativeLookahead(term, q));
        }
    } else if src.match_char('_') {
        if let Some((term, q)) = parse_quantified(src, depth, lits) {
            return Ok(SpecialTerm::Quiet(term, q));
        }
    }
    src.set_position(start);
    match parse_term(src, depth, lits) {
        Ok(term) => {
            let q = parse_quantifier(src, depth, lits);
            Ok(SpecialTerm::Term(term, q))
        },
        Err(e) => Err(e),
    }
}

/// A sequence of terms: as many as stand there, which may be none.
pub fn parse_alternative<S: Source>(
    src: &mut S,
    depth: usize,
    lits: &Vec<(usize, String)>,
) -> (a: Alternative)
    requires
        old(src).inv(),
    ensures
        final(src).inv(),
        final(src).input() == old(src).input(),
        old(src).position() <= final(src).position(),
        (a@, final(src).position()) == read_alternative(
            old(src).input(),
            old(src).position(),
            depth as nat,
            lits@,
        ),
    decreases depth, 5int,
{
    let ghost input = src.input();
    let mut terms: Vec<SpecialTerm> = Vec::new();
    let ghost mut read: Seq<SpecialView> = Seq::empty();
    proof {
        let all = read_alternative(input, src.position(), depth as nat, lits@);
        assert(read + all.0 =~= all.0);
        assert(terms_view(terms@) =~= read);
    }
    loop
        invariant_except_break
            read_alternative(input, old(src).position(), depth as nat, lits@) == (
                read + read_alternative(input, src.position(), depth as nat, lits@).0,
                read_alternative(input, src.position(), depth as nat, lits@).1,
            ),
        invariant
            src.inv(),
            src.input() == input,
            input == old(src).input(),
            old(src).position() <= src.position(),
            terms_view(terms@) == read,
        ensures
            src.inv(),
            src.input() == input,
            old(src).position() <= src.position(),
            terms_view(terms@) == read,
            read_alternative(input, old(src).position(), depth as nat, lits@) == (read, src.position()),
        decreases src.input().len() - src.position(),
    {
        let here = src.current_position();
        match parse_special(src, depth, lits) {
            Ok(t) => {
                let now = src.current_position();
                let ghost earlier = terms@;
                proof {
                    if !(now <= here || now > input.len()) {
                        let rest = read_alternative(input, now as int, depth as nat, lits@);
                        assert(read + (seq![t@] + rest.0) =~= read.push(t@) + rest.0);
                    } else {
                        assert(read + seq![t@] =~= read.push(t@));
                    }
                    read = read.push(t@);
                }
                terms.push(t);
                assert(terms_view(terms@) =~= read);
                if now <= here {
                    break ;
                }
            },
            Err(_) => {
                assert(read + Seq::<SpecialView>::empty() =~= read);
                break ;
            },
        }
    }
    Alternative { terms }
}

/// A grammar: sequences of terms separated by `|`. Nothing is shared
/// between the alternatives yet: `preparse` is empty.
pub fn parse_alternatives<S: Source>(
    src: &mut S,
    depth: usize,
    lits: &Vec<(usize, String)>,
) -> (a: Alternatives)
    requires
        old(src).inv(),
    ensures
        final(src).inv(),
        final(src).input() == old(src).input(),
        old(src).position() <= final(src).position(),
        (a@, final(src).position()) == read_alternatives(
            old(src).input(),
            old(src).position(),
            depth as nat,
            lits@,
        ),
        a.alternatives@.len() > 0,
    decreases depth, 7int,
{
    let ghost input = src.input();
    let mut alternatives: Vec<Alternative> = Vec::new();
    let ghost mut read: Seq<Seq<SpecialView>> = Seq::empty();
    proof {
        let all = read_choice(input, src.position(), depth as nat, lits@);
        assert(read + all.0 =~= all.0);
        assert(choice_view(alternatives@) =~= read);
    }
    loop
        invariant_except_break
            read_choice(input, old(src).position(), depth as nat, lits@) == (
                read + read_choice(input, src.position(), depth as nat, lits@).0,
                read_choice(input, src.position(), depth as nat, lits@).1,
            ),
        invariant
            src.inv(),
            src.input() == input,
            input == old(src).input(),
            old(src).position() <= src.position(),
            choice_view(alternatives@) == read,
        ensures
            src.inv(),
            src.input() == input,
            old(src).position() <= src.position(),
            choice_view(alternatives@) == read,
            alternatives@.len() > 0,
            read_choice(input, old(src).position(), depth as nat, lits@) == (read, src.position()),
        decreases src.input().len() - src.position(),
    {
        let here = src.current_position();
        let alt = parse_alternative(src, depth, lits);
        let ghost behind = src.position();
        let more = src.match_char('|');
        let now = src.current_position();
        proof {
            if more && !(now <= here || now > input.len()) {
                let rest = read_choice(input, now as int, depth as nat, lits@);
                assert(read + (seq![alt@] + rest.0) =~= read.push(alt@) + rest.0);
            } else {
                assert(read + seq![alt@] =~= read.push(alt@));
            }
            read = read.push(alt@);
        }
        alternatives.push(alt);
        assert(choice_view(alternatives@) =~= read);
        if !more || now <= here {
            break ;
        }
    }
    let a = Alternatives { preparse: Vec::new(), alternatives };
    assert(a@.preparse =~= Seq::<SpecialView>::empty());
    a
}

/// Whether `out` is the grammar that stands at `pos` and `end` the position
/// behind it, for some list of what the string literals of the input stand
/// for.
pub open spec fn grammar_read(input: Seq<u8>, pos: int, out: AlternativesView, end: int) -> bool {
    exists|lits: Seq<(usize, String)>| #[trigger]
        literals_of(input, lits) && (out, end) == read_alternatives(
            input,
            pos,
            MAX_DEPTH as nat,
            lits,
        )
}

/// A grammar reads as `read_alternatives` says, to the depth `MAX_DEPTH`,
/// with the string literals that `syn` reads. It never fails.
impl Parse for Alternatives {
    type Output = Alternatives;

    fn parse<S: Source>(src: &mut S) -> (r: Result<Self::Output, Error>)
        ensures
            r matches Ok(v) && grammar_read(
                old(src).input(),
                old(src).position(),
                v@,
                final(src).position(),
            ),
            quoteless(old(src).input()) ==> (r matches Ok(v) && (v@, final(src).position())
                == read_alternatives(
                old(src).input(),
                old(src).position(),
                MAX_DEPTH as nat,
                Seq::empty(),
            )),
    {
        let lits = string_literals(src);
        let a = parse_alternatives(src, MAX_DEPTH, &lits);
        assert(literals_of(old(src).input(), lits@));
        Ok(a)
    }
}

/// A sequence of terms reads as `read_alternative` says, with the string
/// literals that `syn` reads. It never fails.
impl Parse for Alternative {
    type Output = Alternative;

    fn parse<S: Source>(src: &mut S) -> (r: Result<Self::Output, Error>)
        ensures
            r matches Ok(v) && exists|lits: Seq<(usize, String)>| #[trigger]
                literals_of(old(src).input(), lits) && (v@, final(src).position())
                    == read_alternative(
                    old(src).input(),
                    old(src).position(),
                    MAX_DEPTH as nat,
                    lits,
                ),
            quoteless(old(src).input()) ==> (r matches Ok(v) && (v@, final(src).position())
                == read_alternative(
                old(src).input(),
                old(src).position(),
                MAX_DEPTH as nat,
                Seq::empty(),
            )),
    {
        let lits = string_literals(src);
        let a = parse_alternative(src, MAX_DEPTH, &lits);
        assert(literals_of(old(src).input(), lits@));
        Ok(a)
    }
}

/// A special term reads as `read_special` says, with the string literals
/// that `syn` reads.
impl Parse for SpecialTerm {
    type Output = SpecialTerm;

    fn parse<S: Source>(src: &mut S) -> (r: Result<Self::Output, Error>)
        ensures
            exists|lits: Seq<(usize, String)>| #[trigger]
                literals_of(old(src).input(), lits) && read_as(
                    *final(src),
                    r,
                    read_special(
                        old(src).input(),
                        old(src).position(),
                        MAX_DEPTH as nat,
                        lits,
                    ),
                ),
            quoteless(old(src).input()) ==> read_as(
                *final(src),
                r,
                read_special(
                    old(src).input(),
                    old(src).position(),
                    MAX_DEPTH as nat,
                    Seq::empty(),
                ),
            ),
    {
        let lits = string_literals(src);
        let r = parse_special(src, MAX_DEPTH, &lits);
        assert(literals_of(old(src).input(), lits@));
        r
    }
}

/// A term reads as `read_term` says, with the string literals that `syn`
/// reads.
impl Parse for Term {
    type Output = Term;

    fn parse<S: Source>(src: &mut S) -> (r: Result<Self::Output, Error>)
        ensures
            exists|lits: Seq<(usize, String)>| #[trigger]
                literals_of(old(src).input(), lits) && read_as(
                    *final(src),
                    r,
                    read_term(old(src).input(), old(src).position(), MAX_DEPTH as nat, lits),
                ),
            quoteless(old(src).input()) ==> read_as(
                *final(src),
                r,
                read_term(old(src).input(), old(src).position(), MAX_DEPTH as nat, Seq::empty()),
            ),
    {
        let lits = string_literals(src);
        let r = parse_term(src, MAX_DEPTH, &lits);
        assert(literals_of(old(src).input(), lits@));
        r
    }
}

/// A quantifier reads as `read_quantifier` says, with the string literals
/// that `syn` reads. It never fails.
impl Parse for Quantifier {
    type Output = Quantifier;

    fn parse<S: Source>(src: &mut S) -> (r: Result<Self::Output, Error>)
        ensures
            r matches Ok(v) && exists|lits: Seq<(usize, String)>| #[trigger]
                literals_of(old(src).input(), lits) && (v@, final(src).position())
                    == read_quantifier(
                    old(src).input(),
                    old(src).position(),
                    MAX_DEPTH as nat,
                    lits,
                ),
            quoteless(old(src).input()) ==> (r matches Ok(v) && (v@, final(src).position())
                == read_quantifier(
                old(src).input(),
                old(src).position(),
                MAX_DEPTH as nat,
                Seq::empty(),
            )),
    {
        let lits = string_literals(src);
        let q = parse_quantifier(src, MAX_DEPTH, &lits);
        assert(literals_of(old(src).input(), lits@));
        Ok(q)
    }
}

} // verus!
