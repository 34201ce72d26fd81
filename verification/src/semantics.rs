//! What a grammar means: whether it matches, where its match ends, what it
//! yields and binds on the way, and what it reports where it does not match.
//!
//! The meaning is a function of the grammar, the input, the position and a
//! depth. The depth bounds how deep groups and rules may nest; it is what
//! makes the meaning of a grammar that refers to itself well defined.
//!
//! A name in a grammar refers to a rule of the language, such as `ANY`, to
//! a parser of the library, such as `u32`, `DIGIT<10>` or
//! `Repeat<Item, 1, 8, 44>`, or to a rule of the grammar, in this order.

use vstd::prelude::*;
use vstd::utf8::encode_utf8;
use crate::ast::{
    alternatives_view, Alternatives, AlternativesView, QuantifierView, SpecialView, TermView,
};
use crate::error::{Fault, Span};
use crate::integer::{literal, Literal};
use crate::parse::Parse;
use crate::source::after_char;
use crate::utf8::{bytes_at, scalar_at};
use crate::chars::is_digit_in;
use crate::util::{
    after_class, ALPHABETIC, ALPHANUMERIC, ANY, CONTROL, DIGIT, EOF, SOF, UNICODE_ID_CONTINUE,
    UNICODE_ID_START, WHITESPACE,
};

verus! {

/// What a match yields: the model of the values of the interpreter.
pub enum ValueView {
    /// Nothing.
    Unit,
    /// A character.
    Char(char),
    /// The text of a string literal.
    Text(Seq<char>),
    /// A stretch of input.
    Span(Span),
    /// The value of an optional match.
    Maybe(Option<Box<ValueView>>),
    /// The values of a repetition, in order.
    List(Seq<ValueView>),
    /// The value of a rule: the name of the form that matched and its fields.
    Record { name: Seq<char>, fields: Seq<(Seq<char>, ValueView)> },
    /// The number that an integer literal stands for, by its sign and its
    /// magnitude. Zero has no sign.
    Number { negative: bool, magnitude: nat },
}

/// The value that is the number `n`.
pub open spec fn number_view(n: int) -> ValueView {
    if n < 0 {
        ValueView::Number { negative: true, magnitude: (-n) as nat }
    } else {
        ValueView::Number { negative: false, magnitude: n as nat }
    }
}

/// A binding that a match made: the name of the field, the stretch of
/// input that the bound term consumed and the value it yielded.
pub struct BindView {
    pub name: Seq<char>,
    pub span: Span,
    pub value: ValueView,
}

/// The match of a sequence of terms: where it ends and the bindings it
/// made, in order.
pub struct Run {
    pub end: int,
    pub trace: Seq<BindView>,
}

/// The match of a term: where it ends, the bindings it made and the value
/// it yields.
pub struct Match {
    pub end: int,
    pub trace: Seq<BindView>,
    pub value: ValueView,
}

/// The stretch of input from `start` to `end`.
pub open spec fn span_of(start: int, end: int) -> Span {
    Span(start as usize, end as usize)
}

/// The fault with the message `msg` at `pos`.
pub open spec fn fault_at(pos: int, msg: Seq<char>) -> Fault {
    Fault { span: span_of(pos, pos), msg }
}

/// The run that consumes nothing at `pos`.
pub open spec fn nothing(pos: int) -> Run {
    Run { end: pos, trace: Seq::empty() }
}

/// The run `first` followed by the run `second`.
pub open spec fn then(first: Run, second: Run) -> Run {
    Run { end: second.end, trace: first.trace + second.trace }
}

/// The match without bindings that ends at `end` and yields `value`.
pub open spec fn plain_match(end: int, value: ValueView) -> Match {
    Match { end, trace: Seq::empty(), value }
}

/// The fields that a parsed value has.
pub enum Fields {
    /// Fields with names.
    Named(Vec<String>),
    /// Fields by position: as many as given, called `item0`, `item1` and so on.
    Positional(usize),
    /// No fields.
    Unit,
}

/// One form that a value can take: its fields and the grammar that fills them.
pub struct Variant {
    pub name: String,
    pub fields: Fields,
    pub grammar: Alternatives,
}

/// What a rule parses.
pub enum Shape {
    /// A record: one form.
    Record(Variant),
    /// A tagged union: the first of its forms whose grammar matches.
    Union(Vec<Variant>),
}

/// A rule: a name for a shape.
pub struct Definition {
    pub name: String,
    pub shape: Shape,
}

/// What a form is: its name, the names of its fields and its grammar.
pub struct VariantView {
    pub name: Seq<char>,
    pub fields: Seq<Seq<char>>,
    pub grammar: AlternativesView,
}

/// The decimal digits of `n`.
pub open spec fn decimal(n: nat) -> Seq<char>
    decreases n,
{
    if n < 10 {
        seq![(('0' as u8) + (n as u8)) as char]
    } else {
        decimal(n / 10).push((('0' as u8) + ((n % 10) as u8)) as char)
    }
}

/// The name of the field at the position `i`: `item` and the number.
pub open spec fn item_name_of(i: nat) -> Seq<char> {
    "item"@ + decimal(i)
}

/// The names of the fields, in order. Fields by position are called
/// `item0`, `item1` and so on.
pub open spec fn field_names(f: Fields) -> Seq<Seq<char>> {
    match f {
        Fields::Named(names) => names@.map_values(|s: String| s@),
        Fields::Positional(n) => Seq::new(n as nat, |i: int| item_name_of(i as nat)),
        Fields::Unit => Seq::empty(),
    }
}

/// What a shape is, as far as matching goes.
pub enum ShapeView {
    Record(VariantView),
    Union(Seq<VariantView>),
}

/// What a rule is, as far as matching goes.
pub struct DefinitionView {
    pub name: Seq<char>,
    pub shape: ShapeView,
}

impl View for Variant {
    type V = VariantView;

    open spec fn view(&self) -> VariantView {
        VariantView {
            name: self.name@,
            fields: field_names(self.fields),
            grammar: alternatives_view(self.grammar),
        }
    }
}

impl View for Shape {
    type V = ShapeView;

    open spec fn view(&self) -> ShapeView {
        match *self {
            Shape::Record(v) => ShapeView::Record(v@),
            Shape::Union(variants) => ShapeView::Union(variants@.map_values(|v: Variant| v@)),
        }
    }
}

impl View for Definition {
    type V = DefinitionView;

    open spec fn view(&self) -> DefinitionView {
        DefinitionView { name: self.name@, shape: self.shape@ }
    }
}

/// The rules of a grammar as the meaning of grammars sees them.
pub open spec fn rules_view(rules: Seq<Definition>) -> Seq<DefinitionView> {
    rules.map_values(|d: Definition| d@)
}

/// The rules that the language itself offers.
#[derive(Debug, Clone, Copy, PartialEq, Eq, Structural)]
pub enum Builtin {
    Any,
    Whitespace,
    Alphabetic,
    Alphanumeric,
    Control,
    Digit,
    IdStart,
    IdContinue,
    Eof,
    Sof,
}

/// Whether a byte is a blank that may surround a name: a space, a tab or a
/// line break.
pub open spec fn is_blank(b: u8) -> bool {
    b == 0x20 || b == 0x09 || b == 0x0A || b == 0x0D
}

/// The number of blanks at the start of `bytes` from `i` on.
pub open spec fn blanks_before(bytes: Seq<u8>, i: int) -> int
    decreases bytes.len() - i,
{
    if 0 <= i < bytes.len() && is_blank(bytes[i]) {
        blanks_before(bytes, i + 1)
    } else {
        i
    }
}

/// The end of `bytes` when the blanks before `j` are left off.
pub open spec fn blanks_after(bytes: Seq<u8>, j: int) -> int
    decreases j,
{
    if 0 < j <= bytes.len() && is_blank(bytes[j - 1]) {
        blanks_after(bytes, j - 1)
    } else {
        j
    }
}

/// The bytes without the blanks around them.
pub open spec fn strip(bytes: Seq<u8>) -> Seq<u8> {
    let lo = blanks_before(bytes, 0);
    let hi = blanks_after(bytes, bytes.len() as int);
    if lo <= hi {
        bytes.subrange(lo, hi)
    } else {
        Seq::empty()
    }
}

/// The bytes of a name without the blanks around it. Rules are found by this key.
pub open spec fn key(name: Seq<char>) -> Seq<u8> {
    strip(encode_utf8(name))
}

/// The place of the first `<` in `k` from `i` on.
pub open spec fn angle(k: Seq<u8>, i: int) -> Option<int>
    decreases k.len() - i,
{
    if i < 0 || i >= k.len() {
        None
    } else if k[i] == 0x3C {
        Some(i)
    } else {
        angle(k, i + 1)
    }
}

/// A key that applies a name to type arguments, taken apart: the name in
/// front of its first `<`, and what stands between that and the `>` at its
/// end, both without the blanks around them.
pub open spec fn applied(k: Seq<u8>) -> Option<(Seq<u8>, Seq<u8>)> {
    match angle(k, 0) {
        Some(i) => if i + 1 < k.len() && k[k.len() - 1] == 0x3E {
            Some((strip(k.subrange(0, i)), strip(k.subrange(i + 1, k.len() - 1))))
        } else {
            None
        },
        None => None,
    }
}

/// The number that the first `n` bytes spell in decimal digits.
pub open spec fn digits_value(bytes: Seq<u8>, n: int) -> Option<int>
    decreases n,
{
    if n <= 0 {
        Some(0)
    } else if n > bytes.len() {
        None
    } else {
        match digits_value(bytes, n - 1) {
            Some(v) => if 0x30 <= bytes[n - 1] <= 0x39 {
                Some(v * 10 + (bytes[n - 1] - 0x30))
            } else {
                None
            },
            None => None,
        }
    }
}

/// The place of the first comma from `i` on that stands outside of angle
/// brackets, `nest` of which are open at `i`.
pub open spec fn comma(bytes: Seq<u8>, i: int, nest: nat) -> Option<int>
    decreases bytes.len() - i,
{
    if i < 0 || i >= bytes.len() {
        None
    } else if bytes[i] == 0x2C && nest == 0 {
        Some(i)
    } else if bytes[i] == 0x3C {
        comma(bytes, i + 1, nest + 1)
    } else if bytes[i] == 0x3E && nest > 0 {
        comma(bytes, i + 1, (nest - 1) as nat)
    } else {
        comma(bytes, i + 1, nest)
    }
}

/// The first of the type arguments that the bytes list, and the bytes
/// behind the comma that follows it, if one does.
pub open spec fn first_argument(bytes: Seq<u8>) -> (Seq<u8>, Option<Seq<u8>>) {
    match comma(bytes, 0, 0) {
        Some(i) => (strip(bytes.subrange(0, i)), Some(bytes.subrange(i + 1, bytes.len() as int))),
        None => (strip(bytes), None),
    }
}

/// The number that the bytes spell in decimal digits, where they are at
/// least one digit and the number is at most `limit`.
pub open spec fn number_of(bytes: Seq<u8>, limit: int) -> Option<int> {
    if bytes.len() >= 1 {
        match digits_value(bytes, bytes.len() as int) {
            Some(v) => if v <= limit {
                Some(v)
            } else {
                None
            },
            None => None,
        }
    } else {
        None
    }
}

/// The bounds and the separator of a repetition that is written with a
/// type.
pub struct Bounds {
    pub min: usize,
    pub max: usize,
    /// The number of the character that separates the items. A number that
    /// is no character stands for no separator.
    pub sep: u32,
}

/// The bounds that the type arguments behind the first spell: the least
/// number of items, the greatest and the separator, in this order and each
/// a decimal number. What is not given is zero, the greatest number there
/// is, and no separator.
pub open spec fn bounds_of(rest: Option<Seq<u8>>) -> Option<Bounds> {
    match rest {
        None => Some(Bounds { min: 0, max: usize::MAX, sep: u32::MAX }),
        Some(r) => match number_of(first_argument(r).0, usize::MAX as int) {
            Some(min) => match first_argument(r).1 {
                None => Some(Bounds { min: min as usize, max: usize::MAX, sep: u32::MAX }),
                Some(r) => match number_of(first_argument(r).0, usize::MAX as int) {
                    Some(max) => match first_argument(r).1 {
                        None => Some(
                            Bounds { min: min as usize, max: max as usize, sep: u32::MAX },
                        ),
                        Some(r) => match number_of(strip(r), u32::MAX as int) {
                            Some(sep) => Some(
                                Bounds { min: min as usize, max: max as usize, sep: sep as u32 },
                            ),
                            None => None,
                        },
                    },
                    None => None,
                },
            },
            None => None,
        },
    }
}

/// The character with the given number, if it is one.
pub open spec fn separator_char(sep: u32) -> Option<char> {
    if vstd::utf8::is_scalar(sep) {
        Some(sep as char)
    } else {
        None
    }
}

/// The radix that the bytes spell: one to three decimal digits that make a
/// number of one byte.
pub open spec fn radix_of(bytes: Seq<u8>) -> Option<u8> {
    if 1 <= bytes.len() <= 3 {
        match digits_value(bytes, bytes.len() as int) {
            Some(v) => if v <= 255 {
                Some(v as u8)
            } else {
                None
            },
            None => None,
        }
    } else {
        None
    }
}

/// The integer types, whose names are rules that read an integer literal.
#[derive(Debug, Clone, Copy, PartialEq, Eq, Structural)]
pub enum Width {
    U8,
    U16,
    U32,
    U64,
    U128,
    Usize,
    I8,
    I16,
    I32,
    I64,
    I128,
    Isize,
}

/// The integer type that has the given key.
pub open spec fn integer(k: Seq<u8>) -> Option<Width> {
    if k == encode_utf8("u8"@) {
        Some(Width::U8)
    } else if k == encode_utf8("u16"@) {
        Some(Width::U16)
    } else if k == encode_utf8("u32"@) {
        Some(Width::U32)
    } else if k == encode_utf8("u64"@) {
        Some(Width::U64)
    } else if k == encode_utf8("u128"@) {
        Some(Width::U128)
    } else if k == encode_utf8("usize"@) {
        Some(Width::Usize)
    } else if k == encode_utf8("i8"@) {
        Some(Width::I8)
    } else if k == encode_utf8("i16"@) {
        Some(Width::I16)
    } else if k == encode_utf8("i32"@) {
        Some(Width::I32)
    } else if k == encode_utf8("i64"@) {
        Some(Width::I64)
    } else if k == encode_utf8("i128"@) {
        Some(Width::I128)
    } else if k == encode_utf8("isize"@) {
        Some(Width::Isize)
    } else {
        None
    }
}

/// What a rule that reads an integer literal does at `pos`, given what the
/// literal there amounts to: it yields the number, or reports that no
/// digits stand there or that the type does not hold the number, over the
/// stretch of the literal.
pub open spec fn number_rule(lit: Literal, pos: int) -> Result<(ValueView, int), Fault> {
    match lit {
        Literal::Number(n, end) => Ok((number_view(n), end)),
        Literal::NoDigit(end) => Err(
            Fault { span: span_of(pos, end), msg: "error parsing integer"@ },
        ),
        Literal::Overflow(end) => Err(
            Fault { span: span_of(pos, end), msg: "overflow while parsing integer"@ },
        ),
    }
}

/// What the rule of an integer type does at `pos`.
#[verifier::opaque]
pub open spec fn integer_sem(
    w: Width,
    input: Seq<u8>,
    pos: int,
) -> Result<(ValueView, int), Fault> {
    match w {
        Width::U8 => number_rule(literal::<u8>(input, pos), pos),
        Width::U16 => number_rule(literal::<u16>(input, pos), pos),
        Width::U32 => number_rule(literal::<u32>(input, pos), pos),
        Width::U64 => number_rule(literal::<u64>(input, pos), pos),
        Width::U128 => number_rule(literal::<u128>(input, pos), pos),
        Width::Usize => number_rule(literal::<usize>(input, pos), pos),
        Width::I8 => number_rule(literal::<i8>(input, pos), pos),
        Width::I16 => number_rule(literal::<i16>(input, pos), pos),
        Width::I32 => number_rule(literal::<i32>(input, pos), pos),
        Width::I64 => number_rule(literal::<i64>(input, pos), pos),
        Width::I128 => number_rule(literal::<i128>(input, pos), pos),
        Width::Isize => number_rule(literal::<isize>(input, pos), pos),
    }
}

/// A parser of the library that a name with type arguments refers to.
pub enum Reference {
    /// An integer type: an integer literal that the type holds.
    Integer(Width),
    /// `DIGIT<RADIX>`: a digit of the given radix.
    Digit(u8),
    /// `Recursive<T>` and `Boxed<T>`: what the key `T` refers to.
    Forward(Seq<u8>),
    /// `Repeat<T, MIN, MAX, SEP>` and `RepeatQuiet<T, MIN, MAX, SEP>`: what
    /// the key `T` refers to, over and over, within the bounds. The values
    /// are kept by the first and dropped by the second.
    Repeat { inner: Seq<u8>, bounds: Bounds, keep: bool },
    /// `Option<T>`: what the key `T` refers to, if it matches.
    Maybe(Seq<u8>),
    /// `AND<A, B>`: what the key `A` refers to, then what `B` refers to.
    Pair(Seq<u8>, Seq<u8>),
    /// `OR<A, B>`: what the key `A` refers to, else what `B` refers to.
    Either(Seq<u8>, Seq<u8>),
}

/// The parser of the library that the key refers to: an integer type, or
/// a parser applied to type arguments.
#[verifier::opaque]
pub open spec fn reference(k: Seq<u8>) -> Option<Reference> {
    match integer(k) {
        Some(w) => Some(Reference::Integer(w)),
        None => applied_reference(k),
    }
}

/// The parser of the library that the key applies to type arguments.
pub open spec fn applied_reference(k: Seq<u8>) -> Option<Reference> {
    match applied(k) {
        Some((head, arg)) => if head == encode_utf8("DIGIT"@) {
            match radix_of(arg) {
                Some(radix) => Some(Reference::Digit(radix)),
                None => None,
            }
        } else if head == encode_utf8("Recursive"@) || head == encode_utf8("Boxed"@) {
            Some(Reference::Forward(arg))
        } else if head == encode_utf8("Repeat"@) || head == encode_utf8("RepeatQuiet"@) {
            match bounds_of(first_argument(arg).1) {
                Some(bounds) => Some(
                    Reference::Repeat {
                        inner: first_argument(arg).0,
                        bounds,
                        keep: head == encode_utf8("Repeat"@),
                    },
                ),
                None => None,
            }
        } else if head == encode_utf8("Option"@) {
            Some(Reference::Maybe(arg))
        } else if head == encode_utf8("AND"@) {
            match first_argument(arg).1 {
                Some(second) => Some(Reference::Pair(first_argument(arg).0, strip(second))),
                None => None,
            }
        } else if head == encode_utf8("OR"@) {
            match first_argument(arg).1 {
                Some(second) => Some(Reference::Either(first_argument(arg).0, strip(second))),
                None => None,
            }
        } else {
            None
        },
        None => None,
    }
}

/// Where a digit of the given radix ends that stands at `pos`. No radix
/// but those from 2 to 36 has digits.
pub open spec fn digit_end(input: Seq<u8>, pos: int, radix: u8) -> Option<int> {
    after_class(input, pos, |c: char| 2 <= radix <= 36 && is_digit_in(c, radix as int))
}

/// The rule of the language that has the given key.
pub open spec fn builtin(k: Seq<u8>) -> Option<Builtin> {
    if k == encode_utf8("ANY"@) {
        Some(Builtin::Any)
    } else if k == encode_utf8("WHITESPACE"@) {
        Some(Builtin::Whitespace)
    } else if k == encode_utf8("ALPHABETIC"@) {
        Some(Builtin::Alphabetic)
    } else if k == encode_utf8("ALPHANUMERIC"@) {
        Some(Builtin::Alphanumeric)
    } else if k == encode_utf8("CONTROL"@) {
        Some(Builtin::Control)
    } else if k == encode_utf8("DIGIT"@) {
        Some(Builtin::Digit)
    } else if k == encode_utf8("UNICODE_ID_START"@) {
        Some(Builtin::IdStart)
    } else if k == encode_utf8("UNICODE_ID_CONTINUE"@) {
        Some(Builtin::IdContinue)
    } else if k == encode_utf8("EOF"@) {
        Some(Builtin::Eof)
    } else if k == encode_utf8("SOF"@) {
        Some(Builtin::Sof)
    } else {
        None
    }
}

/// What a rule of the language that takes one character of a class does
/// at `pos`, given where it ends: it yields the character there, or reports
/// `msg`.
pub open spec fn char_rule(end: Option<int>, input: Seq<u8>, pos: int, msg: Seq<char>) -> Result<
    (ValueView, int),
    Fault,
> {
    match end {
        Some(e) => Ok((ValueView::Char(scalar_at(input, pos).unwrap().0), e)),
        None => Err(fault_at(pos, msg)),
    }
}

/// What a rule of the language that only tests the position does, given
/// where it ends.
pub open spec fn test_rule(end: Option<int>, pos: int, msg: Seq<char>) -> Result<
    (ValueView, int),
    Fault,
> {
    match end {
        Some(e) => Ok((ValueView::Unit, e)),
        None => Err(fault_at(pos, msg)),
    }
}

/// What a rule of the language does at `pos`: the value it yields and
/// where it ends, or what it reports. `DIGIT` is a hexadecimal digit.
pub open spec fn builtin_sem(
    b: Builtin,
    input: Seq<u8>,
    pos: int,
) -> Result<(ValueView, int), Fault> {
    match b {
        Builtin::Any => char_rule(ANY::end(input, pos), input, pos, "expected character"@),
        Builtin::Whitespace => char_rule(
            WHITESPACE::end(input, pos),
            input,
            pos,
            "expected whitespace"@,
        ),
        Builtin::Alphabetic => char_rule(
            ALPHABETIC::end(input, pos),
            input,
            pos,
            "expected alphabetic character"@,
        ),
        Builtin::Alphanumeric => char_rule(
            ALPHANUMERIC::end(input, pos),
            input,
            pos,
            "expected alphanumeric character"@,
        ),
        Builtin::Control => char_rule(
            CONTROL::end(input, pos),
            input,
            pos,
            "expected control character"@,
        ),
        Builtin::Digit => char_rule(DIGIT::<16>::end(input, pos), input, pos, "expected digit"@),
        Builtin::IdStart => char_rule(
            UNICODE_ID_START::end(input, pos),
            input,
            pos,
            "error parsing unicode_id_start"@,
        ),
        Builtin::IdContinue => char_rule(
            UNICODE_ID_CONTINUE::end(input, pos),
            input,
            pos,
            "error parsing unicode_id_continue"@,
        ),
        Builtin::Eof => test_rule(EOF::end(input, pos), pos, "expected EOF"@),
        Builtin::Sof => test_rule(SOF::end(input, pos), pos, "expected SOF"@),
    }
}

/// The first rule from `i` on with the key `k`.
pub open spec fn lookup(rules: Seq<DefinitionView>, k: Seq<u8>, i: int) -> Option<DefinitionView>
    decreases rules.len() - i,
{
    if i < 0 || i >= rules.len() {
        None
    } else if key(rules[i].name) == k {
        Some(rules[i])
    } else {
        lookup(rules, k, i + 1)
    }
}

/// Whether `c` lies in one of the ranges from `i` on. A range without an
/// end is the one character it starts with.
pub open spec fn in_ranges(c: char, ranges: Seq<(char, Option<char>)>, i: int) -> bool
    decreases ranges.len() - i,
{
    if i < 0 || i >= ranges.len() {
        false
    } else {
        let hit = match ranges[i].1 {
            Some(hi) => ranges[i].0 <= c <= hi,
            None => c == ranges[i].0,
        };
        hit || in_ranges(c, ranges, i + 1)
    }
}

/// The bounds of a quantifier: the least and the greatest number of matches
/// and whether a separator stands between them.
pub open spec fn bounds(q: QuantifierView) -> (nat, nat) {
    match q {
        QuantifierView::Optional => (0, 1),
        QuantifierView::AtLeastOnce => (1, usize::MAX as nat),
        QuantifierView::Separated(_) => (1, usize::MAX as nat),
        QuantifierView::Unlimited => (0, usize::MAX as nat),
        QuantifierView::Min(min) => (min as nat, usize::MAX as nat),
        QuantifierView::Range(min, max) => (min as nat, max as nat),
        QuantifierView::Once => (1, 1),
    }
}

/// The place of the last of the first `n` bindings that binds `name`.
pub open spec fn last_bound(binds: Seq<BindView>, name: Seq<char>, n: int) -> Option<int>
    decreases n,
{
    if n <= 0 || n > binds.len() {
        None
    } else if encode_utf8(binds[n - 1].name) == encode_utf8(name) {
        Some(n - 1)
    } else {
        last_bound(binds, name, n - 1)
    }
}

/// The bindings that are left when the field `name` has taken its value.
pub open spec fn left_after(binds: Seq<BindView>, name: Seq<char>) -> Seq<BindView> {
    match last_bound(binds, name, binds.len() as int) {
        Some(i) => binds.remove(i),
        None => binds,
    }
}

/// The value that the field `name` takes: the one that was bound to it
/// last, or none where nothing was bound to it.
pub open spec fn value_for(binds: Seq<BindView>, name: Seq<char>) -> ValueView {
    match last_bound(binds, name, binds.len() as int) {
        Some(i) => binds[i].value,
        None => ValueView::Unit,
    }
}

/// The fields filled from the bindings: each field in turn takes the value
/// that was bound to its name last among the bindings still there.
pub open spec fn filled(names: Seq<Seq<char>>, binds: Seq<BindView>) -> Seq<(Seq<char>, ValueView)>
    decreases names.len(),
{
    if names.len() == 0 {
        Seq::empty()
    } else {
        seq![(names[0], value_for(binds, names[0]))] + filled(
            names.drop_first(),
            left_after(binds, names[0]),
        )
    }
}

/// The later of two faults: the one that ends later, and the second on a tie.
pub open spec fn deeper(first: Option<Fault>, second: Fault) -> Fault {
    match first {
        Some(f) => if f.span.1 > second.span.1 {
            f
        } else {
            second
        },
        None => second,
    }
}

/// What a plain term does at `pos`.
///
/// A string literal matches its bytes and a character literal its
/// character; they yield themselves. A class matches one character that
/// lies in one of its ranges, or in none of them where it is negated, and
/// yields it. A group does as its alternatives do, one level deeper, and a
/// rule as its shape does, without handing its bindings on: they belong to
/// the value of the rule.
pub open spec fn term_sem(
    rules: Seq<DefinitionView>,
    term: TermView,
    input: Seq<u8>,
    pos: int,
    depth: nat,
    keep: bool,
) -> Result<Match, Fault>
    decreases depth, 0int, 1int,
{
    match term {
        TermView::Text(s) => if bytes_at(input, pos, encode_utf8(s)) {
            Ok(plain_match(pos + encode_utf8(s).len(), ValueView::Text(s)))
        } else {
            Err(fault_at(pos, "expected string literal '"@ + s + "'"@))
        },
        TermView::Character(c) => match after_char(input, pos, c) {
            Some(end) => Ok(plain_match(end, ValueView::Char(c))),
            None => Err(fault_at(pos, "expected character '"@ + seq![c] + "'"@)),
        },
        TermView::Rule(name) => match rule_sem(rules, key(name), input, pos, depth) {
            Ok((value, end)) => Ok(plain_match(end, value)),
            Err(f) => Err(f),
        },
        TermView::Class { negative, ranges } => match scalar_at(input, pos) {
            Some((c, n)) => if in_ranges(c, ranges, 0) != negative {
                Ok(plain_match(pos + n, ValueView::Char(c)))
            } else {
                Err(fault_at(pos, "failed to match character class"@))
            },
            None => Err(fault_at(pos, "failed to match character class"@)),
        },
        TermView::Group(alts) => if depth == 0 {
            Err(fault_at(pos, "grammar nests too deep"@))
        } else {
            alts_sem(rules, alts, input, pos, (depth - 1) as nat, keep)
        },
    }
}

/// What the rule with the key `k` does at `pos`: what the rule of the
/// language with that key does, else what the parser of the library does
/// that the key applies to type arguments, else what the first rule of the
/// grammar with that key does, one level deeper.
pub open spec fn rule_sem(
    rules: Seq<DefinitionView>,
    k: Seq<u8>,
    input: Seq<u8>,
    pos: int,
    depth: nat,
) -> Result<(ValueView, int), Fault>
    decreases depth, 0int, 0int,
{
    match builtin(k) {
        Some(b) => builtin_sem(b, input, pos),
        None => match reference(k) {
            Some(Reference::Integer(w)) => integer_sem(w, input, pos),
            Some(Reference::Digit(radix)) => char_rule(
                digit_end(input, pos, radix),
                input,
                pos,
                "expected digit"@,
            ),
            Some(r) => if depth == 0 {
                Err(fault_at(pos, "grammar nests too deep"@))
            } else {
                nested_sem(rules, r, input, pos, (depth - 1) as nat)
            },
            None => if depth == 0 {
                Err(fault_at(pos, "grammar nests too deep"@))
            } else {
                match lookup(rules, k, 0) {
                    Some(def) => shape_sem(rules, def, input, pos, (depth - 1) as nat),
                    None => Err(fault_at(pos, "unknown rule"@)),
                }
            },
        },
    }
}

/// What a parser of the library does at `pos` that runs what a key refers
/// to: `Recursive` and `Boxed` do as that does, and a repetition runs it
/// over and over, yields the list of what it yielded, or nothing where the
/// values are dropped, and reports the stretch it matched where the items
/// are fewer than it asks for. `Option` never fails and yields what was
/// found, if anything was. `AND` yields the list of both values and fails
/// as the first of the two that fails. `OR` yields what the first of the
/// two that matches yields and reports the deeper of both faults.
#[verifier::opaque]
pub open spec fn nested_sem(
    rules: Seq<DefinitionView>,
    r: Reference,
    input: Seq<u8>,
    pos: int,
    depth: nat,
) -> Result<(ValueView, int), Fault>
    decreases depth, 10int, 0int,
{
    match r {
        Reference::Forward(inner) => rule_sem(rules, inner, input, pos, depth),
        Reference::Repeat { inner, bounds, keep } => {
            let found = repeat_sem(
                rules,
                inner,
                separator_char(bounds.sep),
                input,
                pos,
                0,
                bounds.max as nat,
                depth,
            );
            if found.0.len() < bounds.min {
                Err(
                    Fault {
                        span: span_of(pos, found.1),
                        msg: "expected minimal number of repeats"@,
                    },
                )
            } else if keep {
                Ok((ValueView::List(found.0), found.1))
            } else {
                Ok((ValueView::Unit, found.1))
            }
        },
        Reference::Maybe(inner) => match rule_sem(rules, inner, input, pos, depth) {
            Ok((v, end)) => Ok((ValueView::Maybe(Some(Box::new(v))), end)),
            Err(_) => Ok((ValueView::Maybe(None), pos)),
        },
        Reference::Pair(a, b) => match rule_sem(rules, a, input, pos, depth) {
            Ok((first, mid)) => match rule_sem(rules, b, input, mid, depth) {
                Ok((second, end)) => Ok((ValueView::List(seq![first, second]), end)),
                Err(f) => Err(f),
            },
            Err(f) => Err(f),
        },
        Reference::Either(a, b) => match rule_sem(rules, a, input, pos, depth) {
            Ok(found) => Ok(found),
            Err(first) => match rule_sem(rules, b, input, pos, depth) {
                Ok(found) => Ok(found),
                Err(second) => Err(deeper(Some(first), second)),
            },
        },
        _ => Err(fault_at(pos, "unknown rule"@)),
    }
}

/// What the rule with the key `inner` yields when it is run over and over
/// from `pos` on, after `count` items, and where the last item ends.
///
/// Before each item but the first the separator must stand, if there is
/// one. The repetition stops at `max` items and where the separator or the
/// rule does not match, in front of the separator. It also stops after an
/// item that did not move forward.
pub open spec fn repeat_sem(
    rules: Seq<DefinitionView>,
    inner: Seq<u8>,
    sep: Option<char>,
    input: Seq<u8>,
    pos: int,
    count: nat,
    max: nat,
    depth: nat,
) -> (Seq<ValueView>, int)
    decreases depth, 0int, 1 + input.len() - pos,
{
    if count >= max || pos < 0 || pos > input.len() {
        (Seq::empty(), pos)
    } else {
        let start = match sep {
            Some(c) => if count > 0 {
                after_char(input, pos, c)
            } else {
                Some(pos)
            },
            None => Some(pos),
        };
        match start {
            Some(s) => match rule_sem(rules, inner, input, s, depth) {
                Ok((v, end)) => if end <= pos || end > input.len() {
                    (seq![v], end)
                } else {
                    let rest = repeat_sem(rules, inner, sep, input, end, count + 1, max, depth);
                    (seq![v] + rest.0, rest.1)
                },
                Err(_) => (Seq::empty(), pos),
            },
            None => (Seq::empty(), pos),
        }
    }
}

/// What a rule of the grammar does at `pos`: a record does as its form
/// does, a union as the first of its forms that matches. A union of which
/// no form matches reports `expected` and its name.
pub open spec fn shape_sem(
    rules: Seq<DefinitionView>,
    def: DefinitionView,
    input: Seq<u8>,
    pos: int,
    depth: nat,
) -> Result<(ValueView, int), Fault>
    decreases depth, 9int, 0int,
{
    match def.shape {
        ShapeView::Record(v) => variant_sem(rules, v, input, pos, depth),
        ShapeView::Union(variants) => match union_sem(rules, variants, 0, input, pos, depth) {
            Some(found) => Ok(found),
            None => Err(fault_at(pos, "expected "@ + def.name)),
        },
    }
}

/// What the first form from `i` on that matches yields, and where it ends.
pub open spec fn union_sem(
    rules: Seq<DefinitionView>,
    variants: Seq<VariantView>,
    i: int,
    input: Seq<u8>,
    pos: int,
    depth: nat,
) -> Option<(ValueView, int)>
    decreases depth, 8int, variants.len() - i,
{
    if i < 0 || i >= variants.len() {
        None
    } else {
        match variant_sem(rules, variants[i], input, pos, depth) {
            Ok(found) => Some(found),
            Err(_) => union_sem(rules, variants, i + 1, input, pos, depth),
        }
    }
}

/// What a form does at `pos`: it matches as its grammar does and yields a
/// record of its fields, filled from what the grammar bound.
pub open spec fn variant_sem(
    rules: Seq<DefinitionView>,
    v: VariantView,
    input: Seq<u8>,
    pos: int,
    depth: nat,
) -> Result<(ValueView, int), Fault>
    decreases depth, 7int, 0int,
{
    match alts_sem(rules, v.grammar, input, pos, depth, true) {
        Ok(m) => Ok((ValueView::Record { name: v.name, fields: filled(v.fields, m.trace) }, m.end)),
        Err(f) => Err(f),
    }
}

/// What a repetition found.
pub struct Rep {
    /// The number of matches.
    pub count: nat,
    /// Where the last match ended.
    pub end: int,
    /// The bindings of the matches, in order.
    pub trace: Seq<BindView>,
    /// The values of the matches, where they are kept.
    pub items: Seq<ValueView>,
    /// What the term reported, where the repetition stopped because the
    /// term did not match.
    pub fault: Option<Fault>,
}

/// A repetition after `count` matches, the last of which ended at `pos`:
/// what it finds from there on.
///
/// Before each match but the first the separator must match, if there is
/// one; what it binds is dropped. The repetition stops where the separator
/// or the term does not match, in front of the separator, and at `max`
/// matches. It also stops after a match that did not move forward, which
/// could only repeat itself.
pub open spec fn rep_sem(
    rules: Seq<DefinitionView>,
    term: TermView,
    sep: Option<TermView>,
    input: Seq<u8>,
    pos: int,
    count: nat,
    max: nat,
    depth: nat,
    keep: bool,
) -> Rep
    decreases depth, 1int, input.len() - pos,
{
    let stopped = Rep { count, end: pos, trace: Seq::empty(), items: Seq::empty(), fault: None };
    if count >= max {
        stopped
    } else {
        let start = match sep {
            Some(s) => if count > 0 {
                match term_sem(rules, s, input, pos, depth, false) {
                    Ok(m) => Some(m.end),
                    Err(_) => None,
                }
            } else {
                Some(pos)
            },
            None => Some(pos),
        };
        match start {
            Some(s) => match term_sem(rules, term, input, s, depth, keep) {
                Ok(m) => {
                    let item: Seq<ValueView> = if keep {
                        seq![m.value]
                    } else {
                        Seq::empty()
                    };
                    if m.end <= pos || m.end > input.len() {
                        Rep {
                            count: count + 1,
                            end: m.end,
                            trace: m.trace,
                            items: item,
                            fault: None,
                        }
                    } else {
                        let rest = rep_sem(
                            rules,
                            term,
                            sep,
                            input,
                            m.end,
                            count + 1,
                            max,
                            depth,
                            keep,
                        );
                        Rep {
                            count: rest.count,
                            end: rest.end,
                            trace: m.trace + rest.trace,
                            items: item + rest.items,
                            fault: rest.fault,
                        }
                    }
                },
                Err(f) => Rep {
                    count,
                    end: pos,
                    trace: Seq::empty(),
                    items: Seq::empty(),
                    fault: Some(f),
                },
            },
            None => stopped,
        }
    }
}

/// The separator of a quantifier, if it has one.
pub open spec fn separator_of(q: QuantifierView) -> Option<TermView> {
    match q {
        QuantifierView::Separated(sep) => Some(*sep),
        _ => None,
    }
}

/// What is reported where a term matched less often than its quantifier
/// asks for: the term's own fault where it was to match once, else that
/// repetitions are missing, over the stretch that was matched.
pub open spec fn too_few(q: QuantifierView, pos: int, found: Rep) -> Fault {
    match q {
        QuantifierView::Once => match found.fault {
            Some(f) => f,
            None => Fault { span: span_of(pos, found.end), msg: "expected a match"@ },
        },
        QuantifierView::AtLeastOnce => Fault {
            span: span_of(pos, found.end),
            msg: "expected at least one repetition"@,
        },
        QuantifierView::Separated(_) => Fault {
            span: span_of(pos, found.end),
            msg: "expected at least one repetition"@,
        },
        _ => Fault { span: span_of(pos, found.end), msg: "expected minimal number of repeats"@ },
    }
}

/// What a term under a quantifier yields: its value where it matches once,
/// its value if it has one where it is optional, and else the list of its
/// values. What is not kept yields nothing.
pub open spec fn quant_value(q: QuantifierView, keep: bool, items: Seq<ValueView>) -> ValueView {
    match q {
        QuantifierView::Once => if items.len() > 0 {
            items.last()
        } else {
            ValueView::Unit
        },
        QuantifierView::Optional => if items.len() > 0 {
            ValueView::Maybe(Some(Box::new(items.last())))
        } else if keep {
            ValueView::Maybe(None)
        } else {
            ValueView::Unit
        },
        _ => if keep {
            ValueView::List(items)
        } else {
            ValueView::Unit
        },
    }
}

/// What a term under its quantifier does at `pos`: as many matches as the
/// quantifier allows and can be found, and a fault where they are fewer
/// than it asks for.
pub open spec fn quant_sem(
    rules: Seq<DefinitionView>,
    term: TermView,
    q: QuantifierView,
    input: Seq<u8>,
    pos: int,
    depth: nat,
    keep: bool,
) -> Result<Match, Fault>
    decreases depth, 2int, 0int,
{
    let found = rep_sem(rules, term, separator_of(q), input, pos, 0, bounds(q).1, depth, keep);
    if found.count < bounds(q).0 {
        Err(too_few(q, pos, found))
    } else {
        Ok(Match { end: found.end, trace: found.trace, value: quant_value(q, keep, found.items) })
    }
}

/// What a special term does at `pos`.
///
/// A binding does as its term does, adds itself to what was bound inside
/// and yields the stretch it consumed. A negative lookahead matches
/// nothing where its term does not match, and reports the stretch that its
/// term matched where it does. A quiet term yields nothing.
pub open spec fn special_sem(
    rules: Seq<DefinitionView>,
    t: SpecialView,
    input: Seq<u8>,
    pos: int,
    depth: nat,
    keep: bool,
) -> Result<Match, Fault>
    decreases depth, 3int, 0int,
{
    match t {
        SpecialView::Binding(name, term, q) => match quant_sem(
            rules,
            term,
            q,
            input,
            pos,
            depth,
            true,
        ) {
            Ok(m) => Ok(
                Match {
                    end: m.end,
                    trace: m.trace.push(
                        BindView { name, span: span_of(pos, m.end), value: m.value },
                    ),
                    value: ValueView::Span(span_of(pos, m.end)),
                },
            ),
            Err(f) => Err(f),
        },
        SpecialView::Lookahead(term, q) => match quant_sem(
            rules,
            term,
            q,
            input,
            pos,
            depth,
            false,
        ) {
            Ok(m) => Err(Fault { span: span_of(pos, m.end), msg: "negative lookahead failed"@ }),
            Err(_) => Ok(plain_match(pos, ValueView::Span(span_of(pos, pos)))),
        },
        SpecialView::Quiet(term, q) => match quant_sem(rules, term, q, input, pos, depth, false) {
            Ok(m) => Ok(Match { end: m.end, trace: m.trace, value: ValueView::Unit }),
            Err(f) => Err(f),
        },
        SpecialView::Plain(term, q) => quant_sem(rules, term, q, input, pos, depth, keep),
    }
}

/// What the terms from `i` on do, one after the other. The first that
/// does not match decides what is reported.
pub open spec fn seq_sem(
    rules: Seq<DefinitionView>,
    terms: Seq<SpecialView>,
    i: int,
    input: Seq<u8>,
    pos: int,
    depth: nat,
    keep: bool,
) -> Result<Run, Fault>
    decreases depth, 4int, terms.len() - i,
{
    if i < 0 || i >= terms.len() {
        Ok(nothing(pos))
    } else {
        match special_sem(rules, terms[i], input, pos, depth, keep) {
            Ok(m) => match seq_sem(rules, terms, i + 1, input, m.end, depth, keep) {
                Ok(rest) => Ok(then(Run { end: m.end, trace: m.trace }, rest)),
                Err(f) => Err(f),
            },
            Err(f) => Err(f),
        }
    }
}

/// What the alternatives from `i` on do at `pos`: the first that matches
/// decides. Where none matches, the fault that ends latest is reported, of
/// those of the alternatives and `best`, and of equals the last.
pub open spec fn choice_sem(
    rules: Seq<DefinitionView>,
    alts: Seq<Seq<SpecialView>>,
    i: int,
    input: Seq<u8>,
    pos: int,
    depth: nat,
    keep: bool,
    best: Option<Fault>,
) -> Result<Run, Fault>
    decreases depth, 5int, alts.len() - i,
{
    if i < 0 || i >= alts.len() {
        match best {
            Some(f) => Err(f),
            None => Err(fault_at(pos, "no alternative"@)),
        }
    } else {
        match seq_sem(rules, alts[i], 0, input, pos, depth, keep) {
            Ok(m) => Ok(m),
            Err(f) => choice_sem(
                rules,
                alts,
                i + 1,
                input,
                pos,
                depth,
                keep,
                Some(deeper(best, f)),
            ),
        }
    }
}

/// What an ordered choice does at `pos`: the terms of `preparse`, then the
/// first alternative that matches where they end. It yields the stretch it
/// consumed. A choice without alternatives does as its `preparse` alone.
pub open spec fn alts_sem(
    rules: Seq<DefinitionView>,
    alts: AlternativesView,
    input: Seq<u8>,
    pos: int,
    depth: nat,
    keep: bool,
) -> Result<Match, Fault>
    decreases depth, 6int, 0int,
{
    match seq_sem(rules, alts.preparse, 0, input, pos, depth, keep) {
        Ok(first) => {
            let all = if alts.alternatives.len() == 0 {
                Ok(first)
            } else {
                match choice_sem(rules, alts.alternatives, 0, input, first.end, depth, keep, None) {
                    Ok(rest) => Ok(then(first, rest)),
                    Err(f) => Err(f),
                }
            };
            match all {
                Ok(run) => Ok(
                    Match {
                        end: run.end,
                        trace: run.trace,
                        value: ValueView::Span(span_of(pos, run.end)),
                    },
                ),
                Err(f) => Err(f),
            }
        },
        Err(f) => Err(f),
    }
}

/// Ordered choice: of the alternatives from `i` on, the first that matches
/// decides. The result is that alternative's own, whatever the alternatives
/// after it would do and whatever the ones before it reported.
pub proof fn lemma_first_match_decides(
    rules: Seq<DefinitionView>,
    alts: Seq<Seq<SpecialView>>,
    i: int,
    j: int,
    input: Seq<u8>,
    pos: int,
    depth: nat,
    keep: bool,
    best: Option<Fault>,
)
    requires
        0 <= i <= j < alts.len(),
        forall|k: int|
            i <= k < j ==> (#[trigger] seq_sem(rules, alts[k], 0, input, pos, depth, keep)) is Err,
        seq_sem(rules, alts[j], 0, input, pos, depth, keep) is Ok,
    ensures
        choice_sem(rules, alts, i, input, pos, depth, keep, best) == seq_sem(
            rules,
            alts[j],
            0,
            input,
            pos,
            depth,
            keep,
        ),
    decreases j - i,
{
    if i < j {
        let f = seq_sem(rules, alts[i], 0, input, pos, depth, keep)->Err_0;
        lemma_first_match_decides(
            rules,
            alts,
            i + 1,
            j,
            input,
            pos,
            depth,
            keep,
            Some(deeper(best, f)),
        );
    }
}

/// A negative lookahead is pure: where it succeeds it ends where it began
/// and binds nothing, whatever its term bound on the way.
pub proof fn lemma_lookahead_is_pure(
    rules: Seq<DefinitionView>,
    term: TermView,
    q: QuantifierView,
    input: Seq<u8>,
    pos: int,
    depth: nat,
    keep: bool,
)
    ensures
        special_sem(rules, SpecialView::Lookahead(term, q), input, pos, depth, keep) matches Ok(m)
            ==> m.end == pos && m.trace == Seq::<BindView>::empty(),
{
}

/// Runs in a row can be grouped either way.
pub proof fn lemma_then_assoc(a: Run, b: Run, c: Run)
    ensures
        then(then(a, b), c) == then(a, then(b, c)),
        then(nothing(a.end), a) == a,
        then(a, nothing(a.end)) == a,
{
    assert((a.trace + b.trace) + c.trace =~= a.trace + (b.trace + c.trace));
    assert(Seq::<BindView>::empty() + a.trace =~= a.trace);
    assert(a.trace + Seq::<BindView>::empty() =~= a.trace);
}

/// The run `first` followed by what `second` does where `first` ends.
pub open spec fn and_then(
    first: Result<Run, Fault>,
    second: spec_fn(int) -> Result<Run,
    Fault>,
) -> Result<
    Run,
    Fault,
> {
    match first {
        Ok(m) => match second(m.end) {
            Ok(rest) => Ok(then(m, rest)),
            Err(f) => Err(f),
        },
        Err(f) => Err(f),
    }
}

/// A sequence put together from two does as the first part, then the second.
pub proof fn lemma_seq_concat(
    rules: Seq<DefinitionView>,
    a: Seq<SpecialView>,
    b: Seq<SpecialView>,
    i: int,
    input: Seq<u8>,
    pos: int,
    depth: nat,
    keep: bool,
)
    requires
        0 <= i <= a.len(),
    ensures
        seq_sem(rules, a + b, i, input, pos, depth, keep) == and_then(
            seq_sem(rules, a, i, input, pos, depth, keep),
            |p: int| seq_sem(rules, b, 0, input, p, depth, keep),
        ),
    decreases a.len() - i,
{
    let second = |p: int| seq_sem(rules, b, 0, input, p, depth, keep);
    if i == a.len() {
        lemma_seq_shift(rules, a + b, a.len() as int, 0, input, pos, depth, keep);
        assert((a + b).subrange(a.len() as int, (a + b).len() as int) =~= b);
        match seq_sem(rules, b, 0, input, pos, depth, keep) {
            Ok(r) => {
                assert(then(nothing(pos), r).trace =~= r.trace);
            },
            Err(_) => {},
        }
    } else {
        assert((a + b)[i] == a[i]);
        match special_sem(rules, a[i], input, pos, depth, keep) {
            Ok(m) => {
                lemma_seq_concat(rules, a, b, i + 1, input, m.end, depth, keep);
                match seq_sem(rules, a, i + 1, input, m.end, depth, keep) {
                    Ok(r) => match second(r.end) {
                        Ok(t) => lemma_then_assoc(Run { end: m.end, trace: m.trace }, r, t),
                        Err(_) => {},
                    },
                    Err(_) => {},
                }
            },
            Err(_) => {},
        }
    }
}

/// The terms from `k + i` on do as the terms of the list without its
/// first `k` do from `i` on.
pub proof fn lemma_seq_shift(
    rules: Seq<DefinitionView>,
    terms: Seq<SpecialView>,
    k: int,
    i: int,
    input: Seq<u8>,
    pos: int,
    depth: nat,
    keep: bool,
)
    requires
        0 <= k <= terms.len(),
        0 <= i,
    ensures
        seq_sem(rules, terms, k + i, input, pos, depth, keep) == seq_sem(
            rules,
            terms.subrange(k, terms.len() as int),
            i,
            input,
            pos,
            depth,
            keep,
        ),
    decreases terms.len() - k - i,
{
    let tail = terms.subrange(k, terms.len() as int);
    if k + i < terms.len() {
        assert(tail[i] == terms[k + i]);
        match special_sem(rules, terms[k + i], input, pos, depth, keep) {
            Ok(m) => lemma_seq_shift(rules, terms, k, i + 1, input, m.end, depth, keep),
            Err(_) => {},
        }
    }
}

} // verus!
