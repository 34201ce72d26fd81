//! Running a grammar against a source.
//!
//! A grammar is run as the syntax tree says: terms in sequence, alternatives
//! in order, each rule under its name. Whatever fails leaves the source and
//! the bindings as it found them.

use vstd::prelude::*;
use vstd::string::*;
use vstd::utf8::encode_utf8;
use crate::ast::{terms_view, Alternatives, Quantifier, SpecialTerm, Term};
use crate::error::{Error, Fault, Span};
use crate::integer::{literal, Integer};
use crate::parse::{span_in, Parse};
use crate::semantics::{
    alts_sem, angle, blanks_after, blanks_before, bounds_of, builtin, builtin_sem, char_rule,
    choice_sem, comma, decimal, deeper, digit_end, digits_value, fault_at, field_names, filled,
    first_argument, in_ranges, integer, integer_sem, item_name_of, key, last_bound, left_after,
    lemma_then_assoc, lookup, nested_sem, nothing, number_of, number_rule, number_view, quant_sem,
    radix_of, reference, rep_sem, repeat_sem, rule_sem, rules_view, separator_of, seq_sem,
    shape_sem, span_of, special_sem, strip, term_sem, then, union_sem, value_for, variant_sem,
    BindView, Bounds, Builtin, Definition, DefinitionView, Fields, Match, Reference, Rep, Run,
    Shape, ValueView, Variant, Width,
};
use crate::source::Source;
use crate::utf8::{is_position, lemma_step_is_position};
use crate::util::{
    ALPHABETIC, ALPHANUMERIC, ANY, CONTROL, DIGIT, EOF, SOF, UNICODE_ID_CONTINUE, UNICODE_ID_START,
    WHITESPACE,
};

verus! {

/// `String::push` appends one character.
pub assume_specification[ std::string::String::push ](s: &mut std::string::String, ch: char)
    ensures
        final(s)@ == old(s)@.push(ch),
;

/// What a match yields.
#[derive(Debug, PartialEq, Eq)]
pub enum Value {
    /// Nothing: the value of a match that was discarded, and of a field
    /// that nothing was bound to.
    Unit,
    /// A character.
    Char(char),
    /// The text of a string literal.
    Text(String),
    /// The stretch of input that a group or a binding consumed.
    Span(Span),
    /// The value of an optional match.
    Maybe(Option<Box<Value>>),
    /// The values of a repetition, in order.
    List(Vec<Value>),
    /// The value of a rule: the name of the form that matched and its fields.
    Record { name: String, fields: Vec<(String, Value)> },
    /// The number that an integer literal stands for, by its sign and its
    /// magnitude. Zero has no sign.
    Number { negative: bool, magnitude: u128 },
}

/// A binding that was made: the name of the field, the stretch of input
/// that the bound term consumed, and the value it yielded.
#[derive(Debug, PartialEq, Eq)]
pub struct Bind {
    pub name: String,
    pub span: Span,
    pub value: Value,
}

/// A grammar: the rules that its terms can refer to.
pub struct Grammar {
    pub rules: Vec<Definition>,
}

impl View for Grammar {
    type V = Seq<DefinitionView>;

    open spec fn view(&self) -> Seq<DefinitionView> {
        rules_view(self.rules@)
    }
}

/// The model of a value.
pub open spec fn value_view(v: Value) -> ValueView
    decreases v,
{
    match v {
        Value::Unit => ValueView::Unit,
        Value::Char(c) => ValueView::Char(c),
        Value::Text(s) => ValueView::Text(s@),
        Value::Span(s) => ValueView::Span(s),
        Value::Maybe(o) => match o {
            Some(b) => ValueView::Maybe(Some(Box::new(value_view(*b)))),
            None => ValueView::Maybe(None),
        },
        Value::List(items) => ValueView::List(values_view(items@)),
        Value::Record { name, fields } => ValueView::Record {
            name: name@,
            fields: fields_view(fields@),
        },
        Value::Number { negative, magnitude } => ValueView::Number {
            negative,
            magnitude: magnitude as nat,
        },
    }
}

/// The models of a list of values.
pub open spec fn values_view(vs: Seq<Value>) -> Seq<ValueView>
    decreases vs,
{
    Seq::new(
        vs.len(),
        |i: int|
            if 0 <= i < vs.len() {
                value_view(vs[i])
            } else {
                arbitrary()
            },
    )
}

/// The models of the fields of a record.
pub open spec fn fields_view(fs: Seq<(String, Value)>) -> Seq<(Seq<char>, ValueView)>
    decreases fs,
{
    Seq::new(
        fs.len(),
        |i: int|
            if 0 <= i < fs.len() {
                (fs[i].0@, value_view(fs[i].1))
            } else {
                arbitrary()
            },
    )
}

impl View for Value {
    type V = ValueView;

    open spec fn view(&self) -> ValueView {
        value_view(*self)
    }
}

impl View for Bind {
    type V = BindView;

    open spec fn view(&self) -> BindView {
        BindView { name: self.name@, span: self.span, value: self.value@ }
    }
}

impl Value {
    /// The value that is the character `c`.
    pub fn character(c: char) -> (v: Value)
        ensures
            v@ == ValueView::Char(c),
    {
        Value::Char(c)
    }
}

/// The bindings as the meaning of grammars records them.
pub open spec fn trace_of(out: Seq<Bind>) -> Seq<BindView> {
    out.map_values(|b: Bind| b@)
}

/// The run of a match: where it ends and what it binds.
pub open spec fn run_of(m: Result<Match, Fault>) -> Result<Run, Fault> {
    match m {
        Ok(m) => Ok(Run { end: m.end, trace: m.trace }),
        Err(f) => Err(f),
    }
}

/// Whether a run did what the grammar means.
///
/// The run started at `pos` with the bindings `before` and came back with
/// `r`, at `after_pos` and with the bindings `after`. Where the grammar
/// matches, the run succeeded, stopped where the match ends and added the
/// bindings of the match behind those that were there. Where it does not
/// match, the run failed with the error that the grammar reports and left
/// the position and the bindings as they were.
pub open spec fn agrees<V>(
    input: Seq<u8>,
    pos: int,
    before: Seq<Bind>,
    after_pos: int,
    after: Seq<Bind>,
    meaning: Result<Run, Fault>,
    r: Result<V, Error>,
) -> bool {
    match meaning {
        Ok(m) => {
            &&& r is Ok
            &&& after_pos == m.end
            &&& pos <= m.end
            &&& before.len() <= after.len()
            &&& after.subrange(0, before.len() as int) == before
            &&& trace_of(after) == trace_of(before) + m.trace
        },
        Err(f) => {
            &&& r matches Err(e)
            &&& e@ == f
            &&& span_in(input, e.span)
            &&& after_pos == pos
            &&& after == before
        },
    }
}

/// Whether the value that a run came back with is the one that the grammar
/// means.
pub open spec fn yields(meaning: Result<Match, Fault>, r: Result<Value, Error>) -> bool {
    match (meaning, r) {
        (Ok(m), Ok(v)) => v@ == m.value,
        _ => true,
    }
}

/// The stretch of `bytes` without the blanks around it.
fn trim(bytes: &[u8]) -> (r: (usize, usize))
    ensures
        r.0 == blanks_before(bytes@, 0),
        r.1 == blanks_after(bytes@, bytes@.len() as int),
        r.0 <= bytes@.len(),
        r.1 <= bytes@.len(),
{
    let mut lo: usize = 0;
    while lo < bytes.len() && (bytes[lo] == 0x20 || bytes[lo] == 0x09 || bytes[lo] == 0x0A
        || bytes[lo] == 0x0D)
        invariant
            lo <= bytes@.len(),
            blanks_before(bytes@, 0) == blanks_before(bytes@, lo as int),
        decreases bytes@.len() - lo,
    {
        lo = lo + 1;
    }
    let mut hi: usize = bytes.len();
    while hi > 0 && (bytes[hi - 1] == 0x20 || bytes[hi - 1] == 0x09 || bytes[hi - 1] == 0x0A
        || bytes[hi - 1] == 0x0D)
        invariant
            hi <= bytes@.len(),
            blanks_after(bytes@, bytes@.len() as int) == blanks_after(bytes@, hi as int),
        decreases hi,
    {
        hi = hi - 1;
    }
    (lo, hi)
}

/// The key of a name: its bytes without the blanks around them.
pub fn key_of<'a>(name: &'a str) -> (k: &'a [u8])
    ensures
        k@ == key(name@),
{
    stripped(name.as_bytes())
}

/// The bytes without the blanks around them.
fn stripped<'a>(bytes: &'a [u8]) -> (k: &'a [u8])
    ensures
        k@ == strip(bytes@),
{
    let (lo, hi) = trim(bytes);
    if lo <= hi {
        vstd::slice::slice_subrange(bytes, lo, hi)
    } else {
        let none = vstd::slice::slice_subrange(bytes, 0, 0);
        assert(none@ =~= Seq::<u8>::empty());
        none
    }
}

/// Whether two stretches of bytes are the same.
fn same_bytes(a: &[u8], b: &[u8]) -> (r: bool)
    ensures
        r == (a@ == b@),
{
    if a.len() != b.len() {
        return false;
    }
    let mut i: usize = 0;
    while i < a.len()
        invariant
            i <= a@.len(),
            a@.len() == b@.len(),
            forall|j: int| 0 <= j < i ==> a@[j] == b@[j],
        decreases a@.len() - i,
    {
        if a[i] != b[i] {
            return false;
        }
        i = i + 1;
    }
    assert(a@ =~= b@);
    true
}

/// Whether the key is the word.
fn is_word(k: &[u8], word: &str) -> (r: bool)
    ensures
        r == (k@ == encode_utf8(word@)),
{
    same_bytes(k, word.as_bytes())
}

/// Whether two names have the same key.
pub fn same_key(a: &str, b: &str) -> (r: bool)
    ensures
        r == (key(a@) == key(b@)),
{
    same_bytes(key_of(a), key_of(b))
}

/// The rule of the language that `name` refers to.
pub fn builtin_of(name: &str) -> (r: Option<Builtin>)
    ensures
        r == builtin(key(name@)),
{
    builtin_at(key_of(name))
}

/// The rule of the language that has the given key.
fn builtin_at(k: &[u8]) -> (r: Option<Builtin>)
    ensures
        r == builtin(k@),
{
    if is_word(k, "ANY") {
        Some(Builtin::Any)
    } else if is_word(k, "WHITESPACE") {
        Some(Builtin::Whitespace)
    } else if is_word(k, "ALPHABETIC") {
        Some(Builtin::Alphabetic)
    } else if is_word(k, "ALPHANUMERIC") {
        Some(Builtin::Alphanumeric)
    } else if is_word(k, "CONTROL") {
        Some(Builtin::Control)
    } else if is_word(k, "DIGIT") {
        Some(Builtin::Digit)
    } else if is_word(k, "UNICODE_ID_START") {
        Some(Builtin::IdStart)
    } else if is_word(k, "UNICODE_ID_CONTINUE") {
        Some(Builtin::IdContinue)
    } else if is_word(k, "EOF") {
        Some(Builtin::Eof)
    } else if is_word(k, "SOF") {
        Some(Builtin::Sof)
    } else {
        None
    }
}

/// A parser of the library that a key refers to, with the key of what it
/// forwards to as a stretch of the key itself.
pub enum Applied<'a> {
    Integer(Width),
    Digit(u8),
    Forward(&'a [u8]),
    Repeat { inner: &'a [u8], bounds: Bounds, keep: bool },
    Maybe(&'a [u8]),
    Pair(&'a [u8], &'a [u8]),
    Either(&'a [u8], &'a [u8]),
}

impl<'a> Applied<'a> {
    /// The model of the reference.
    pub open spec fn view(self) -> Reference {
        match self {
            Applied::Integer(w) => Reference::Integer(w),
            Applied::Digit(radix) => Reference::Digit(radix),
            Applied::Forward(inner) => Reference::Forward(inner@),
            Applied::Repeat { inner, bounds, keep } => Reference::Repeat {
                inner: inner@,
                bounds,
                keep,
            },
            Applied::Maybe(inner) => Reference::Maybe(inner@),
            Applied::Pair(a, b) => Reference::Pair(a@, b@),
            Applied::Either(a, b) => Reference::Either(a@, b@),
        }
    }
}

/// The model of a reference that may not be there.
pub open spec fn reference_of(a: Option<Applied>) -> Option<Reference> {
    match a {
        Some(a) => Some(a.view()),
        None => None,
    }
}

/// The radix that the bytes spell.
fn radix(bytes: &[u8]) -> (r: Option<u8>)
    ensures
        r == radix_of(bytes@),
{
    if bytes.len() < 1 || bytes.len() > 3 {
        return None;
    }
    let mut value: u32 = 0;
    let mut i: usize = 0;
    while i < bytes.len()
        invariant
            i <= bytes@.len() <= 3,
            digits_value(bytes@, i as int) == Some(value as int),
            value < 1000,
            i < 3 ==> value < 100,
            i < 2 ==> value < 10,
            i < 1 ==> value == 0,
        decreases bytes@.len() - i,
    {
        let b = bytes[i];
        if b < 0x30 || b > 0x39 {
            proof {
                lemma_digits_stop(bytes@, i + 1, bytes@.len() as int);
            }
            return None;
        }
        let d: u32 = (b - 0x30) as u32;
        value = value * 10 + d;
        i = i + 1;
    }
    if value <= 255 {
        Some(value as u8)
    } else {
        None
    }
}

/// Bytes that spell no number up to some place spell none beyond it.
proof fn lemma_digits_stop(bytes: Seq<u8>, n: int, m: int)
    requires
        0 < n <= m <= bytes.len(),
        digits_value(bytes, n) is None,
    ensures
        digits_value(bytes, m) is None,
    decreases m - n,
{
    if n < m {
        lemma_digits_stop(bytes, n, m - 1);
    }
}

/// The place of the first `<` in the key.
fn find_angle(k: &[u8]) -> (r: Option<usize>)
    ensures
        match r {
            Some(i) => angle(k@, 0) == Some(i as int) && i < k@.len(),
            None => angle(k@, 0) is None,
        },
{
    let mut i: usize = 0;
    while i < k.len()
        invariant
            i <= k@.len(),
            angle(k@, 0) == angle(k@, i as int),
        decreases k@.len() - i,
    {
        if k[i] == 0x3C {
            return Some(i);
        }
        i = i + 1;
    }
    None
}

/// The integer type that has the given key.
fn integer_at(k: &[u8]) -> (r: Option<Width>)
    ensures
        r == integer(k@),
{
    if is_word(k, "u8") {
        Some(Width::U8)
    } else if is_word(k, "u16") {
        Some(Width::U16)
    } else if is_word(k, "u32") {
        Some(Width::U32)
    } else if is_word(k, "u64") {
        Some(Width::U64)
    } else if is_word(k, "u128") {
        Some(Width::U128)
    } else if is_word(k, "usize") {
        Some(Width::Usize)
    } else if is_word(k, "i8") {
        Some(Width::I8)
    } else if is_word(k, "i16") {
        Some(Width::I16)
    } else if is_word(k, "i32") {
        Some(Width::I32)
    } else if is_word(k, "i64") {
        Some(Width::I64)
    } else if is_word(k, "i128") {
        Some(Width::I128)
    } else if is_word(k, "isize") {
        Some(Width::Isize)
    } else {
        None
    }
}

/// The place of the first comma from `from` on that stands outside of
/// angle brackets.
fn find_comma(bytes: &[u8]) -> (r: Option<usize>)
    ensures
        match r {
            Some(i) => comma(bytes@, 0, 0) == Some(i as int) && i < bytes@.len(),
            None => comma(bytes@, 0, 0) is None,
        },
{
    let mut i: usize = 0;
    let mut nest: usize = 0;
    while i < bytes.len()
        invariant
            i <= bytes@.len(),
            nest <= i,
            comma(bytes@, 0, 0) == comma(bytes@, i as int, nest as nat),
        decreases bytes@.len() - i,
    {
        let b = bytes[i];
        if b == 0x2C && nest == 0 {
            return Some(i);
        } else if b == 0x3C {
            nest = nest + 1;
        } else if b == 0x3E && nest > 0 {
            nest = nest - 1;
        }
        i = i + 1;
    }
    None
}

/// The first of the type arguments that the bytes list, and the bytes
/// behind the comma that follows it, if one does.
fn split_argument<'a>(bytes: &'a [u8]) -> (r: (&'a [u8], Option<&'a [u8]>))
    ensures
        r.0@ == first_argument(bytes@).0,
        match r.1 {
            Some(rest) => first_argument(bytes@).1 == Some(rest@),
            None => first_argument(bytes@).1 is None,
        },
{
    match find_comma(bytes) {
        Some(i) => {
            let n = bytes.len();
            let first = stripped(vstd::slice::slice_subrange(bytes, 0, i));
            let rest = vstd::slice::slice_subrange(bytes, i + 1, n);
            (first, Some(rest))
        },
        None => (stripped(bytes), None),
    }
}

/// The number that the bytes spell in decimal digits, up to `limit`.
fn number(bytes: &[u8], limit: u64) -> (r: Option<u64>)
    ensures
        match r {
            Some(n) => number_of(bytes@, limit as int) == Some(n as int),
            None => number_of(bytes@, limit as int) is None,
        },
{
    if bytes.len() < 1 {
        return None;
    }
    let mut value: u64 = 0;
    let mut i: usize = 0;
    while i < bytes.len()
        invariant
            i <= bytes@.len(),
            digits_value(bytes@, i as int) == Some(value as int),
            value <= limit,
        decreases bytes@.len() - i,
    {
        let b = bytes[i];
        if b < 0x30 || b > 0x39 {
            proof {
                lemma_digits_stop(bytes@, i + 1, bytes@.len() as int);
            }
            return None;
        }
        let d: u64 = (b - 0x30) as u64;
        if d > limit || value > (limit - d) / 10 {
            proof {
                assert(value * 10 + d > limit) by (nonlinear_arith)
                    requires
                        d > limit || value > (limit - d) / 10,
                        0 <= d,
                        0 <= value,
                ;
                lemma_digits_grow(bytes@, i + 1, bytes@.len() as int);
            }
            return None;
        }
        assert(value * 10 + d <= limit) by (nonlinear_arith)
            requires
                value <= (limit - d) / 10,
                d <= limit,
                0 <= value,
        ;
        value = value * 10 + d;
        i = i + 1;
    }
    Some(value)
}

/// The number that bytes spell is not negative.
proof fn lemma_digits_positive(bytes: Seq<u8>, m: int)
    ensures
        digits_value(bytes, m) matches Some(v) ==> v >= 0,
    decreases m,
{
    if 0 < m <= bytes.len() {
        lemma_digits_positive(bytes, m - 1);
    }
}

/// The number that bytes spell does not get less with more digits.
proof fn lemma_digits_grow(bytes: Seq<u8>, n: int, m: int)
    requires
        0 <= n <= m <= bytes.len(),
    ensures
        match digits_value(bytes, m) {
            Some(v) => digits_value(bytes, n) matches Some(w) && 0 <= w <= v,
            None => true,
        },
    decreases m - n,
{
    lemma_digits_positive(bytes, m);
    if n < m {
        lemma_digits_grow(bytes, n, m - 1);
        lemma_digits_positive(bytes, m - 1);
    }
}

/// The bounds that the type arguments behind the first spell.
fn bounds_at(rest: Option<&[u8]>) -> (r: Option<Bounds>)
    ensures
        r == bounds_of(
            match rest {
                Some(bytes) => Some(bytes@),
                None => None,
            },
        ),
{
    let none = Bounds { min: 0, max: usize::MAX, sep: u32::MAX };
    let first = match rest {
        Some(bytes) => bytes,
        None => {
            return Some(none);
        },
    };
    let (text, rest) = split_argument(first);
    let min = match number(text, usize::MAX as u64) {
        Some(n) => n as usize,
        None => {
            return None;
        },
    };
    let second = match rest {
        Some(bytes) => bytes,
        None => {
            return Some(Bounds { min, max: usize::MAX, sep: u32::MAX });
        },
    };
    let (text, rest) = split_argument(second);
    let max = match number(text, usize::MAX as u64) {
        Some(n) => n as usize,
        None => {
            return None;
        },
    };
    let third = match rest {
        Some(bytes) => bytes,
        None => {
            return Some(Bounds { min, max, sep: u32::MAX });
        },
    };
    match number(stripped(third), u32::MAX as u64) {
        Some(n) => Some(Bounds { min, max, sep: n as u32 }),
        None => None,
    }
}

/// The parser of the library that the key refers to: an integer type, or
/// a parser applied to type arguments.
pub fn reference_at<'a>(k: &'a [u8]) -> (r: Option<Applied<'a>>)
    ensures
        reference_of(r) == reference(k@),
{
    proof {
        reveal(reference);
    }
    if let Some(w) = integer_at(k) {
        return Some(Applied::Integer(w));
    }
    let at = match find_angle(k) {
        Some(i) => i,
        None => {
            return None;
        },
    };
    if at >= k.len() - 1 || k[k.len() - 1] != 0x3E {
        return None;
    }
    let head = stripped(vstd::slice::slice_subrange(k, 0, at));
    let arg = stripped(vstd::slice::slice_subrange(k, at + 1, k.len() - 1));
    if is_word(head, "DIGIT") {
        match radix(arg) {
            Some(n) => Some(Applied::Digit(n)),
            None => None,
        }
    } else if is_word(head, "Recursive") || is_word(head, "Boxed") {
        Some(Applied::Forward(arg))
    } else if is_word(head, "Repeat") || is_word(head, "RepeatQuiet") {
        let (inner, rest) = split_argument(arg);
        match bounds_at(rest) {
            Some(bounds) => Some(Applied::Repeat { inner, bounds, keep: is_word(head, "Repeat") }),
            None => None,
        }
    } else if is_word(head, "Option") {
        Some(Applied::Maybe(arg))
    } else if is_word(head, "AND") {
        let (first, rest) = split_argument(arg);
        match rest {
            Some(second) => Some(Applied::Pair(first, stripped(second))),
            None => None,
        }
    } else if is_word(head, "OR") {
        let (first, rest) = split_argument(arg);
        match rest {
            Some(second) => Some(Applied::Either(first, stripped(second))),
            None => None,
        }
    } else {
        None
    }
}

/// Whether a run of a rule did what the rule means: it succeeded with the
/// value that the rule yields and stopped where the rule's match ends, or
/// failed with the error that the rule reports and stayed where it was.
pub open spec fn lands(
    input: Seq<u8>,
    pos: int,
    after_pos: int,
    meaning: Result<(ValueView, int), Fault>,
    r: Result<Value, Error>,
) -> bool {
    match meaning {
        Ok((value, end)) => r matches Ok(v) && v@ == value && after_pos == end && pos <= end,
        Err(f) => r matches Err(e) && e@ == f && span_in(input, e.span) && after_pos == pos,
    }
}

/// The model of an error that may not be there.
pub open spec fn fault_of(e: Option<Error>) -> Option<Fault> {
    match e {
        Some(e) => Some(e@),
        None => None,
    }
}

/// The later of two errors: the one that ends later, and the second on a tie.
fn deeper_of(first: Option<Error>, second: Error) -> (e: Error)
    ensures
        e@ == deeper(fault_of(first), second@),
        e.span == second.span || (first matches Some(f) && e.span == f.span),
{
    match first {
        Some(f) => if f.span.1 > second.span.1 {
            f
        } else {
            second
        },
        None => second,
    }
}

/// An error at `pos` that says `what`, then `detail` and a closing quote.
fn expected_error(pos: usize, what: &str, detail: &str) -> (e: Error)
    ensures
        e@ == fault_at(pos as int, what@ + detail@ + "'"@),
{
    let mut msg = String::from_str(what);
    msg.append(detail);
    msg.append("'");
    Error { msg, span: Span(pos, pos) }
}

/// An error at `pos` that says that `name` was expected.
fn named_error(pos: usize, name: &str) -> (e: Error)
    ensures
        e@ == fault_at(pos as int, "expected "@ + name@),
{
    let mut msg = String::from_str("expected ");
    msg.append(name);
    Error { msg, span: Span(pos, pos) }
}

/// Whether `c` lies in one of the ranges.
fn char_in_ranges(c: char, ranges: &Vec<(char, Option<char>)>) -> (r: bool)
    ensures
        r == in_ranges(c, ranges@, 0),
{
    let mut i: usize = 0;
    while i < ranges.len()
        invariant
            i <= ranges@.len(),
            in_ranges(c, ranges@, 0) == in_ranges(c, ranges@, i as int),
        decreases ranges@.len() - i,
    {
        let hit = match ranges[i].1 {
            Some(hi) => ranges[i].0 <= c && c <= hi,
            None => c == ranges[i].0,
        };
        if hit {
            return true;
        }
        i = i + 1;
    }
    false
}

/// The value of a rule of the language that yields a character.
fn char_value(r: Result<char, Error>) -> (v: Result<Value, Error>)
    ensures
        match r {
            Ok(c) => v matches Ok(val) && val@ == ValueView::Char(c),
            Err(e) => v == Err::<Value, Error>(e),
        },
{
    match r {
        Ok(c) => Ok(Value::character(c)),
        Err(e) => Err(e),
    }
}

/// The value of a rule of the language that yields nothing.
fn unit_value(r: Result<(), Error>) -> (v: Result<Value, Error>)
    ensures
        match r {
            Ok(_) => v matches Ok(val) && val@ == ValueView::Unit,
            Err(e) => v == Err::<Value, Error>(e),
        },
{
    match r {
        Ok(_) => Ok(Value::Unit),
        Err(e) => Err(e),
    }
}

/// The value of a rule that reads an integer literal.
fn number_value<I: Integer>(r: Result<I, Error>) -> (v: Result<Value, Error>)
    ensures
        match r {
            Ok(n) => v matches Ok(val) && val@ == number_view(n.number()),
            Err(e) => v == Err::<Value, Error>(e),
        },
{
    match r {
        Ok(n) => {
            let (negative, magnitude) = n.magnitude();
            Ok(Value::Number { negative, magnitude })
        },
        Err(e) => Err(e),
    }
}

/// Runs the parser of the integer type `I`.
fn run_number<I: Integer, S: Source>(src: &mut S) -> (r: Result<Value, Error>)
    requires
        old(src).inv(),
    ensures
        final(src).inv(),
        final(src).input() == old(src).input(),
        lands(
            old(src).input(),
            old(src).position(),
            final(src).position(),
            number_rule(literal::<I>(old(src).input(), old(src).position()), old(src).position()),
            r,
        ),
{
    number_value(<I as Parse>::parse(src))
}

/// Runs the parser of an integer type.
fn run_integer<S: Source>(w: Width, src: &mut S) -> (r: Result<Value, Error>)
    requires
        old(src).inv(),
    ensures
        final(src).inv(),
        final(src).input() == old(src).input(),
        lands(
            old(src).input(),
            old(src).position(),
            final(src).position(),
            integer_sem(w, old(src).input(), old(src).position()),
            r,
        ),
{
    proof {
        reveal(integer_sem);
    }
    match w {
        Width::U8 => run_number::<u8, S>(src),
        Width::U16 => run_number::<u16, S>(src),
        Width::U32 => run_number::<u32, S>(src),
        Width::U64 => run_number::<u64, S>(src),
        Width::U128 => run_number::<u128, S>(src),
        Width::Usize => run_number::<usize, S>(src),
        Width::I8 => run_number::<i8, S>(src),
        Width::I16 => run_number::<i16, S>(src),
        Width::I32 => run_number::<i32, S>(src),
        Width::I64 => run_number::<i64, S>(src),
        Width::I128 => run_number::<i128, S>(src),
        Width::Isize => run_number::<isize, S>(src),
    }
}

/// Runs the parser of a digit of the given radix.
fn run_digit<S: Source>(src: &mut S, radix: u8) -> (r: Result<Value, Error>)
    requires
        old(src).inv(),
    ensures
        final(src).inv(),
        final(src).input() == old(src).input(),
        lands(
            old(src).input(),
            old(src).position(),
            final(src).position(),
            char_rule(
                digit_end(old(src).input(), old(src).position(), radix),
                old(src).input(),
                old(src).position(),
                "expected digit"@,
            ),
            r,
        ),
{
    let pos = src.current_position();
    if let Some(ch) = src.peek() {
        if 2 <= radix && radix <= 36 && ch.ch.is_digit(radix as u32) {
            proof {
                lemma_step_is_position(src.input(), pos as int);
            }
            src.set_position(pos + ch.length);
            return Ok(Value::character(ch.ch));
        }
    }
    Err(Error::new(Span::new(pos, pos), "expected digit"))
}

/// Runs a rule of the language.
fn run_builtin<S: Source>(b: Builtin, src: &mut S) -> (r: Result<Value, Error>)
    requires
        old(src).inv(),
    ensures
        final(src).inv(),
        final(src).input() == old(src).input(),
        lands(
            old(src).input(),
            old(src).position(),
            final(src).position(),
            builtin_sem(b, old(src).input(), old(src).position()),
            r,
        ),
{
    match b {
        Builtin::Any => char_value(ANY::parse(src)),
        Builtin::Whitespace => char_value(WHITESPACE::parse(src)),
        Builtin::Alphabetic => char_value(ALPHABETIC::parse(src)),
        Builtin::Alphanumeric => char_value(ALPHANUMERIC::parse(src)),
        Builtin::Control => char_value(CONTROL::parse(src)),
        Builtin::Digit => char_value(DIGIT::<16>::parse(src)),
        Builtin::IdStart => char_value(UNICODE_ID_START::parse(src)),
        Builtin::IdContinue => char_value(UNICODE_ID_CONTINUE::parse(src)),
        Builtin::Eof => unit_value(EOF::parse(src)),
        Builtin::Sof => unit_value(SOF::parse(src)),
    }
}

impl Grammar {
    /// The place of the first rule that `name` refers to.
    pub fn find(&self, name: &str) -> (r: Option<usize>)
        ensures
            match lookup(self@, key(name@), 0) {
                Some(def) => r matches Some(i) && i < self.rules@.len() && self.rules@[i as int]@
                    == def,
                None => r is None,
            },
    {
        self.find_key(key_of(name))
    }

    /// The place of the first rule with the key `k`.
    fn find_key(&self, k: &[u8]) -> (r: Option<usize>)
        ensures
            match lookup(self@, k@, 0) {
                Some(def) => r matches Some(i) && i < self.rules@.len() && self.rules@[i as int]@
                    == def,
                None => r is None,
            },
    {
        let mut i: usize = 0;
        while i < self.rules.len()
            invariant
                i <= self.rules@.len(),
                lookup(self@, k@, 0) == lookup(self@, k@, i as int),
            decreases self.rules@.len() - i,
        {
            if same_bytes(key_of(self.rules[i].name.as_str()), k) {
                return Some(i);
            }
            i = i + 1;
        }
        None
    }
}

/// The bindings of a list with one more binding at its end.
proof fn lemma_trace_push(out: Seq<Bind>, b: Bind)
    ensures
        trace_of(out.push(b)) == trace_of(out).push(b@),
        out.push(b).subrange(0, out.len() as int) == out,
{
    assert(trace_of(out.push(b)) =~= trace_of(out).push(b@));
    assert(out.push(b).subrange(0, out.len() as int) =~= out);
}

/// Adding no bindings leaves the bindings as they are.
proof fn lemma_trace_same(out: Seq<Bind>)
    ensures
        trace_of(out) + Seq::<BindView>::empty() == trace_of(out),
        out.subrange(0, out.len() as int) == out,
{
    assert(trace_of(out) + Seq::<BindView>::empty() =~= trace_of(out));
    assert(out.subrange(0, out.len() as int) =~= out);
}

/// The values of a list with one more value at its end.
proof fn lemma_values_push(items: Seq<Value>, v: Value)
    ensures
        values_view(items.push(v)) == values_view(items).push(v@),
{
    assert(values_view(items.push(v)) =~= values_view(items).push(v@));
}

impl Grammar {
    /// Runs the rule that `name` refers to: a rule of the language, else a
    /// parser of the library applied to type arguments, else the first rule
    /// of the grammar with that name, one level deeper.
    pub fn run_rule<S: Source>(&self, name: &str, src: &mut S, depth: usize) -> (r: Result<
        Value,
        Error,
    >)
        requires
            old(src).inv(),
        ensures
            final(src).inv(),
            final(src).input() == old(src).input(),
            lands(
                old(src).input(),
                old(src).position(),
                final(src).position(),
                rule_sem(self@, key(name@), old(src).input(), old(src).position(), depth as nat),
                r,
            ),
        decreases depth, 0int, 1int,
    {
        self.run_key(key_of(name), src, depth)
    }

    /// Runs the rule with the key `inner` over and over, up to `max` times,
    /// with the separator between the items, and gives what it yielded.
    fn run_repeat<S: Source>(
        &self,
        inner: &[u8],
        sep: Option<char>,
        max: usize,
        src: &mut S,
        depth: usize,
    ) -> (items: Vec<Value>)
        requires
            old(src).inv(),
        ensures
            final(src).inv(),
            final(src).input() == old(src).input(),
            (values_view(items@), final(src).position()) == repeat_sem(
                self@,
                inner@,
                sep,
                old(src).input(),
                old(src).position(),
                0,
                max as nat,
                depth as nat,
            ),
            old(src).position() <= final(src).position(),
        decreases depth, 0int, 1int,
    {
        let ghost input = src.input();
        let ghost start = src.position();
        let mut items: Vec<Value> = Vec::new();
        let mut count: usize = 0;
        proof {
            let all = repeat_sem(self@, inner@, sep, input, start, 0, max as nat, depth as nat);
            assert(values_view(items@) + all.0 =~= all.0);
        }
        loop
            invariant_except_break
                count == items@.len(),
                repeat_sem(self@, inner@, sep, input, start, 0, max as nat, depth as nat) == ({
                    let rest = repeat_sem(
                        self@,
                        inner@,
                        sep,
                        input,
                        src.position(),
                        count as nat,
                        max as nat,
                        depth as nat,
                    );
                    (values_view(items@) + rest.0, rest.1)
                }),
            invariant
                src.inv(),
                src.input() == input,
                input == old(src).input(),
                start == old(src).position(),
                start <= src.position(),
            ensures
                (values_view(items@), src.position()) == repeat_sem(
                    self@,
                    inner@,
                    sep,
                    input,
                    start,
                    0,
                    max as nat,
                    depth as nat,
                ),
            decreases input.len() - src.position(),
        {
            let here = src.current_position();
            let ghost before = items@;
            if count >= max {
                assert(values_view(items@) + Seq::<ValueView>::empty() =~= values_view(items@));
                break ;
            }
            if let Some(c) = sep {
                if count > 0 && !src.match_char(c) {
                    assert(values_view(items@) + Seq::<ValueView>::empty() =~= values_view(items@));
                    break ;
                }
            }
            match self.run_key(inner, src, depth) {
                Ok(v) => {
                    let now = src.current_position();
                    proof {
                        lemma_values_push(items@, v);
                        let rest = repeat_sem(
                            self@,
                            inner@,
                            sep,
                            input,
                            now as int,
                            (count + 1) as nat,
                            max as nat,
                            depth as nat,
                        );
                        assert(values_view(before) + (seq![v@] + rest.0) =~= values_view(
                            before.push(v),
                        ) + rest.0);
                        assert(values_view(before) + seq![v@] =~= values_view(before.push(v)));
                    }
                    items.push(v);
                    count = count + 1;
                    if now <= here {
                        break ;
                    }
                },
                Err(_) => {
                    src.set_position(here);
                    assert(values_view(items@) + Seq::<ValueView>::empty() =~= values_view(items@));
                    break ;
                },
            }
        }
        items
    }

    /// Runs the rule with the key `k`.
    fn run_key<S: Source>(&self, k: &[u8], src: &mut S, depth: usize) -> (r: Result<Value, Error>)
        requires
            old(src).inv(),
        ensures
            final(src).inv(),
            final(src).input() == old(src).input(),
            lands(
                old(src).input(),
                old(src).position(),
                final(src).position(),
                rule_sem(self@, k@, old(src).input(), old(src).position(), depth as nat),
                r,
            ),
        decreases depth, 0int, 0int,
    {
        match builtin_at(k) {
            Some(b) => run_builtin(b, src),
            None => {
                let pos = src.current_position();
                match reference_at(k) {
                    Some(Applied::Integer(w)) => run_integer(w, src),
                    Some(Applied::Digit(radix)) => run_digit(src, radix),
                    Some(Applied::Forward(inner)) => {
                        if depth == 0 {
                            return Err(Error::new(Span::new(pos, pos), "grammar nests too deep"));
                        }
                        proof {
                            reveal(nested_sem);
                        }
                        self.run_key(inner, src, depth - 1)
                    },
                    Some(Applied::Repeat { inner, bounds, keep }) => {
                        if depth == 0 {
                            return Err(Error::new(Span::new(pos, pos), "grammar nests too deep"));
                        }
                        proof {
                            reveal(nested_sem);
                        }
                        let found = self.run_repeat(
                            inner,
                            char::from_u32(bounds.sep),
                            bounds.max,
                            src,
                            depth - 1,
                        );
                        if found.len() < bounds.min {
                            let end = src.current_position();
                            src.set_position(pos);
                            Err(Error::new(Span::new(pos, end), "expected minimal number of repeats"))
                        } else if keep {
                            Ok(Value::List(found))
                        } else {
                            Ok(Value::Unit)
                        }
                    },
                    Some(Applied::Maybe(inner)) => {
                        if depth == 0 {
                            return Err(Error::new(Span::new(pos, pos), "grammar nests too deep"));
                        }
                        proof {
                            reveal(nested_sem);
                        }
                        match self.run_key(inner, src, depth - 1) {
                            Ok(v) => Ok(Value::Maybe(Some(Box::new(v)))),
                            Err(_) => Ok(Value::Maybe(None)),
                        }
                    },
                    Some(Applied::Pair(a, b)) => {
                        if depth == 0 {
                            return Err(Error::new(Span::new(pos, pos), "grammar nests too deep"));
                        }
                        proof {
                            reveal(nested_sem);
                        }
                        let first = match self.run_key(a, src, depth - 1) {
                            Ok(v) => v,
                            Err(e) => {
                                return Err(e);
                            },
                        };
                        match self.run_key(b, src, depth - 1) {
                            Ok(second) => {
                                let mut both: Vec<Value> = Vec::new();
                                both.push(first);
                                both.push(second);
                                assert(values_view(both@) =~= seq![first@, second@]);
                                Ok(Value::List(both))
                            },
                            Err(e) => {
                                src.set_position(pos);
                                Err(e)
                            },
                        }
                    },
                    Some(Applied::Either(a, b)) => {
                        if depth == 0 {
                            return Err(Error::new(Span::new(pos, pos), "grammar nests too deep"));
                        }
                        proof {
                            reveal(nested_sem);
                        }
                        let first = match self.run_key(a, src, depth - 1) {
                            Ok(v) => {
                                return Ok(v);
                            },
                            Err(e) => e,
                        };
                        match self.run_key(b, src, depth - 1) {
                            Ok(v) => Ok(v),
                            Err(second) => Err(deeper_of(Some(first), second)),
                        }
                    },
                    None => {
                        if depth == 0 {
                            return Err(Error::new(Span::new(pos, pos), "grammar nests too deep"));
                        }
                        match self.find_key(k) {
                            Some(i) => self.run_shape(&self.rules[i], src, depth - 1),
                            None => Err(Error::new(Span::new(pos, pos), "unknown rule")),
                        }
                    },
                }
            },
        }
    }

    /// Runs a rule of the grammar: a record by its grammar, a union by the
    /// grammars of its forms in order, of which the first that matches wins.
    /// A union of which no form matches fails at the position it started at.
    pub fn run_shape<S: Source>(&self, def: &Definition, src: &mut S, depth: usize) -> (r: Result<
        Value,
        Error,
    >)
        requires
            old(src).inv(),
        ensures
            final(src).inv(),
            final(src).input() == old(src).input(),
            lands(
                old(src).input(),
                old(src).position(),
                final(src).position(),
                shape_sem(self@, def@, old(src).input(), old(src).position(), depth as nat),
                r,
            ),
        decreases depth, 9int, 0int,
    {
        match &def.shape {
            Shape::Record(v) => self.run_variant(v, src, depth),
            Shape::Union(variants) => {
                let pos = src.current_position();
                match self.run_union(variants, 0, src, depth) {
                    Some(v) => Ok(v),
                    None => Err(named_error(pos, def.name.as_str())),
                }
            },
        }
    }

    /// Runs the forms of a union from the `i`-th on, in order, and gives the
    /// value of the first that matches.
    fn run_union<S: Source>(
        &self,
        variants: &Vec<Variant>,
        i: usize,
        src: &mut S,
        depth: usize,
    ) -> (r:
        Option<Value>)
        requires
            old(src).inv(),
        ensures
            final(src).inv(),
            final(src).input() == old(src).input(),
            match union_sem(
                self@,
                variants@.map_values(|v: Variant| v@),
                i as int,
                old(src).input(),
                old(src).position(),
                depth as nat,
            ) {
                Some((value, end)) => {
                    &&& r matches Some(v) && v@ == value
                    &&& final(src).position() == end
                    &&& old(src).position() <= end
                },
                None => r is None && final(src).position() == old(src).position(),
            },
        decreases depth, 8int, variants@.len() - i,
    {
        if i >= variants.len() {
            return None;
        }
        match self.run_variant(&variants[i], src, depth) {
            Ok(v) => Some(v),
            Err(_) => self.run_union(variants, i + 1, src, depth),
        }
    }

    /// Runs one form of a rule: its grammar, with bindings of its own, and
    /// then puts the value together from what was bound.
    pub fn run_variant<S: Source>(&self, v: &Variant, src: &mut S, depth: usize) -> (r: Result<
        Value,
        Error,
    >)
        requires
            old(src).inv(),
        ensures
            final(src).inv(),
            final(src).input() == old(src).input(),
            lands(
                old(src).input(),
                old(src).position(),
                final(src).position(),
                variant_sem(self@, v@, old(src).input(), old(src).position(), depth as nat),
                r,
            ),
        decreases depth, 7int, 0int,
    {
        let mut binds: Vec<Bind> = Vec::new();
        proof {
            assert(trace_of(binds@) =~= Seq::<BindView>::empty());
        }
        match self.run_alternatives(&v.grammar, src, depth, true, &mut binds) {
            Ok(_) => {
                proof {
                    let m = alts_sem(
                        self@,
                        v@.grammar,
                        old(src).input(),
                        old(src).position(),
                        depth as nat,
                        true,
                    )->Ok_0;
                    assert(Seq::<BindView>::empty() + m.trace =~= m.trace);
                }
                Ok(construct(v, binds))
            },
            Err(e) => Err(e),
        }
    }

    /// Runs an ordered choice: the terms of `preparse`, then the
    /// alternatives in order from where those ended. The first alternative
    /// that matches wins. Where none does, the error of the alternative that
    /// got furthest is returned, and of those the last.
    pub fn run_alternatives<S: Source>(
        &self,
        alts: &Alternatives,
        src: &mut S,
        depth: usize,
        keep: bool,
        out: &mut Vec<Bind>,
    ) -> (r: Result<Span, Error>)
        requires
            old(src).inv(),
        ensures
            final(src).inv(),
            final(src).input() == old(src).input(),
            agrees(
                old(src).input(),
                old(src).position(),
                old(out)@,
                final(src).position(),
                final(out)@,
                run_of(
                    alts_sem(
                        self@,
                        alts@,
                        old(src).input(),
                        old(src).position(),
                        depth as nat,
                        keep,
                    ),
                ),
                r,
            ),
            r matches Ok(span) ==> span == span_of(old(src).position(), final(src).position()),
        decreases depth, 6int, 0int,
    {
        let ghost input = src.input();
        let start = src.current_position();
        let saved = out.len();
        match self.run_sequence(&alts.preparse, src, depth, keep, out) {
            Ok(_) => {},
            Err(e) => {
                return Err(e);
            },
        }
        let mid = src.current_position();
        let ghost first = seq_sem(
            self@,
            alts@.preparse,
            0,
            input,
            start as int,
            depth as nat,
            keep,
        )->Ok_0;
        if alts.alternatives.len() == 0 {
            return Ok(Span::new(start, mid));
        }
        let ghost middle = out@;
        let mut best: Option<Error> = None;
        let mut i: usize = 0;
        while i < alts.alternatives.len()
            invariant
                i <= alts.alternatives@.len(),
                src.inv(),
                src.input() == input,
                input == old(src).input(),
                src.position() == mid,
                start == old(src).position(),
                start <= mid,
                is_position(input, start as int),
                out@ == middle,
                saved == old(out)@.len(),
                saved <= middle.len(),
                middle.subrange(0, saved as int) == old(out)@,
                trace_of(middle) == trace_of(old(out)@) + first.trace,
                first.end == mid,
                alts.alternatives@.len() > 0,
                seq_sem(self@, alts@.preparse, 0, input, start as int, depth as nat, keep) == Ok::<
                    Run,
                    Fault,
                >(first),
                choice_sem(
                    self@,
                    alts@.alternatives,
                    0,
                    input,
                    mid as int,
                    depth as nat,
                    keep,
                    None,
                ) == choice_sem(
                    self@,
                    alts@.alternatives,
                    i as int,
                    input,
                    mid as int,
                    depth as nat,
                    keep,
                    fault_of(best),
                ),
                i > 0 ==> best is Some,
                best matches Some(e) ==> span_in(input, e.span),
            decreases alts.alternatives@.len() - i,
        {
            match self.run_sequence(&alts.alternatives[i].terms, src, depth, keep, out) {
                Ok(_) => {
                    proof {
                        let rest = seq_sem(
                            self@,
                            alts@.alternatives[i as int],
                            0,
                            input,
                            mid as int,
                            depth as nat,
                            keep,
                        )->Ok_0;
                        assert((trace_of(old(out)@) + first.trace) + rest.trace =~= trace_of(
                            old(out)@,
                        ) + (first.trace + rest.trace));
                        assert(out@.subrange(0, saved as int) =~= middle.subrange(0, saved as int));
                    }
                    let end = src.current_position();
                    return Ok(Span::new(start, end));
                },
                Err(e) => {
                    best = Some(deeper_of(best, e));
                },
            }
            i = i + 1;
        }
        src.set_position(start);
        out.truncate(saved);
        match best {
            Some(e) => Err(e),
            None => Err(Error::new(Span::new(mid, mid), "no alternative")),
        }
    }

    /// Runs the terms one after the other. Where one fails, the source and
    /// the bindings are put back as they were before the first.
    pub fn run_sequence<S: Source>(
        &self,
        terms: &Vec<SpecialTerm>,
        src: &mut S,
        depth: usize,
        keep: bool,
        out: &mut Vec<Bind>,
    ) -> (r: Result<(), Error>)
        requires
            old(src).inv(),
        ensures
            final(src).inv(),
            final(src).input() == old(src).input(),
            agrees(
                old(src).input(),
                old(src).position(),
                old(out)@,
                final(src).position(),
                final(out)@,
                seq_sem(
                    self@,
                    terms_view(terms@),
                    0,
                    old(src).input(),
                    old(src).position(),
                    depth as nat,
                    keep,
                ),
                r,
            ),
        decreases depth, 4int, 0int,
    {
        let ghost input = src.input();
        let start = src.current_position();
        let saved = out.len();
        let ghost mut acc = nothing(start as int);
        let mut i: usize = 0;
        proof {
            lemma_trace_same(out@);
            assert forall|rest: Run| rest.end == rest.end implies then(nothing(start as int), rest)
                == rest by {
                assert(then(nothing(start as int), rest).trace =~= rest.trace);
            }
        }
        while i < terms.len()
            invariant
                i <= terms@.len(),
                src.inv(),
                src.input() == input,
                input == old(src).input(),
                start == old(src).position(),
                is_position(input, start as int),
                start <= src.position(),
                acc.end == src.position(),
                saved == old(out)@.len(),
                saved <= out@.len(),
                out@.subrange(0, saved as int) == old(out)@,
                trace_of(out@) == trace_of(old(out)@) + acc.trace,
                seq_sem(self@, terms_view(terms@), 0, input, start as int, depth as nat, keep)
                    == match seq_sem(
                    self@,
                    terms_view(terms@),
                    i as int,
                    input,
                    src.position(),
                    depth as nat,
                    keep,
                ) {
                    Ok(rest) => Ok::<Run, Fault>(then(acc, rest)),
                    Err(f) => Err(f),
                },
            decreases terms@.len() - i,
        {
            let ghost here = src.position();
            let ghost before = out@;
            match self.run_special(&terms[i], src, depth, keep, out) {
                Ok(v) => {
                    proof {
                        let m = special_sem(
                            self@,
                            terms_view(terms@)[i as int],
                            input,
                            here,
                            depth as nat,
                            keep,
                        )->Ok_0;
                        let step = Run { end: m.end, trace: m.trace };
                        match seq_sem(
                            self@,
                            terms_view(terms@),
                            i + 1,
                            input,
                            m.end,
                            depth as nat,
                            keep,
                        ) {
                            Ok(rest) => lemma_then_assoc(acc, step, rest),
                            Err(_) => {},
                        }
                        assert(trace_of(out@) =~= trace_of(old(out)@) + then(acc, step).trace);
                        assert(out@.subrange(0, saved as int) =~= before.subrange(0, saved as int));
                        acc = then(acc, step);
                    }
                },
                Err(e) => {
                    src.set_position(start);
                    out.truncate(saved);
                    return Err(e);
                },
            }
            i = i + 1;
        }
        proof {
            assert(then(acc, nothing(acc.end)).trace =~= acc.trace);
        }
        Ok(())
    }

    /// Runs a special term: a binding binds, a negative lookahead looks and
    /// consumes nothing, a quiet term discards its value.
    pub fn run_special<S: Source>(
        &self,
        t: &SpecialTerm,
        src: &mut S,
        depth: usize,
        keep: bool,
        out: &mut Vec<Bind>,
    ) -> (r: Result<Value, Error>)
        requires
            old(src).inv(),
        ensures
            final(src).inv(),
            final(src).input() == old(src).input(),
            agrees(
                old(src).input(),
                old(src).position(),
                old(out)@,
                final(src).position(),
                final(out)@,
                run_of(
                    special_sem(
                        self@,
                        t@,
                        old(src).input(),
                        old(src).position(),
                        depth as nat,
                        keep,
                    ),
                ),
                r,
            ),
            yields(
                special_sem(self@, t@, old(src).input(), old(src).position(), depth as nat, keep),
                r,
            ),
            t is NegativeLookahead ==> final(src).position() == old(src).position() && final(out)@
                == old(out)@,
        decreases depth, 3int, 0int,
    {
        proof {
            lemma_trace_same(out@);
        }
        match t {
            SpecialTerm::Binding(name, term, q) => self.run_binding(name, term, q, src, depth, out),
            SpecialTerm::NegativeLookahead(term, q) => self.run_lookahead(term, q, src, depth, out),
            SpecialTerm::Quiet(term, q) => match self.run_quantified(term, q, src, depth, false, out) {
                Ok(_) => Ok(Value::Unit),
                Err(e) => Err(e),
            },
            SpecialTerm::Term(term, q) => self.run_quantified(term, q, src, depth, keep, out),
        }
    }

    /// Runs a term and binds what it yields to `name`, together with the
    /// stretch of input that it consumed.
    fn run_binding<S: Source>(
        &self,
        name: &String,
        term: &Term,
        q: &Quantifier,
        src: &mut S,
        depth: usize,
        out: &mut Vec<Bind>,
    ) -> (r: Result<Value, Error>)
        requires
            old(src).inv(),
        ensures
            final(src).inv(),
            final(src).input() == old(src).input(),
            match quant_sem(
                self@,
                term@,
                q@,
                old(src).input(),
                old(src).position(),
                depth as nat,
                true,
            ) {
                Ok(m) => {
                    &&& r matches Ok(v)
                    &&& v@ == ValueView::Span(span_of(old(src).position(), m.end))
                    &&& final(src).position() == m.end
                    &&& old(src).position() <= m.end
                    &&& old(out)@.len() <= final(out)@.len()
                    &&& final(out)@.subrange(0, old(out)@.len() as int) == old(out)@
                    &&& trace_of(final(out)@) == trace_of(old(out)@) + m.trace.push(
                        BindView {
                            name: name@,
                            span: span_of(old(src).position(), m.end),
                            value: m.value,
                        },
                    )
                },
                Err(f) => {
                    &&& r matches Err(e)
                    &&& e@ == f
                    &&& span_in(old(src).input(), e.span)
                    &&& final(src).position() == old(src).position()
                    &&& final(out)@ == old(out)@
                },
            },
        decreases depth, 2int, 1int,
    {
        let start = src.current_position();
        let ghost before = out@;
        match self.run_quantified(term, q, src, depth, true, out) {
            Ok(value) => {
                let end = src.current_position();
                let span = Span::new(start, end);
                let bind = Bind { name: name.clone(), span, value };
                let ghost mid = out@;
                proof {
                    lemma_trace_push(mid, bind);
                    let m = quant_sem(
                        self@,
                        term@,
                        q@,
                        src.input(),
                        start as int,
                        depth as nat,
                        true,
                    )->Ok_0;
                    assert((trace_of(before) + m.trace).push(bind@) =~= trace_of(before)
                        + m.trace.push(bind@));
                    assert(mid.push(bind).subrange(0, before.len() as int) =~= mid.subrange(
                        0,
                        before.len() as int,
                    ));
                }
                out.push(bind);
                Ok(Value::Span(span))
            },
            Err(e) => Err(e),
        }
    }

    /// Looks ahead: succeeds where the term does not match and fails where
    /// it does. The source and the bindings are left as they were in either
    /// case.
    fn run_lookahead<S: Source>(
        &self,
        term: &Term,
        q: &Quantifier,
        src: &mut S,
        depth: usize,
        out: &mut Vec<Bind>,
    ) -> (r: Result<Value, Error>)
        requires
            old(src).inv(),
        ensures
            final(src).inv(),
            final(src).input() == old(src).input(),
            final(src).position() == old(src).position(),
            final(out)@ == old(out)@,
            match quant_sem(
                self@,
                term@,
                q@,
                old(src).input(),
                old(src).position(),
                depth as nat,
                false,
            ) {
                Ok(m) => r matches Err(e) && span_in(old(src).input(), e.span) && e@ == (Fault {
                    span: span_of(old(src).position(), m.end),
                    msg: "negative lookahead failed"@,
                }),
                Err(_) => r matches Ok(v) && v@ == ValueView::Span(
                    span_of(old(src).position(), old(src).position()),
                ),
            },
        decreases depth, 2int, 1int,
    {
        let start = src.current_position();
        let saved = out.len();
        let ghost before = out@;
        match self.run_quantified(term, q, src, depth, false, out) {
            Ok(_) => {
                let end = src.current_position();
                src.set_position(start);
                out.truncate(saved);
                assert(out@ =~= before);
                Err(Error::new(Span::new(start, end), "negative lookahead failed"))
            },
            Err(_) => Ok(Value::Span(Span::new(start, start))),
        }
    }

    /// Runs a term as often as its quantifier allows and the input offers,
    /// with its separator between the matches.
    fn run_repetition<S: Source>(
        &self,
        term: &Term,
        q: &Quantifier,
        max: usize,
        src: &mut S,
        depth: usize,
        keep: bool,
        out: &mut Vec<Bind>,
    ) -> (r: (usize, Vec<Value>, Option<Error>))
        requires
            old(src).inv(),
        ensures
            final(src).inv(),
            final(src).input() == old(src).input(),
            old(out)@.len() <= final(out)@.len(),
            final(out)@.subrange(0, old(out)@.len() as int) == old(out)@,
            r.2 matches Some(e) ==> span_in(old(src).input(), e.span),
            ({
                let found = rep_sem(
                    self@,
                    term@,
                    separator_of(q@),
                    old(src).input(),
                    old(src).position(),
                    0,
                    max as nat,
                    depth as nat,
                    keep,
                );
                &&& r.0 == found.count
                &&& final(src).position() == found.end
                &&& old(src).position() <= found.end
                &&& trace_of(final(out)@) == trace_of(old(out)@) + found.trace
                &&& values_view(r.1@) == found.items
                &&& fault_of(r.2) == found.fault
            }),
        decreases depth, 1int, 1int,
    {
        let ghost input = src.input();
        let start = src.current_position();
        let saved = out.len();
        let mut items: Vec<Value> = Vec::new();
        let mut count: usize = 0;
        let mut stop = start;
        let mut failure: Option<Error> = None;
        let ghost sep = separator_of(q@);
        let ghost mut trace: Seq<BindView> = Seq::empty();
        let ghost mut values: Seq<ValueView> = Seq::empty();
        proof {
            lemma_trace_same(out@);
            let all = rep_sem(
                self@,
                term@,
                sep,
                input,
                start as int,
                0,
                max as nat,
                depth as nat,
                keep,
            );
            assert(trace + all.trace =~= all.trace);
            assert(values + all.items =~= all.items);
            assert(values_view(items@) =~= values);
        }
        while count < max
            invariant_except_break
                failure is None,
                ({
                    let all = rep_sem(
                        self@,
                        term@,
                        sep,
                        input,
                        start as int,
                        0,
                        max as nat,
                        depth as nat,
                        keep,
                    );
                    let rest = rep_sem(
                        self@,
                        term@,
                        sep,
                        input,
                        stop as int,
                        count as nat,
                        max as nat,
                        depth as nat,
                        keep,
                    );
                    all == (Rep {
                        count: rest.count,
                        end: rest.end,
                        trace: trace + rest.trace,
                        items: values + rest.items,
                        fault: rest.fault,
                    })
                }),
            invariant
                src.inv(),
                src.input() == input,
                input == old(src).input(),
                start == old(src).position(),
                is_position(input, start as int),
                is_position(input, stop as int),
                start <= stop,
                stop <= input.len(),
                src.position() == stop,
                count <= max,
                sep == separator_of(q@),
                saved == old(out)@.len(),
                saved <= out@.len(),
                out@.subrange(0, saved as int) == old(out)@,
                trace_of(out@) == trace_of(old(out)@) + trace,
                values_view(items@) == values,
                failure matches Some(e) ==> span_in(input, e.span),
            ensures
                failure matches Some(e) ==> span_in(input, e.span),
                src.inv(),
                src.input() == input,
                is_position(input, stop as int),
                start <= stop,
                src.position() == stop,
                saved <= out@.len(),
                out@.subrange(0, saved as int) == old(out)@,
                trace_of(out@) == trace_of(old(out)@) + trace,
                values_view(items@) == values,
                rep_sem(
                    self@,
                    term@,
                    sep,
                    input,
                    start as int,
                    0,
                    max as nat,
                    depth as nat,
                    keep,
                ) == (Rep {
                    count: count as nat,
                    end: stop as int,
                    trace,
                    items: values,
                    fault: fault_of(failure),
                }),
            decreases input.len() - stop,
        {
            let ghost before = out@;
            let reached = out.len();
            let separated = match q {
                Quantifier::RepeatSeperate { seperator } => if count > 0 {
                    match self.run_term(seperator, src, depth, false, out) {
                        Ok(_) => {
                            out.truncate(reached);
                            assert(out@ =~= before);
                            true
                        },
                        Err(_) => false,
                    }
                } else {
                    true
                },
                _ => true,
            };
            if !separated {
                proof {
                    assert(trace + Seq::<BindView>::empty() =~= trace);
                    assert(values + Seq::<ValueView>::empty() =~= values);
                }
                break ;
            }
            let ghost from = src.position();
            match self.run_term(term, src, depth, keep, out) {
                Ok(v) => {
                    let now = src.current_position();
                    proof {
                        let m = term_sem(self@, term@, input, from, depth as nat, keep)->Ok_0;
                        let item: Seq<ValueView> = if keep {
                            seq![m.value]
                        } else {
                            Seq::empty()
                        };
                        assert(trace_of(out@) =~= trace_of(old(out)@) + (trace + m.trace));
                        assert(out@.subrange(0, saved as int) =~= before.subrange(0, saved as int));
                        if !(m.end <= stop || m.end > input.len()) {
                            let rest = rep_sem(
                                self@,
                                term@,
                                sep,
                                input,
                                m.end,
                                (count + 1) as nat,
                                max as nat,
                                depth as nat,
                                keep,
                            );
                            assert(trace + (m.trace + rest.trace) =~= (trace + m.trace)
                                + rest.trace);
                            assert(values + (item + rest.items) =~= (values + item) + rest.items);
                        }
                        lemma_values_push(items@, v);
                        assert(values + seq![m.value] =~= values.push(m.value));
                        assert(values + Seq::<ValueView>::empty() =~= values);
                        trace = trace + m.trace;
                        values = values + item;
                    }
                    count = count + 1;
                    if keep {
                        items.push(v);
                    }
                    if now <= stop {
                        stop = now;
                        break ;
                    }
                    stop = now;
                },
                Err(e) => {
                    src.set_position(stop);
                    failure = Some(e);
                    proof {
                        assert(trace + Seq::<BindView>::empty() =~= trace);
                        assert(values + Seq::<ValueView>::empty() =~= values);
                    }
                    break ;
                },
            }
        }
        proof {
            assert(trace + Seq::<BindView>::empty() =~= trace);
            assert(values + Seq::<ValueView>::empty() =~= values);
        }
        (count, items, failure)
    }

    /// Runs a term under its quantifier. The values are kept only where
    /// `keep` is set. Fewer matches than the quantifier asks for are an
    /// error that spans what was matched; a term that was to match once and
    /// did not gives its own error.
    pub fn run_quantified<S: Source>(
        &self,
        term: &Term,
        q: &Quantifier,
        src: &mut S,
        depth: usize,
        keep: bool,
        out: &mut Vec<Bind>,
    ) -> (r: Result<Value, Error>)
        requires
            old(src).inv(),
        ensures
            final(src).inv(),
            final(src).input() == old(src).input(),
            agrees(
                old(src).input(),
                old(src).position(),
                old(out)@,
                final(src).position(),
                final(out)@,
                run_of(
                    quant_sem(
                        self@,
                        term@,
                        q@,
                        old(src).input(),
                        old(src).position(),
                        depth as nat,
                        keep,
                    ),
                ),
                r,
            ),
            yields(
                quant_sem(
                    self@,
                    term@,
                    q@,
                    old(src).input(),
                    old(src).position(),
                    depth as nat,
                    keep,
                ),
                r,
            ),
        decreases depth, 2int, 0int,
    {
        let (min, max) = match q {
            Quantifier::Optional => (0, 1),
            Quantifier::RepeatAtleastOnce => (1, usize::MAX),
            Quantifier::RepeatSeperate { .. } => (1, usize::MAX),
            Quantifier::RepeatUnlimited => (0, usize::MAX),
            Quantifier::RepeatMin { min } => (*min, usize::MAX),
            Quantifier::Repeat { min, max } => (*min, *max),
            Quantifier::Once => (1, 1),
        };
        let start = src.current_position();
        let saved = out.len();
        let (count, items, failure) = self.run_repetition(term, q, max, src, depth, keep, out);
        let stop = src.current_position();
        if count < min {
            src.set_position(start);
            out.truncate(saved);
            assert(out@ =~= old(out)@);
            return Err(
                match q {
                    Quantifier::Once => match failure {
                        Some(e) => e,
                        None => Error::new(Span::new(start, stop), "expected a match"),
                    },
                    Quantifier::RepeatAtleastOnce => Error::new(
                        Span::new(start, stop),
                        "expected at least one repetition",
                    ),
                    Quantifier::RepeatSeperate { .. } => Error::new(
                        Span::new(start, stop),
                        "expected at least one repetition",
                    ),
                    _ => Error::new(Span::new(start, stop), "expected minimal number of repeats"),
                },
            );
        }
        let mut items = items;
        let ghost all = items@;
        Ok(
            match q {
                Quantifier::Once => match items.pop() {
                    Some(v) => {
                        assert(v@ == values_view(all).last());
                        v
                    },
                    None => Value::Unit,
                },
                Quantifier::Optional => match items.pop() {
                    Some(v) => {
                        assert(v@ == values_view(all).last());
                        Value::Maybe(Some(Box::new(v)))
                    },
                    None => if keep {
                        Value::Maybe(None)
                    } else {
                        Value::Unit
                    },
                },
                _ => if keep {
                    Value::List(items)
                } else {
                    Value::Unit
                },
            },
        )
    }

    /// Runs a plain term.
    ///
    /// A string literal and a character literal must stand at the position.
    /// A class takes one character that lies in its ranges, or in none of
    /// them where it is negated. A group runs its alternatives and a rule
    /// the rule of that name, each one level deeper.
    pub fn run_term<S: Source>(
        &self,
        term: &Term,
        src: &mut S,
        depth: usize,
        keep: bool,
        out: &mut Vec<Bind>,
    ) -> (r: Result<Value, Error>)
        requires
            old(src).inv(),
        ensures
            final(src).inv(),
            final(src).input() == old(src).input(),
            agrees(
                old(src).input(),
                old(src).position(),
                old(out)@,
                final(src).position(),
                final(out)@,
                run_of(
                    term_sem(
                        self@,
                        term@,
                        old(src).input(),
                        old(src).position(),
                        depth as nat,
                        keep,
                    ),
                ),
                r,
            ),
            yields(
                term_sem(self@, term@, old(src).input(), old(src).position(), depth as nat, keep),
                r,
            ),
        decreases depth, 0int, 1int,
    {
        let pos = src.current_position();
        proof {
            lemma_trace_same(out@);
        }
        match term {
            Term::String(s) => {
                if src.match_str(s.as_str()) {
                    Ok(Value::Text(s.clone()))
                } else {
                    Err(expected_error(pos, "expected string literal '", s.as_str()))
                }
            },
            Term::Character(c) => {
                if src.match_char(*c) {
                    Ok(Value::character(*c))
                } else {
                    let mut shown = String::new();
                    shown.push(*c);
                    assert(shown@ =~= seq![*c]);
                    Err(expected_error(pos, "expected character '", shown.as_str()))
                }
            },
            Term::Rule(name) => self.run_key(key_of(name.as_str()), src, depth),
            Term::CharacterClass { negative, ranges } => {
                match src.peek() {
                    Some(c) => {
                        if char_in_ranges(c.ch, ranges) != negative.is_some() {
                            proof {
                                lemma_step_is_position(src.input(), pos as int);
                            }
                            src.set_position(pos + c.length);
                            Ok(Value::character(c.ch))
                        } else {
                            Err(Error::new(Span::new(pos, pos), "failed to match character class"))
                        }
                    },
                    None => Err(Error::new(Span::new(pos, pos), "failed to match character class")),
                }
            },
            Term::Group(alts) => {
                if depth == 0 {
                    Err(Error::new(Span::new(pos, pos), "grammar nests too deep"))
                } else {
                    match self.run_alternatives(alts, src, depth - 1, keep, out) {
                        Ok(span) => Ok(Value::Span(span)),
                        Err(e) => Err(e),
                    }
                }
            },
        }
    }
}

/// The value of a form: its name and its fields, each with the value that
/// was bound to it last, or with no value where nothing was bound to it.
pub fn construct(v: &Variant, binds: Vec<Bind>) -> (value: Value)
    ensures
        value@ == (ValueView::Record {
            name: v.name@,
            fields: filled(field_names(v.fields), trace_of(binds@)),
        }),
{
    let mut rest = binds;
    let mut fields: Vec<(String, Value)> = Vec::new();
    let ghost names = field_names(v.fields);
    let n = match &v.fields {
        Fields::Named(names) => names.len(),
        Fields::Positional(n) => *n,
        Fields::Unit => 0,
    };
    let mut i: usize = 0;
    proof {
        assert(names.subrange(0, names.len() as int) =~= names);
        assert(fields_view(fields@) =~= Seq::<(Seq<char>, ValueView)>::empty());
        assert(Seq::<(Seq<char>, ValueView)>::empty() + filled(names, trace_of(binds@)) =~= filled(
            names,
            trace_of(binds@),
        ));
    }
    while i < n
        invariant
            i <= n,
            n == names.len(),
            names == field_names(v.fields),
            match v.fields {
                Fields::Named(list) => list@.len() == n,
                Fields::Positional(k) => k == n,
                Fields::Unit => n == 0,
            },
            filled(names, trace_of(binds@)) == fields_view(fields@) + filled(
                names.subrange(i as int, n as int),
                trace_of(rest@),
            ),
        decreases n - i,
    {
        let name = match &v.fields {
            Fields::Named(list) => list[i].clone(),
            _ => item_name(i),
        };
        assert(name@ == names[i as int]);
        let ghost tail = names.subrange(i as int, n as int);
        let value = take_bound(&mut rest, name.as_str());
        let ghost earlier = fields@;
        let ghost shown = value@;
        fields.push((name, value));
        proof {
            assert(tail[0] == names[i as int]);
            assert(tail.drop_first() =~= names.subrange(i + 1, n as int));
            assert(fields_view(fields@) =~= fields_view(earlier).push((names[i as int], shown)));
            assert(fields_view(earlier) + (seq![(names[i as int], shown)] + filled(
                tail.drop_first(),
                trace_of(rest@),
            )) =~= fields_view(fields@) + filled(tail.drop_first(), trace_of(rest@)));
        }
        i = i + 1;
    }
    proof {
        assert(names.subrange(n as int, n as int) =~= Seq::<Seq<char>>::empty());
        assert(fields_view(fields@) + Seq::<(Seq<char>, ValueView)>::empty() =~= fields_view(
            fields@,
        ));
    }
    Value::Record { name: v.name.clone(), fields }
}

/// Takes the value that was bound to `name` last out of `binds`.
fn take_bound(binds: &mut Vec<Bind>, name: &str) -> (value: Value)
    ensures
        value@ == value_for(trace_of(old(binds)@), name@),
        trace_of(final(binds)@) == left_after(trace_of(old(binds)@), name@),
{
    let ghost views = trace_of(binds@);
    let mut i = binds.len();
    while i > 0
        invariant
            i <= binds@.len(),
            binds@ == old(binds)@,
            views == trace_of(binds@),
            last_bound(views, name@, views.len() as int) == last_bound(views, name@, i as int),
        decreases i,
    {
        i = i - 1;
        assert(views[i as int] == binds@[i as int]@);
        if str_eq(binds[i].name.as_str(), name) {
            let ghost all = binds@;
            let bind = binds.remove(i);
            assert(trace_of(binds@) =~= views.remove(i as int));
            return bind.value;
        }
    }
    Value::Unit
}

/// Whether two strings hold the same bytes.
fn str_eq(a: &str, b: &str) -> (r: bool)
    ensures
        r == (encode_utf8(a@) == encode_utf8(b@)),
{
    let x = a.as_bytes();
    let y = b.as_bytes();
    assert(x@ == encode_utf8(a@) && y@ == encode_utf8(b@));
    if x.len() != y.len() {
        return false;
    }
    let mut i: usize = 0;
    while i < x.len()
        invariant
            i <= x@.len(),
            x@.len() == y@.len(),
            x@ == encode_utf8(a@),
            y@ == encode_utf8(b@),
            forall|j: int| 0 <= j < i ==> x@[j] == y@[j],
        decreases x@.len() - i,
    {
        if x[i] != y[i] {
            assert(x@[i as int] != y@[i as int]);
            return false;
        }
        i = i + 1;
    }
    assert(x@ =~= y@);
    true
}

/// `itoa::Buffer::format` writes an integer in decimal digits.
#[verifier::external_body]
fn decimal_string(n: usize) -> (s: String)
    ensures
        s@ == decimal(n as nat),
{
    String::from(itoa::Buffer::new().format(n))
}

/// The name of the field at the position `i`: `item` and the number.
pub fn item_name(i: usize) -> (name: String)
    ensures
        name@ == item_name_of(i as nat),
{
    let mut name = String::from_str("item");
    let digits = decimal_string(i);
    name.append(digits.as_str());
    name
}

} // verus!
