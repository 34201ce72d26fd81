//! The primitive parsers and the combinators that build parsers out of parsers.

use vstd::prelude::*;
use crate::chars::{alphabetic, alphanumeric, control, is_digit_in, white_space, xid_continue, xid_start};
use crate::error::{Error, Span};
use crate::parse::Parse;
use crate::source::{after_char, Source};
use crate::utf8::{is_position, lemma_step_is_position, scalar_at};

verus! {

/// The position after the scalar at `pos`, when there is one.
pub open spec fn after_scalar(input: Seq<u8>, pos: int) -> Option<int> {
    match scalar_at(input, pos) {
        Some((c, n)) => Some(pos + n),
        None => None,
    }
}

/// Whether `out` is the scalar at `pos`.
pub open spec fn is_scalar_at(input: Seq<u8>, pos: int, out: char) -> bool {
    scalar_at(input, pos) matches Some((c, n)) && c == out
}

/// Whether `err` is a zero-width error at `pos` that says `msg`.
pub open spec fn expected(pos: int, msg: Seq<char>, err: Error) -> bool {
    err.span.0 == pos && err.span.1 == pos && err.msg@ == msg
}

/// Succeeds only at the end of the input, or where no scalar can be decoded.
#[derive(Debug, Default, PartialEq, Eq, Hash)]
pub struct EOF;

impl Parse for EOF {
    type Output = ();

    open spec fn exact() -> bool {
        true
    }

    open spec fn end(input: Seq<u8>, pos: int) -> Option<int> {
        if scalar_at(input, pos) is None {
            Some(pos)
        } else {
            None
        }
    }

    open spec fn yields(input: Seq<u8>, pos: int, out: Self::Output) -> bool {
        true
    }

    open spec fn reports(input: Seq<u8>, pos: int, err: Error) -> bool {
        expected(pos, "expected EOF"@, err)
    }

    fn parse<S: Source>(src: &mut S) -> (r: Result<Self::Output, Error>) {
        if src.peek().is_some() {
            let pos = src.current_position();
            return Err(Error::new(Span::new(pos, pos), "expected EOF"));
        }
        Ok(())
    }
}

/// Succeeds only at the start of the input.
#[derive(Debug, Default, PartialEq, Eq, Hash)]
pub struct SOF;

impl Parse for SOF {
    type Output = ();

    open spec fn exact() -> bool {
        true
    }

    open spec fn end(input: Seq<u8>, pos: int) -> Option<int> {
        if pos == 0 {
            Some(pos)
        } else {
            None
        }
    }

    open spec fn yields(input: Seq<u8>, pos: int, out: Self::Output) -> bool {
        true
    }

    open spec fn reports(input: Seq<u8>, pos: int, err: Error) -> bool {
        expected(pos, "expected SOF"@, err)
    }

    fn parse<S: Source>(src: &mut S) -> (r: Result<Self::Output, Error>) {
        let pos = src.current_position();
        if pos != 0 {
            return Err(Error::new(Span::new(pos, pos), "expected SOF"));
        }
        Ok(())
    }
}

/// Consumes and yields one scalar, whatever it is; fails at the end of the input.
#[derive(Debug, Default, PartialEq, Eq, PartialOrd, Ord, Hash)]
pub struct ANY;

impl Parse for ANY {
    type Output = char;

    open spec fn exact() -> bool {
        true
    }

    open spec fn end(input: Seq<u8>, pos: int) -> Option<int> {
        after_scalar(input, pos)
    }

    open spec fn yields(input: Seq<u8>, pos: int, out: Self::Output) -> bool {
        is_scalar_at(input, pos, out)
    }

    open spec fn reports(input: Seq<u8>, pos: int, err: Error) -> bool {
        expected(pos, "expected character"@, err)
    }

    fn parse<S: Source>(src: &mut S) -> (r: Result<Self::Output, Error>) {
        let pos = src.current_position();
        if let Some(ch) = src.peek() {
            proof {
                lemma_step_is_position(src.input(), pos as int);
            }
            src.set_position(pos + ch.length);
            return Ok(ch.ch);
        }
        Err(Error::new(Span::new(pos, pos), "expected character"))
    }
}

/// Where parsing one scalar of a class of characters ends: after the scalar
/// at `pos` if it belongs to the class.
pub open spec fn after_class(input: Seq<u8>, pos: int, class: spec_fn(char) -> bool) -> Option<
    int,
> {
    match scalar_at(input, pos) {
        Some((c, n)) => if class(c) {
            Some(pos + n)
        } else {
            None
        },
        None => None,
    }
}

/// Consumes and yields one scalar with the property `White_Space`.
#[derive(Debug, Default, PartialEq, Eq, PartialOrd, Ord, Hash)]
pub struct WHITESPACE;

impl Parse for WHITESPACE {
    type Output = char;

    open spec fn exact() -> bool {
        true
    }

    open spec fn end(input: Seq<u8>, pos: int) -> Option<int> {
        after_class(input, pos, |c: char| white_space(c))
    }

    open spec fn yields(input: Seq<u8>, pos: int, out: Self::Output) -> bool {
        is_scalar_at(input, pos, out)
    }

    open spec fn reports(input: Seq<u8>, pos: int, err: Error) -> bool {
        expected(pos, "expected whitespace"@, err)
    }

    fn parse<S: Source>(src: &mut S) -> (r: Result<Self::Output, Error>) {
        let pos = src.current_position();
        if let Some(ch) = src.peek() {
            if ch.ch.is_whitespace() {
                proof {
                    lemma_step_is_position(src.input(), pos as int);
                }
                src.set_position(pos + ch.length);
                return Ok(ch.ch);
            }
        }
        Err(Error::new(Span::new(pos, pos), "expected whitespace"))
    }
}

/// Consumes and yields one scalar with the property `Alphabetic`.
#[derive(Debug, Default, PartialEq, Eq, PartialOrd, Ord, Hash)]
pub struct ALPHABETIC;

impl Parse for ALPHABETIC {
    type Output = char;

    open spec fn exact() -> bool {
        true
    }

    open spec fn end(input: Seq<u8>, pos: int) -> Option<int> {
        after_class(input, pos, |c: char| alphabetic(c))
    }

    open spec fn yields(input: Seq<u8>, pos: int, out: Self::Output) -> bool {
        is_scalar_at(input, pos, out)
    }

    open spec fn reports(input: Seq<u8>, pos: int, err: Error) -> bool {
        expected(pos, "expected alphabetic character"@, err)
    }

    fn parse<S: Source>(src: &mut S) -> (r: Result<Self::Output, Error>) {
        let pos = src.current_position();
        if let Some(ch) = src.peek() {
            if ch.ch.is_alphabetic() {
                proof {
                    lemma_step_is_position(src.input(), pos as int);
                }
                src.set_position(pos + ch.length);
                return Ok(ch.ch);
            }
        }
        Err(Error::new(Span::new(pos, pos), "expected alphabetic character"))
    }
}

/// Consumes and yields one scalar that is alphabetic or numeric.
#[derive(Debug, Default, PartialEq, Eq, PartialOrd, Ord, Hash)]
pub struct ALPHANUMERIC;

impl Parse for ALPHANUMERIC {
    type Output = char;

    open spec fn exact() -> bool {
        true
    }

    open spec fn end(input: Seq<u8>, pos: int) -> Option<int> {
        after_class(input, pos, |c: char| alphanumeric(c))
    }

    open spec fn yields(input: Seq<u8>, pos: int, out: Self::Output) -> bool {
        is_scalar_at(input, pos, out)
    }

    open spec fn reports(input: Seq<u8>, pos: int, err: Error) -> bool {
        expected(pos, "expected alphanumeric character"@, err)
    }

    fn parse<S: Source>(src: &mut S) -> (r: Result<Self::Output, Error>) {
        let pos = src.current_position();
        if let Some(ch) = src.peek() {
            if ch.ch.is_alphanumeric() {
                proof {
                    lemma_step_is_position(src.input(), pos as int);
                }
                src.set_position(pos + ch.length);
                return Ok(ch.ch);
            }
        }
        Err(Error::new(Span::new(pos, pos), "expected alphanumeric character"))
    }
}

/// Consumes and yields one scalar that is a control code.
#[derive(Debug, Default, PartialEq, Eq, PartialOrd, Ord, Hash)]
pub struct CONTROL;

impl Parse for CONTROL {
    type Output = char;

    open spec fn exact() -> bool {
        true
    }

    open spec fn end(input: Seq<u8>, pos: int) -> Option<int> {
        after_class(input, pos, |c: char| control(c))
    }

    open spec fn yields(input: Seq<u8>, pos: int, out: Self::Output) -> bool {
        is_scalar_at(input, pos, out)
    }

    open spec fn reports(input: Seq<u8>, pos: int, err: Error) -> bool {
        expected(pos, "expected control character"@, err)
    }

    fn parse<S: Source>(src: &mut S) -> (r: Result<Self::Output, Error>) {
        let pos = src.current_position();
        if let Some(ch) = src.peek() {
            if ch.ch.is_control() {
                proof {
                    lemma_step_is_position(src.input(), pos as int);
                }
                src.set_position(pos + ch.length);
                return Ok(ch.ch);
            }
        }
        Err(Error::new(Span::new(pos, pos), "expected control character"))
    }
}

/// Consumes and yields one scalar with the property `XID_Start`.
#[allow(non_camel_case_types)]
pub struct UNICODE_ID_START;

impl Parse for UNICODE_ID_START {
    type Output = char;

    open spec fn exact() -> bool {
        true
    }

    open spec fn end(input: Seq<u8>, pos: int) -> Option<int> {
        after_class(input, pos, |c: char| xid_start(c))
    }

    open spec fn yields(input: Seq<u8>, pos: int, out: Self::Output) -> bool {
        is_scalar_at(input, pos, out)
    }

    open spec fn reports(input: Seq<u8>, pos: int, err: Error) -> bool {
        expected(pos, "error parsing unicode_id_start"@, err)
    }

    fn parse<S: Source>(src: &mut S) -> (r: Result<Self::Output, Error>) {
        let pos = src.current_position();
        if let Some(ch) = src.peek() {
            if unicode_ident::is_xid_start(ch.ch) {
                proof {
                    lemma_step_is_position(src.input(), pos as int);
                }
                src.set_position(pos + ch.length);
                return Ok(ch.ch);
            }
        }
        Err(Error::new(Span::new(pos, pos), "error parsing unicode_id_start"))
    }
}

/// Consumes and yields one scalar with the property `XID_Continue`.
#[allow(non_camel_case_types)]
pub struct UNICODE_ID_CONTINUE;

impl Parse for UNICODE_ID_CONTINUE {
    type Output = char;

    open spec fn exact() -> bool {
        true
    }

    open spec fn end(input: Seq<u8>, pos: int) -> Option<int> {
        after_class(input, pos, |c: char| xid_continue(c))
    }

    open spec fn yields(input: Seq<u8>, pos: int, out: Self::Output) -> bool {
        is_scalar_at(input, pos, out)
    }

    open spec fn reports(input: Seq<u8>, pos: int, err: Error) -> bool {
        expected(pos, "error parsing unicode_id_continue"@, err)
    }

    fn parse<S: Source>(src: &mut S) -> (r: Result<Self::Output, Error>) {
        let pos = src.current_position();
        if let Some(ch) = src.peek() {
            if unicode_ident::is_xid_continue(ch.ch) {
                proof {
                    lemma_step_is_position(src.input(), pos as int);
                }
                src.set_position(pos + ch.length);
                return Ok(ch.ch);
            }
        }
        Err(Error::new(Span::new(pos, pos), "error parsing unicode_id_continue"))
    }
}

/// Consumes and yields one digit of the radix `RADIX`.
/// No character is a digit of a radix below 2 or above 36.
#[derive(Debug, Default, PartialEq, Eq, PartialOrd, Ord, Hash)]
pub struct DIGIT<const RADIX: u8>;

impl<const RADIX: u8> Parse for DIGIT<RADIX> {
    type Output = char;

    open spec fn exact() -> bool {
        true
    }

    open spec fn end(input: Seq<u8>, pos: int) -> Option<int> {
        after_class(input, pos, |c: char| 2 <= RADIX <= 36 && is_digit_in(c, RADIX as int))
    }

    open spec fn yields(input: Seq<u8>, pos: int, out: Self::Output) -> bool {
        is_scalar_at(input, pos, out)
    }

    open spec fn reports(input: Seq<u8>, pos: int, err: Error) -> bool {
        expected(pos, "expected digit"@, err)
    }

    fn parse<S: Source>(src: &mut S) -> (r: Result<Self::Output, Error>) {
        let pos = src.current_position();
        if let Some(ch) = src.peek() {
            if 2 <= RADIX && RADIX <= 36 && ch.ch.is_digit(RADIX as u32) {
                proof {
                    lemma_step_is_position(src.input(), pos as int);
                }
                src.set_position(pos + ch.length);
                return Ok(ch.ch);
            }
        }
        Err(Error::new(Span::new(pos, pos), "expected digit"))
    }
}

/// Runs `A`, then `B` where `A` stopped, and yields both values.
pub struct AND<A: Parse, B: Parse>(pub A::Output, pub B::Output);

impl<A: Parse, B: Parse> Parse for AND<A, B> {
    type Output = Self;

    open spec fn exact() -> bool {
        A::exact() && B::exact()
    }

    open spec fn end(input: Seq<u8>, pos: int) -> Option<int> {
        match A::end(input, pos) {
            Some(mid) => B::end(input, mid),
            None => None,
        }
    }

    open spec fn yields(input: Seq<u8>, pos: int, out: Self::Output) -> bool {
        &&& A::end(input, pos) is Some
        &&& A::yields(input, pos, out.0)
        &&& B::yields(input, A::end(input, pos).unwrap(), out.1)
    }

    open spec fn reports(input: Seq<u8>, pos: int, err: Error) -> bool {
        match A::end(input, pos) {
            Some(mid) => B::reports(input, mid, err),
            None => A::reports(input, pos, err),
        }
    }

    fn parse<S: Source>(src: &mut S) -> (r: Result<Self::Output, Error>) {
        let start = src.current_position();
        let a = match A::parse(src) {
            Ok(a) => a,
            Err(e) => {
                return Err(e);
            },
        };
        match B::parse(src) {
            Ok(b) => Ok(AND(a, b)),
            Err(e) => {
                src.set_position(start);
                Err(e)
            },
        }
    }
}

/// The pair of the default values of both parts.
impl<A: Parse, B: Parse> Default for AND<A, B> {
    fn default() -> (r: Self) {
        AND(A::Output::default(), B::Output::default())
    }
}

/// Ordered choice: the value of `A` where `A` succeeds, else that of `B`
/// tried from the same position.
pub enum OR<A: Parse, B: Parse> {
    A(A::Output),
    B(B::Output),
}

/// The default value of the first part, as the first part's.
impl<A: Parse, B: Parse> Default for OR<A, B> {
    fn default() -> (r: Self)
        ensures
            r is A,
    {
        OR::A(A::Output::default())
    }
}

/// The deeper of two errors: the one that ends later, and the second on a tie.
pub open spec fn deeper(first: Error, second: Error) -> Error {
    if first.span.1 > second.span.1 {
        first
    } else {
        second
    }
}

impl<A: Parse, B: Parse> Parse for OR<A, B> {
    type Output = Self;

    open spec fn exact() -> bool {
        A::exact() && B::exact()
    }

    open spec fn end(input: Seq<u8>, pos: int) -> Option<int> {
        match A::end(input, pos) {
            Some(e) => Some(e),
            None => B::end(input, pos),
        }
    }

    open spec fn yields(input: Seq<u8>, pos: int, out: Self::Output) -> bool {
        match out {
            OR::A(a) => A::end(input, pos) is Some && A::yields(input, pos, a),
            OR::B(b) => A::end(input, pos) is None && B::yields(input, pos, b),
        }
    }

    open spec fn reports(input: Seq<u8>, pos: int, err: Error) -> bool {
        exists|first: Error, second: Error|
            #![auto]
            A::reports(input, pos, first) && B::reports(input, pos, second) && err == deeper(
                first,
                second,
            )
    }

    fn parse<S: Source>(src: &mut S) -> (r: Result<Self::Output, Error>)
        ensures
            A::exact() ==> match A::end(old(src).input(), old(src).position()) {
                Some(end) => r matches Ok(OR::A(a)) && A::yields(
                    old(src).input(),
                    old(src).position(),
                    a,
                ) && final(src).position() == end,
                None => !(r matches Ok(OR::A(_))),
            },
    {
        let first = match A::parse(src) {
            Ok(a) => {
                return Ok(OR::A(a));
            },
            Err(e) => e,
        };
        match B::parse(src) {
            Ok(b) => Ok(OR::B(b)),
            Err(second) => {
                let ghost (e1, e2) = (first, second);
                let e = if first.span.1 > second.span.1 {
                    first
                } else {
                    second
                };
                assert(Self::exact() ==> A::reports(src.input(), src.position(), e1)
                    && B::reports(src.input(), src.position(), e2) && e == deeper(e1, e2));
                Err(e)
            },
        }
    }
}

/// Ordered choice: where `A` matches, `A | B` ends where `A` ends and yields
/// what `A` yields, whatever `B` would do there.
pub proof fn lemma_first_choice_decides<A: Parse, B: Parse>(
    input: Seq<u8>,
    pos: int,
    out: OR<A, B>,
)
    requires
        A::end(input, pos) is Some,
    ensures
        OR::<A, B>::end(input, pos) == A::end(input, pos),
        OR::<A, B>::yields(input, pos, out) <==> (out matches OR::A(a) && A::yields(input, pos, a)),
{
}

/// Forwards to `T`. It exists to put an indirection into a grammar that
/// refers to itself.
pub struct Recursive<T: Parse>(pub Box<T::Output>);

impl<T: Parse> Parse for Recursive<T> {
    type Output = T::Output;

    open spec fn exact() -> bool {
        T::exact()
    }

    open spec fn end(input: Seq<u8>, pos: int) -> Option<int> {
        T::end(input, pos)
    }

    open spec fn yields(input: Seq<u8>, pos: int, out: Self::Output) -> bool {
        T::yields(input, pos, out)
    }

    open spec fn reports(input: Seq<u8>, pos: int, err: Error) -> bool {
        T::reports(input, pos, err)
    }

    fn parse<S: Source>(src: &mut S) -> (r: Result<Self::Output, Error>) {
        T::parse(src)
    }
}

/// Runs `T` and puts its value in a box.
pub struct Boxed<T: Parse>(core::marker::PhantomData<T>);

impl<T: Parse> Parse for Boxed<T> {
    type Output = Box<T::Output>;

    open spec fn exact() -> bool {
        T::exact()
    }

    open spec fn end(input: Seq<u8>, pos: int) -> Option<int> {
        T::end(input, pos)
    }

    open spec fn yields(input: Seq<u8>, pos: int, out: Self::Output) -> bool {
        T::yields(input, pos, *out)
    }

    open spec fn reports(input: Seq<u8>, pos: int, err: Error) -> bool {
        T::reports(input, pos, err)
    }

    fn parse<S: Source>(src: &mut S) -> (r: Result<Self::Output, Error>) {
        match T::parse(src) {
            Ok(v) => Ok(Box::new(v)),
            Err(e) => Err(e),
        }
    }
}

/// The upper bound of a repetition that has none.
pub const ANY_NUMBER: usize = usize::MAX;

/// The separator of a repetition that has none: a number that is no
/// Unicode scalar value.
pub const NO_SEPARATOR: u32 = 4294967295;

/// The separator that the number `sep` stands for: the scalar with that
/// value, or none where it is no Unicode scalar value.
pub open spec fn separator(sep: u32) -> Option<char> {
    if vstd::utf8::is_scalar(sep) {
        Some(sep as char)
    } else {
        None
    }
}

/// Where the `i`-th item of a repetition of `T` starts, counting from zero:
/// the first at `pos`, each later one after the item before it and the
/// separator, if there is one. `None` where an earlier item or a separator
/// fails to match.
pub open spec fn item_start<T: Parse>(input: Seq<u8>, pos: int, sep: Option<char>, i: nat) -> Option<
    int,
>
    decreases i,
{
    if i == 0 {
        Some(pos)
    } else {
        match item_start::<T>(input, pos, sep, (i - 1) as nat) {
            Some(s) => match T::end(input, s) {
                Some(e) => match sep {
                    Some(c) => after_char(input, e, c),
                    None => Some(e),
                },
                None => None,
            },
            None => None,
        }
    }
}

/// Where the `i`-th item of a repetition of `T` ends.
pub open spec fn item_end<T: Parse>(input: Seq<u8>, pos: int, sep: Option<char>, i: nat) -> Option<
    int,
> {
    match item_start::<T>(input, pos, sep, i) {
        Some(s) => T::end(input, s),
        None => None,
    }
}

/// The number of items that a repetition of at most `max` items finds, given
/// that it has found `i` already.
pub open spec fn count_from<T: Parse>(
    input: Seq<u8>,
    pos: int,
    sep: Option<char>,
    max: nat,
    i: nat,
) -> nat
    decreases max - i,
{
    if i >= max || item_end::<T>(input, pos, sep, i) is None {
        i
    } else {
        count_from::<T>(input, pos, sep, max, i + 1)
    }
}

/// The number of items that a repetition of at most `max` items finds at `pos`.
pub open spec fn item_count<T: Parse>(input: Seq<u8>, pos: int, sep: Option<char>, max: nat) -> nat {
    count_from::<T>(input, pos, sep, max, 0)
}

/// Where a repetition that found `n` items stops: after the last of them.
pub open spec fn items_end<T: Parse>(input: Seq<u8>, pos: int, sep: Option<char>, n: nat) -> int {
    if n == 0 {
        pos
    } else {
        item_end::<T>(input, pos, sep, (n - 1) as nat).unwrap()
    }
}

/// Whether `out` holds the values of the first items of a repetition, one by one.
pub open spec fn items_yield<T: Parse>(
    input: Seq<u8>,
    pos: int,
    sep: Option<char>,
    out: Seq<T::Output>,
) -> bool {
    forall|i: int|
        0 <= i < out.len() ==> {
            &&& (#[trigger] item_start::<T>(input, pos, sep, i as nat)) is Some
            &&& T::yields(input, item_start::<T>(input, pos, sep, i as nat).unwrap(), out[i])
        }
}

/// A repetition that has `n` items, each of them matched, and either has its
/// fill or finds no further one, counts exactly `n`.
pub proof fn lemma_item_count<T: Parse>(
    input: Seq<u8>,
    pos: int,
    sep: Option<char>,
    max: nat,
    n: nat,
    k: nat,
)
    requires
        k <= n <= max,
        forall|i: nat| i < n ==> (#[trigger] item_end::<T>(input, pos, sep, i)) is Some,
        n == max || item_end::<T>(input, pos, sep, n) is None,
    ensures
        count_from::<T>(input, pos, sep, max, k) == n,
    decreases n - k,
{
    if k < n {
        lemma_item_count::<T>(input, pos, sep, max, n, k + 1);
    }
}

/// What a repetition found: the values, where they are kept, their number
/// and the position after the last item.
pub struct Repeated<V> {
    pub items: Vec<V>,
    pub count: usize,
    pub stop: usize,
}

/// Runs `T` over and over, up to `max` times, with the separator `sep`
/// between the items, and stops before the first item or separator that does
/// not match. The values are kept only where `keep` is set.
///
/// This never fails: the source is left after the last item found.
pub fn repeat<T: Parse, S: Source>(src: &mut S, max: usize, sep: Option<char>, keep: bool) -> (r:
    Repeated<T::Output>)
    requires
        old(src).inv(),
    ensures
        final(src).inv(),
        final(src).input() == old(src).input(),
        final(src).position() == r.stop,
        old(src).position() <= r.stop,
        is_position(old(src).input(), r.stop as int),
        r.count <= max,
        r.items@.len() == if keep {
            r.count as int
        } else {
            0
        },
        T::exact() ==> {
            &&& r.count == item_count::<T>(old(src).input(), old(src).position(), sep, max as nat)
            &&& r.stop == items_end::<T>(
                old(src).input(),
                old(src).position(),
                sep,
                r.count as nat,
            )
            &&& items_yield::<T>(old(src).input(), old(src).position(), sep, r.items@)
        },
{
    let ghost input = src.input();
    let ghost pos = src.position();
    let mut items: Vec<T::Output> = Vec::new();
    let mut count: usize = 0;
    let mut stop = src.current_position();
    while count < max
        invariant
            src.inv(),
            src.input() == input,
            src.position() == stop,
            is_position(input, stop as int),
            pos <= stop,
            pos == old(src).position(),
            input == old(src).input(),
            count <= max,
            items@.len() == if keep {
                count as int
            } else {
                0
            },
            T::exact() ==> {
                &&& forall|i: nat|
                    i < count ==> (#[trigger] item_end::<T>(input, pos, sep, i)) is Some
                &&& stop == items_end::<T>(input, pos, sep, count as nat)
                &&& items_yield::<T>(input, pos, sep, items@)
            },
        ensures
            src.inv(),
            src.input() == input,
            src.position() == stop,
            is_position(input, stop as int),
            pos <= stop,
            count <= max,
            items@.len() == if keep {
                count as int
            } else {
                0
            },
            T::exact() ==> {
                &&& forall|i: nat|
                    i < count ==> (#[trigger] item_end::<T>(input, pos, sep, i)) is Some
                &&& stop == items_end::<T>(input, pos, sep, count as nat)
                &&& items_yield::<T>(input, pos, sep, items@)
                &&& (count == max || item_end::<T>(input, pos, sep, count as nat) is None)
            },
        decreases max - count,
    {
        if count > 0 {
            if let Some(c) = sep {
                if !src.match_char(c) {
                    break ;
                }
            }
        }
        assert(T::exact() ==> item_start::<T>(input, pos, sep, count as nat) == Some(
            src.position(),
        ));
        match T::parse(src) {
            Ok(value) => {
                let ghost earlier = items@;
                if keep {
                    items.push(value);
                }
                count = count + 1;
                stop = src.current_position();
                proof {
                    if T::exact() {
                        assert forall|i: int| 0 <= i < items@.len() implies {
                            &&& (#[trigger] item_start::<T>(input, pos, sep, i as nat)) is Some
                            &&& T::yields(
                                input,
                                item_start::<T>(input, pos, sep, i as nat).unwrap(),
                                items@[i],
                            )
                        } by {
                            if i < earlier.len() {
                                assert(items@[i] == earlier[i]);
                            }
                        }
                    }
                }
            },
            Err(_) => {
                src.set_position(stop);
                break ;
            },
        }
    }
    proof {
        if T::exact() {
            lemma_item_count::<T>(input, pos, sep, max as nat, count as nat, 0);
        }
    }
    Repeated { items, count, stop }
}

/// Whether a repetition of `T` from `min` to `max` times succeeds at `pos`,
/// and where it then ends.
pub open spec fn repeat_end<T: Parse>(
    input: Seq<u8>,
    pos: int,
    min: nat,
    max: nat,
    sep: Option<char>,
) -> Option<int> {
    let n = item_count::<T>(input, pos, sep, max);
    if n < min {
        None
    } else {
        Some(items_end::<T>(input, pos, sep, n))
    }
}

/// Whether `err` is the error of a repetition at `pos` that found too few
/// items: it spans what the items found cover.
pub open spec fn too_few<T: Parse>(
    input: Seq<u8>,
    pos: int,
    max: nat,
    sep: Option<char>,
    err: Error,
) -> bool {
    &&& err.span.0 == pos
    &&& err.span.1 == items_end::<T>(input, pos, sep, item_count::<T>(input, pos, sep, max))
    &&& err.msg@ == "expected minimal number of repeats"@
}

/// Runs `T` from `MIN` to `MAX` times and yields the values in order.
///
/// Where `SEP` is a Unicode scalar value, that character must stand between
/// two items, and a separator that no item follows is not consumed. The
/// repetition stops at the first item or separator that does not match and
/// at `MAX` items. It fails, consuming nothing, where it finds fewer than
/// `MIN` items.
pub struct Repeat<T: Parse, const MIN: usize, const MAX: usize, const SEP: u32>(pub Vec<T::Output>);

impl<T: Parse, const MIN: usize, const MAX: usize, const SEP: u32> Parse for Repeat<
    T,
    MIN,
    MAX,
    SEP,
> {
    type Output = Vec<T::Output>;

    open spec fn exact() -> bool {
        T::exact()
    }

    open spec fn end(input: Seq<u8>, pos: int) -> Option<int> {
        repeat_end::<T>(input, pos, MIN as nat, MAX as nat, separator(SEP))
    }

    open spec fn yields(input: Seq<u8>, pos: int, out: Self::Output) -> bool {
        &&& out@.len() == item_count::<T>(input, pos, separator(SEP), MAX as nat)
        &&& items_yield::<T>(input, pos, separator(SEP), out@)
    }

    open spec fn reports(input: Seq<u8>, pos: int, err: Error) -> bool {
        too_few::<T>(input, pos, MAX as nat, separator(SEP), err)
    }

    fn parse<S: Source>(src: &mut S) -> (r: Result<Self::Output, Error>)
        ensures
            r matches Ok(v) ==> MIN <= v@.len() <= MAX,
    {
        let start = src.current_position();
        let found = repeat::<T, S>(src, MAX, char::from_u32(SEP), true);
        if found.count < MIN {
            src.set_position(start);
            return Err(Error::new(Span::new(start, found.stop), "expected minimal number of repeats"));
        }
        Ok(found.items)
    }
}

/// Runs `T` from `MIN` to `MAX` times as `Repeat` does and drops the values,
/// so that nothing is allocated for them.
pub struct RepeatQuiet<T: Parse, const MIN: usize, const MAX: usize, const SEP: u32>(
    core::marker::PhantomData<T>,
);

impl<T: Parse, const MIN: usize, const MAX: usize, const SEP: u32> Parse for RepeatQuiet<
    T,
    MIN,
    MAX,
    SEP,
> {
    type Output = ();

    open spec fn exact() -> bool {
        T::exact()
    }

    open spec fn end(input: Seq<u8>, pos: int) -> Option<int> {
        repeat_end::<T>(input, pos, MIN as nat, MAX as nat, separator(SEP))
    }

    open spec fn yields(input: Seq<u8>, pos: int, out: Self::Output) -> bool {
        true
    }

    open spec fn reports(input: Seq<u8>, pos: int, err: Error) -> bool {
        too_few::<T>(input, pos, MAX as nat, separator(SEP), err)
    }

    fn parse<S: Source>(src: &mut S) -> (r: Result<Self::Output, Error>) {
        let start = src.current_position();
        let found = repeat::<T, S>(src, MAX, char::from_u32(SEP), false);
        if found.count < MIN {
            src.set_position(start);
            return Err(Error::new(Span::new(start, found.stop), "expected minimal number of repeats"));
        }
        Ok(())
    }
}

} // verus!
