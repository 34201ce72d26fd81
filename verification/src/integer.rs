//! Parsing of integers of the fixed-width types.

use vstd::prelude::*;
use crate::chars::{digit_value, is_digit_in};
use crate::error::{Error, Span};
use crate::parse::Parse;
use crate::source::{after_char, Source};
use crate::utf8::{lemma_step_is_position, scalar_at};

verus! {

/// An integer type that can be parsed: it says which numbers it holds and
/// makes a value from a sign and a magnitude.
pub trait Integer: Sized + Copy + Default {
    /// The least number of the type.
    spec fn least() -> int;

    /// The greatest number of the type.
    spec fn greatest() -> int;

    /// The number that a value stands for.
    spec fn number(self) -> int;

    /// The greatest magnitude that the type holds with the given sign.
    open spec fn magnitude_limit(negative: bool) -> int {
        if negative {
            -Self::least()
        } else {
            Self::greatest()
        }
    }

    /// The numbers that the type holds reach from `least` to `greatest`, zero
    /// is among them, and the magnitude of each fits 128 bits. The greatest
    /// magnitude is `greatest` without a sign and that of `least` with one.
    proof fn lemma_range()
        ensures
            -(u128::MAX as int) <= Self::least() <= 0 <= Self::greatest() <= u128::MAX,
            Self::magnitude_limit(false) == Self::greatest(),
            Self::magnitude_limit(true) == -Self::least(),
    ;

    /// Whether the type holds negative numbers.
    fn signed() -> (b: bool)
        ensures
            b == (Self::least() < 0),
    ;

    /// The greatest magnitude that the type holds with the given sign.
    fn limit(negative: bool) -> (m: u128)
        ensures
            m == Self::magnitude_limit(negative),
    ;

    /// The value with the given sign and magnitude.
    fn from_magnitude(negative: bool, magnitude: u128) -> (v: Self)
        requires
            magnitude <= Self::magnitude_limit(negative),
        ensures
            v.number() == signed_number(negative, magnitude as int),
    ;

    /// The sign and the magnitude of the value. Zero has no sign.
    fn magnitude(self) -> (r: (bool, u128))
        ensures
            signed_number(r.0, r.1 as int) == self.number(),
            r.0 ==> r.1 > 0,
    ;
}

/// The number with the given sign and magnitude.
pub open spec fn signed_number(negative: bool, magnitude: int) -> int {
    if negative {
        -magnitude
    } else {
        magnitude
    }
}

impl Integer for u8 {
    open spec fn least() -> int {
        0
    }

    open spec fn greatest() -> int {
        u8::MAX as int
    }

    open spec fn number(self) -> int {
        self as int
    }

    proof fn lemma_range() {
    }

    fn signed() -> (b: bool) {
        false
    }

    fn limit(negative: bool) -> (m: u128) {
        if negative {
            0
        } else {
            u8::MAX as u128
        }
    }

    fn from_magnitude(negative: bool, magnitude: u128) -> (v: Self) {
        magnitude as u8
    }

    fn magnitude(self) -> (r: (bool, u128)) {
        (false, self as u128)
    }
}

impl Integer for u16 {
    open spec fn least() -> int {
        0
    }

    open spec fn greatest() -> int {
        u16::MAX as int
    }

    open spec fn number(self) -> int {
        self as int
    }

    proof fn lemma_range() {
    }

    fn signed() -> (b: bool) {
        false
    }

    fn limit(negative: bool) -> (m: u128) {
        if negative {
            0
        } else {
            u16::MAX as u128
        }
    }

    fn from_magnitude(negative: bool, magnitude: u128) -> (v: Self) {
        magnitude as u16
    }

    fn magnitude(self) -> (r: (bool, u128)) {
        (false, self as u128)
    }
}

impl Integer for u32 {
    open spec fn least() -> int {
        0
    }

    open spec fn greatest() -> int {
        u32::MAX as int
    }

    open spec fn number(self) -> int {
        self as int
    }

    proof fn lemma_range() {
    }

    fn signed() -> (b: bool) {
        false
    }

    fn limit(negative: bool) -> (m: u128) {
        if negative {
            0
        } else {
            u32::MAX as u128
        }
    }

    fn from_magnitude(negative: bool, magnitude: u128) -> (v: Self) {
        magnitude as u32
    }

    fn magnitude(self) -> (r: (bool, u128)) {
        (false, self as u128)
    }
}

impl Integer for u64 {
    open spec fn least() -> int {
        0
    }

    open spec fn greatest() -> int {
        u64::MAX as int
    }

    open spec fn number(self) -> int {
        self as int
    }

    proof fn lemma_range() {
    }

    fn signed() -> (b: bool) {
        false
    }

    fn limit(negative: bool) -> (m: u128) {
        if negative {
            0
        } else {
            u64::MAX as u128
        }
    }

    fn from_magnitude(negative: bool, magnitude: u128) -> (v: Self) {
        magnitude as u64
    }

    fn magnitude(self) -> (r: (bool, u128)) {
        (false, self as u128)
    }
}

impl Integer for u128 {
    open spec fn least() -> int {
        0
    }

    open spec fn greatest() -> int {
        u128::MAX as int
    }

    open spec fn number(self) -> int {
        self as int
    }

    proof fn lemma_range() {
    }

    fn signed() -> (b: bool) {
        false
    }

    fn limit(negative: bool) -> (m: u128) {
        if negative {
            0
        } else {
            u128::MAX as u128
        }
    }

    fn from_magnitude(negative: bool, magnitude: u128) -> (v: Self) {
        magnitude as u128
    }

    fn magnitude(self) -> (r: (bool, u128)) {
        (false, self as u128)
    }
}

impl Integer for usize {
    open spec fn least() -> int {
        0
    }

    open spec fn greatest() -> int {
        usize::MAX as int
    }

    open spec fn number(self) -> int {
        self as int
    }

    proof fn lemma_range() {
    }

    fn signed() -> (b: bool) {
        false
    }

    fn limit(negative: bool) -> (m: u128) {
        if negative {
            0
        } else {
            usize::MAX as u128
        }
    }

    fn from_magnitude(negative: bool, magnitude: u128) -> (v: Self) {
        magnitude as usize
    }

    fn magnitude(self) -> (r: (bool, u128)) {
        (false, self as u128)
    }
}

impl Integer for i8 {
    open spec fn least() -> int {
        i8::MIN as int
    }

    open spec fn greatest() -> int {
        i8::MAX as int
    }

    open spec fn number(self) -> int {
        self as int
    }

    proof fn lemma_range() {
    }

    fn signed() -> (b: bool) {
        true
    }

    fn limit(negative: bool) -> (m: u128) {
        if negative {
            i8::MAX as u128 + 1
        } else {
            i8::MAX as u128
        }
    }

    fn from_magnitude(negative: bool, magnitude: u128) -> (v: Self) {
        if !negative {
            magnitude as i8
        } else if magnitude > i8::MAX as u128 {
            i8::MIN
        } else {
            -(magnitude as i8)
        }
    }

    fn magnitude(self) -> (r: (bool, u128)) {
        if self < 0 {
            let below = -(self + 1);
            (true, below as u128 + 1)
        } else {
            (false, self as u128)
        }
    }
}

impl Integer for i16 {
    open spec fn least() -> int {
        i16::MIN as int
    }

    open spec fn greatest() -> int {
        i16::MAX as int
    }

    open spec fn number(self) -> int {
        self as int
    }

    proof fn lemma_range() {
    }

    fn signed() -> (b: bool) {
        true
    }

    fn limit(negative: bool) -> (m: u128) {
        if negative {
            i16::MAX as u128 + 1
        } else {
            i16::MAX as u128
        }
    }

    fn from_magnitude(negative: bool, magnitude: u128) -> (v: Self) {
        if !negative {
            magnitude as i16
        } else if magnitude > i16::MAX as u128 {
            i16::MIN
        } else {
            -(magnitude as i16)
        }
    }

    fn magnitude(self) -> (r: (bool, u128)) {
        if self < 0 {
            let below = -(self + 1);
            (true, below as u128 + 1)
        } else {
            (false, self as u128)
        }
    }
}

impl Integer for i32 {
    open spec fn least() -> int {
        i32::MIN as int
    }

    open spec fn greatest() -> int {
        i32::MAX as int
    }

    open spec fn number(self) -> int {
        self as int
    }

    proof fn lemma_range() {
    }

    fn signed() -> (b: bool) {
        true
    }

    fn limit(negative: bool) -> (m: u128) {
        if negative {
            i32::MAX as u128 + 1
        } else {
            i32::MAX as u128
        }
    }

    fn from_magnitude(negative: bool, magnitude: u128) -> (v: Self) {
        if !negative {
            magnitude as i32
        } else if magnitude > i32::MAX as u128 {
            i32::MIN
        } else {
            -(magnitude as i32)
        }
    }

    fn magnitude(self) -> (r: (bool, u128)) {
        if self < 0 {
            let below = -(self + 1);
            (true, below as u128 + 1)
        } else {
            (false, self as u128)
        }
    }
}

impl Integer for i64 {
    open spec fn least() -> int {
        i64::MIN as int
    }

    open spec fn greatest() -> int {
        i64::MAX as int
    }

    open spec fn number(self) -> int {
        self as int
    }

    proof fn lemma_range() {
    }

    fn signed() -> (b: bool) {
        true
    }

    fn limit(negative: bool) -> (m: u128) {
        if negative {
            i64::MAX as u128 + 1
        } else {
            i64::MAX as u128
        }
    }

    fn from_magnitude(negative: bool, magnitude: u128) -> (v: Self) {
        if !negative {
            magnitude as i64
        } else if magnitude > i64::MAX as u128 {
            i64::MIN
        } else {
            -(magnitude as i64)
        }
    }

    fn magnitude(self) -> (r: (bool, u128)) {
        if self < 0 {
            let below = -(self + 1);
            (true, below as u128 + 1)
        } else {
            (false, self as u128)
        }
    }
}

impl Integer for i128 {
    open spec fn least() -> int {
        i128::MIN as int
    }

    open spec fn greatest() -> int {
        i128::MAX as int
    }

    open spec fn number(self) -> int {
        self as int
    }

    proof fn lemma_range() {
    }

    fn signed() -> (b: bool) {
        true
    }

    fn limit(negative: bool) -> (m: u128) {
        if negative {
            i128::MAX as u128 + 1
        } else {
            i128::MAX as u128
        }
    }

    fn from_magnitude(negative: bool, magnitude: u128) -> (v: Self) {
        if !negative {
            magnitude as i128
        } else if magnitude > i128::MAX as u128 {
            i128::MIN
        } else {
            -(magnitude as i128)
        }
    }

    fn magnitude(self) -> (r: (bool, u128)) {
        if self < 0 {
            let below = -(self + 1);
            (true, below as u128 + 1)
        } else {
            (false, self as u128)
        }
    }
}

impl Integer for isize {
    open spec fn least() -> int {
        isize::MIN as int
    }

    open spec fn greatest() -> int {
        isize::MAX as int
    }

    open spec fn number(self) -> int {
        self as int
    }

    proof fn lemma_range() {
    }

    fn signed() -> (b: bool) {
        true
    }

    fn limit(negative: bool) -> (m: u128) {
        if negative {
            isize::MAX as u128 + 1
        } else {
            isize::MAX as u128
        }
    }

    fn from_magnitude(negative: bool, magnitude: u128) -> (v: Self) {
        if !negative {
            magnitude as isize
        } else if magnitude > isize::MAX as u128 {
            isize::MIN
        } else {
            -(magnitude as isize)
        }
    }

    fn magnitude(self) -> (r: (bool, u128)) {
        if self < 0 {
            let below = -(self + 1);
            (true, below as u128 + 1)
        } else {
            (false, self as u128)
        }
    }
}

/// The value of the digit of the radix `radix` at `pos` and the position
/// after it.
pub open spec fn digit_at(input: Seq<u8>, pos: int, radix: int) -> Option<(int, int)> {
    match scalar_at(input, pos) {
        Some((c, n)) => if is_digit_in(c, radix) {
            Some((digit_value(c).unwrap(), pos + n))
        } else {
            None
        },
        None => None,
    }
}

/// The number that the digits from `pos` on add to `acc`, and the position
/// after the last of them.
pub open spec fn digits(input: Seq<u8>, pos: int, radix: int, acc: int) -> (int, int)
    decreases input.len() - pos,
{
    match digit_at(input, pos, radix) {
        Some((d, next)) => if next <= pos || next > input.len() {
            (acc, pos)
        } else {
            digits(input, next, radix, acc * radix + d)
        },
        None => (acc, pos),
    }
}

/// How an integer literal begins.
pub struct Header {
    /// Whether a minus sign stands in front.
    pub negative: bool,
    /// The radix that the prefix selects: 16 after `0x`, 2 after `0b`, else 10.
    pub radix: int,
    /// Where the digits start.
    pub start: int,
    /// Whether a zero that is a digit was read already.
    pub zero: bool,
}

/// The beginning of the integer literal at `pos`: a minus sign where the
/// type is signed, then `0x`, `0b`, a zero or nothing.
pub open spec fn header(input: Seq<u8>, pos: int, signed: bool) -> Header {
    let minus = if signed {
        after_char(input, pos, '-')
    } else {
        None
    };
    let body = match minus {
        Some(p) => p,
        None => pos,
    };
    match after_char(input, body, '0') {
        Some(past_zero) => match after_char(input, past_zero, 'x') {
            Some(past_mark) => Header {
                negative: minus is Some,
                radix: 16,
                start: past_mark,
                zero: false,
            },
            None => match after_char(input, past_zero, 'b') {
                Some(past_mark) => Header {
                    negative: minus is Some,
                    radix: 2,
                    start: past_mark,
                    zero: false,
                },
                None => Header { negative: minus is Some, radix: 10, start: past_zero, zero: true },
            },
        },
        None => Header { negative: minus is Some, radix: 10, start: body, zero: false },
    }
}

/// What an integer literal at `pos` amounts to for the type `I`.
pub enum Literal {
    /// A number of the type, and where the literal ends.
    Number(int, int),
    /// No digit where one must stand; the literal was read up to the position given.
    NoDigit(int),
    /// A number that the type does not hold; the literal ends at the position given.
    Overflow(int),
}

/// Reads the integer literal at `pos` for the type `I`.
///
/// The literal is an optional minus sign, for a signed type, and then
/// decimal digits, or `0x` and hexadecimal digits, or `0b` and binary
/// digits. It takes all the digits that stand there.
pub open spec fn literal<I: Integer>(input: Seq<u8>, pos: int) -> Literal {
    let h = header(input, pos, I::least() < 0);
    let (value, end) = digits(input, h.start, h.radix, 0);
    if !h.zero && end == h.start {
        Literal::NoDigit(end)
    } else if value > I::magnitude_limit(h.negative) {
        Literal::Overflow(end)
    } else {
        Literal::Number(signed_number(h.negative, value), end)
    }
}

/// Every integer type parses its literals: the number they stand for, or an
/// error that spans the literal where it has no digits or stands for a
/// number that the type does not hold.
impl<I: Integer> Parse for I {
    type Output = I;

    open spec fn exact() -> bool {
        true
    }

    open spec fn end(input: Seq<u8>, pos: int) -> Option<int> {
        match literal::<I>(input, pos) {
            Literal::Number(_, end) => Some(end),
            _ => None,
        }
    }

    open spec fn yields(input: Seq<u8>, pos: int, out: Self::Output) -> bool {
        literal::<I>(input, pos) matches Literal::Number(n, _) && out.number() == n
    }

    open spec fn reports(input: Seq<u8>, pos: int, err: Error) -> bool {
        match literal::<I>(input, pos) {
            Literal::Number(_, _) => false,
            Literal::NoDigit(end) => err.span.0 == pos && err.span.1 == end && err.msg@
                == "error parsing integer"@,
            Literal::Overflow(end) => err.span.0 == pos && err.span.1 == end && err.msg@
                == "overflow while parsing integer"@,
        }
    }

    fn parse<S: Source>(src: &mut S) -> (r: Result<Self::Output, Error>) {
        proof {
            I::lemma_range();
        }
        let ghost input = src.input();
        let ghost pos = src.position();
        let start = src.current_position();
        let negative = I::signed() && src.match_char('-');
        let mut radix: u32 = 10;
        let mut seen = false;
        if src.match_char('0') {
            if src.match_char('x') {
                radix = 16;
            } else if src.match_char('b') {
                radix = 2;
            } else {
                seen = true;
            }
        }
        let ghost h = header(input, pos, I::least() < 0);
        assert(h.negative == negative && h.radix == radix && h.start == src.position() && h.zero
            == seen);
        let limit = I::limit(negative);
        let mut magnitude: u128 = 0;
        let mut overflow = false;
        let ghost mut acc: int = 0;
        let mut any = false;
        loop
            invariant
                src.inv(),
                src.input() == input,
                h.start <= src.position(),
                pos <= h.start,
                radix == 2 || radix == 10 || radix == 16,
                digits(input, h.start, radix as int, 0) == digits(
                    input,
                    src.position(),
                    radix as int,
                    acc,
                ),
                any == (src.position() > h.start),
                0 <= acc,
                !overflow ==> magnitude == acc && magnitude <= limit,
                overflow ==> acc > limit,
            ensures
                src.inv(),
                src.input() == input,
                pos <= h.start <= src.position(),
                digits(input, h.start, radix as int, 0) == (acc, src.position()),
                any == (src.position() > h.start),
                !overflow ==> magnitude == acc && magnitude <= limit,
                overflow ==> acc > limit,
            decreases input.len() - src.position(),
        {
            let here = src.current_position();
            let digit = match src.peek() {
                Some(c) => match c.ch.to_digit(radix) {
                    Some(d) => Some((d, c.length)),
                    None => None,
                },
                None => None,
            };
            match digit {
                Some((d, length)) => {
                    proof {
                        lemma_step_is_position(input, here as int);
                        assert(acc * radix + d >= acc) by (nonlinear_arith)
                            requires
                                acc >= 0,
                                radix >= 1,
                                d >= 0,
                        ;
                    }
                    src.set_position(here + length);
                    any = true;
                    if !overflow {
                        let next = match magnitude.checked_mul(radix as u128) {
                            Some(m) => m.checked_add(d as u128),
                            None => None,
                        };
                        match next {
                            Some(n) => {
                                if n <= limit {
                                    magnitude = n;
                                } else {
                                    overflow = true;
                                }
                            },
                            None => {
                                overflow = true;
                            },
                        }
                    }
                    proof {
                        acc = acc * radix + d;
                    }
                },
                None => {
                    break ;
                },
            }
        }
        let end = src.current_position();
        if !seen && !any {
            src.set_position(start);
            return Err(Error::new(Span::new(start, end), "error parsing integer"));
        }
        if overflow {
            src.set_position(start);
            return Err(Error::new(Span::new(start, end), "overflow while parsing integer"));
        }
        Ok(I::from_magnitude(negative, magnitude))
    }
}

} // verus!
