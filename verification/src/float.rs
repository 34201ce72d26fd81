//! Pieces of a decimal-to-binary floating point conversion.

use vstd::prelude::*;
use vstd::string::*;
use crate::error::{Error, Span};
use crate::parse::span_in;
use crate::source::{after_char, after_char_range, Source};
use crate::utf8::bytes_at;

verus! {

/// A binary floating point value in pieces: the bits of its mantissa and its
/// biased power of two.
#[derive(Debug, Copy, Clone, PartialEq, Eq, Structural)]
pub struct AdjustedMantissa {
    pub mantissa: u64,
    pub power2: i32,
}

impl AdjustedMantissa {
    /// The value with no mantissa bits and the given power of two.
    pub fn zero_pow2(power2: i32) -> (am: Self)
        ensures
            am == (AdjustedMantissa { mantissa: 0, power2 }),
    {
        Self { mantissa: 0, power2 }
    }
}

impl Default for AdjustedMantissa {
    fn default() -> (am: Self)
        ensures
            am == (AdjustedMantissa { mantissa: 0, power2: 0 }),
    {
        Self { mantissa: 0, power2: 0 }
    }
}

/// What a floating point literal in the input amounts to, before it is
/// turned into a number.
#[derive(Debug, PartialEq, Eq)]
pub enum FloatText {
    /// A number, as the text of a literal that a conversion routine can take:
    /// a minus sign if the number is negative, the digits before the point
    /// without leading zeros, the point and the digits behind it, and `e`
    /// with the exponent.
    Number(String),
    /// Infinity, negative where the flag is set.
    Infinity(bool),
    /// Not a number, with the sign bit set where the flag is set.
    Nan(bool),
}

/// The model of `FloatText`.
pub enum FloatView {
    Number(Seq<char>),
    Infinity(bool),
    Nan(bool),
}

impl View for FloatText {
    type V = FloatView;

    open spec fn view(&self) -> FloatView {
        match *self {
            FloatText::Number(s) => FloatView::Number(s@),
            FloatText::Infinity(n) => FloatView::Infinity(n),
            FloatText::Nan(n) => FloatView::Nan(n),
        }
    }
}

/// The decimal digits from `pos` on and the position behind them.
pub open spec fn digit_run(input: Seq<u8>, pos: int) -> (Seq<char>, int)
    decreases input.len() - pos,
{
    match after_char_range(input, pos, '0', '9') {
        Some((c, next)) => if next <= pos || next > input.len() {
            (Seq::empty(), pos)
        } else {
            let rest = digit_run(input, next);
            (seq![c] + rest.0, rest.1)
        },
        None => (Seq::empty(), pos),
    }
}

/// The position behind the zeros that stand from `pos` on.
pub open spec fn zero_run(input: Seq<u8>, pos: int) -> int
    decreases input.len() - pos,
{
    match after_char(input, pos, '0') {
        Some(next) => if next <= pos || next > input.len() {
            pos
        } else {
            zero_run(input, next)
        },
        None => pos,
    }
}

/// The digits of a whole number from `pos` on, without leading zeros, and
/// the position behind them. A number that is all zeros is written `0`.
pub open spec fn whole_number(input: Seq<u8>, pos: int) -> (Seq<char>, int) {
    match after_char(input, pos, '0') {
        Some(next) => {
            let rest = digit_run(input, zero_run(input, next));
            (seq!['0'] + rest.0, rest.1)
        },
        None => digit_run(input, pos),
    }
}

/// The sign at `pos`: whether it is a minus sign, and the position behind
/// the sign, if there is one.
pub open spec fn sign_at(input: Seq<u8>, pos: int) -> (bool, int) {
    match after_char(input, pos, '-') {
        Some(next) => (true, next),
        None => match after_char(input, pos, '+') {
            Some(next) => (false, next),
            None => (false, pos),
        },
    }
}

/// The point and the digits behind it, if a point stands at `pos`, and the
/// position behind them.
pub open spec fn fraction_at(input: Seq<u8>, pos: int) -> (Seq<char>, int) {
    match after_char(input, pos, '.') {
        Some(next) => {
            let digits = digit_run(input, next);
            (seq!['.'] + digits.0, digits.1)
        },
        None => (Seq::empty(), pos),
    }
}

/// The exponent at `pos` and the position behind it: `e` or `E`, a sign
/// and at least one digit. What is not all of that is no exponent.
pub open spec fn exponent_at(input: Seq<u8>, pos: int) -> (Seq<char>, int) {
    let marked = match after_char(input, pos, 'e') {
        Some(next) => Some(next),
        None => after_char(input, pos, 'E'),
    };
    match marked {
        Some(p) => {
            let sign = sign_at(input, p);
            let digits = whole_number(input, sign.1);
            if digits.0.len() == 0 {
                (Seq::empty(), pos)
            } else {
                (
                    seq!['e'] + (if sign.0 {
                        seq!['-']
                    } else {
                        Seq::empty()
                    }) + digits.0,
                    digits.1,
                )
            }
        },
        None => (Seq::empty(), pos),
    }
}

/// Whether the bytes of `word` stand at `pos`.
pub open spec fn word_at(input: Seq<u8>, pos: int, word: Seq<char>) -> bool {
    bytes_at(input, pos, vstd::utf8::encode_utf8(word))
}

/// The name of infinity or of not-a-number that stands at `pos`, and the
/// position behind it.
pub open spec fn name_at(input: Seq<u8>, pos: int, negative: bool) -> Option<(FloatView, int)> {
    if word_at(input, pos, "infinity"@) {
        Some((FloatView::Infinity(negative), pos + vstd::utf8::encode_utf8("infinity"@).len()))
    } else if word_at(input, pos, "inf"@) {
        Some((FloatView::Infinity(negative), pos + vstd::utf8::encode_utf8("inf"@).len()))
    } else if word_at(input, pos, "INFINITY"@) {
        Some((FloatView::Infinity(negative), pos + vstd::utf8::encode_utf8("INFINITY"@).len()))
    } else if word_at(input, pos, "INF"@) {
        Some((FloatView::Infinity(negative), pos + vstd::utf8::encode_utf8("INF"@).len()))
    } else if word_at(input, pos, "nan"@) {
        Some((FloatView::Nan(negative), pos + vstd::utf8::encode_utf8("nan"@).len()))
    } else if word_at(input, pos, "NaN"@) {
        Some((FloatView::Nan(negative), pos + vstd::utf8::encode_utf8("NaN"@).len()))
    } else if word_at(input, pos, "NAN"@) {
        Some((FloatView::Nan(negative), pos + vstd::utf8::encode_utf8("NAN"@).len()))
    } else {
        None
    }
}

/// The floating point literal at `pos` and the position behind it.
///
/// A literal is a sign and then a number or a name. A number has digits
/// before a point, behind it or both, and may have an exponent. A name is
/// one of `infinity`, `inf`, `INFINITY`, `INF`, `nan`, `NaN` and `NAN`.
pub open spec fn float_at(input: Seq<u8>, pos: int) -> Option<(FloatView, int)> {
    let sign = sign_at(input, pos);
    let minus: Seq<char> = if sign.0 {
        seq!['-']
    } else {
        Seq::empty()
    };
    let whole = whole_number(input, sign.1);
    let fraction = fraction_at(input, whole.1);
    let exponent = exponent_at(input, fraction.1);
    if whole.0.len() > 0 || fraction.0.len() > 1 {
        Some((FloatView::Number(minus + whole.0 + fraction.0 + exponent.0), exponent.1))
    } else if fraction.0.len() > 0 {
        None
    } else {
        name_at(input, sign.1, sign.0)
    }
}

/// Reads the decimal digits at the current position into `text`.
fn read_digits<S: Source>(src: &mut S, text: &mut String)
    requires
        old(src).inv(),
    ensures
        final(src).inv(),
        final(src).input() == old(src).input(),
        old(src).position() <= final(src).position(),
        final(src).position() == digit_run(old(src).input(), old(src).position()).1,
        final(text)@ == old(text)@ + digit_run(old(src).input(), old(src).position()).0,
{
    let ghost input = src.input();
    let ghost start = src.position();
    let ghost mut read: Seq<char> = Seq::empty();
    proof {
        assert(read + digit_run(input, start).0 =~= digit_run(input, start).0);
        assert(text@ + read =~= text@);
    }
    loop
        invariant
            src.inv(),
            src.input() == input,
            input == old(src).input(),
            start == old(src).position(),
            start <= src.position(),
            text@ == old(text)@ + read,
            digit_run(input, start) == (
                read + digit_run(input, src.position()).0,
                digit_run(input, src.position()).1,
            ),
        ensures
            src.inv(),
            src.input() == input,
            start <= src.position(),
            text@ == old(text)@ + read,
            digit_run(input, start) == (read, src.position()),
        decreases input.len() - src.position(),
    {
        let here = src.current_position();
        match src.match_char_range('0', '9') {
            Some(c) => {
                let now = src.current_position();
                proof {
                    let rest = digit_run(input, now as int);
                    assert(read + (seq![c] + rest.0) =~= read.push(c) + rest.0);
                    assert(old(text)@ + read.push(c) =~= (old(text)@ + read).push(c));
                    read = read.push(c);
                }
                text.push(c);
                if now <= here {
                    proof {
                        assert(read + Seq::<char>::empty() =~= read);
                    }
                    break ;
                }
            },
            None => {
                proof {
                    assert(read + Seq::<char>::empty() =~= read);
                }
                break ;
            },
        }
    }
}

/// Skips the zeros at the current position.
fn skip_zeros<S: Source>(src: &mut S)
    requires
        old(src).inv(),
    ensures
        final(src).inv(),
        final(src).input() == old(src).input(),
        old(src).position() <= final(src).position(),
        final(src).position() == zero_run(old(src).input(), old(src).position()),
{
    loop
        invariant
            src.inv(),
            src.input() == old(src).input(),
            old(src).position() <= src.position(),
            zero_run(old(src).input(), old(src).position()) == zero_run(
                src.input(),
                src.position(),
            ),
        ensures
            src.inv(),
            src.input() == old(src).input(),
            old(src).position() <= src.position(),
            zero_run(old(src).input(), old(src).position()) == src.position(),
        decreases src.input().len() - src.position(),
    {
        let here = src.current_position();
        if !src.match_char('0') || src.current_position() <= here {
            break ;
        }
    }
}

/// Reads the digits of a whole number into `text`, without leading zeros.
fn read_whole<S: Source>(src: &mut S, text: &mut String)
    requires
        old(src).inv(),
    ensures
        final(src).inv(),
        final(src).input() == old(src).input(),
        old(src).position() <= final(src).position(),
        final(src).position() == whole_number(old(src).input(), old(src).position()).1,
        final(text)@ == old(text)@ + whole_number(old(src).input(), old(src).position()).0,
{
    if src.match_char('0') {
        skip_zeros(src);
        text.push('0');
        let ghost pushed = text@;
        read_digits(src, text);
        proof {
            let rest = digit_run(src.input(), zero_run(src.input(), after_char(
                src.input(),
                old(src).position(),
                '0',
            ).unwrap()));
            assert(pushed + rest.0 =~= old(text)@ + (seq!['0'] + rest.0));
        }
    } else {
        read_digits(src, text);
    }
}

/// Reads a sign, if one stands at the current position, and says whether
/// it is a minus sign.
fn read_sign<S: Source>(src: &mut S) -> (negative: bool)
    requires
        old(src).inv(),
    ensures
        final(src).inv(),
        final(src).input() == old(src).input(),
        old(src).position() <= final(src).position(),
        (negative, final(src).position()) == sign_at(old(src).input(), old(src).position()),
{
    let start = src.current_position();
    if src.match_char('-') {
        proof {
            crate::utf8::lemma_step_is_position(src.input(), start as int);
        }
        true
    } else {
        let plus = src.match_char('+');
        proof {
            if plus {
                crate::utf8::lemma_step_is_position(src.input(), start as int);
            }
        }
        false
    }
}

/// Reads an exponent into `text`, if one stands at the current position.
fn read_exponent<S: Source>(src: &mut S, text: &mut String)
    requires
        old(src).inv(),
    ensures
        final(src).inv(),
        final(src).input() == old(src).input(),
        old(src).position() <= final(src).position(),
        final(src).position() == exponent_at(old(src).input(), old(src).position()).1,
        final(text)@ == old(text)@ + exponent_at(old(src).input(), old(src).position()).0,
{
    let start = src.current_position();
    proof {
        assert(text@ + Seq::<char>::empty() =~= text@);
    }
    if !src.match_char('e') && !src.match_char('E') {
        return ;
    }
    proof {
        crate::utf8::lemma_step_is_position(src.input(), start as int);
    }
    let negative = read_sign(src);
    let mut digits = String::new();
    read_whole(src, &mut digits);
    if digits.as_str().is_empty() {
        src.set_position(start);
        return ;
    }
    let ghost before = text@;
    text.push('e');
    if negative {
        text.push('-');
    }
    text.append(digits.as_str());
    proof {
        let sign: Seq<char> = if negative {
            seq!['-']
        } else {
            Seq::empty()
        };
        assert(Seq::<char>::empty() + digits@ =~= digits@);
        assert(text@ =~= before + (seq!['e'] + sign + digits@));
    }
}

/// Reads the name of infinity or of not-a-number.
fn read_name<S: Source>(src: &mut S, negative: bool) -> (r: Option<FloatText>)
    requires
        old(src).inv(),
    ensures
        final(src).inv(),
        final(src).input() == old(src).input(),
        match name_at(old(src).input(), old(src).position(), negative) {
            Some((f, end)) => r matches Some(t) && t@ == f && final(src).position() == end,
            None => r is None && final(src).position() == old(src).position(),
        },
{
    if src.match_str("infinity") || src.match_str("inf") || src.match_str("INFINITY")
        || src.match_str("INF") {
        Some(FloatText::Infinity(negative))
    } else if src.match_str("nan") || src.match_str("NaN") || src.match_str("NAN") {
        Some(FloatText::Nan(negative))
    } else {
        None
    }
}

/// Reads a floating point literal at the current position of `src`.
///
/// The number itself is not computed here: the literal comes back as text
/// for a conversion routine, or as the name it spells. Where no literal
/// stands, this fails and leaves the source where it was; the error spans
/// what was read before that showed.
pub fn parse_float_text<S: Source>(src: &mut S) -> (r: Result<FloatText, Error>)
    requires
        old(src).inv(),
    ensures
        final(src).inv(),
        final(src).input() == old(src).input(),
        match float_at(old(src).input(), old(src).position()) {
            Some((f, end)) => r matches Ok(t) && t@ == f && final(src).position() == end
                && old(src).position() <= end,
            None => r matches Err(e) && final(src).position() == old(src).position()
                && e.span.0 == old(src).position() && span_in(old(src).input(), e.span) && e.msg@
                == "error parsing float"@,
        },
{
    let start = src.current_position();
    let negative = read_sign(src);
    let after_sign = src.current_position();
    let mut text = String::new();
    if negative {
        text.push('-');
    }
    let ghost minus = text@;
    read_whole(src, &mut text);
    let has_whole = src.current_position() > after_sign;
    let ghost whole = whole_number(src.input(), after_sign as int);
    proof {
        lemma_whole_moves(src.input(), after_sign as int);
    }
    let before_point = src.current_position();
    let mut has_fraction = false;
    let mut has_point = false;
    if src.match_char('.') {
        has_point = true;
        text.push('.');
        let behind = src.current_position();
        let ghost pushed = text@;
        read_digits(src, &mut text);
        has_fraction = src.current_position() > behind;
        proof {
            lemma_digits_move(src.input(), behind as int);
            let digits = digit_run(src.input(), behind as int);
            assert(pushed + digits.0 =~= minus + whole.0 + (seq!['.'] + digits.0));
        }
    } else {
        proof {
            assert(text@ + Seq::<char>::empty() =~= text@);
        }
    }
    if has_whole || has_fraction {
        read_exponent(src, &mut text);
        return Ok(FloatText::Number(text));
    }
    if has_point {
        let end = src.current_position();
        src.set_position(start);
        return Err(Error::new(Span::new(start, end), "error parsing float"));
    }
    match read_name(src, negative) {
        Some(t) => Ok(t),
        None => {
            let end = src.current_position();
            src.set_position(start);
            Err(Error::new(Span::new(start, end), "error parsing float"))
        },
    }
}

/// A run of digits has as many digits as it is long, so that it has digits
/// exactly if it moves forward.
proof fn lemma_digits_move(input: Seq<u8>, pos: int)
    requires
        crate::utf8::is_position(input, pos),
    ensures
        digit_run(input, pos).0.len() > 0 <==> digit_run(input, pos).1 > pos,
        digit_run(input, pos).1 >= pos,
    decreases input.len() - pos,
{
    match after_char_range(input, pos, '0', '9') {
        Some((c, next)) => {
            crate::utf8::lemma_step_is_position(input, pos);
            lemma_digits_move(input, next);
        },
        None => {},
    }
}

/// A whole number has digits exactly if it moves forward.
proof fn lemma_whole_moves(input: Seq<u8>, pos: int)
    requires
        crate::utf8::is_position(input, pos),
    ensures
        whole_number(input, pos).0.len() > 0 <==> whole_number(input, pos).1 > pos,
{
    match after_char(input, pos, '0') {
        Some(next) => {
            crate::utf8::lemma_step_is_position(input, pos);
            lemma_zeros_move(input, next);
            lemma_digits_move(input, zero_run(input, next));
        },
        None => {
            lemma_digits_move(input, pos);
        },
    }
}

/// A run of zeros ends at a valid position behind where it started.
proof fn lemma_zeros_move(input: Seq<u8>, pos: int)
    requires
        crate::utf8::is_position(input, pos),
    ensures
        zero_run(input, pos) >= pos,
        crate::utf8::is_position(input, zero_run(input, pos)),
    decreases input.len() - pos,
{
    match after_char(input, pos, '0') {
        Some(next) => {
            crate::utf8::lemma_step_is_position(input, pos);
            lemma_zeros_move(input, next);
        },
        None => {},
    }
}

/// The bits in which the first `n` bytes of `a` and `b` differ, taken
/// together.
pub open spec fn differences(a: Seq<u8>, b: Seq<u8>, n: int) -> u8
    decreases n,
{
    if n <= 0 || n > a.len() || n > b.len() {
        0
    } else {
        differences(a, b, n - 1) | (a[n - 1] ^ b[n - 1])
    }
}

/// The number of bytes from `i` on that are `c1` or `c2`.
pub open spec fn run_of_two(bytes: Seq<u8>, c1: u8, c2: u8, i: int) -> int
    decreases bytes.len() - i,
{
    if 0 <= i < bytes.len() && (bytes[i] == c1 || bytes[i] == c2) {
        run_of_two(bytes, c1, c2, i + 1)
    } else {
        i
    }
}

/// The number that eight bytes hold, the lowest byte first.
pub open spec fn le_u64(b: Seq<u8>) -> u64 {
    (b[0] as u64) | ((b[1] as u64) << 8) | ((b[2] as u64) << 16) | ((b[3] as u64) << 24) | ((
    b[4] as u64) << 32) | ((b[5] as u64) << 40) | ((b[6] as u64) << 48) | ((b[7] as u64) << 56)
}

/// The eight bytes that hold a number, the lowest byte first.
pub open spec fn le_bytes(v: u64) -> Seq<u8> {
    seq![
        (v & 0xff) as u8,
        ((v >> 8) & 0xff) as u8,
        ((v >> 16) & 0xff) as u8,
        ((v >> 24) & 0xff) as u8,
        ((v >> 32) & 0xff) as u8,
        ((v >> 40) & 0xff) as u8,
        ((v >> 48) & 0xff) as u8,
        ((v >> 56) & 0xff) as u8,
    ]
}

/// What the scanning of a number in text asks of a slice of bytes.
pub trait ByteSlice {
    /// The bytes of the slice.
    spec fn bytes(&self) -> Seq<u8>;

    /// The byte at `i`.
    fn get_at(&self, i: usize) -> (b: u8)
        requires
            i < self.bytes().len(),
        ensures
            b == self.bytes()[i as int],
    ;

    /// The first byte.
    fn get_first(&self) -> (b: u8)
        requires
            self.bytes().len() > 0,
        ensures
            b == self.bytes()[0],
    ;

    /// Whether the slice begins with `c`.
    fn check_first(&self, c: u8) -> (r: bool)
        ensures
            r == (self.bytes().len() > 0 && self.bytes()[0] == c),
    ;

    /// Whether the slice begins with `c1` or with `c2`.
    fn check_first2(&self, c1: u8, c2: u8) -> (r: bool)
        ensures
            r == (self.bytes().len() > 0 && (self.bytes()[0] == c1 || self.bytes()[0] == c2)),
    ;

    /// Whether the slice begins with `u`, give or take the case of letters:
    /// all the bits in which the two differ are the bit that tells the
    /// cases apart, or none.
    fn eq_ignore_case(&self, u: &[u8]) -> (r: bool)
        requires
            u@.len() <= self.bytes().len(),
        ensures
            r == (differences(self.bytes(), u@, u@.len() as int) == 0 || differences(
                self.bytes(),
                u@,
                u@.len() as int,
            ) == 32),
    ;

    /// The slice without its first `n` bytes.
    fn advance(&self, n: usize) -> (r: &[u8])
        requires
            n <= self.bytes().len(),
        ensures
            r@ == self.bytes().subrange(n as int, self.bytes().len() as int),
    ;

    /// The slice without the bytes `c` that it begins with.
    fn skip_chars(&self, c: u8) -> (r: &[u8])
        ensures
            r@ == self.bytes().subrange(
                run_of_two(self.bytes(), c, c, 0),
                self.bytes().len() as int,
            ),
    ;

    /// The slice without the bytes `c1` and `c2` that it begins with.
    fn skip_chars2(&self, c1: u8, c2: u8) -> (r: &[u8])
        ensures
            r@ == self.bytes().subrange(
                run_of_two(self.bytes(), c1, c2, 0),
                self.bytes().len() as int,
            ),
    ;

    /// The number that the first eight bytes hold, the lowest byte first.
    fn read_u64(&self) -> (v: u64)
        requires
            self.bytes().len() >= 8,
        ensures
            v == le_u64(self.bytes()),
    ;

    /// Puts a number into the first eight bytes, the lowest byte first.
    fn write_u64(&mut self, value: u64)
        requires
            old(self).bytes().len() >= 8,
        ensures
            final(self).bytes() == le_bytes(value) + old(self).bytes().subrange(
                8,
                old(self).bytes().len() as int,
            ),
    ;
}

impl ByteSlice for [u8] {
    open spec fn bytes(&self) -> Seq<u8> {
        self@
    }

    fn get_at(&self, i: usize) -> (b: u8) {
        self[i]
    }

    fn get_first(&self) -> (b: u8) {
        self[0]
    }

    fn check_first(&self, c: u8) -> (r: bool) {
        self.len() > 0 && self[0] == c
    }

    fn check_first2(&self, c1: u8, c2: u8) -> (r: bool) {
        self.len() > 0 && (self[0] == c1 || self[0] == c2)
    }

    fn eq_ignore_case(&self, u: &[u8]) -> (r: bool) {
        let mut d: u8 = 0;
        let mut i: usize = 0;
        while i < u.len()
            invariant
                i <= u@.len(),
                u@.len() <= self@.len(),
                d == differences(self@, u@, i as int),
            decreases u@.len() - i,
        {
            d = d | (self[i] ^ u[i]);
            i = i + 1;
        }
        d == 0 || d == 32
    }

    fn advance(&self, n: usize) -> (r: &[u8]) {
        vstd::slice::slice_subrange(self, n, self.len())
    }

    fn skip_chars(&self, c: u8) -> (r: &[u8]) {
        self.skip_chars2(c, c)
    }

    fn skip_chars2(&self, c1: u8, c2: u8) -> (r: &[u8]) {
        let mut i: usize = 0;
        while i < self.len() && (self[i] == c1 || self[i] == c2)
            invariant
                i <= self@.len(),
                run_of_two(self@, c1, c2, 0) == run_of_two(self@, c1, c2, i as int),
            decreases self@.len() - i,
        {
            i = i + 1;
        }
        vstd::slice::slice_subrange(self, i, self.len())
    }

    fn read_u64(&self) -> (v: u64) {
        (self[0] as u64) | ((self[1] as u64) << 8) | ((self[2] as u64) << 16) | ((
        self[3] as u64) << 24) | ((self[4] as u64) << 32) | ((self[5] as u64) << 40) | ((
        self[6] as u64) << 48) | ((self[7] as u64) << 56)
    }

    fn write_u64(&mut self, value: u64) {
        let ghost before = self@;
        self[0] = (value & 0xff) as u8;
        self[1] = ((value >> 8) & 0xff) as u8;
        self[2] = ((value >> 16) & 0xff) as u8;
        self[3] = ((value >> 24) & 0xff) as u8;
        self[4] = ((value >> 32) & 0xff) as u8;
        self[5] = ((value >> 40) & 0xff) as u8;
        self[6] = ((value >> 48) & 0xff) as u8;
        self[7] = ((value >> 56) & 0xff) as u8;
        assert(self@ =~= le_bytes(value) + before.subrange(8, before.len() as int));
    }
}

} // verus!
