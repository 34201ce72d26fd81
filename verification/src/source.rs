//! Input sources: a byte buffer read as UTF-8, with a position that can be
//! saved and restored.

use vstd::prelude::*;
use vstd::string::*;
use vstd::utf8::*;
use crate::utf8::{
    bytes_at, is_position, lemma_same_bytes_same_scalar, lemma_same_scalar_same_bytes,
    lemma_start_is_position, lemma_step_is_position, lemma_valid_has_scalar, next_code_point,
    scalar_at,
};

verus! {

/// `char::from_u32` yields the `char` of every Unicode scalar value and
/// nothing for any other number.
pub assume_specification[ char::from_u32 ](i: u32) -> (r: Option<char>)
    ensures
        is_scalar(i) ==> r == Some(i as char),
        !is_scalar(i) ==> r is None,
;

/// A decoded scalar together with the number of bytes it occupies in its source.
pub struct Character {
    /// The scalar.
    pub ch: char,
    /// Its encoded length in the source, so that the position plus this
    /// length is the next valid position.
    pub length: usize,
}

/// Whether `c` reports what `scalar_at` finds.
pub open spec fn is_peek(input: Seq<u8>, pos: int, c: Option<Character>) -> bool {
    match scalar_at(input, pos) {
        Some((ch, n)) => c matches Some(k) && k.ch == ch && k.length == n,
        None => c is None,
    }
}

/// The position after `ch` when `ch` is the scalar at `pos`.
pub open spec fn after_char(input: Seq<u8>, pos: int, ch: char) -> Option<int> {
    match scalar_at(input, pos) {
        Some((c, n)) => if c == ch {
            Some(pos + n)
        } else {
            None
        },
        None => None,
    }
}

/// The scalar at `pos` and the position after it when that scalar lies in `lo..=hi`.
pub open spec fn after_char_range(input: Seq<u8>, pos: int, lo: char, hi: char) -> Option<
    (char, int),
> {
    match scalar_at(input, pos) {
        Some((c, n)) => if lo <= c <= hi {
            Some((c, pos + n))
        } else {
            None
        },
        None => None,
    }
}

/// A position-addressable stream of UTF-8 text.
///
/// A source is modelled by the bytes of its input and a position in them.
/// Nothing but `set_position` and a successful match moves the position, and
/// nothing changes the input.
pub trait Source: Sized {
    /// The bytes of the logical input.
    open spec fn input(&self) -> Seq<u8> {
        Seq::empty()
    }

    /// The current byte offset into the input.
    open spec fn position(&self) -> int {
        0
    }

    /// The source's invariant. A source that states none has none, and
    /// nothing is promised of it.
    open spec fn inv(&self) -> bool {
        false
    }

    /// The current position. It is a valid position of the input, whose
    /// length fits the machine.
    fn current_position(&self) -> (p: usize)
        requires
            self.inv(),
        ensures
            p == self.position(),
            is_position(self.input(), p as int),
            self.input().len() <= usize::MAX,
    ;

    /// Moves to `pos`, which must be a valid position of the input.
    fn set_position(&mut self, pos: usize)
        requires
            old(self).inv(),
            is_position(old(self).input(), pos as int),
        ensures
            final(self).inv(),
            final(self).input() == old(self).input(),
            final(self).position() == pos,
    ;

    /// Decodes the scalar at the current position without moving.
    /// Returns `None` at the end of the input and on malformed bytes.
    fn peek(&mut self) -> (c: Option<Character>)
        requires
            old(self).inv(),
        ensures
            final(self).inv(),
            final(self).input() == old(self).input(),
            final(self).position() == old(self).position(),
            is_peek(old(self).input(), old(self).position(), c),
    ;

    /// Consumes the bytes of `string` if the input continues with exactly
    /// them; otherwise leaves the position where it was.
    fn match_str(&mut self, string: &str) -> (b: bool)
        requires
            old(self).inv(),
        ensures
            final(self).inv(),
            final(self).input() == old(self).input(),
            b == bytes_at(old(self).input(), old(self).position(), string.spec_bytes()),
            final(self).position() == if b {
                old(self).position() + string.spec_bytes().len()
            } else {
                old(self).position()
            },
    {
        let start = self.current_position();
        let bytes = string.as_bytes();
        let ghost input = self.input();
        proof {
            encode_utf8_valid_utf8(string@);
            lemma_start_is_position(bytes@);
            assert(input.subrange(start as int, start as int) =~= bytes@.subrange(0, 0));
        }
        let mut i: usize = 0;
        while i < bytes.len()
            invariant
                self.inv(),
                self.input() == input,
                input == old(self).input(),
                start == old(self).position(),
                is_position(input, start as int),
                bytes@ == string.spec_bytes(),
                valid_utf8(bytes@),
                i <= bytes.len(),
                is_position(bytes@, i as int),
                self.position() == start + i,
                bytes_at(input, start as int, bytes@.subrange(0, i as int)),
            decreases bytes.len() - i,
        {
            proof {
                lemma_valid_has_scalar(bytes@, i as int);
                lemma_step_is_position(bytes@, i as int);
            }
            let ghost n = scalar_at(bytes@, i as int).unwrap().1;
            let next = match next_code_point(bytes, i) {
                Some((v, n)) => match char::from_u32(v) {
                    Some(c) => if self.match_char(c) {
                        Some(n)
                    } else {
                        None
                    },
                    None => None,
                },
                None => None,
            };
            match next {
                Some(k) => {
                    proof {
                        lemma_same_scalar_same_bytes(input, start + i, bytes@, i as int);
                        assert(input.subrange(start as int, start + i + n) =~= input.subrange(
                            start as int,
                            start + i,
                        ) + input.subrange(start + i, start + i + n));
                        assert(bytes@.subrange(0, i + n) =~= bytes@.subrange(0, i as int)
                            + bytes@.subrange(i as int, i + n));
                    }
                    i = i + k;
                },
                None => {
                    proof {
                        if bytes_at(input, start as int, bytes@) {
                            assert(input.subrange(start + i, start + i + n) =~= input.subrange(
                                start as int,
                                start + bytes@.len(),
                            ).subrange(i as int, i + n));
                            lemma_same_bytes_same_scalar(input, start + i, bytes@, i as int);
                        }
                    }
                    self.set_position(start);
                    return false;
                },
            }
        }
        proof {
            assert(bytes@.subrange(0, i as int) =~= bytes@);
        }
        true
    }

    /// Consumes the next scalar if it is `ch`; otherwise leaves the position
    /// where it was.
    fn match_char(&mut self, ch: char) -> (b: bool)
        requires
            old(self).inv(),
        ensures
            final(self).inv(),
            final(self).input() == old(self).input(),
            b == after_char(old(self).input(), old(self).position(), ch).is_some(),
            final(self).position() == if b {
                after_char(old(self).input(), old(self).position(), ch).unwrap()
            } else {
                old(self).position()
            },
    {
        let c = self.peek();
        match c {
            Some(c) => {
                if c.ch == ch {
                    let pos = self.current_position();
                    proof {
                        lemma_step_is_position(self.input(), pos as int);
                    }
                    self.set_position(pos + c.length);
                    true
                } else {
                    false
                }
            },
            None => false,
        }
    }

    /// Consumes the next scalar if it lies in `lo..=hi` and returns it;
    /// otherwise leaves the position where it was.
    fn match_char_range(&mut self, lo: char, hi: char) -> (r: Option<char>)
        requires
            old(self).inv(),
        ensures
            final(self).inv(),
            final(self).input() == old(self).input(),
            match after_char_range(old(self).input(), old(self).position(), lo, hi) {
                Some((c, p)) => r == Some(c) && final(self).position() == p,
                None => r is None && final(self).position() == old(self).position(),
            },
    {
        let c = self.peek();
        match c {
            Some(c) => {
                if lo <= c.ch && c.ch <= hi {
                    let pos = self.current_position();
                    proof {
                        lemma_step_is_position(self.input(), pos as int);
                    }
                    self.set_position(pos + c.length);
                    Some(c.ch)
                } else {
                    None
                }
            },
            None => None,
        }
    }
}

/// A source over a string slice held in memory.
pub struct StrSource<'a> {
    s: &'a str,
    /// The length of `s` in bytes.
    len: usize,
    pos: usize,
}

impl<'a> StrSource<'a> {
    /// A source that reads `s` from its start.
    pub fn new(s: &'a str) -> (src: Self)
        ensures
            src.inv(),
            src.input() == s.spec_bytes(),
            src.position() == 0,
    {
        proof {
            lemma_start_is_position(s.spec_bytes());
        }
        Self { s, len: s.as_bytes().len(), pos: 0 }
    }
}

impl<'a> Source for StrSource<'a> {
    closed spec fn input(&self) -> Seq<u8> {
        self.s.spec_bytes()
    }

    closed spec fn position(&self) -> int {
        self.pos as int
    }

    closed spec fn inv(&self) -> bool {
        is_position(self.s.spec_bytes(), self.pos as int) && self.s.spec_bytes().len() == self.len
    }

    fn current_position(&self) -> (p: usize) {
        self.pos
    }

    fn set_position(&mut self, pos: usize) {
        self.pos = pos;
    }

    fn peek(&mut self) -> (c: Option<Character>) {
        match next_code_point(self.s.as_bytes(), self.pos) {
            Some((v, n)) => match char::from_u32(v) {
                Some(ch) => Some(Character { ch, length: n }),
                None => None,
            },
            None => None,
        }
    }

    fn match_str(&mut self, string: &str) -> (b: bool) {
        let pat = string.as_bytes();
        if crate::stream::stands_at(self.s.as_bytes(), self.pos, pat) {
            proof {
                crate::stream::lemma_position_after(self.s.spec_bytes(), self.pos as int, string@);
            }
            self.pos = self.pos + pat.len();
            true
        } else {
            false
        }
    }
}

/// What can be turned into a source.
pub trait IntoSource {
    /// The source that the value turns into.
    type Source: Source;

    /// The bytes that the resulting source will read.
    open spec fn bytes(&self) -> Seq<u8> {
        Seq::empty()
    }

    /// The position at which the resulting source will stand: the start of
    /// its bytes, unless the value says otherwise.
    open spec fn start(&self) -> int {
        0
    }

    /// Whether the value can be turned into a source. A value that does not
    /// say so cannot, and nothing is promised of it.
    open spec fn ready(&self) -> bool {
        false
    }

    /// The source over this value's bytes.
    fn into(self) -> (src: Self::Source)
        requires
            self.ready(),
        ensures
            src.inv(),
            src.input() == self.bytes(),
            src.position() == self.start(),
    ;
}

impl<'a> IntoSource for StrSource<'a> {
    type Source = Self;

    open spec fn bytes(&self) -> Seq<u8> {
        self.input()
    }

    open spec fn start(&self) -> int {
        self.position()
    }

    open spec fn ready(&self) -> bool {
        self.inv()
    }

    fn into(self) -> (src: Self::Source) {
        self
    }
}

impl<'a> IntoSource for &'a str {
    type Source = StrSource<'a>;

    open spec fn bytes(&self) -> Seq<u8> {
        self.spec_bytes()
    }

    open spec fn ready(&self) -> bool {
        true
    }

    fn into(self) -> (src: Self::Source) {
        StrSource::new(self)
    }
}

impl<'a> IntoSource for &'a String {
    type Source = StrSource<'a>;

    open spec fn bytes(&self) -> Seq<u8> {
        encode_utf8(self@)
    }

    open spec fn ready(&self) -> bool {
        true
    }

    fn into(self) -> (src: Self::Source) {
        StrSource::new(self.as_str())
    }
}

} // verus!
