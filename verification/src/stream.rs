//! Sources over input that arrives in pieces.
//!
//! The bytes that have arrived are kept in a buffer that only grows, so
//! that every earlier position can be read again. A source over such a
//! buffer reads what is there. Where it comes to the end of the buffer
//! before the input is known to be complete, it reports the end of the input
//! and notes that it was starved: what was read then may read otherwise once
//! more bytes have arrived, and the reading has to be done again.

use vstd::prelude::*;
use vstd::string::*;
use vstd::utf8::{encode_utf8_valid_utf8, valid_utf8_concat};
use crate::source::{Character, Source};
use crate::utf8::{bytes_at, is_position, lemma_start_is_position, next_code_point};

verus! {

/// Whether `pat` stands in `bytes` at `pos`.
pub fn stands_at(bytes: &[u8], pos: usize, pat: &[u8]) -> (b: bool)
    ensures
        b == bytes_at(bytes@, pos as int, pat@),
{
    if pos > bytes.len() || pat.len() > bytes.len() - pos {
        return false;
    }
    let mut i: usize = 0;
    while i < pat.len()
        invariant
            i <= pat@.len(),
            pos + pat@.len() <= bytes@.len() <= usize::MAX,
            forall|k: int| 0 <= k < i ==> bytes@[pos + k] == pat@[k],
        decreases pat@.len() - i,
    {
        if bytes[pos + i] != pat[i] {
            proof {
                if bytes_at(bytes@, pos as int, pat@) {
                    assert(bytes@.subrange(pos as int, pos + pat@.len())[i as int] == pat@[i as int]);
                }
            }
            return false;
        }
        i = i + 1;
    }
    assert(bytes@.subrange(pos as int, pos + pat@.len()) =~= pat@);
    true
}

/// Behind well-formed text and a pattern that is well-formed text is a
/// valid position.
pub proof fn lemma_position_after(input: Seq<u8>, pos: int, pat: Seq<char>)
    requires
        is_position(input, pos),
        bytes_at(input, pos, vstd::utf8::encode_utf8(pat)),
    ensures
        is_position(input, pos + vstd::utf8::encode_utf8(pat).len()),
{
    let bytes = vstd::utf8::encode_utf8(pat);
    encode_utf8_valid_utf8(pat);
    valid_utf8_concat(input.subrange(0, pos), bytes);
    assert(input.subrange(0, pos + bytes.len()) =~= input.subrange(0, pos) + bytes);
}

/// A source over the bytes that have arrived so far.
pub struct StreamSource {
    buffer: Vec<u8>,
    pos: usize,
    eof: bool,
    starved: bool,
}

impl StreamSource {
    /// Whether the input is complete: no more bytes will arrive.
    pub closed spec fn complete(&self) -> bool {
        self.eof
    }

    /// Whether a read came to the end of the buffer before the input was
    /// complete.
    pub closed spec fn was_starved(&self) -> bool {
        self.starved
    }

    /// A source without bytes, at the start of an input that is not
    /// complete.
    pub fn new() -> (s: Self)
        ensures
            s.inv(),
            s.input() == Seq::<u8>::empty(),
            s.position() == 0,
            !s.complete(),
            !s.was_starved(),
    {
        proof {
            lemma_start_is_position(Seq::<u8>::empty());
        }
        StreamSource { buffer: Vec::new(), pos: 0, eof: false, starved: false }
    }

    /// Takes in the bytes that have arrived. The position stays, and what
    /// was read before it stays as it was.
    pub fn feed(&mut self, bytes: &[u8])
        requires
            old(self).inv(),
        ensures
            final(self).inv(),
            final(self).input() == old(self).input() + bytes@,
            final(self).position() == old(self).position(),
            final(self).complete() == old(self).complete(),
            final(self).was_starved() == old(self).was_starved(),
    {
        let ghost before = self.buffer@;
        self.buffer.extend_from_slice(bytes);
        assert(self.buffer@ =~= before + bytes@);
        assert(self.buffer@.subrange(0, self.pos as int) =~= before.subrange(0, self.pos as int));
    }

    /// Takes in what a read of the input gave: bytes that have arrived, or
    /// none, which says that the input is complete.
    pub fn accept(&mut self, bytes: &[u8])
        requires
            old(self).inv(),
        ensures
            final(self).inv(),
            final(self).input() == old(self).input() + bytes@,
            final(self).position() == old(self).position(),
            final(self).complete() == (old(self).complete() || bytes@.len() == 0),
            final(self).was_starved() == old(self).was_starved(),
    {
        if bytes.len() == 0 {
            assert(self.input() + bytes@ =~= self.input());
            self.close();
        } else {
            self.feed(bytes);
        }
    }

    /// Whether a parse that has just run is to be run again once more of
    /// the input has been read: it came to the end of what had arrived, and
    /// the input is not complete.
    pub fn wants_more(&self) -> (b: bool)
        ensures
            b == (self.was_starved() && !self.complete()),
    {
        self.starved && !self.eof
    }

    /// Notes that the input is complete.
    pub fn close(&mut self)
        requires
            old(self).inv(),
        ensures
            final(self).inv(),
            final(self).input() == old(self).input(),
            final(self).position() == old(self).position(),
            final(self).complete(),
            final(self).was_starved() == old(self).was_starved(),
    {
        self.eof = true;
    }

    /// Whether the input is complete.
    pub fn is_complete(&self) -> (b: bool)
        ensures
            b == self.complete(),
    {
        self.eof
    }

    /// Whether a read since the last call of `rewind` came to the end of
    /// the buffer before the input was complete.
    pub fn is_starved(&self) -> (b: bool)
        ensures
            b == self.was_starved(),
    {
        self.starved
    }

    /// Goes back to `pos` to read again, and forgets that reads were starved.
    pub fn rewind(&mut self, pos: usize)
        requires
            old(self).inv(),
            is_position(old(self).input(), pos as int),
        ensures
            final(self).inv(),
            final(self).input() == old(self).input(),
            final(self).position() == pos,
            final(self).complete() == old(self).complete(),
            !final(self).was_starved(),
    {
        self.pos = pos;
        self.starved = false;
    }

    /// The number of bytes that have arrived.
    pub fn buffered(&self) -> (n: usize)
        ensures
            n == self.input().len(),
    {
        self.buffer.len()
    }
}

impl Source for StreamSource {
    closed spec fn input(&self) -> Seq<u8> {
        self.buffer@
    }

    closed spec fn position(&self) -> int {
        self.pos as int
    }

    closed spec fn inv(&self) -> bool {
        is_position(self.buffer@, self.pos as int)
    }

    fn current_position(&self) -> (p: usize) {
        proof {
            vstd::std_specs::vec::axiom_spec_len(&self.buffer);
        }
        self.pos
    }

    fn set_position(&mut self, pos: usize)
        ensures
            final(self).complete() == old(self).complete(),
            final(self).was_starved() == old(self).was_starved(),
    {
        self.pos = pos;
    }

    fn peek(&mut self) -> (c: Option<Character>)
        ensures
            final(self).complete() == old(self).complete(),
            final(self).was_starved() == (old(self).was_starved() || (c is None
                && !old(self).complete())),
    {
        match next_code_point(self.buffer.as_slice(), self.pos) {
            Some((v, n)) => match char::from_u32(v) {
                Some(ch) => Some(Character { ch, length: n }),
                None => None,
            },
            None => {
                if !self.eof {
                    self.starved = true;
                }
                None
            },
        }
    }

    fn match_str(&mut self, string: &str) -> (b: bool)
        ensures
            final(self).complete() == old(self).complete(),
            final(self).was_starved() == (old(self).was_starved() || (!b && !old(self).complete())),
    {
        if stands_at(self.buffer.as_slice(), self.pos, string.as_bytes()) {
            proof {
                lemma_position_after(self.buffer@, self.pos as int, string@);
                vstd::std_specs::vec::axiom_spec_len(&self.buffer);
            }
            self.pos = self.pos + string.as_bytes().len();
            true
        } else {
            if !self.eof {
                self.starved = true;
            }
            false
        }
    }
}

/// Bytes that arrived in a chunk too large to hand on at once.
pub struct ChunkBuffer {
    buffer: Vec<u8>,
}

impl View for ChunkBuffer {
    type V = Seq<u8>;

    closed spec fn view(&self) -> Seq<u8> {
        self.buffer@
    }
}

impl ChunkBuffer {
    /// A buffer that holds nothing.
    pub fn new() -> (b: Self)
        ensures
            b@ == Seq::<u8>::empty(),
    {
        ChunkBuffer { buffer: Vec::new() }
    }

    /// Whether the buffer holds nothing.
    pub fn is_empty(&self) -> (b: bool)
        ensures
            b == (self@.len() == 0),
    {
        self.buffer.len() == 0
    }

    /// Hands out the bytes in front, at most `room` of them, and keeps the
    /// rest.
    pub fn drain(&mut self, room: usize) -> (out: Vec<u8>)
        ensures
            out@.len() == if old(self)@.len() <= room {
                old(self)@.len()
            } else {
                room as nat
            },
            out@ + final(self)@ == old(self)@,
    {
        let n = if self.buffer.len() <= room {
            self.buffer.len()
        } else {
            room
        };
        let mut rest = self.buffer.split_off(n);
        core::mem::swap(&mut rest, &mut self.buffer);
        assert(rest@ + self.buffer@ =~= old(self).buffer@);
        rest
    }

    /// Takes a chunk that has arrived: hands out its first bytes, at most
    /// `room` of them, and keeps the rest behind what is kept already.
    pub fn take(&mut self, chunk: &[u8], room: usize) -> (out: Vec<u8>)
        ensures
            out@.len() == if chunk@.len() <= room {
                chunk@.len()
            } else {
                room as nat
            },
            out@ == chunk@.subrange(0, out@.len() as int),
            final(self)@ == old(self)@ + chunk@.subrange(out@.len() as int, chunk@.len() as int),
    {
        let n = if chunk.len() <= room {
            chunk.len()
        } else {
            room
        };
        let mut out: Vec<u8> = Vec::new();
        let mut i: usize = 0;
        while i < chunk.len()
            invariant
                i <= chunk@.len(),
                n <= chunk@.len(),
                out@ == chunk@.subrange(0, if i <= n {
                    i as int
                } else {
                    n as int
                }),
                self.buffer@ == old(self).buffer@ + chunk@.subrange(
                    n as int,
                    if i <= n {
                        n as int
                    } else {
                        i as int
                    },
                ),
            decreases chunk@.len() - i,
        {
            let ghost kept = self.buffer@;
            let ghost handed = out@;
            if i < n {
                out.push(chunk[i]);
                assert(out@ =~= chunk@.subrange(0, i + 1));
                assert(chunk@.subrange(n as int, n as int) =~= Seq::<u8>::empty());
            } else {
                self.buffer.push(chunk[i]);
                assert(self.buffer@ =~= old(self).buffer@ + chunk@.subrange(n as int, i + 1));
            }
            i = i + 1;
        }
        out
    }
}

} // verus!
