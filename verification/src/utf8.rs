//! Decoding of single UTF-8 scalars out of a byte buffer.
//!
//! The decoder validates what it reads: a malformed, overlong, surrogate or
//! truncated sequence decodes to nothing, so that positions computed from
//! decoded lengths always fall on scalar boundaries.

use vstd::prelude::*;
use vstd::utf8::*;

verus! {

/// Mask of the payload bits of a continuation byte.
pub const CONT_MASK: u8 = 0x3F;

/// The suffix of `input` that starts at `pos`.
pub open spec fn tail(input: Seq<u8>, pos: int) -> Seq<u8> {
    input.subrange(pos, input.len() as int)
}

/// The scalar encoded at `pos` of `input` together with its encoded length,
/// or `None` when `pos` is at or past the end or no well-formed scalar starts there.
pub open spec fn scalar_at(input: Seq<u8>, pos: int) -> Option<(char, int)> {
    if 0 <= pos < input.len() && valid_first_scalar(tail(input, pos)) {
        Some(
            (decode_first_scalar(tail(input, pos)) as char, length_of_first_scalar(tail(input, pos))),
        )
    } else {
        None
    }
}

/// A position is valid when everything before it is well-formed UTF-8.
pub open spec fn is_position(input: Seq<u8>, pos: int) -> bool {
    partial_valid_utf8(input, pos)
}

/// The start of the input is always a valid position.
pub proof fn lemma_start_is_position(input: Seq<u8>)
    ensures
        is_position(input, 0),
{
    assert(input.subrange(0, 0) =~= Seq::<u8>::empty());
}

/// Stepping over a decoded scalar leads from one valid position to the next,
/// strictly forward and never past the end.
pub proof fn lemma_step_is_position(input: Seq<u8>, pos: int)
    requires
        is_position(input, pos),
        scalar_at(input, pos) is Some,
    ensures
        1 <= scalar_at(input, pos).unwrap().1 <= 4,
        pos + scalar_at(input, pos).unwrap().1 <= input.len(),
        is_position(input, pos + scalar_at(input, pos).unwrap().1),
{
    partial_valid_utf8_extend(input, pos);
}

/// Whether `pat` occurs in `input` at `pos`, byte for byte.
pub open spec fn bytes_at(input: Seq<u8>, pos: int, pat: Seq<u8>) -> bool {
    &&& 0 <= pos
    &&& pos + pat.len() <= input.len()
    &&& input.subrange(pos, pos + pat.len()) == pat
}

/// Whether a well-formed scalar starts `a`, by the bytes of `a` that it spans alone.
proof fn lemma_first_scalar_by_prefix(a: Seq<u8>, b: Seq<u8>)
    requires
        valid_first_scalar(a),
        b.len() >= length_of_first_scalar(a),
        forall|i: int| 0 <= i < length_of_first_scalar(a) ==> a[i] == b[i],
    ensures
        valid_first_scalar(b),
        decode_first_scalar(b) == decode_first_scalar(a),
        length_of_first_scalar(b) == length_of_first_scalar(a),
{
}

/// A decoded scalar is a Unicode scalar value.
proof fn lemma_decoded_is_scalar(a: Seq<u8>)
    requires
        valid_first_scalar(a),
    ensures
        is_scalar(decode_first_scalar(a)),
{
    let x = a[0];
    if is_leading_byte_width_1(x) {
        assert((x & 0x7F) as u32 <= 0x7F) by (bit_vector);
    } else if is_leading_byte_width_2(x) {
        let y = a[1];
        assert((((x & 0x1F) as u32) << 6) | ((y & 0x3f) as u32) <= 0x7FF) by (bit_vector);
    } else if is_leading_byte_width_3(x) {
        let y = a[1];
        let z = a[2];
        assert((((x & 0x0F) as u32) << 12) | (((y & 0x3f) as u32) << 6) | ((z & 0x3f) as u32)
            <= 0xFFFF) by (bit_vector);
    } else {
    }
}

/// The bytes that a decoded scalar spans are the encoding of that scalar.
proof fn lemma_first_scalar_bytes(a: Seq<u8>)
    requires
        valid_first_scalar(a),
    ensures
        length_of_first_scalar(a) <= a.len(),
        take_first_scalar(a) == encode_scalar(decode_first_scalar(a)),
        is_scalar(decode_first_scalar(a)),
{
    let one = take_first_scalar(a);
    lemma_first_scalar_by_prefix(a, one);
    assert(pop_first_scalar(one) =~= Seq::<u8>::empty());
    reveal_with_fuel(valid_utf8, 2);
    assert(valid_utf8(one));
    decode_utf8_first_scalar(one);
    assert(take_first_scalar(one) =~= one);
    let v = decode_first_scalar(a);
    lemma_decoded_is_scalar(a);
    assert((v as char) as u32 == v);
}

/// A scalar below 128 is the one byte that encodes it.
pub proof fn lemma_ascii_at(input: Seq<u8>, pos: int)
    requires
        scalar_at(input, pos) is Some,
        (scalar_at(input, pos).unwrap().0 as u32) < 0x80,
    ensures
        scalar_at(input, pos).unwrap().1 == 1,
        input[pos] == scalar_at(input, pos).unwrap().0 as u32,
{
    let a = tail(input, pos);
    lemma_first_scalar_bytes(a);
    let v = decode_first_scalar(a);
    assert((v as char) as u32 == v);
    assert(take_first_scalar(a).len() == 1);
    assert(take_first_scalar(a)[0] == a[0]);
    assert(leading_byte_width_1(v) == v) by {
        assert(v < 0x80 ==> (v & 0x7F) as u8 == v) by (bit_vector);
    }
}

/// Two positions that decode to the same scalar hold the same bytes.
pub proof fn lemma_same_scalar_same_bytes(a: Seq<u8>, i: int, b: Seq<u8>, j: int)
    requires
        scalar_at(a, i) is Some,
        scalar_at(b, j) is Some,
        scalar_at(a, i).unwrap().0 == scalar_at(b, j).unwrap().0,
    ensures
        scalar_at(a, i).unwrap().1 == scalar_at(b, j).unwrap().1,
        bytes_at(a, i, b.subrange(j, j + scalar_at(b, j).unwrap().1)),
{
    lemma_first_scalar_bytes(tail(a, i));
    lemma_first_scalar_bytes(tail(b, j));
    let u = decode_first_scalar(tail(a, i));
    let v = decode_first_scalar(tail(b, j));
    assert((u as char) as u32 == u);
    assert((v as char) as u32 == v);
    assert(u == v);
    let n = scalar_at(b, j).unwrap().1;
    assert(a.subrange(i, i + n) =~= take_first_scalar(tail(a, i)));
    assert(b.subrange(j, j + n) =~= take_first_scalar(tail(b, j)));
}

/// Where two buffers hold the same bytes over the span of a scalar, both decode it.
pub proof fn lemma_same_bytes_same_scalar(a: Seq<u8>, i: int, b: Seq<u8>, j: int)
    requires
        scalar_at(b, j) is Some,
        bytes_at(a, i, b.subrange(j, j + scalar_at(b, j).unwrap().1)),
    ensures
        scalar_at(a, i) == scalar_at(b, j),
{
    let n = scalar_at(b, j).unwrap().1;
    lemma_first_scalar_bytes(tail(b, j));
    let pat = b.subrange(j, j + n);
    assert forall|k: int| 0 <= k < n implies tail(b, j)[k] == tail(a, i)[k] by {
        assert(a.subrange(i, i + n)[k] == pat[k]);
    }
    lemma_first_scalar_by_prefix(tail(b, j), tail(a, i));
}

/// In well-formed UTF-8, a scalar starts at every valid position before the end.
pub proof fn lemma_valid_has_scalar(input: Seq<u8>, pos: int)
    requires
        valid_utf8(input),
        is_position(input, pos),
        pos < input.len(),
    ensures
        scalar_at(input, pos) is Some,
{
    if !valid_utf8(tail(input, pos)) {
        partial_valid_partial_invalid_utf8(input, pos);
    }
}

/// Returns the initial codepoint accumulator for the first byte of a
/// sequence of the given width: its low `7 - width` bits.
pub fn utf8_first_byte(byte: u8, width: u32) -> (r: u32)
    requires
        width < 8,
    ensures
        r == (byte & (0x7Fu8 >> width)) as u32,
{
    (byte & (0x7Fu8 >> width)) as u32
}

/// Returns `ch` extended by the six payload bits of the continuation byte `byte`.
pub fn utf8_acc_cont_byte(ch: u32, byte: u8) -> (r: u32)
    ensures
        r == (ch << 6) | ((byte & CONT_MASK) as u32),
{
    (ch << 6) | ((byte & CONT_MASK) as u32)
}

/// Whether `byte` has the shape `10xxxxxx` of a continuation byte.
pub fn is_continuation(byte: u8) -> (r: bool)
    ensures
        r == is_continuation_byte(byte),
{
    byte >= 0x80 && byte <= 0xBF
}

proof fn lemma_width_2(x: u8, y: u8)
    requires
        0xC0 <= x <= 0xDF,
    ensures
        (((x & (0x7Fu8 >> 2u32)) as u32) << 6) | ((y & 0x3Fu8) as u32) == codepoint_width_2(x, y),
{
    assert((x & (0x7Fu8 >> 2u32)) == (x & 0x1Fu8)) by (bit_vector);
}

proof fn lemma_width_3(x: u8, y: u8, z: u8)
    requires
        0xE0 <= x <= 0xEF,
    ensures
        (((x & (0x7Fu8 >> 2u32)) as u32) << 12) | (((((y & 0x3Fu8) as u32) << 6) | ((z
            & 0x3Fu8) as u32))) == codepoint_width_3(x, y, z),
{
    assert((x & (0x7Fu8 >> 2u32)) == (x & 0x0Fu8)) by (bit_vector)
        requires
            0xE0u8 <= x <= 0xEFu8,
    ;
    let a = (x & 0x0Fu8) as u32;
    let b = (y & 0x3Fu8) as u32;
    let c = (z & 0x3Fu8) as u32;
    assert(((a << 12) | ((b << 6) | c)) == ((a << 12) | (b << 6) | c)) by (bit_vector);
}

proof fn lemma_width_4(x: u8, y: u8, z: u8, w: u8)
    requires
        0xF0 <= x <= 0xF7,
    ensures
        ((((x & (0x7Fu8 >> 2u32)) as u32) & 7) << 18) | ((((((y & 0x3Fu8) as u32) << 6) | ((z
            & 0x3Fu8) as u32)) << 6) | ((w & 0x3Fu8) as u32)) == codepoint_width_4(x, y, z, w),
{
    let i = (x & (0x7Fu8 >> 2u32)) as u32;
    let a = (x & 0x07u8) as u32;
    assert(i & 7 == a) by (bit_vector)
        requires
            i == (x & (0x7Fu8 >> 2u32)) as u32,
            a == (x & 0x07u8) as u32,
    ;
    let b = (y & 0x3Fu8) as u32;
    let c = (z & 0x3Fu8) as u32;
    let d = (w & 0x3Fu8) as u32;
    assert(b <= 0x3F) by (bit_vector)
        requires
            b == (y & 0x3Fu8) as u32,
    ;
    assert(c <= 0x3F) by (bit_vector)
        requires
            c == (z & 0x3Fu8) as u32,
    ;
    assert(((a << 18) | ((((b << 6) | c) << 6) | d)) == ((a << 18) | (b << 12) | (c << 6) | d))
        by (bit_vector)
        requires
            b <= 0x3F,
            c <= 0x3F,
    ;
}

/// Decodes the scalar that starts at `pos` of `bytes`.
///
/// Returns its code point and encoded length, or `None` at the end of the
/// buffer and wherever the bytes at `pos` are not the well-formed encoding of
/// a Unicode scalar.
pub fn next_code_point(bytes: &[u8], pos: usize) -> (r: Option<(u32, usize)>)
    ensures
        match scalar_at(bytes@, pos as int) {
            Some((c, n)) => r == Some((c as u32, n as usize)) && is_scalar(c as u32),
            None => r is None,
        },
{
    if pos >= bytes.len() {
        return None;
    }
    let ghost rest = tail(bytes@, pos as int);
    let x = bytes[pos];
    assert(rest[0] == x);
    if x < 128 {
        assert((x & 0x7Fu8) as u32 == x as u32) by (bit_vector)
            requires
                x < 128u8,
        ;
        return Some((x as u32, 1));
    }
    if x < 0xC0 || x > 0xF7 {
        return None;
    }
    if bytes.len() - pos < 2 {
        return None;
    }
    let y = bytes[pos + 1];
    assert(rest[1] == y);
    if !is_continuation(y) {
        return None;
    }
    let init = utf8_first_byte(x, 2);
    let ch = utf8_acc_cont_byte(init, y);
    if x < 0xE0 {
        proof {
            lemma_width_2(x, y);
        }
        if ch < 0x80 {
            return None;
        }
        assert(ch <= 0x7FF) by (bit_vector)
            requires
                ch == (((x & (0x7Fu8 >> 2u32)) as u32) << 6) | ((y & 0x3Fu8) as u32),
        ;
        return Some((ch, 2));
    }
    if bytes.len() - pos < 3 {
        return None;
    }
    let z = bytes[pos + 2];
    assert(rest[2] == z);
    if !is_continuation(z) {
        return None;
    }
    let y_z = utf8_acc_cont_byte((y & CONT_MASK) as u32, z);
    let ch = init << 12 | y_z;
    if x < 0xF0 {
        proof {
            lemma_width_3(x, y, z);
        }
        if ch < 0x800 || (ch >= 0xD800 && ch <= 0xDFFF) {
            return None;
        }
        assert(ch <= 0xFFFF) by (bit_vector)
            requires
                0xE0u8 <= x <= 0xEFu8,
                ch == (((x & (0x7Fu8 >> 2u32)) as u32) << 12) | (((((y & 0x3Fu8) as u32) << 6) | ((z
                    & 0x3Fu8) as u32))),
        ;
        return Some((ch, 3));
    }
    if bytes.len() - pos < 4 {
        return None;
    }
    let w = bytes[pos + 3];
    assert(rest[3] == w);
    if !is_continuation(w) {
        return None;
    }
    let ch = (init & 7) << 18 | utf8_acc_cont_byte(y_z, w);
    proof {
        lemma_width_4(x, y, z, w);
    }
    if ch < 0x10000 || ch > 0x10FFFF {
        return None;
    }
    Some((ch, 4))
}

} // verus!
