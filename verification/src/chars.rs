//! Classes of characters, as the standard library and the Unicode identifier
//! tables decide them.

use vstd::prelude::*;

verus! {

/// Whether `c` has the Unicode property `White_Space`.
pub uninterp spec fn white_space(c: char) -> bool;

/// Whether `c` has the Unicode property `Alphabetic`.
pub uninterp spec fn alphabetic(c: char) -> bool;

/// Whether `c` belongs to one of the Unicode number categories, as
/// `char::is_numeric` decides it.
pub uninterp spec fn numeric(c: char) -> bool;

/// Whether `c` is alphabetic or numeric.
pub open spec fn alphanumeric(c: char) -> bool {
    alphabetic(c) || numeric(c)
}

/// Whether `c` belongs to the Unicode general category of control codes:
/// the code points up to U+001F and those from U+007F to U+009F.
pub open spec fn control(c: char) -> bool {
    c <= '\u{1f}' || ('\u{7f}' <= c && c <= '\u{9f}')
}

/// Whether `c` has the Unicode property `XID_Start`.
pub uninterp spec fn xid_start(c: char) -> bool;

/// Whether `c` has the Unicode property `XID_Continue`.
pub uninterp spec fn xid_continue(c: char) -> bool;

/// Whether `c` has the Unicode property `ID_Start`.
pub uninterp spec fn id_start(c: char) -> bool;

/// Whether `c` has the Unicode property `ID_Continue`.
pub uninterp spec fn id_continue(c: char) -> bool;

/// The value of `c` as a digit: `0` to `9`, then the letters `a` to `z` in
/// either case for ten to thirty-five.
pub open spec fn digit_value(c: char) -> Option<int> {
    if '0' <= c <= '9' {
        Some(c as int - '0' as int)
    } else if 'a' <= c <= 'z' {
        Some(c as int - 'a' as int + 10)
    } else if 'A' <= c <= 'Z' {
        Some(c as int - 'A' as int + 10)
    } else {
        None
    }
}

/// Whether `c` is a digit in the given radix.
pub open spec fn is_digit_in(c: char, radix: int) -> bool {
    digit_value(c) matches Some(d) && d < radix
}

/// `char::is_whitespace` decides the property `White_Space`.
pub assume_specification[ char::is_whitespace ](c: char) -> (b: bool)
    ensures
        b == white_space(c),
;

/// `char::is_alphabetic` decides the property `Alphabetic`.
pub assume_specification[ char::is_alphabetic ](c: char) -> (b: bool)
    ensures
        b == alphabetic(c),
;

/// `char::is_alphanumeric` is true of the characters of which
/// `is_alphabetic` or `is_numeric` is.
pub assume_specification[ char::is_alphanumeric ](c: char) -> (b: bool)
    ensures
        b == (alphabetic(c) || numeric(c)),
;

/// `char::is_control` decides membership in the general category of control
/// codes, a set of code points that Unicode never changes.
pub assume_specification[ char::is_control ](c: char) -> (b: bool)
    ensures
        b == control(c),
;

/// `char::is_digit` accepts the digits below `radix`, for a radix from 2 to
/// 36; outside that range it panics.
pub assume_specification[ char::is_digit ](c: char, radix: u32) -> (b: bool)
    requires
        2 <= radix <= 36,
    ensures
        b == is_digit_in(c, radix as int),
;

/// `char::to_digit` gives the value of a digit below `radix`, for a radix
/// from 2 to 36; outside that range it panics.
pub assume_specification[ char::to_digit ](c: char, radix: u32) -> (d: Option<u32>)
    requires
        2 <= radix <= 36,
    ensures
        match d {
            Some(v) => is_digit_in(c, radix as int) && digit_value(c) == Some(v as int),
            None => !is_digit_in(c, radix as int),
        },
;

/// `unicode_ident::is_xid_start` looks `XID_Start` up in the crate's tables.
pub assume_specification[ unicode_ident::is_xid_start ](ch: char) -> (b: bool)
    ensures
        b == xid_start(ch),
;

/// `unicode_ident::is_xid_continue` looks `XID_Continue` up in the crate's tables.
pub assume_specification[ unicode_ident::is_xid_continue ](ch: char) -> (b: bool)
    ensures
        b == xid_continue(ch),
;

/// `unicode_id_start::is_id_start` looks `ID_Start` up in the crate's tables.
pub assume_specification[ unicode_id_start::is_id_start ](ch: char) -> (b: bool)
    ensures
        b == id_start(ch),
;

/// `unicode_id_start::is_id_continue` looks `ID_Continue` up in the crate's tables.
pub assume_specification[ unicode_id_start::is_id_continue ](ch: char) -> (b: bool)
    ensures
        b == id_continue(ch),
;

} // verus!
