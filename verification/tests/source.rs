use pegy::utf8::{next_code_point, utf8_acc_cont_byte, utf8_first_byte};
use pegy::{IntoSource, Source, StrSource};

#[test]
fn first_byte_keeps_low_bits() {
    assert_eq!(utf8_first_byte(0xC3, 2), 0x03);
    assert_eq!(utf8_first_byte(0xE2, 2), 0x02);
    assert_eq!(utf8_first_byte(0xFF, 0), 0x7F);
    assert_eq!(utf8_first_byte(0xFF, 7), 0);
}

#[test]
fn cont_byte_shifts_in_six_bits() {
    assert_eq!(utf8_acc_cont_byte(0x03, 0xA9), 0xE9);
    assert_eq!(utf8_acc_cont_byte(1, 0x80), 0x40);
}

#[test]
fn decodes_each_width() {
    assert_eq!(next_code_point("a".as_bytes(), 0), Some((0x61, 1)));
    assert_eq!(next_code_point("é".as_bytes(), 0), Some((0xE9, 2)));
    assert_eq!(next_code_point("€".as_bytes(), 0), Some((0x20AC, 3)));
    assert_eq!(next_code_point("😀".as_bytes(), 0), Some((0x1F600, 4)));
    assert_eq!(next_code_point("a€".as_bytes(), 1), Some((0x20AC, 3)));
}

#[test]
fn decoding_stops_at_the_end() {
    assert_eq!(next_code_point(b"", 0), None);
    assert_eq!(next_code_point(b"ab", 2), None);
    assert_eq!(next_code_point(b"ab", 7), None);
}

#[test]
fn malformed_bytes_decode_to_nothing() {
    // a continuation byte alone
    assert_eq!(next_code_point(&[0x80], 0), None);
    // a truncated sequence
    assert_eq!(next_code_point(&[0xE2, 0x82], 0), None);
    // a wrong continuation byte
    assert_eq!(next_code_point(&[0xC3, 0x41], 0), None);
    // overlong encodings
    assert_eq!(next_code_point(&[0xC0, 0x80], 0), None);
    assert_eq!(next_code_point(&[0xE0, 0x80, 0x80], 0), None);
    assert_eq!(next_code_point(&[0xF0, 0x80, 0x80, 0x80], 0), None);
    // a surrogate
    assert_eq!(next_code_point(&[0xED, 0xA0, 0x80], 0), None);
    // beyond the last scalar
    assert_eq!(next_code_point(&[0xF4, 0x90, 0x80, 0x80], 0), None);
    assert_eq!(next_code_point(&[0xF8, 0x80, 0x80, 0x80], 0), None);
}

#[test]
fn position_round_trip() {
    let mut src = StrSource::new("héllo");
    assert!(src.match_char('h'));
    let p = src.current_position();
    assert!(src.match_char('é'));
    assert!(src.match_str("ll"));
    assert_eq!(src.current_position(), 5);
    src.set_position(p);
    assert_eq!(src.current_position(), p);
    assert_eq!(src.peek().map(|c| (c.ch, c.length)), Some(('é', 2)));
}

#[test]
fn peek_does_not_move() {
    let mut src = StrSource::new("€1");
    let c = src.peek().unwrap();
    assert_eq!((c.ch, c.length), ('€', 3));
    assert_eq!(src.current_position(), 0);
    src.set_position(3);
    let c = src.peek().unwrap();
    assert_eq!((c.ch, c.length), ('1', 1));
    src.set_position(4);
    assert!(src.peek().is_none());
}

#[test]
fn match_char_moves_only_on_success() {
    let mut src = StrSource::new("ab");
    assert!(!src.match_char('b'));
    assert_eq!(src.current_position(), 0);
    assert!(src.match_char('a'));
    assert_eq!(src.current_position(), 1);
    assert!(src.match_char('b'));
    assert!(!src.match_char('b'));
    assert_eq!(src.current_position(), 2);
}

#[test]
fn match_char_range_is_inclusive() {
    let mut src = StrSource::new("09a");
    assert_eq!(src.match_char_range('0', '9'), Some('0'));
    assert_eq!(src.match_char_range('0', '9'), Some('9'));
    assert_eq!(src.match_char_range('0', '9'), None);
    assert_eq!(src.current_position(), 2);
    assert_eq!(src.match_char_range('a', 'a'), Some('a'));
    assert_eq!(src.match_char_range('a', 'a'), None);
}

#[test]
fn match_str_is_atomic() {
    let mut src = StrSource::new("hello world");
    assert!(!src.match_str("help"));
    assert_eq!(src.current_position(), 0);
    assert!(src.match_str(""));
    assert_eq!(src.current_position(), 0);
    assert!(src.match_str("hello"));
    assert_eq!(src.current_position(), 5);
    assert!(!src.match_str(" world!"));
    assert_eq!(src.current_position(), 5);
    assert!(src.match_str(" world"));
    assert_eq!(src.current_position(), 11);
    assert!(src.match_str(""));
    assert!(!src.match_str("x"));
}

/// A source that offers only the required methods, so that the provided
/// ones are the ones that run.
struct Plain<'a>(StrSource<'a>);

impl<'a> Source for Plain<'a> {
    fn current_position(&self) -> usize {
        self.0.current_position()
    }

    fn set_position(&mut self, pos: usize) {
        self.0.set_position(pos)
    }

    fn peek(&mut self) -> Option<pegy::Character> {
        self.0.peek()
    }
}

#[test]
fn provided_match_str_agrees_with_the_buffer_source() {
    let texts = ["", "a", "héllo", "€uro 😀", "abcabc"];
    let pats = ["", "a", "h", "hé", "héllo", "héllox", "€", "€uro 😀", "abc", "abd", "é"];
    for t in texts {
        for p in pats {
            let mut a = StrSource::new(t);
            let mut b = Plain(StrSource::new(t));
            let matched = a.match_str(p);
            assert_eq!(matched, b.match_str(p));
            assert_eq!(a.current_position(), b.current_position());
            assert_eq!(matched, t.starts_with(p));
            assert_eq!(a.current_position(), if matched { p.len() } else { 0 });
        }
    }
}

#[test]
fn into_source_starts_at_zero() {
    let owned = String::from("xy");
    let mut a = IntoSource::into("xy");
    let mut b = IntoSource::into(&owned);
    let mut c = IntoSource::into(StrSource::new("xy"));
    assert_eq!(a.current_position(), 0);
    assert_eq!(b.current_position(), 0);
    assert_eq!(c.current_position(), 0);
    assert!(a.match_str("xy") && b.match_str("xy") && c.match_str("xy"));
}

#[test]
fn a_source_that_has_moved_is_parsed_from_where_it_stands() {
    let mut src = StrSource::new("ab12");
    assert!(src.match_str("ab"));
    assert_eq!(pegy::parse_blocking::<u32, _>(src), Ok(12));
    let fresh = StrSource::new("ab12");
    assert!(pegy::parse::<u32, _>(fresh).is_err());
}
