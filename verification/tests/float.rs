use pegy::float::{parse_float_text, AdjustedMantissa, ByteSlice, FloatText};
use pegy::{Error, Source, Span, StrSource};

fn read(text: &str) -> (Result<FloatText, Error>, usize) {
    let mut src = StrSource::new(text);
    let r = parse_float_text(&mut src);
    (r, src.current_position())
}

fn number(text: &str) -> Result<FloatText, Error> {
    Ok(FloatText::Number(text.to_string()))
}

#[test]
fn zero_pow2_has_no_mantissa() {
    assert_eq!(AdjustedMantissa::zero_pow2(-7), AdjustedMantissa { mantissa: 0, power2: -7 });
    assert_eq!(AdjustedMantissa::default(), AdjustedMantissa { mantissa: 0, power2: 0 });
}

#[test]
fn plain_numbers() {
    assert_eq!(read("93853.54345"), (number("93853.54345"), 11));
    assert_eq!(read("0.0,"), (number("0.0"), 3));
    assert_eq!(read("9.6]"), (number("9.6"), 3));
    assert_eq!(read("7"), (number("7"), 1));
    assert_eq!(read("7."), (number("7."), 2));
    assert_eq!(read(".5"), (number(".5"), 2));
}

#[test]
fn signs_and_leading_zeros_are_normalised() {
    assert_eq!(read("-12.5"), (number("-12.5"), 5));
    assert_eq!(read("+12.5"), (number("12.5"), 5));
    assert_eq!(read("000123"), (number("0123"), 6));
    assert_eq!(read("-000"), (number("-0"), 4));
    assert_eq!(read("00.50"), (number("0.50"), 5));
}

#[test]
fn exponents() {
    assert_eq!(read("1e5"), (number("1e5"), 3));
    assert_eq!(read("1E5"), (number("1e5"), 3));
    assert_eq!(read("1.5e-10x"), (number("1.5e-10"), 7));
    assert_eq!(read("1e+007"), (number("1e07"), 6));
    assert_eq!(read(".5e0"), (number(".5e0"), 4));
}

#[test]
fn what_is_no_exponent_is_left_unread() {
    assert_eq!(read("1e"), (number("1"), 1));
    assert_eq!(read("1e-"), (number("1"), 1));
    assert_eq!(read("1.5ex"), (number("1.5"), 3));
    assert_eq!(read("2em"), (number("2"), 1));
}

#[test]
fn names() {
    assert_eq!(read("inf"), (Ok(FloatText::Infinity(false)), 3));
    assert_eq!(read("infinity"), (Ok(FloatText::Infinity(false)), 8));
    assert_eq!(read("-INF"), (Ok(FloatText::Infinity(true)), 4));
    assert_eq!(read("+INFINITY!"), (Ok(FloatText::Infinity(false)), 9));
    assert_eq!(read("nan"), (Ok(FloatText::Nan(false)), 3));
    assert_eq!(read("-NaN"), (Ok(FloatText::Nan(true)), 4));
    assert_eq!(read("NAN"), (Ok(FloatText::Nan(false)), 3));
    assert_eq!(read("infinit"), (Ok(FloatText::Infinity(false)), 3));
}

#[test]
fn what_is_no_literal_fails_without_consuming() {
    assert_eq!(read(""), (Err(Error::new(Span::new(0, 0), "error parsing float")), 0));
    assert_eq!(read("x"), (Err(Error::new(Span::new(0, 0), "error parsing float")), 0));
    assert_eq!(read("-"), (Err(Error::new(Span::new(0, 1), "error parsing float")), 0));
    assert_eq!(read("."), (Err(Error::new(Span::new(0, 1), "error parsing float")), 0));
    assert_eq!(read("-.e5"), (Err(Error::new(Span::new(0, 2), "error parsing float")), 0));
    assert_eq!(read("Inf"), (Err(Error::new(Span::new(0, 0), "error parsing float")), 0));
}

#[test]
fn the_text_is_what_a_conversion_takes() {
    for text in ["93853.54345", "-0.001e-3", "+12", ".5", "7.", "00012e5"] {
        let mut src = StrSource::new(text);
        match parse_float_text(&mut src) {
            Ok(FloatText::Number(n)) => {
                let ours: f64 = n.parse().unwrap();
                let theirs: f64 = text.parse().unwrap();
                assert_eq!(ours, theirs);
            }
            other => panic!("unexpected result {:?}", other),
        }
    }
}

#[test]
fn byte_slices_answer_for_their_first_bytes() {
    use_byte_slice();
}

fn use_byte_slice() {
    let bytes: &[u8] = b"--12";
    assert_eq!(ByteSlice::get_at(bytes, 2), b'1');
    assert_eq!(ByteSlice::get_first(bytes), b'-');
    assert!(bytes.check_first(b'-'));
    assert!(!bytes.check_first(b'1'));
    assert!(bytes.check_first2(b'+', b'-'));
    assert!(!bytes.check_first2(b'+', b'1'));
    let empty: &[u8] = b"";
    assert!(!empty.check_first(b'-'));
    assert!(!empty.check_first2(b'-', b'+'));
    assert_eq!(bytes.advance(1), b"-12");
    assert_eq!(bytes.advance(4), b"");
    assert_eq!(bytes.skip_chars(b'-'), b"12");
    assert_eq!(bytes.skip_chars(b'1'), b"--12");
    assert_eq!(bytes.skip_chars2(b'-', b'1'), b"2");
    assert_eq!(empty.skip_chars(b'-'), b"");
}

#[test]
fn byte_slices_compare_without_case() {
    let text: &[u8] = b"NaN!";
    assert!(text.eq_ignore_case(b"NaN"));
    assert!(text.eq_ignore_case(b"nAn"));
    assert!(b"infinity".as_slice().eq_ignore_case(b"INFINITY"));
    assert!(text.eq_ignore_case(b"nan"));
    assert!(!text.eq_ignore_case(b"Nbn"));
    assert!(!text.eq_ignore_case(b"inf"));
    assert!(text.eq_ignore_case(b""));
}

#[test]
fn byte_slices_hold_numbers_lowest_byte_first() {
    let mut bytes = [1u8, 2, 3, 4, 5, 6, 7, 8, 9];
    assert_eq!(bytes.as_slice().read_u64(), 0x0807060504030201);
    bytes.as_mut_slice().write_u64(0x1122334455667788);
    assert_eq!(bytes, [0x88, 0x77, 0x66, 0x55, 0x44, 0x33, 0x22, 0x11, 9]);
    assert_eq!(bytes.as_slice().read_u64(), 0x1122334455667788);
}
