use pegy::{Error, Parse, Source, Span, StrSource};

fn run<T: Parse>(text: &str) -> (Result<T::Output, Error>, usize) {
    let mut src = StrSource::new(text);
    let r = T::parse(&mut src);
    (r, src.current_position())
}

#[test]
fn leading_zeros_are_skipped() {
    assert_eq!(run::<u32>("00042"), (Ok(42), 5));
}

#[test]
fn overflow_restores_the_position() {
    assert_eq!(
        run::<u16>("99999999999"),
        (Err(Error::new(Span::new(0, 11), "overflow while parsing integer")), 0)
    );
}

#[test]
fn bounds_of_each_width() {
    assert_eq!(run::<u8>("255"), (Ok(255), 3));
    assert_eq!(run::<u8>("256").0, Err(Error::new(Span::new(0, 3), "overflow while parsing integer")));
    assert_eq!(run::<i8>("127"), (Ok(127), 3));
    assert_eq!(run::<i8>("-128"), (Ok(-128), 4));
    assert_eq!(run::<i8>("128").0, Err(Error::new(Span::new(0, 3), "overflow while parsing integer")));
    assert_eq!(run::<i8>("-129").0, Err(Error::new(Span::new(0, 4), "overflow while parsing integer")));
    assert_eq!(run::<u16>("65535"), (Ok(65535), 5));
    assert_eq!(run::<i16>("-32768"), (Ok(-32768), 6));
    assert_eq!(run::<u32>("4294967295"), (Ok(u32::MAX), 10));
    assert_eq!(run::<i32>("-2147483648"), (Ok(i32::MIN), 11));
    assert_eq!(run::<u64>("18446744073709551615"), (Ok(u64::MAX), 20));
    assert_eq!(run::<i64>("-9223372036854775808"), (Ok(i64::MIN), 20));
    assert_eq!(run::<u128>("340282366920938463463374607431768211455"), (Ok(u128::MAX), 39));
    assert_eq!(
        run::<u128>("340282366920938463463374607431768211456").0,
        Err(Error::new(Span::new(0, 39), "overflow while parsing integer"))
    );
    assert_eq!(run::<i128>("-170141183460469231731687303715884105728"), (Ok(i128::MIN), 40));
    assert_eq!(run::<i128>("170141183460469231731687303715884105727"), (Ok(i128::MAX), 39));
    assert_eq!(run::<usize>("7"), (Ok(7), 1));
    assert_eq!(run::<isize>("-7"), (Ok(-7), 2));
}

#[test]
fn digits_are_needed() {
    assert_eq!(run::<u32>(""), (Err(Error::new(Span::new(0, 0), "error parsing integer")), 0));
    assert_eq!(run::<u32>("x"), (Err(Error::new(Span::new(0, 0), "error parsing integer")), 0));
    assert_eq!(run::<i32>("-x"), (Err(Error::new(Span::new(0, 1), "error parsing integer")), 0));
    assert_eq!(run::<i32>("0x"), (Err(Error::new(Span::new(0, 2), "error parsing integer")), 0));
    assert_eq!(run::<i32>("0b2"), (Err(Error::new(Span::new(0, 2), "error parsing integer")), 0));
}

#[test]
fn unsigned_types_take_no_sign() {
    assert_eq!(run::<u32>("-1"), (Err(Error::new(Span::new(0, 0), "error parsing integer")), 0));
}

#[test]
fn zero_alone() {
    assert_eq!(run::<u8>("0"), (Ok(0), 1));
    assert_eq!(run::<i8>("-0"), (Ok(0), 2));
    assert_eq!(run::<u8>("0a"), (Ok(0), 1));
}

#[test]
fn other_radixes() {
    assert_eq!(run::<u8>("0xff"), (Ok(255), 4));
    assert_eq!(run::<u8>("0x0"), (Ok(0), 3));
    assert_eq!(run::<u16>("0xABcd"), (Ok(0xABCD), 6));
    assert_eq!(run::<i32>("-0x10"), (Ok(-16), 5));
    assert_eq!(run::<u8>("0b101"), (Ok(5), 5));
    assert_eq!(run::<i8>("-0b10000000"), (Ok(-128), 11));
    assert_eq!(
        run::<u8>("0x100").0,
        Err(Error::new(Span::new(0, 5), "overflow while parsing integer"))
    );
    assert_eq!(
        run::<i8>("0xff").0,
        Err(Error::new(Span::new(0, 4), "overflow while parsing integer"))
    );
}

#[test]
fn stops_at_the_first_other_character() {
    assert_eq!(run::<u32>("12+3"), (Ok(12), 2));
    assert_eq!(run::<u32>("12a"), (Ok(12), 2));
}
