use pegy::util::{
    Boxed, Recursive, Repeat, RepeatQuiet, ALPHABETIC, ALPHANUMERIC, AND, ANY, CONTROL, DIGIT, EOF,
    OR, SOF, UNICODE_ID_CONTINUE, UNICODE_ID_START, WHITESPACE,
};
use pegy::{Error, Parse, Source, Span, StrSource};

const NONE: u32 = 0x110000;
const COMMA: u32 = 0x2C;

fn run<T: Parse>(text: &str, at: usize) -> (Result<T::Output, Error>, usize) {
    let mut src = StrSource::new(text);
    src.set_position(at);
    let r = T::parse(&mut src);
    (r, src.current_position())
}

#[test]
fn any_takes_one_scalar() {
    let (r, p) = run::<ANY>("€x", 0);
    assert_eq!(r, Ok('€'));
    assert_eq!(p, 3);
    let (r, p) = run::<ANY>("€x", 4);
    assert_eq!(r, Err(Error::new(Span::new(4, 4), "expected character")));
    assert_eq!(p, 4);
}

#[test]
fn classes_fail_without_consuming() {
    assert_eq!(run::<WHITESPACE>(" a", 0), (Ok(' '), 1));
    assert_eq!(
        run::<WHITESPACE>(" a", 1),
        (Err(Error::new(Span::new(1, 1), "expected whitespace")), 1)
    );
    assert_eq!(run::<ALPHABETIC>("é1", 0), (Ok('é'), 2));
    assert_eq!(
        run::<ALPHABETIC>("é1", 2),
        (Err(Error::new(Span::new(2, 2), "expected alphabetic character")), 2)
    );
    assert_eq!(run::<ALPHANUMERIC>("1", 0), (Ok('1'), 1));
    assert_eq!(
        run::<ALPHANUMERIC>("-", 0),
        (Err(Error::new(Span::new(0, 0), "expected alphanumeric character")), 0)
    );
    assert_eq!(run::<CONTROL>("\n", 0), (Ok('\n'), 1));
    assert_eq!(
        run::<CONTROL>("a", 0),
        (Err(Error::new(Span::new(0, 0), "expected control character")), 0)
    );
    assert_eq!(run::<UNICODE_ID_START>("x", 0), (Ok('x'), 1));
    assert_eq!(
        run::<UNICODE_ID_START>("1", 0),
        (Err(Error::new(Span::new(0, 0), "error parsing unicode_id_start")), 0)
    );
    assert_eq!(run::<UNICODE_ID_CONTINUE>("1", 0), (Ok('1'), 1));
    assert_eq!(
        run::<UNICODE_ID_CONTINUE>("-", 0),
        (Err(Error::new(Span::new(0, 0), "error parsing unicode_id_continue")), 0)
    );
}

#[test]
fn digit_goes_by_its_radix() {
    assert_eq!(run::<DIGIT<16>>("f", 0), (Ok('f'), 1));
    assert_eq!(run::<DIGIT<16>>("F", 0), (Ok('F'), 1));
    assert_eq!(run::<DIGIT<10>>("f", 0), (Err(Error::new(Span::new(0, 0), "expected digit")), 0));
    assert_eq!(run::<DIGIT<2>>("1", 0), (Ok('1'), 1));
    assert_eq!(run::<DIGIT<2>>("2", 0), (Err(Error::new(Span::new(0, 0), "expected digit")), 0));
    assert_eq!(run::<DIGIT<36>>("z", 0), (Ok('z'), 1));
    // no character is a digit of a radix that does not exist
    assert_eq!(run::<DIGIT<1>>("0", 0), (Err(Error::new(Span::new(0, 0), "expected digit")), 0));
    assert_eq!(run::<DIGIT<37>>("0", 0), (Err(Error::new(Span::new(0, 0), "expected digit")), 0));
}

#[test]
fn eof_and_sof() {
    assert_eq!(run::<SOF>("ab", 0), (Ok(()), 0));
    assert_eq!(run::<SOF>("ab", 1), (Err(Error::new(Span::new(1, 1), "expected SOF")), 1));
    assert_eq!(run::<EOF>("ab", 2), (Ok(()), 2));
    assert_eq!(run::<EOF>("ab", 1), (Err(Error::new(Span::new(1, 1), "expected EOF")), 1));
    assert_eq!(run::<EOF>("", 0), (Ok(()), 0));
}

#[test]
fn optional_never_fails() {
    assert_eq!(run::<Option<DIGIT<10>>>("1", 0), (Ok(Some('1')), 1));
    assert_eq!(run::<Option<DIGIT<10>>>("a", 0), (Ok(None), 0));
    assert_eq!(run::<()>("a", 0), (Ok(()), 0));
}

#[test]
fn and_restores_when_the_second_fails() {
    let (r, p) = run::<AND<ALPHABETIC, DIGIT<10>>>("a1", 0);
    let v = r.unwrap();
    assert_eq!((v.0, v.1, p), ('a', '1', 2));
    let (r, p) = run::<AND<ALPHABETIC, DIGIT<10>>>("ab", 0);
    assert_eq!(r.err(), Some(Error::new(Span::new(1, 1), "expected digit")));
    assert_eq!(p, 0);
    let (r, p) = run::<AND<ALPHABETIC, DIGIT<10>>>("1b", 0);
    assert_eq!(r.err(), Some(Error::new(Span::new(0, 0), "expected alphabetic character")));
    assert_eq!(p, 0);
}

#[test]
fn or_takes_the_first_that_succeeds() {
    // both would succeed: the first wins
    let (r, p) = run::<OR<ALPHANUMERIC, ALPHABETIC>>("a", 0);
    assert!(matches!(r, Ok(OR::A('a'))));
    assert_eq!(p, 1);
    let (r, p) = run::<OR<DIGIT<10>, ALPHABETIC>>("a", 0);
    assert!(matches!(r, Ok(OR::B('a'))));
    assert_eq!(p, 1);
    let (r, p) = run::<OR<DIGIT<10>, ALPHABETIC>>("-", 0);
    assert_eq!(r.err(), Some(Error::new(Span::new(0, 0), "expected alphabetic character")));
    assert_eq!(p, 0);
}

#[test]
fn or_keeps_the_deeper_error() {
    type Deep = AND<ALPHABETIC, AND<ALPHABETIC, DIGIT<10>>>;
    // the first branch fails at 2, the second at 0
    let (r, p) = run::<OR<Deep, DIGIT<10>>>("ab-", 0);
    assert_eq!(r.err(), Some(Error::new(Span::new(2, 2), "expected digit")));
    assert_eq!(p, 0);
    // the second branch fails deeper
    let (r, p) = run::<OR<DIGIT<10>, Deep>>("ab-", 0);
    assert_eq!(r.err(), Some(Error::new(Span::new(2, 2), "expected digit")));
    assert_eq!(p, 0);
}

#[test]
fn recursive_and_boxed_forward() {
    assert_eq!(run::<Recursive<ANY>>("x", 0), (Ok('x'), 1));
    assert_eq!(run::<Boxed<ANY>>("x", 0), (Ok(Box::new('x')), 1));
    assert_eq!(
        run::<Boxed<ANY>>("", 0),
        (Err(Error::new(Span::new(0, 0), "expected character")), 0)
    );
}

#[test]
fn repeat_keeps_to_its_bounds() {
    type R = Repeat<DIGIT<10>, 2, 4, NONE>;
    assert_eq!(run::<R>("123456", 0), (Ok(vec!['1', '2', '3', '4']), 4));
    assert_eq!(run::<R>("12a", 0), (Ok(vec!['1', '2']), 2));
    assert_eq!(
        run::<R>("1a", 0),
        (Err(Error::new(Span::new(0, 1), "expected minimal number of repeats")), 0)
    );
    assert_eq!(
        run::<R>("a", 0),
        (Err(Error::new(Span::new(0, 0), "expected minimal number of repeats")), 0)
    );
    assert_eq!(run::<Repeat<DIGIT<10>, 0, 0, NONE>>("12", 0), (Ok(vec![]), 0));
    assert_eq!(run::<Repeat<DIGIT<10>, 0, 3, NONE>>("a", 0), (Ok(vec![]), 0));
}

#[test]
fn repeat_with_separator() {
    type R = Repeat<DIGIT<10>, 0, { usize::MAX }, COMMA>;
    assert_eq!(run::<R>("1,2,3", 0), (Ok(vec!['1', '2', '3']), 5));
    assert_eq!(run::<R>("1 2", 0), (Ok(vec!['1']), 1));
    assert_eq!(run::<R>("12", 0), (Ok(vec!['1']), 1));
    assert_eq!(run::<R>(",1", 0), (Ok(vec![]), 0));
}

#[test]
fn repeat_leaves_a_trailing_separator() {
    type R = Repeat<DIGIT<10>, 0, { usize::MAX }, COMMA>;
    // the comma that no item follows is not consumed
    assert_eq!(run::<R>("1,2,]", 0), (Ok(vec!['1', '2']), 3));
    type Min3 = Repeat<DIGIT<10>, 3, { usize::MAX }, COMMA>;
    assert_eq!(
        run::<Min3>("1,2,]", 0),
        (Err(Error::new(Span::new(0, 3), "expected minimal number of repeats")), 0)
    );
}

#[test]
fn repeat_quiet_moves_like_repeat() {
    type Q = RepeatQuiet<WHITESPACE, 0, { usize::MAX }, NONE>;
    assert_eq!(run::<Q>("   x", 0), (Ok(()), 3));
    assert_eq!(run::<Q>("x", 0), (Ok(()), 0));
    type Q2 = RepeatQuiet<DIGIT<10>, 2, 3, COMMA>;
    assert_eq!(run::<Q2>("1,2,3,4", 0), (Ok(()), 5));
    assert_eq!(
        run::<Q2>("1;", 0),
        (Err(Error::new(Span::new(0, 1), "expected minimal number of repeats")), 0)
    );
}

#[test]
fn defaults_of_pairs_and_choices() {
    let pair = AND::<u32, ANY>::default();
    assert_eq!(pair.0, 0);
    assert_eq!(pair.1, char::default());
    match OR::<u32, ANY>::default() {
        OR::A(first) => assert_eq!(first, 0),
        OR::B(_) => panic!("the default of a choice is its first part's"),
    }
}

#[test]
fn control_codes_are_two_ranges() {
    for text in ["\u{0}", "\u{1f}", "\u{7f}", "\u{80}", "\u{9f}"] {
        let c = text.chars().next().unwrap();
        assert_eq!(run::<CONTROL>(text, 0), (Ok(c), c.len_utf8()));
    }
    for text in [" ", "~", "\u{a0}", "\u{2028}"] {
        assert_eq!(
            run::<CONTROL>(text, 0),
            (Err(Error::new(Span::new(0, 0), "expected control character")), 0)
        );
    }
}
