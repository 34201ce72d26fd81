use pegy::float::{parse_float_text, FloatText};
use pegy::util::{Recursive, Repeat, RepeatQuiet, ANY, DIGIT, NO_SEPARATOR, WHITESPACE};
use pegy::{Error, Parse, Source, Span, StrSource};

const COMMA: u32 = 0x2C;

type Blanks = RepeatQuiet<WHITESPACE, 0, { usize::MAX }, NO_SEPARATOR>;

#[derive(Debug, PartialEq)]
enum JsonValue {
    Number(f64),
    String(Span),
    Null,
    Object(Vec<(Span, JsonValue)>),
    Array(Vec<JsonValue>),
}

impl Default for JsonValue {
    fn default() -> Self {
        JsonValue::Null
    }
}

/// Runs `f` and puts the source back where it was if it fails.
fn attempt<S: Source, T>(
    src: &mut S,
    f: impl FnOnce(&mut S) -> Result<T, Error>,
) -> Result<T, Error> {
    let start = src.current_position();
    let r = f(src);
    if r.is_err() {
        src.set_position(start);
    }
    r
}

fn literal<S: Source>(src: &mut S, text: &str) -> Result<(), Error> {
    if src.match_str(text) {
        Ok(())
    } else {
        let pos = src.current_position();
        Err(Error::new(Span::new(pos, pos), &format!("expected string literal '{}'", text)))
    }
}

struct Number;

impl Parse for Number {
    type Output = f64;

    fn parse<S: Source>(src: &mut S) -> Result<f64, Error> {
        let start = src.current_position();
        match parse_float_text(src)? {
            FloatText::Number(text) => match text.parse::<f64>() {
                Ok(v) => Ok(v),
                Err(_) => {
                    let end = src.current_position();
                    src.set_position(start);
                    Err(Error::new(Span::new(start, end), "error parsing float"))
                }
            },
            FloatText::Infinity(negative) => {
                Ok(if negative { f64::NEG_INFINITY } else { f64::INFINITY })
            }
            FloatText::Nan(_) => Ok(f64::NAN),
        }
    }
}

struct StringChar;

impl Parse for StringChar {
    type Output = ();

    fn parse<S: Source>(src: &mut S) -> Result<(), Error> {
        attempt(src, |src| {
            let start = src.current_position();
            if src.match_str("\"") {
                src.set_position(start);
                return Err(Error::new(Span::new(start, start), "negative lookahead failed"));
            }
            if src.match_str("\\") {
                for escape in ["r", "n", "t", "v", "\""] {
                    if src.match_str(escape) {
                        return Ok(());
                    }
                }
                if src.match_str("u") {
                    let digits = (0..4).all(|_| DIGIT::<16>::parse(src).is_ok());
                    if digits {
                        return Ok(());
                    }
                }
                src.set_position(start);
            }
            ANY::parse(src).map(|_| ())
        })
    }
}

struct JsonString;

impl Parse for JsonString {
    type Output = Span;

    fn parse<S: Source>(src: &mut S) -> Result<Span, Error> {
        attempt(src, |src| {
            literal(src, "\"")?;
            let start = src.current_position();
            RepeatQuiet::<StringChar, 0, { usize::MAX }, NO_SEPARATOR>::parse(src)?;
            let end = src.current_position();
            literal(src, "\"")?;
            Ok(Span::new(start, end))
        })
    }
}

struct FieldValue;

impl Parse for FieldValue {
    type Output = (Span, JsonValue);

    fn parse<S: Source>(src: &mut S) -> Result<Self::Output, Error> {
        attempt(src, |src| {
            Blanks::parse(src)?;
            let name = JsonString::parse(src)?;
            Blanks::parse(src)?;
            literal(src, ":")?;
            let value = Recursive::<Json>::parse(src)?;
            Ok((name, value))
        })
    }
}

struct Json;

impl Parse for Json {
    type Output = JsonValue;

    fn parse<S: Source>(src: &mut S) -> Result<JsonValue, Error> {
        let start = src.current_position();
        let padded = |src: &mut S, inner: &dyn Fn(&mut S) -> Result<JsonValue, Error>| {
            attempt(src, |src| {
                Blanks::parse(src)?;
                let v = inner(src)?;
                Blanks::parse(src)?;
                Ok(v)
            })
        };
        if let Ok(v) = padded(src, &|src| Number::parse(src).map(JsonValue::Number)) {
            return Ok(v);
        }
        if let Ok(v) = padded(src, &|src| JsonString::parse(src).map(JsonValue::String)) {
            return Ok(v);
        }
        if let Ok(v) = padded(src, &|src| literal(src, "null").map(|_| JsonValue::Null)) {
            return Ok(v);
        }
        let object = |src: &mut S| {
            literal(src, "{")?;
            let fields =
                Repeat::<FieldValue, 0, { usize::MAX }, COMMA>::parse(src).map(JsonValue::Object)?;
            literal(src, "}")?;
            Ok(fields)
        };
        if let Ok(v) = padded(src, &object) {
            return Ok(v);
        }
        let array = |src: &mut S| {
            literal(src, "[")?;
            let items = Repeat::<Recursive<Json>, 0, { usize::MAX }, COMMA>::parse(src)
                .map(JsonValue::Array)?;
            literal(src, "]")?;
            Ok(items)
        };
        if let Ok(v) = padded(src, &array) {
            return Ok(v);
        }
        Err(Error::new(Span::new(start, start), "expected JsonValue"))
    }
}

fn parse(text: &str) -> (Result<JsonValue, Error>, usize) {
    let mut src = StrSource::new(text);
    let r = Json::parse(&mut src);
    (r, src.current_position())
}

#[test]
fn json_minimal() {
    let text = r#"{"a":[0.0,9.6],"hello":"world","null":null}"#;
    let (r, p) = parse(text);
    assert_eq!(p, text.len());
    match r {
        Ok(JsonValue::Object(fields)) => {
            assert_eq!(fields.len(), 3);
            let name = |i: usize| &text[fields[i].0 .0..fields[i].0 .1];
            assert_eq!(name(0), "a");
            assert_eq!(
                fields[0].1,
                JsonValue::Array(vec![JsonValue::Number(0.0), JsonValue::Number(9.6)])
            );
            assert_eq!(name(1), "hello");
            match &fields[1].1 {
                JsonValue::String(span) => assert_eq!(&text[span.0..span.1], "world"),
                other => panic!("expected a string, found {:?}", other),
            }
            assert_eq!(name(2), "null");
            assert_eq!(fields[2].1, JsonValue::Null);
        }
        other => panic!("expected an object, found {:?}", other),
    }
}

#[test]
fn json_with_blanks_and_nesting() {
    let text = " { \"k\" : [ 1 , [] , {} , \"a\\\"b\" ] } ";
    let (r, p) = parse(text);
    assert_eq!(p, text.len());
    match r {
        Ok(JsonValue::Object(fields)) => match &fields[0].1 {
            JsonValue::Array(items) => {
                assert_eq!(items.len(), 4);
                assert_eq!(items[0], JsonValue::Number(1.0));
                assert_eq!(items[1], JsonValue::Array(vec![]));
                assert_eq!(items[2], JsonValue::Object(vec![]));
                match &items[3] {
                    JsonValue::String(span) => assert_eq!(&text[span.0..span.1], "a\\\"b"),
                    other => panic!("expected a string, found {:?}", other),
                }
            }
            other => panic!("expected an array, found {:?}", other),
        },
        other => panic!("expected an object, found {:?}", other),
    }
}

#[test]
fn json_rejects_trailing_separators() {
    assert_eq!(parse("[1,2,]"), (Err(Error::new(Span::new(0, 0), "expected JsonValue")), 0));
    assert_eq!(
        parse("{\"a\":1,}"),
        (Err(Error::new(Span::new(0, 0), "expected JsonValue")), 0)
    );
    assert_eq!(parse("[1,2]").1, 5);
}

#[test]
fn json_failure_consumes_nothing() {
    for text in ["", "{", "[1", "\"open", "{\"a\"}", "nul", "{\"a\":}"] {
        let (r, p) = parse(text);
        assert!(r.is_err(), "{:?} should not parse", text);
        assert_eq!(p, 0);
    }
}
