use pegy::ast::{Alternative, Alternatives, Quantifier, SpecialTerm, Term};
use pegy::interpreter::{builtin_of, construct, item_name, same_key, Bind, Grammar, Value};
use pegy::semantics::{Builtin, Definition, Fields, Shape, Variant};
use pegy::{Error, Source, Span, StrSource};

fn ast(text: &str) -> Alternatives {
    pegy::parse_blocking::<Alternatives, _>(text).unwrap()
}

fn record(name: &str, fields: Fields, grammar: &str) -> Definition {
    Definition {
        name: name.to_string(),
        shape: Shape::Record(Variant {
            name: name.to_string(),
            fields,
            grammar: ast(grammar),
        }),
    }
}

fn chars(name: &str, text: &[char]) -> Value {
    Value::List(
        text.iter()
            .map(|c| Value::Record {
                name: name.to_string(),
                fields: vec![("item0".to_string(), Value::Char(*c))],
            })
            .collect(),
    )
}

fn ident_grammar() -> Grammar {
    Grammar {
        rules: vec![
            record("AlphaDigit", Fields::Positional(1), "$item0:['a'-'z''A'-'Z''0'-'9']"),
            record("Digit", Fields::Positional(1), "$item0:['0'-'9']"),
            record("Ident", Fields::Positional(1), "!Digit $item0:AlphaDigit+"),
        ],
    }
}

fn run(g: &Grammar, rule: &str, text: &str) -> (Result<Value, Error>, usize) {
    let mut src = StrSource::new(text);
    let r = g.run_rule(rule, &mut src, 32);
    (r, src.current_position())
}

/// Runs a grammar that stands alone and gives the bindings it made.
fn bind(grammar: &str, text: &str) -> (Result<Span, Error>, usize, Vec<Bind>) {
    let g = Grammar { rules: vec![] };
    let mut src = StrSource::new(text);
    let mut out = Vec::new();
    let r = g.run_alternatives(&ast(grammar), &mut src, 32, true, &mut out);
    (r, src.current_position(), out)
}

#[test]
fn identifier_with_negative_lookahead() {
    let g = ident_grammar();
    let (r, p) = run(&g, "Ident", "myIdent");
    assert_eq!(p, 7);
    assert_eq!(
        r,
        Ok(Value::Record {
            name: "Ident".to_string(),
            fields: vec![(
                "item0".to_string(),
                chars("AlphaDigit", &['m', 'y', 'I', 'd', 'e', 'n', 't'])
            )],
        })
    );
    let (r, p) = run(&g, "Ident", "9abc");
    assert_eq!(r, Err(Error::new(Span::new(0, 1), "negative lookahead failed")));
    assert_eq!(p, 0);
}

#[test]
fn a_grammar_may_refer_to_itself() {
    let g = Grammar {
        rules: vec![record("Name", Fields::Positional(2), "$item0:ALPHANUMERIC $item1:Name?")],
    };
    fn name(c: char, rest: Option<Value>) -> Value {
        Value::Record {
            name: "Name".to_string(),
            fields: vec![
                ("item0".to_string(), Value::Char(c)),
                ("item1".to_string(), Value::Maybe(rest.map(Box::new))),
            ],
        }
    }
    let (r, p) = run(&g, "Name", "ty46");
    assert_eq!(p, 4);
    assert_eq!(r, Ok(name('t', Some(name('y', Some(name('4', Some(name('6', None)))))))));
}

#[test]
fn a_grammar_that_nests_too_deep_fails() {
    let g = Grammar {
        rules: vec![record("Name", Fields::Positional(2), "$item0:ALPHANUMERIC $item1:Name?")],
    };
    let mut src = StrSource::new("abcdefgh");
    // each level of the rule takes one level for the rule and one for its grammar
    let r = g.run_rule("Name", &mut src, 3);
    assert!(r.is_ok());
    let mut src = StrSource::new("abcdefgh");
    assert!(g.run_rule("Name", &mut src, 0).is_err());
    assert_eq!(src.current_position(), 0);
}

#[test]
fn lookahead_never_moves() {
    for text in ["abc", "1bc", ""] {
        for grammar in ["!'a'", "!DIGIT", "!ANY", "!('a' 'b')", "!\"abc\"", "!EOF"] {
            let (_, p, out) = bind(grammar, text);
            assert_eq!(p, 0);
            assert!(out.is_empty());
        }
    }
    assert!(bind("!'a'", "b").0.is_ok());
    assert_eq!(bind("!'a'", "a").0, Err(Error::new(Span::new(0, 1), "negative lookahead failed")));
    assert!(bind("!($x:'a')", "a").2.is_empty());
}

#[test]
fn literals() {
    assert_eq!(bind("\"let\" ' ' 'x'", "let x;").1, 5);
    assert_eq!(
        bind("\"let\"", "lex"),
        (Err(Error::new(Span::new(0, 0), "expected string literal 'let'")), 0, vec![])
    );
    assert_eq!(
        bind("'l' 'x'", "let"),
        (Err(Error::new(Span::new(1, 1), "expected character 'x'")), 0, vec![])
    );
}

#[test]
fn classes() {
    assert_eq!(bind("['a'-'c''x']+", "abcxd").1, 4);
    assert_eq!(bind("[^'a'-'c']+", "xyzab").1, 3);
    assert_eq!(
        bind("['a'-'c']", "d"),
        (Err(Error::new(Span::new(0, 0), "failed to match character class")), 0, vec![])
    );
    // a negated class does not match the end of the input
    assert!(bind("[^'a']", "").0.is_err());
}

#[test]
fn a_class_without_ranges() {
    let class = |negative| Alternatives {
        preparse: vec![],
        alternatives: vec![Alternative {
            terms: vec![SpecialTerm::Term(
                Term::CharacterClass { negative, ranges: vec![] },
                Quantifier::Once,
            )],
        }],
    };
    let g = Grammar { rules: vec![] };
    // it matches nothing, and negated every character
    let mut src = StrSource::new("a");
    assert!(g.run_alternatives(&class(None), &mut src, 4, true, &mut Vec::new()).is_err());
    assert!(g.run_alternatives(&class(Some('^')), &mut src, 4, true, &mut Vec::new()).is_ok());
    assert_eq!(src.current_position(), 1);
}

#[test]
fn quantifiers() {
    assert_eq!(bind("'a'?", "aa").1, 1);
    assert_eq!(bind("'a'?", "b").1, 0);
    assert_eq!(bind("'a'*", "aaab").1, 3);
    assert_eq!(bind("'a'*", "b").1, 0);
    assert_eq!(bind("'a'+", "aaab").1, 3);
    assert_eq!(
        bind("'a'+", "b"),
        (Err(Error::new(Span::new(0, 0), "expected at least one repetition")), 0, vec![])
    );
    assert_eq!(bind("'a'{2}", "aaab").1, 3);
    assert_eq!(bind("'a'{2,}", "aaab").1, 3);
    assert_eq!(bind("'a'{1,2}", "aaab").1, 2);
    assert_eq!(
        bind("'b' 'a'{2,3}", "bab"),
        (Err(Error::new(Span::new(1, 2), "expected minimal number of repeats")), 0, vec![])
    );
}

#[test]
fn separated_repetition() {
    assert_eq!(bind("DIGIT**','", "1,2,3").1, 5);
    assert_eq!(bind("DIGIT**','", "1,2,").1, 3);
    assert_eq!(bind("DIGIT**','", "12").1, 1);
    assert!(bind("DIGIT**','", ",1").0.is_err());
    // what the separator binds is dropped
    let (_, p, out) = bind("$d:DIGIT**($s:',')", "1,2");
    assert_eq!(p, 3);
    assert_eq!(out.len(), 1);
    assert_eq!(out[0].span, Span(0, 3));
}

#[test]
fn a_repetition_that_does_not_move_stops() {
    assert_eq!(bind("('a'?)*", "b"), (Ok(Span(0, 0)), 0, vec![]));
    assert_eq!(bind("('a'?)+ 'b'", "aab").1, 3);
}

#[test]
fn bindings_keep_name_span_and_value() {
    let (r, p, out) = bind("'(' $a:DIGIT ',' $b:ALPHABETIC+ ')'", "(7,xy)");
    assert_eq!((r, p), (Ok(Span(0, 6)), 6));
    assert_eq!(
        out,
        vec![
            Bind { name: "a".to_string(), span: Span(1, 2), value: Value::Char('7') },
            Bind {
                name: "b".to_string(),
                span: Span(3, 5),
                value: Value::List(vec![Value::Char('x'), Value::Char('y')])
            },
        ]
    );
}

#[test]
fn a_failed_alternative_leaves_no_bindings() {
    let (r, p, out) = bind("$a:'x' 'y' | $b:'x' 'z'", "xz");
    assert_eq!((r, p), (Ok(Span(0, 2)), 2));
    assert_eq!(out.len(), 1);
    assert_eq!(out[0].name, "b");
    let (r, p, out) = bind("$a:'x' 'y' | $b:'x' 'z'", "xw");
    assert!(r.is_err());
    assert_eq!(p, 0);
    assert!(out.is_empty());
}

#[test]
fn the_first_alternative_that_matches_wins() {
    let (_, p, out) = bind("$a:'x' | $b:'x' 'y'", "xy");
    assert_eq!(p, 1);
    assert_eq!(out[0].name, "a");
}

#[test]
fn the_deepest_error_is_kept() {
    assert_eq!(
        bind("'a' 'b' 'c' | 'a' 'x' | 'z'", "abd").0,
        Err(Error::new(Span::new(2, 2), "expected character 'c'"))
    );
    // of two errors at the same depth the later one is kept
    assert_eq!(
        bind("'a' 'b' | 'a' 'c'", "ad").0,
        Err(Error::new(Span::new(1, 1), "expected character 'c'"))
    );
}

#[test]
fn optimising_keeps_what_a_grammar_does() {
    let grammars = [
        "WHITESPACE* $a:'x' 'y' | WHITESPACE* $a:'x' 'z' | WHITESPACE* $a:'x'",
        "'a' | | 'b'",
        "$n:DIGIT+ '.' | $n:DIGIT+ ',' | $n:DIGIT+",
        "'a' 'b' | 'a' 'b' 'c'",
        "!'q' ANY | !'q' ANY ANY",
    ];
    let texts = ["", "x", "  xy", " xz", "xw", "a", "b", "ab", "abc", "12.", "12,", "12", "q", "zz"];
    let g = Grammar { rules: vec![] };
    for grammar in grammars {
        let plain = ast(grammar);
        let mut better = ast(grammar);
        better.optimise();
        for text in texts {
            let mut a = StrSource::new(text);
            let mut b = StrSource::new(text);
            let mut out_a = Vec::new();
            let mut out_b = Vec::new();
            let ra = g.run_alternatives(&plain, &mut a, 16, true, &mut out_a);
            let rb = g.run_alternatives(&better, &mut b, 16, true, &mut out_b);
            assert_eq!(ra.is_ok(), rb.is_ok());
            assert_eq!(ra.ok(), rb.ok());
            assert_eq!(a.current_position(), b.current_position());
            assert_eq!(out_a, out_b);
        }
    }
}

#[test]
fn unions_take_the_first_form_that_matches() {
    let form = |name: &str, fields: Fields, grammar: &str| Variant {
        name: name.to_string(),
        fields,
        grammar: ast(grammar),
    };
    let g = Grammar {
        rules: vec![Definition {
            name: "Json".to_string(),
            shape: Shape::Union(vec![
                form("Null", Fields::Unit, "\"null\""),
                form("Flag", Fields::Named(vec!["yes".to_string()]), "$yes:\"true\" | \"false\""),
                form("List", Fields::Positional(1), "'[' $item0:(Json**',')? ']'"),
            ]),
        }],
    };
    assert_eq!(
        run(&g, "Json", "null"),
        (Ok(Value::Record { name: "Null".to_string(), fields: vec![] }), 4)
    );
    assert_eq!(
        run(&g, "Json", "false"),
        (
            Ok(Value::Record {
                name: "Flag".to_string(),
                fields: vec![("yes".to_string(), Value::Unit)]
            }),
            5
        )
    );
    assert_eq!(run(&g, "Json", "[null,[true],[]]").1, 16);
    assert_eq!(run(&g, "Json", "[null,]"), (Err(Error::new(Span::new(0, 0), "expected Json")), 0));
    assert_eq!(run(&g, " Json ", "null").1, 4);
}

#[test]
fn unknown_rules_fail() {
    let g = Grammar { rules: vec![] };
    assert_eq!(run(&g, "Nope", "x"), (Err(Error::new(Span::new(0, 0), "unknown rule")), 0));
}

#[test]
fn rules_of_the_language() {
    assert_eq!(builtin_of("ANY"), Some(Builtin::Any));
    assert_eq!(builtin_of(" WHITESPACE\t"), Some(Builtin::Whitespace));
    assert_eq!(builtin_of("ALPHABETIC"), Some(Builtin::Alphabetic));
    assert_eq!(builtin_of("ALPHANUMERIC"), Some(Builtin::Alphanumeric));
    assert_eq!(builtin_of("CONTROL"), Some(Builtin::Control));
    assert_eq!(builtin_of("DIGIT"), Some(Builtin::Digit));
    assert_eq!(builtin_of("UNICODE_ID_START"), Some(Builtin::IdStart));
    assert_eq!(builtin_of("UNICODE_ID_CONTINUE"), Some(Builtin::IdContinue));
    assert_eq!(builtin_of("EOF"), Some(Builtin::Eof));
    assert_eq!(builtin_of("SOF"), Some(Builtin::Sof));
    assert_eq!(builtin_of("any"), None);
    assert_eq!(builtin_of("A NY"), None);
    assert_eq!(builtin_of(""), None);
    let g = Grammar { rules: vec![] };
    assert_eq!(run(&g, "DIGIT", "f"), (Ok(Value::Char('f')), 1));
    assert_eq!(run(&g, "EOF", ""), (Ok(Value::Unit), 0));
    assert_eq!(run(&g, "SOF", "x"), (Ok(Value::Unit), 0));
}

#[test]
fn keys_ignore_blanks_around_names() {
    assert!(same_key("Name", " Name \n"));
    assert!(same_key("\tA::B", "A::B"));
    assert!(same_key("", "  "));
    assert!(!same_key("Name", "Na me"));
    assert!(!same_key("Name", "Names"));
    assert!(!same_key("Name", "name"));
}

#[test]
fn fields_take_the_last_binding() {
    let v = Variant {
        name: "Pair".to_string(),
        fields: Fields::Named(vec!["a".to_string(), "b".to_string()]),
        grammar: Alternatives::default(),
    };
    let binds = vec![
        Bind { name: "a".to_string(), span: Span(0, 1), value: Value::Char('1') },
        Bind { name: "c".to_string(), span: Span(1, 2), value: Value::Char('2') },
        Bind { name: "a".to_string(), span: Span(2, 3), value: Value::Char('3') },
    ];
    assert_eq!(
        construct(&v, binds),
        Value::Record {
            name: "Pair".to_string(),
            fields: vec![("a".to_string(), Value::Char('3')), ("b".to_string(), Value::Unit)],
        }
    );
}

#[test]
fn positional_fields_are_numbered() {
    assert_eq!(item_name(0), "item0");
    assert_eq!(item_name(7), "item7");
    assert_eq!(item_name(10), "item10");
    assert_eq!(item_name(1234567890), "item1234567890");
}

#[test]
fn digits_of_a_radix_are_rules() {
    let g = Grammar { rules: vec![] };
    assert_eq!(run(&g, "DIGIT<10>", "7"), (Ok(Value::Char('7')), 1));
    assert_eq!(
        run(&g, "DIGIT<10>", "a"),
        (Err(Error::new(Span::new(0, 0), "expected digit")), 0)
    );
    assert_eq!(run(&g, "DIGIT<16>", "a"), (Ok(Value::Char('a')), 1));
    assert_eq!(run(&g, " DIGIT < 2 > ", "1"), (Ok(Value::Char('1')), 1));
    assert_eq!(
        run(&g, "DIGIT<2>", "2"),
        (Err(Error::new(Span::new(0, 0), "expected digit")), 0)
    );
    assert_eq!(run(&g, "DIGIT<36>", "z"), (Ok(Value::Char('z')), 1));
    assert_eq!(
        run(&g, "DIGIT<1>", "0"),
        (Err(Error::new(Span::new(0, 0), "expected digit")), 0)
    );
    assert_eq!(
        run(&g, "DIGIT<x>", "0"),
        (Err(Error::new(Span::new(0, 0), "unknown rule")), 0)
    );
    assert_eq!(
        run(&g, "DIGIT<256>", "0"),
        (Err(Error::new(Span::new(0, 0), "unknown rule")), 0)
    );
}

#[test]
fn integer_types_are_rules() {
    let g = Grammar { rules: vec![] };
    assert_eq!(
        run(&g, "u32", "00042"),
        (Ok(Value::Number { negative: false, magnitude: 42 }), 5)
    );
    assert_eq!(
        run(&g, "u16", "99999999999"),
        (Err(Error::new(Span::new(0, 11), "overflow while parsing integer")), 0)
    );
    assert_eq!(run(&g, "i8", "-128"), (Ok(Value::Number { negative: true, magnitude: 128 }), 4));
    assert_eq!(run(&g, "i8", "-0"), (Ok(Value::Number { negative: false, magnitude: 0 }), 2));
    assert_eq!(
        run(&g, "i128", "-170141183460469231731687303715884105728"),
        (Ok(Value::Number { negative: true, magnitude: 1 << 127 }), 40)
    );
    assert_eq!(
        run(&g, "usize", "x"),
        (Err(Error::new(Span::new(0, 0), "error parsing integer")), 0)
    );
    let sum = Grammar {
        rules: vec![record("Sum", Fields::Positional(2), "$item0:u8 '+' $item1:i64")],
    };
    assert_eq!(
        run(&sum, "Sum", "7+-9"),
        (
            Ok(Value::Record {
                name: "Sum".to_string(),
                fields: vec![
                    ("item0".to_string(), Value::Number { negative: false, magnitude: 7 }),
                    ("item1".to_string(), Value::Number { negative: true, magnitude: 9 }),
                ],
            }),
            4
        )
    );
}

#[test]
fn recursive_and_boxed_forward_to_what_they_name() {
    let g = Grammar {
        rules: vec![record(
            "Name",
            Fields::Positional(2),
            "$item0:ALPHANUMERIC $item1:Recursive<Boxed<Name>>?",
        )],
    };
    fn name(c: char, rest: Option<Value>) -> Value {
        Value::Record {
            name: "Name".to_string(),
            fields: vec![
                ("item0".to_string(), Value::Char(c)),
                ("item1".to_string(), Value::Maybe(rest.map(Box::new))),
            ],
        }
    }
    let (r, p) = run(&g, "Name", "ty46");
    assert_eq!(p, 4);
    assert_eq!(r, Ok(name('t', Some(name('y', Some(name('4', Some(name('6', None)))))))));
    assert_eq!(run(&g, "Boxed<DIGIT<10>>", "5"), (Ok(Value::Char('5')), 1));
    assert_eq!(
        run(&g, "Recursive<Missing>", "5"),
        (Err(Error::new(Span::new(0, 0), "unknown rule")), 0)
    );
}

#[test]
fn repetitions_written_as_types_are_rules() {
    let g = Grammar { rules: vec![record("Digit", Fields::Positional(1), "$item0:DIGIT<10>")] };
    let digit = |c: char| Value::Record {
        name: "Digit".to_string(),
        fields: vec![("item0".to_string(), Value::Char(c))],
    };
    assert_eq!(
        run(&g, "Repeat<Digit>", "12a"),
        (Ok(Value::List(vec![digit('1'), digit('2')])), 2)
    );
    assert_eq!(run(&g, "Repeat<Digit>", "a"), (Ok(Value::List(vec![])), 0));
    assert_eq!(
        run(&g, "Repeat<Digit, 2, 3>", "12345"),
        (Ok(Value::List(vec![digit('1'), digit('2'), digit('3')])), 3)
    );
    assert_eq!(
        run(&g, "Repeat<Digit, 2>", "1x"),
        (Err(Error::new(Span::new(0, 1), "expected minimal number of repeats")), 0)
    );
    assert_eq!(
        run(&g, "Repeat<Digit, 1, 18446744073709551615, 44>", "1,2,x"),
        (Ok(Value::List(vec![digit('1'), digit('2')])), 3)
    );
    assert_eq!(run(&g, "RepeatQuiet<DIGIT<10>, 1, 9, 44>", "1,2,3"), (Ok(Value::Unit), 5));
    assert_eq!(
        run(&g, "Repeat<Recursive<Digit>, 0, 2>", "789"),
        (Ok(Value::List(vec![digit('7'), digit('8')])), 2)
    );
    assert_eq!(
        run(&g, "Repeat<Digit, x>", "1"),
        (Err(Error::new(Span::new(0, 0), "unknown rule")), 0)
    );
    assert_eq!(
        run(&g, "Repeat<Digit, 18446744073709551616>", "1"),
        (Err(Error::new(Span::new(0, 0), "unknown rule")), 0)
    );
    assert_eq!(run(&g, "Repeat<EOF, 0, 5>", ""), (Ok(Value::List(vec![Value::Unit])), 0));
}

#[test]
fn options_pairs_and_choices_written_as_types_are_rules() {
    let g = Grammar { rules: vec![] };
    assert_eq!(run(&g, "Option<DIGIT<10>>", "x"), (Ok(Value::Maybe(None)), 0));
    assert_eq!(
        run(&g, "Option<DIGIT<10>>", "5"),
        (Ok(Value::Maybe(Some(Box::new(Value::Char('5'))))), 1)
    );
    assert_eq!(
        run(&g, "AND<DIGIT<10>, ALPHABETIC>", "5a"),
        (Ok(Value::List(vec![Value::Char('5'), Value::Char('a')])), 2)
    );
    assert_eq!(
        run(&g, "AND<DIGIT<10>, ALPHABETIC>", "55"),
        (Err(Error::new(Span::new(1, 1), "expected alphabetic character")), 0)
    );
    assert_eq!(run(&g, "OR<DIGIT<10>, ALPHABETIC>", "a"), (Ok(Value::Char('a')), 1));
    assert_eq!(run(&g, "OR<DIGIT<10>, ALPHABETIC>", "7"), (Ok(Value::Char('7')), 1));
    assert_eq!(
        run(&g, "OR<DIGIT<10>, ALPHABETIC>", "!"),
        (Err(Error::new(Span::new(0, 0), "expected alphabetic character")), 0)
    );
    assert_eq!(
        run(&g, "OR<AND<ALPHABETIC, DIGIT<10>>, DIGIT<10>>", "ab"),
        (Err(Error::new(Span::new(1, 1), "expected digit")), 0)
    );
    assert_eq!(
        run(&g, "Repeat<OR<DIGIT<10>, AND<ALPHABETIC, DIGIT<10>>>, 1, 4, 44>", "1,a2,3"),
        (
            Ok(Value::List(vec![
                Value::Char('1'),
                Value::List(vec![Value::Char('a'), Value::Char('2')]),
                Value::Char('3'),
            ])),
            6
        )
    );
    assert_eq!(
        run(&g, "AND<DIGIT<10>>", "5"),
        (Err(Error::new(Span::new(0, 0), "unknown rule")), 0)
    );
}
