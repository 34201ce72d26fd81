use pegy::ast::{Alternative, Alternatives, Quantifier, SpecialTerm, Term};
use pegy::derive::{
    compile_enum, compile_struct, parse_derive, Attribute, EnumItem, Item, StructItem, VariantItem,
};
use pegy::grammar::{Delimiter, Parser, TokenTree};
use pegy::interpreter::{Grammar, Value};
use pegy::semantics::{Fields, Shape};
use pegy::{Error, Source, Span, StrSource};

fn p(ch: char, at: usize) -> TokenTree {
    TokenTree::Punct { ch, span: Span(at, at + 1) }
}

fn id(name: &str, at: usize) -> TokenTree {
    TokenTree::Ident { name: name.to_string(), span: Span(at, at + name.len()) }
}

fn lit(text: &str, at: usize) -> TokenTree {
    TokenTree::Literal { text: text.to_string(), span: Span(at, at + text.len()) }
}

fn group(delimiter: Delimiter, stream: Vec<TokenTree>, at: usize) -> TokenTree {
    TokenTree::Group { delimiter, stream, span: Span(at, at + 2) }
}

fn compile(tokens: Vec<TokenTree>) -> Result<Alternatives, Error> {
    Parser::default().parse2(tokens)
}

fn one(terms: Vec<SpecialTerm>) -> Alternatives {
    Alternatives { preparse: vec![], alternatives: vec![Alternative { terms }] }
}

fn rule(name: &str) -> Term {
    Term::Rule(name.to_string())
}

#[test]
fn no_tokens_make_a_choice_without_alternatives() {
    assert_eq!(compile(vec![]), Ok(Alternatives { preparse: vec![], alternatives: vec![] }));
}

#[test]
fn literals_become_terms() {
    assert_eq!(
        compile(vec![lit("\"a\\tb\"", 0), lit("'x'", 7), lit("'\\n'", 11)]),
        Ok(one(vec![
            SpecialTerm::Term(Term::String("a\tb".to_string()), Quantifier::Once),
            SpecialTerm::Term(Term::Character('x'), Quantifier::Once),
            SpecialTerm::Term(Term::Character('\n'), Quantifier::Once),
        ]))
    );
    assert_eq!(
        compile(vec![lit("42", 3)]),
        Err(Error::new(Span::new(3, 5), "expected string or character literal"))
    );
    assert_eq!(
        compile(vec![lit("\"open", 0)]),
        Err(Error::new(Span::new(0, 5), "malformed string literal"))
    );
}

#[test]
fn words_name_rules_with_their_type_arguments() {
    assert_eq!(
        compile(vec![id("Name", 0)]),
        Ok(one(vec![SpecialTerm::Term(rule("Name"), Quantifier::Once)]))
    );
    assert_eq!(
        compile(vec![
            id("Repeat", 0),
            p('<', 6),
            id("A", 7),
            p(',', 8),
            lit("3", 9),
            p(',', 10),
            group(Delimiter::Brace, vec![lit("','", 12), id("as", 16), id("u32", 19)], 11),
            p('>', 23),
            p('*', 24),
        ]),
        Ok(one(vec![SpecialTerm::Term(
            rule("Repeat<A,3,{','asu32}>"),
            Quantifier::RepeatUnlimited
        )]))
    );
    assert_eq!(
        compile(vec![id("A", 0), p('<', 1), id("B", 2)]),
        Err(Error::new(Span::new(1, 2), "missing '>' token"))
    );
}

#[test]
fn quantifiers_follow_their_term() {
    let q = |tokens: Vec<TokenTree>| {
        let mut all = vec![id("A", 0)];
        all.extend(tokens);
        compile(all).map(|a| match a.alternatives.into_iter().next().unwrap().terms.pop().unwrap() {
            SpecialTerm::Term(_, q) => q,
            other => panic!("unexpected term {:?}", other),
        })
    };
    assert_eq!(q(vec![]), Ok(Quantifier::Once));
    assert_eq!(q(vec![p('?', 1)]), Ok(Quantifier::Optional));
    assert_eq!(q(vec![p('+', 1)]), Ok(Quantifier::RepeatAtleastOnce));
    assert_eq!(q(vec![p('*', 1)]), Ok(Quantifier::RepeatUnlimited));
    let braces = |inner: Vec<TokenTree>| vec![group(Delimiter::Brace, inner, 1)];
    assert_eq!(q(braces(vec![lit("2", 2)])), Ok(Quantifier::RepeatMin { min: 2 }));
    assert_eq!(q(braces(vec![lit("2", 2), p(',', 3)])), Ok(Quantifier::RepeatMin { min: 2 }));
    assert_eq!(
        q(braces(vec![lit("2", 2), p(',', 3), lit("5", 4)])),
        Ok(Quantifier::Repeat { min: 2, max: 5 })
    );
    assert_eq!(
        q(braces(vec![p(',', 2), lit("5", 3)])),
        Ok(Quantifier::Repeat { min: 0, max: 5 })
    );
    assert_eq!(q(braces(vec![])), Err(Error::new(Span::new(1, 3), "missing range specifier")));
    assert_eq!(
        q(braces(vec![lit("2", 2), p(',', 3), lit("5", 4), p(',', 5)])),
        Err(Error::new(Span::new(5, 6), "unexpected token"))
    );
    assert_eq!(
        q(braces(vec![lit("2", 2), p(';', 3)])),
        Err(Error::new(Span::new(3, 4), "unexpected token"))
    );
    assert_eq!(
        q(braces(vec![lit("x", 2)])),
        Err(Error::new(Span::new(2, 3), "unexpected token"))
    );
    assert_eq!(
        q(braces(vec![id("n", 2)])),
        Err(Error::new(Span::new(2, 3), "unexpected token"))
    );
}

#[test]
fn braces_cannot_start_a_term() {
    assert_eq!(
        compile(vec![group(Delimiter::Brace, vec![lit("2", 1)], 0)]),
        Err(Error::new(Span::new(0, 2), "unexpected quantifier"))
    );
    assert_eq!(compile(vec![p('&', 4)]), Err(Error::new(Span::new(4, 5), "unexpected token")));
}

#[test]
fn classes_from_tokens() {
    let class = |inner: Vec<TokenTree>| compile(vec![group(Delimiter::Bracket, inner, 0)]);
    assert_eq!(
        class(vec![lit("'a'", 1), p('-', 4), lit("'z'", 5), lit("'_'", 8)]),
        Ok(one(vec![SpecialTerm::Term(
            Term::CharacterClass { negative: None, ranges: vec![('a', Some('z')), ('_', None)] },
            Quantifier::Once
        )]))
    );
    assert_eq!(
        class(vec![p('^', 1), lit("'0'", 2), p('-', 5), lit("'9'", 6)]),
        Ok(one(vec![SpecialTerm::Term(
            Term::CharacterClass { negative: Some('^'), ranges: vec![('0', Some('9'))] },
            Quantifier::Once
        )]))
    );
    assert_eq!(class(vec![]), Err(Error::new(Span::new(0, 0), "empty character class")));
    assert_eq!(class(vec![p('^', 1)]), Err(Error::new(Span::new(0, 0), "empty character class")));
    assert_eq!(
        class(vec![p('-', 1), lit("'a'", 2)]),
        Err(Error::new(Span::new(1, 2), "expected character"))
    );
    assert_eq!(
        class(vec![lit("'a'", 1), p('-', 4)]),
        Err(Error::new(Span::new(4, 5), "expected character"))
    );
    assert_eq!(
        class(vec![lit("'a'", 1), p('+', 4)]),
        Err(Error::new(Span::new(4, 5), "expected '-' or character"))
    );
    assert_eq!(
        class(vec![lit("\"ab\"", 1)]),
        Err(Error::new(Span::new(1, 5), "expected character"))
    );
    assert_eq!(class(vec![id("a", 1)]), Err(Error::new(Span::new(1, 2), "unexpected token")));
}

#[test]
fn bindings_lookahead_and_quiet_terms() {
    assert_eq!(
        compile(vec![p('$', 0), id("x", 1), p(':', 2), id("A", 3), p('+', 4)]),
        Ok(one(vec![SpecialTerm::Binding(
            "x".to_string(),
            rule("A"),
            Quantifier::RepeatAtleastOnce
        )]))
    );
    assert_eq!(
        compile(vec![p('!', 0), id("A", 1), id("B", 2)]),
        Ok(one(vec![
            SpecialTerm::NegativeLookahead(rule("A"), Quantifier::Once),
            SpecialTerm::Term(rule("B"), Quantifier::Once),
        ]))
    );
    assert_eq!(
        compile(vec![p('_', 0), id("A", 1), p('*', 2)]),
        Ok(one(vec![SpecialTerm::Quiet(rule("A"), Quantifier::RepeatUnlimited)]))
    );
    assert_eq!(
        compile(vec![p('$', 0), p(':', 1)]),
        Err(Error::new(Span::new(0, 1), "expected ident behind binding declaration"))
    );
    assert_eq!(
        compile(vec![p('$', 0), id("x", 1), id("A", 2)]),
        Err(Error::new(Span::new(0, 1), "expected ':' token."))
    );
}

#[test]
fn what_is_quiet_stays_quiet_inside() {
    assert_eq!(
        compile(vec![
            p('_', 0),
            group(Delimiter::Parenthesis, vec![id("A", 2), p('|', 3), id("B", 4)], 1),
        ]),
        Ok(one(vec![SpecialTerm::Quiet(
            Term::Group(Alternatives {
                preparse: vec![],
                alternatives: vec![
                    Alternative { terms: vec![SpecialTerm::Quiet(rule("A"), Quantifier::Once)] },
                    Alternative { terms: vec![SpecialTerm::Quiet(rule("B"), Quantifier::Once)] },
                ],
            }),
            Quantifier::Once
        )]))
    );
}

#[test]
fn a_binding_of_a_lookahead_is_grouped() {
    assert_eq!(
        compile(vec![p('$', 0), id("x", 1), p(':', 2), p('!', 3), id("A", 4)]),
        Ok(one(vec![SpecialTerm::Binding(
            "x".to_string(),
            Term::Group(one(vec![SpecialTerm::NegativeLookahead(rule("A"), Quantifier::Once)])),
            Quantifier::Once
        )]))
    );
}

#[test]
fn alternatives_are_cut_at_bars() {
    assert_eq!(
        compile(vec![id("A", 0), id("B", 1), p('|', 2), p('|', 3), id("C", 4)]),
        Ok(Alternatives {
            preparse: vec![],
            alternatives: vec![
                Alternative {
                    terms: vec![
                        SpecialTerm::Term(rule("A"), Quantifier::Once),
                        SpecialTerm::Term(rule("B"), Quantifier::Once),
                    ]
                },
                Alternative { terms: vec![] },
                Alternative { terms: vec![SpecialTerm::Term(rule("C"), Quantifier::Once)] },
            ]
        })
    );
    // a bar at the end starts no alternative
    assert_eq!(
        compile(vec![id("A", 0), p('|', 1)]),
        Ok(one(vec![SpecialTerm::Term(rule("A"), Quantifier::Once)]))
    );
}

#[test]
fn the_pieces_can_be_compiled_alone() {
    let tokens = vec![id("A", 0), p('+', 1), p('|', 2), lit("'c'", 3)];
    let mut parser = Parser::default();
    parser.resolve(&tokens);
    parser.resolve(&[lit("'q'", 0)]);
    let mut pos = 0;
    assert_eq!(
        parser.parse_term(&tokens, &mut pos, false),
        Ok(SpecialTerm::Term(rule("A"), Quantifier::RepeatAtleastOnce))
    );
    assert_eq!(pos, 2);
    assert_eq!(parser.parse_quantifier(&tokens, &mut pos), Ok(Quantifier::Once));
    assert_eq!(pos, 2);
    let mut pos = 0;
    assert_eq!(
        parser.parse_terms(&tokens, &mut pos, true),
        Ok(Alternative { terms: vec![SpecialTerm::Quiet(rule("A"), Quantifier::RepeatAtleastOnce)] })
    );
    assert_eq!(pos, 2);
    let mut pos = 3;
    assert_eq!(
        parser.parse_alternative(&tokens, &mut pos, false),
        Ok(one(vec![SpecialTerm::Term(Term::Character('c'), Quantifier::Once)]))
    );
    let mut pos = 9;
    assert_eq!(
        parser.parse_term(&tokens, &mut pos, false),
        Ok(SpecialTerm::Term(Term::String(String::new()), Quantifier::Once))
    );
    assert_eq!(pos, 9);
    assert_eq!(
        parser.parse_character_class(&[lit("'q'", 0)]),
        Ok(Term::CharacterClass { negative: None, ranges: vec![('q', None)] })
    );
}

fn grammar_attr(tokens: Vec<TokenTree>) -> Attribute {
    Attribute { path: "grammar".to_string(), tokens }
}

/// A parser that has asked for the literals of the attributes.
fn knowing(attrs: &[Attribute]) -> Parser {
    let mut parser = Parser::default();
    for a in attrs {
        parser.resolve(&a.tokens);
    }
    parser
}

#[test]
fn a_struct_compiles_to_a_record() {
    let digit = StructItem {
        name: "Digit".to_string(),
        span: Span(7, 12),
        attrs: vec![
            Attribute { path: "derive".to_string(), tokens: vec![id("Debug", 0)] },
            grammar_attr(vec![
                p('$', 0),
                id("item0", 1),
                p(':', 6),
                group(Delimiter::Bracket, vec![lit("'0'", 8), p('-', 11), lit("'9'", 12)], 7),
            ]),
        ],
        fields: Fields::Positional(1),
    };
    let mut parser = knowing(&digit.attrs);
    let def = compile_struct(digit, &mut parser).unwrap();
    assert_eq!(def.name, "Digit");
    let g = Grammar { rules: vec![def] };
    let mut src = StrSource::new("7x");
    assert_eq!(
        g.run_rule("Digit", &mut src, 8),
        Ok(Value::Record {
            name: "Digit".to_string(),
            fields: vec![("item0".to_string(), Value::Char('7'))]
        })
    );
    assert_eq!(src.current_position(), 1);
}

#[test]
fn a_declaration_needs_a_grammar() {
    let bare = StructItem {
        name: "Bare".to_string(),
        span: Span(7, 11),
        attrs: vec![Attribute { path: "derive".to_string(), tokens: vec![] }],
        fields: Fields::Unit,
    };
    assert_eq!(
        compile_struct(bare, &mut Parser::default()).err(),
        Some(Error::new(Span::new(7, 11), "missing grammar"))
    );
    let wrong = StructItem {
        name: "Wrong".to_string(),
        span: Span(7, 12),
        attrs: vec![grammar_attr(vec![p('&', 3)])],
        fields: Fields::Unit,
    };
    assert_eq!(
        compile_struct(wrong, &mut Parser::default()).err(),
        Some(Error::new(Span::new(3, 4), "unexpected token"))
    );
    assert_eq!(
        parse_derive(Item::Other).err(),
        Some(Error::new(Span::new(0, 0), "Parse macro expected struct or enum."))
    );
}

#[test]
fn an_enum_compiles_to_a_union_with_optimised_grammars() {
    let item = EnumItem {
        name: "Sign".to_string(),
        variants: vec![
            VariantItem {
                name: "Plus".to_string(),
                span: Span(0, 4),
                attrs: vec![grammar_attr(vec![lit("'+'", 0)])],
                fields: Fields::Unit,
            },
            VariantItem {
                name: "Minus".to_string(),
                span: Span(5, 10),
                attrs: vec![grammar_attr(vec![
                    lit("'-'", 0),
                    lit("'-'", 3),
                    p('|', 6),
                    lit("'-'", 7),
                ])],
                fields: Fields::Unit,
            },
        ],
    };
    let def = parse_derive(Item::Enum(item)).unwrap();
    match &def.shape {
        Shape::Union(forms) => {
            assert_eq!(forms.len(), 2);
            // what both alternatives begin with stands once
            assert_eq!(forms[1].grammar.preparse.len(), 1);
            assert_eq!(forms[1].grammar.alternatives.len(), 2);
        }
        _ => panic!("expected a union"),
    }
    let g = Grammar { rules: vec![def] };
    let mut src = StrSource::new("--");
    assert_eq!(
        g.run_rule("Sign", &mut src, 8),
        Ok(Value::Record { name: "Minus".to_string(), fields: vec![] })
    );
    assert_eq!(src.current_position(), 2);
    let missing = EnumItem {
        name: "E".to_string(),
        variants: vec![VariantItem {
            name: "V".to_string(),
            span: Span(3, 4),
            attrs: vec![],
            fields: Fields::Unit,
        }],
    };
    assert_eq!(
        compile_enum(missing, &mut Parser::default()).err(),
        Some(Error::new(Span::new(3, 4), "missing grammar"))
    );
}

#[test]
fn two_stars_take_the_term_that_separates() {
    let last = |tokens: Vec<TokenTree>| {
        compile(tokens).map(|a| a.alternatives.into_iter().next().unwrap().terms)
    };
    assert_eq!(
        last(vec![id("A", 0), p('*', 1), p('*', 2), lit("','", 3)]),
        Ok(vec![SpecialTerm::Term(
            rule("A"),
            Quantifier::RepeatSeperate { seperator: Box::new(Term::Character(',')) }
        )])
    );
    assert_eq!(
        last(vec![id("A", 0), p('*', 1), p('*', 2), id("B", 3), id("C", 4)]),
        Ok(vec![
            SpecialTerm::Term(
                rule("A"),
                Quantifier::RepeatSeperate { seperator: Box::new(rule("B")) }
            ),
            SpecialTerm::Term(rule("C"), Quantifier::Once),
        ])
    );
    assert_eq!(
        last(vec![id("A", 0), p('*', 1), id("B", 2)]),
        Ok(vec![
            SpecialTerm::Term(rule("A"), Quantifier::RepeatUnlimited),
            SpecialTerm::Term(rule("B"), Quantifier::Once),
        ])
    );
}

#[test]
fn two_stars_need_a_term_behind_them() {
    assert_eq!(
        compile(vec![id("A", 0), p('*', 1), p('*', 2)]),
        Err(Error::new(Span::new(2, 3), "expected a separator"))
    );
    assert_eq!(
        compile(vec![id("A", 0), p('*', 1), p('*', 2), p('+', 3)]),
        Err(Error::new(Span::new(3, 4), "unexpected token"))
    );
    assert_eq!(
        compile(vec![id("A", 0), p('*', 1), p('*', 2), lit("\"open", 3)]),
        Err(Error::new(Span::new(3, 8), "malformed string literal"))
    );
}

#[test]
fn a_separated_repetition_from_tokens_runs() {
    let grammar = compile(vec![
        p('$', 0),
        id("item0", 1),
        p(':', 6),
        group(
            Delimiter::Parenthesis,
            vec![id("DIGIT", 8), p('*', 13), p('*', 14), lit("','", 15)],
            7,
        ),
    ])
    .unwrap();
    let g = Grammar {
        rules: vec![pegy::semantics::Definition {
            name: "List".to_string(),
            shape: Shape::Record(pegy::semantics::Variant {
                name: "List".to_string(),
                fields: Fields::Positional(1),
                grammar,
            }),
        }],
    };
    let mut src = StrSource::new("1,2,3,x");
    let value = g.run_rule("List", &mut src, 8);
    assert_eq!(
        value,
        Ok(Value::Record {
            name: "List".to_string(),
            fields: vec![("item0".to_string(), Value::Span(Span(0, 5)))]
        })
    );
    assert_eq!(src.current_position(), 5);
    let mut none = StrSource::new(",1");
    assert!(g.run_rule("List", &mut none, 8).is_err());
    assert_eq!(none.current_position(), 0);
}

#[test]
fn a_parser_compiles_literals_to_what_it_knows() {
    let tokens = vec![lit("\"a\\tb\"", 0), group(Delimiter::Bracket, vec![lit("'x'", 8)], 7)];
    let mut parser = Parser::default();
    let mut pos = 0;
    assert_eq!(
        parser.parse_term(&tokens, &mut pos, false),
        Err(Error::new(Span::new(0, 6), "malformed string literal"))
    );
    assert_eq!(
        parser.parse_character_class(&[lit("'x'", 8)]),
        Err(Error::new(Span::new(8, 11), "expected character"))
    );
    parser.resolve(&tokens);
    assert_eq!(parser.strings, vec![("\"a\\tb\"".to_string(), "a\tb".to_string())]);
    assert_eq!(parser.chars, vec![("'x'".to_string(), 'x')]);
    assert_eq!(parser.find_string("\"a\\tb\""), Some("a\tb".to_string()));
    assert_eq!(parser.find_char("'y'"), None);
    let mut pos = 0;
    assert_eq!(
        parser.parse_terms(&tokens, &mut pos, false),
        Ok(Alternative {
            terms: vec![
                SpecialTerm::Term(Term::String("a\tb".to_string()), Quantifier::Once),
                SpecialTerm::Term(
                    Term::CharacterClass { negative: None, ranges: vec![('x', None)] },
                    Quantifier::Once
                ),
            ]
        })
    );
    // the first entry for a text counts
    let mut told = Parser {
        strings: vec![],
        chars: vec![("'x'".to_string(), 'y'), ("'x'".to_string(), 'z')],
    };
    assert_eq!(
        told.parse_character_class(&[lit("'x'", 0)]),
        Ok(Term::CharacterClass { negative: None, ranges: vec![('y', None)] })
    );
}

#[test]
fn the_fields_of_a_declaration_are_handed_on() {
    let made = |fields: Fields| {
        let item = StructItem {
            name: "S".to_string(),
            span: Span(0, 1),
            attrs: vec![grammar_attr(vec![id("ANY", 0)])],
            fields,
        };
        match compile_struct(item, &mut Parser::default()).unwrap().shape {
            Shape::Record(v) => v.fields,
            Shape::Union(_) => panic!("a struct compiles to a record"),
        }
    };
    assert!(matches!(made(Fields::Unit), Fields::Unit));
    assert!(matches!(made(Fields::Positional(2)), Fields::Positional(2)));
    match made(Fields::Named(vec!["a".to_string(), "b".to_string()])) {
        Fields::Named(names) => assert_eq!(names, vec!["a".to_string(), "b".to_string()]),
        _ => panic!("named fields stay named"),
    }
}

#[test]
fn a_parser_asks_only_for_what_goes_to_a_literal_reader() {
    let mut parser = Parser::default();
    parser.resolve(&[
        id("A", 0),
        group(Delimiter::Brace, vec![lit("2", 2), p(',', 3), lit("'5'", 4)], 1),
        group(Delimiter::Bracket, vec![lit("\"s\"", 9), lit("'c'", 12)], 8),
        group(Delimiter::Parenthesis, vec![lit("\"t\"", 17), lit("7", 20)], 16),
    ]);
    assert_eq!(parser.strings, vec![("\"t\"".to_string(), "t".to_string())]);
    assert_eq!(parser.chars, vec![("'c'".to_string(), 'c')]);
    // what was known before stays in front
    parser.resolve(&[lit("'d'", 0), lit("'c'", 3)]);
    assert_eq!(
        parser.chars,
        vec![("'c'".to_string(), 'c'), ("'d'".to_string(), 'd'), ("'c'".to_string(), 'c')]
    );
    // without literals nothing is asked
    let mut plain = Parser::default();
    plain.resolve(&[id("A", 0), p('+', 1)]);
    assert!(plain.strings.is_empty() && plain.chars.is_empty());
}
