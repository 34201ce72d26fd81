use pegy::ast::{Alternative, Alternatives, Quantifier, SpecialTerm, Term};
use pegy::{Parse, Source, StrSource};

fn parse<T: Parse>(text: &str) -> (Option<T::Output>, usize) {
    let mut src = StrSource::new(text);
    let r = T::parse(&mut src).ok();
    (r, src.current_position())
}

fn plain(t: Term) -> SpecialTerm {
    SpecialTerm::Term(t, Quantifier::Once)
}

#[test]
fn terms_as_text() {
    assert_eq!(parse::<Term>("\"a\\nb\""), (Some(Term::String("a\nb".to_string())), 6));
    assert_eq!(parse::<Term>("\"q\\\"q\" "), (Some(Term::String("q\"q".to_string())), 7));
    assert_eq!(parse::<Term>(" 'x' "), (Some(Term::Character('x')), 5));
    assert_eq!(parse::<Term>("Name"), (Some(Term::Rule("Name".to_string())), 4));
    assert_eq!(
        parse::<Term>("Repeat<A, 0, 3>"),
        (Some(Term::Rule("Repeat<A, 0, 3>".to_string())), 15)
    );
    assert_eq!(
        parse::<Term>("['a'-'z''_']"),
        (
            Some(Term::CharacterClass {
                negative: None,
                ranges: vec![('a', Some('z')), ('_', None)]
            }),
            12
        )
    );
    assert_eq!(
        parse::<Term>("[^'0'-'9']"),
        (Some(Term::CharacterClass { negative: Some('^'), ranges: vec![('0', Some('9'))] }), 10)
    );
}

#[test]
fn an_empty_class_is_refused() {
    assert_eq!(parse::<Term>("[]"), (None, 0));
    assert_eq!(parse::<Term>("[^]"), (None, 0));
    assert_eq!(parse::<Term>("[ ]"), (None, 0));
}

#[test]
fn a_term_that_is_none_fails_without_consuming() {
    assert_eq!(parse::<Term>("  )"), (None, 0));
    assert_eq!(parse::<Term>("\"open"), (None, 0));
    assert_eq!(parse::<Term>("(A"), (None, 0));
    assert_eq!(parse::<Term>("['a'"), (None, 0));
    assert_eq!(parse::<SpecialTerm>(" $x A"), (None, 0));
    assert_eq!(parse::<SpecialTerm>(""), (None, 0));
}

#[test]
fn quantifiers_as_text() {
    assert_eq!(parse::<Quantifier>("?"), (Some(Quantifier::Optional), 1));
    assert_eq!(parse::<Quantifier>("+"), (Some(Quantifier::RepeatAtleastOnce), 1));
    assert_eq!(parse::<Quantifier>("*"), (Some(Quantifier::RepeatUnlimited), 1));
    assert_eq!(
        parse::<Quantifier>("**','"),
        (Some(Quantifier::RepeatSeperate { seperator: Box::new(Term::Character(',')) }), 5)
    );
    assert_eq!(parse::<Quantifier>("{3}"), (Some(Quantifier::RepeatMin { min: 3 }), 3));
    assert_eq!(parse::<Quantifier>("{3,}"), (Some(Quantifier::RepeatMin { min: 3 }), 4));
    assert_eq!(parse::<Quantifier>("{3,7}"), (Some(Quantifier::Repeat { min: 3, max: 7 }), 5));
    assert_eq!(parse::<Quantifier>(""), (Some(Quantifier::Once), 0));
    assert_eq!(parse::<Quantifier>("{x}"), (Some(Quantifier::Once), 0));
    assert_eq!(parse::<Quantifier>("{3,7"), (Some(Quantifier::Once), 0));
}

#[test]
fn special_terms_as_text() {
    assert_eq!(
        parse::<SpecialTerm>("$name: Rule+"),
        (
            Some(SpecialTerm::Binding(
                "name".to_string(),
                Term::Rule("Rule".to_string()),
                Quantifier::RepeatAtleastOnce
            )),
            12
        )
    );
    assert_eq!(
        parse::<SpecialTerm>("!'x'"),
        (Some(SpecialTerm::NegativeLookahead(Term::Character('x'), Quantifier::Once)), 4)
    );
    assert_eq!(
        parse::<SpecialTerm>("_WS*"),
        (Some(SpecialTerm::Quiet(Term::Rule("WS".to_string()), Quantifier::RepeatUnlimited)), 4)
    );
}

#[test]
fn groups_nest() {
    let (r, p) = parse::<Alternatives>("('a' | ('b' 'c'))? 'd'");
    assert_eq!(p, 22);
    let inner = Alternatives {
        preparse: vec![],
        alternatives: vec![Alternative {
            terms: vec![plain(Term::Character('b')), plain(Term::Character('c'))],
        }],
    };
    let outer = Alternatives {
        preparse: vec![],
        alternatives: vec![
            Alternative { terms: vec![plain(Term::Character('a'))] },
            Alternative { terms: vec![plain(Term::Group(inner))] },
        ],
    };
    assert_eq!(
        r,
        Some(Alternatives {
            preparse: vec![],
            alternatives: vec![Alternative {
                terms: vec![
                    SpecialTerm::Term(Term::Group(outer), Quantifier::Optional),
                    plain(Term::Character('d')),
                ]
            }]
        })
    );
}

#[test]
fn the_empty_grammar_has_one_empty_alternative() {
    assert_eq!(
        parse::<Alternatives>(""),
        (Some(Alternatives { preparse: vec![], alternatives: vec![Alternative { terms: vec![] }] }), 0)
    );
    assert_eq!(parse::<Alternative>(")"), (Some(Alternative { terms: vec![] }), 0));
}

#[test]
fn groups_that_nest_too_deep_are_refused() {
    let mut text = String::new();
    for _ in 0..70 {
        text.push('(');
    }
    text.push_str("'a'");
    for _ in 0..70 {
        text.push(')');
    }
    assert_eq!(parse::<Term>(&text), (None, 0));
}

#[test]
fn string_literals_are_listed_by_their_places() {
    let mut src = StrSource::new("A \"b\\n\" 'c' \"open");
    assert!(src.match_str("A"));
    let lits = pegy::dsl::string_literals(&mut src);
    assert_eq!(lits, vec![(2, "b\n".to_string()), (6, " 'c' ".to_string())]);
    assert_eq!(src.current_position(), 1);
}

#[test]
fn a_term_takes_the_value_that_the_list_holds() {
    let lits = vec![(0, "given".to_string())];
    let mut src = StrSource::new("\"a\" \"b\"");
    assert_eq!(
        pegy::dsl::parse_term(&mut src, 4, &lits),
        Ok(Term::String("given".to_string()))
    );
    assert_eq!(src.current_position(), 4);
    assert!(pegy::dsl::parse_term(&mut src, 4, &lits).is_err());
    assert_eq!(src.current_position(), 4);
}
