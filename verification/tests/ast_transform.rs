use pegy::ast::{Alternative, Alternatives, Quantifier, SpecialTerm, Term};

#[test]
fn test_preparse() {
    let re = pegy::parse_blocking::<Alternatives, _>(
        "Whitespace* H::<M,u8>::L | Whitespace* $i:\"hello\"",
    );

    let mut alt = re.unwrap();
    alt.optimise();

    assert_eq!(
        alt,
        Alternatives {
            // common startings are moved to preparse
            preparse: vec![SpecialTerm::Term(
                Term::Rule("Whitespace".to_string()),
                Quantifier::RepeatUnlimited
            )],
            alternatives: vec![
                Alternative {
                    terms: vec![SpecialTerm::Term(
                        Term::Rule("H::<M,u8>::L ".to_string()),
                        Quantifier::Once
                    )]
                },
                Alternative {
                    terms: vec![SpecialTerm::Binding(
                        "i".to_string(),
                        Term::String("hello".to_string()),
                        Quantifier::Once
                    )]
                }
            ]
        }
    )
}

fn grammar(text: &str) -> Alternatives {
    pegy::parse_blocking::<Alternatives, _>(text).unwrap()
}

fn rule(name: &str, q: Quantifier) -> SpecialTerm {
    SpecialTerm::Term(Term::Rule(name.to_string()), q)
}

#[test]
fn alternatives_behind_an_empty_one_are_dropped() {
    let mut alt = grammar("A || B | C");
    assert_eq!(alt.alternatives.len(), 4);
    alt.optimise();
    assert_eq!(
        alt,
        Alternatives {
            preparse: vec![],
            alternatives: vec![
                Alternative { terms: vec![rule("A ", Quantifier::Once)] },
                Alternative { terms: vec![] },
            ]
        }
    );
}

#[test]
fn a_single_alternative_keeps_its_terms() {
    let mut alt = grammar("A B");
    alt.optimise();
    assert_eq!(
        alt,
        Alternatives {
            preparse: vec![],
            alternatives: vec![Alternative {
                terms: vec![rule("A ", Quantifier::Once), rule("B", Quantifier::Once)]
            }]
        }
    );
}

#[test]
fn the_whole_first_alternative_may_be_shared() {
    let mut alt = grammar("A|A+|A B");
    alt.optimise();
    // "A" and "A+" differ in their quantifier: nothing is shared
    assert_eq!(alt.preparse, vec![]);
    assert_eq!(alt.alternatives.len(), 3);

    // names are compared as they were written, blanks and all
    let mut alt = grammar("A B|A B C");
    alt.optimise();
    assert_eq!(alt.preparse, vec![rule("A ", Quantifier::Once)]);

    let mut alt = grammar("A B |A B C|A B ");
    alt.optimise();
    assert_eq!(alt.preparse.len(), 2);
    assert_eq!(
        alt.alternatives,
        vec![
            Alternative { terms: vec![] },
            Alternative { terms: vec![rule("C", Quantifier::Once)] },
            Alternative { terms: vec![] },
        ]
    );
}

#[test]
fn optimising_twice_changes_nothing_more() {
    let mut alt = grammar("'a' X 'b' | 'a' X 'c' | 'a' X ");
    alt.optimise();
    let shared = alt.preparse.len();
    assert_eq!(shared, 2);
    alt.optimise();
    // the alternative that has no terms left makes the later ones unreachable
    assert_eq!(alt.preparse.len(), 2);
    assert_eq!(alt.alternatives.len(), 3);
}

#[test]
fn optimising_one_alternative_is_a_no_op() {
    let mut one = Alternative { terms: vec![rule("A", Quantifier::Once)] };
    one.optimise();
    assert_eq!(one, Alternative { terms: vec![rule("A", Quantifier::Once)] });
}

#[test]
fn defaults() {
    assert_eq!(
        SpecialTerm::default(),
        SpecialTerm::Term(Term::String(String::new()), Quantifier::Once)
    );
    assert_eq!(Term::default(), Term::String(String::new()));
    assert_eq!(Quantifier::default(), Quantifier::Once);
    assert_eq!(Alternatives::default(), Alternatives { preparse: vec![], alternatives: vec![] });
}
