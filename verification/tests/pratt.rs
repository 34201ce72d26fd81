use pegy::pratt::{Node, ParsedToken, Pratt, PrattBuilder, PrattToken, Token};
use pegy::{Error, Source, Span, StrSource};

#[derive(Debug, Clone, Copy, PartialEq, Eq)]
enum Rule {
    Add,
    Sub,
    Mul,
    Div,
    Increment,
    Neg,
}

fn arithmetic() -> Pratt<Rule, usize> {
    PrattBuilder::<Rule, usize>::new()
        .with_rule(1, Rule::Add, PrattToken::Inffix("+".to_string()))
        .with_rule(1, Rule::Sub, PrattToken::Inffix("-".to_string()))
        .with_rule(2, Rule::Mul, PrattToken::Inffix("*".to_string()))
        .with_rule(2, Rule::Div, PrattToken::Inffix("/".to_string()))
        .with_rule(3, Rule::Neg, PrattToken::Preffix("-".to_string()))
        .with_rule(4, Rule::Increment, PrattToken::Suffix("++".to_string()))
        .build()
}

/// Writes a tree with all its brackets.
fn show(n: &Node<Rule, usize>) -> String {
    match n {
        Node::Primary(v) => format!("{}", v),
        Node::Expr { rule, left, right } => {
            let op = match rule {
                Rule::Add => "+",
                Rule::Sub | Rule::Neg => "-",
                Rule::Mul => "*",
                Rule::Div => "/",
                Rule::Increment => "++",
            };
            let l = left.as_ref().map(|n| show(n)).unwrap_or_default();
            let r = right.as_ref().map(|n| show(n)).unwrap_or_default();
            format!("({}{}{})", l, op, r)
        }
    }
}

fn parse(text: &str) -> (Result<String, Error>, usize) {
    let pratt = arithmetic();
    let mut src = StrSource::new(text);
    let r = pratt.parse(&mut src).map(|n| show(&n));
    (r, src.current_position())
}

#[test]
fn precedence_shapes_the_tree() {
    assert_eq!(parse("99/66+77*-4++"), (Ok("((99/66)+(77*(-(4++))))".to_string()), 13));
}

#[test]
fn the_tree_names_its_rules() {
    let pratt = arithmetic();
    let mut src = StrSource::new("1+2");
    match pratt.parse(&mut src) {
        Ok(Node::Expr { rule, left, right }) => {
            assert_eq!(rule, Rule::Add);
            assert!(matches!(left.as_deref(), Some(Node::Primary(1))));
            assert!(matches!(right.as_deref(), Some(Node::Primary(2))));
        }
        other => panic!("unexpected result: {:?}", other),
    }
}

#[test]
fn infix_of_one_level_groups_to_the_left() {
    assert_eq!(parse("1-2-3").0, Ok("((1-2)-3)".to_string()));
    assert_eq!(parse("1-2+3").0, Ok("((1-2)+3)".to_string()));
    assert_eq!(parse("8/4*2").0, Ok("((8/4)*2)".to_string()));
}

#[test]
fn prefix_groups_to_the_right() {
    assert_eq!(parse("--1").0, Ok("(-(-1))".to_string()));
    assert_eq!(parse("1++++").0, Ok("((1++)++)".to_string()));
    assert_eq!(parse("-1++").0, Ok("(-(1++))".to_string()));
}

#[test]
fn a_primary_alone() {
    assert_eq!(parse("42"), (Ok("42".to_string()), 2));
    assert_eq!(parse("42)"), (Ok("42".to_string()), 2));
}

#[test]
fn a_missing_primary_is_reported_by_the_primary_parser() {
    assert_eq!(parse("x"), (Err(Error::new(Span::new(0, 0), "error parsing integer")), 0));
    assert_eq!(parse("-x"), (Err(Error::new(Span::new(1, 1), "error parsing integer")), 0));
}

#[test]
fn a_dangling_infix_is_unexpected() {
    assert_eq!(parse("1+"), (Err(Error::new(Span::new(1, 2), "unexpected token")), 0));
    assert_eq!(parse("1*-"), (Err(Error::new(Span::new(2, 3), "unexpected token")), 0));
}

#[test]
fn the_tightest_rule_is_tried_first() {
    // "++" is a postfix operator of level 4, "+" an infix of level 1
    assert_eq!(parse("1+++2").0, Ok("((1++)+2)".to_string()));
}

#[test]
fn later_rules_of_a_level_are_tried_first() {
    let pratt = PrattBuilder::<u8, usize>::new()
        .with_rule(1, 0, PrattToken::Inffix("<".to_string()))
        .with_rule(1, 1, PrattToken::Inffix("<=".to_string()))
        .build();
    let mut src = StrSource::new("1<=2");
    match pratt.parse(&mut src) {
        Ok(Node::Expr { rule, .. }) => assert_eq!(rule, 1),
        other => panic!("unexpected result: {:?}", other),
    }
    assert_eq!(src.current_position(), 4);
}

#[test]
fn rules_may_be_registered_in_any_order() {
    let pratt = PrattBuilder::<Rule, usize>::new()
        .with_rule(2, Rule::Mul, PrattToken::Inffix("*".to_string()))
        .with_rule(1, Rule::Add, PrattToken::Inffix("+".to_string()))
        .build();
    let mut src = StrSource::new("1+2*3+4");
    let r = pratt.parse(&mut src).map(|n| show(&n));
    assert_eq!(r, Ok("((1+(2*3))+4)".to_string()));
}

#[test]
fn an_empty_literal_never_matches() {
    let pratt = PrattBuilder::<Rule, usize>::new()
        .with_rule(1, Rule::Neg, PrattToken::Preffix(String::new()))
        .with_rule(1, Rule::Add, PrattToken::Inffix(String::new()))
        .build();
    let mut src = StrSource::new("12");
    assert!(matches!(pratt.parse(&mut src), Ok(Node::Primary(12))));
}

#[test]
fn tokens_are_cut_in_order() {
    let pratt = arithmetic();
    let mut src = StrSource::new("-1++*2");
    let toks = pratt.parse_tokens(&mut src).unwrap();
    assert_eq!(toks.len(), 5);
    assert!(matches!(toks[0], ParsedToken::Preffix(4, Span(0, 1))));
    assert!(matches!(toks[1], ParsedToken::Primary(1)));
    assert!(matches!(toks[2], ParsedToken::Suffix(5, Span(2, 4))));
    assert!(matches!(toks[3], ParsedToken::Inffix(2, Span(4, 5))));
    assert!(matches!(toks[4], ParsedToken::Primary(2)));
    assert_eq!(src.current_position(), 6);
}

#[test]
fn reduction_of_a_well_formed_list_leaves_one_tree() {
    let pratt = arithmetic();
    let toks: Vec<ParsedToken<usize>> = vec![
        ParsedToken::Primary(1),
        ParsedToken::Inffix(0, Span(1, 2)),
        ParsedToken::Primary(2),
        ParsedToken::Inffix(2, Span(3, 4)),
        ParsedToken::Primary(3),
    ];
    match pratt.process_parsed_tokens(toks) {
        Ok(ParsedToken::Node { rule, left, right }) => {
            assert_eq!(rule, Token::Inffix(0));
            assert!(matches!(left.as_deref(), Some(ParsedToken::Primary(1))));
            assert!(matches!(
                right.as_deref(),
                Some(ParsedToken::Node { rule: Token::Inffix(2), .. })
            ));
        }
        _ => panic!("expected one tree"),
    }
}

#[test]
fn invalid_neighbours_are_reported_at_the_operator() {
    let pratt = arithmetic();
    // an infix operator in front
    let toks: Vec<ParsedToken<usize>> =
        vec![ParsedToken::Inffix(0, Span(0, 1)), ParsedToken::Primary(2)];
    assert_eq!(
        pratt.process_parsed_tokens(toks).err(),
        Some(Error::new(Span::new(0, 1), "unexpected token"))
    );
    // a prefix operator with nothing behind it
    let toks: Vec<ParsedToken<usize>> =
        vec![ParsedToken::Primary(2), ParsedToken::Preffix(4, Span(1, 2))];
    assert_eq!(
        pratt.process_parsed_tokens(toks).err(),
        Some(Error::new(Span::new(1, 2), "unexpected token"))
    );
    // a postfix operator in front
    let toks: Vec<ParsedToken<usize>> =
        vec![ParsedToken::Suffix(5, Span(0, 2)), ParsedToken::Primary(2)];
    assert_eq!(
        pratt.process_parsed_tokens(toks).err(),
        Some(Error::new(Span::new(0, 2), "unexpected token"))
    );
    // two infix operators in a row: the tighter one is reduced first and is stuck
    let toks: Vec<ParsedToken<usize>> = vec![
        ParsedToken::Primary(1),
        ParsedToken::Inffix(0, Span(1, 2)),
        ParsedToken::Inffix(2, Span(2, 3)),
        ParsedToken::Primary(2),
    ];
    assert_eq!(
        pratt.process_parsed_tokens(toks).err(),
        Some(Error::new(Span::new(2, 3), "unexpected token"))
    );
}

#[test]
fn leftovers_are_reported() {
    let pratt = arithmetic();
    // an operator that no rule knows
    let toks: Vec<ParsedToken<usize>> =
        vec![ParsedToken::Primary(1), ParsedToken::Suffix(77, Span(1, 2))];
    assert_eq!(
        pratt.process_parsed_tokens(toks).err(),
        Some(Error::new(Span::new(1, 2), "unexpected token"))
    );
    // two operands and nothing between them
    let toks: Vec<ParsedToken<usize>> = vec![ParsedToken::Primary(1), ParsedToken::Primary(2)];
    assert_eq!(
        pratt.process_parsed_tokens(toks).err(),
        Some(Error::new(Span::new(0, 0), "unexpected token"))
    );
    assert_eq!(
        pratt.process_parsed_tokens(Vec::new()).err(),
        Some(Error::new(Span::new(0, 0), "unexpected token"))
    );
}

#[test]
fn finished_trees_become_nodes() {
    let pratt = arithmetic();
    let tree: ParsedToken<usize> = ParsedToken::Node {
        rule: Token::Prefix(4),
        left: None,
        right: Some(Box::new(ParsedToken::Primary(9))),
    };
    let node = pratt.parsed_token_to_node(tree);
    assert_eq!(show(&node), "(-9)");
}
