//! Operator-precedence parsing over a primary-expression parser.
//!
//! An expression is first cut into a flat list of operators and primaries,
//! then that list is reduced rule by rule, from the rule that binds tightest
//! to the one that binds loosest, until one tree is left.

use vstd::prelude::*;
use vstd::seq_lib::{to_multiset_insert, to_multiset_remove};
use crate::error::{Error, Span};
use crate::parse::{span_in, Parse};
use crate::source::Source;
use crate::utf8::{bytes_at, is_position};

verus! {

/// An expression tree: a primary value, or an operator applied to the trees
/// on its left and right. A prefix operator has no left tree, a postfix
/// operator no right one.
#[derive(Debug)]
pub enum Node<N, T> {
    Primary(T),
    Expr { rule: N, left: Option<Box<Node<N, T>>>, right: Option<Box<Node<N, T>>> },
}

/// The literal of an operator and the role it plays.
#[derive(Debug, Clone, PartialEq, Eq)]
pub enum PrattToken {
    Preffix(String),
    Suffix(String),
    Inffix(String),
}

/// The role of a rule together with the id given to it when it was registered.
#[derive(Debug, Clone, Copy, PartialEq, Eq, Structural)]
pub enum Token {
    Prefix(usize),
    Suffix(usize),
    Inffix(usize),
}

impl Token {
    /// The id of the rule.
    pub open spec fn id(self) -> usize {
        match self {
            Token::Prefix(i) => i,
            Token::Suffix(i) => i,
            Token::Inffix(i) => i,
        }
    }

    /// The id of the rule.
    pub fn index(self) -> (i: usize)
        ensures
            i == self.id(),
    {
        match self {
            Token::Prefix(i) => i,
            Token::Suffix(i) => i,
            Token::Inffix(i) => i,
        }
    }
}

/// A registered operator.
pub struct Rule<N> {
    /// What the operator is called in the resulting tree.
    pub name: N,
    /// Its precedence: a higher level binds tighter.
    pub level: usize,
    /// Its role and id.
    pub token: Token,
    /// Its literal.
    pub text: String,
}

/// Whether `a` is reduced after `b`: it has the lower level, or the same
/// level and was registered earlier.
pub open spec fn precedes<N>(a: Rule<N>, b: Rule<N>) -> bool {
    a.level < b.level || (a.level == b.level && a.token.id() < b.token.id())
}

/// Whether no rule of `rules` stands before one that it should follow.
pub open spec fn in_order<N>(rules: Seq<Rule<N>>) -> bool {
    forall|i: int, j: int| 0 <= i < j < rules.len() ==> !precedes(rules[j], rules[i])
}

/// Whether the rules are numbered by their place: the `i`-th has id `i`.
pub open spec fn numbered<N>(rules: Seq<Rule<N>>) -> bool {
    forall|i: int| 0 <= i < rules.len() ==> (#[trigger] rules[i]).token.id() == i
}

/// The rule that registering `token` under `name` at level `level` adds
/// when it is given the id `id`.
pub open spec fn new_rule<N>(id: usize, level: usize, name: N, token: PrattToken) -> Rule<N> {
    match token {
        PrattToken::Preffix(s) => Rule { name, level, token: Token::Prefix(id), text: s },
        PrattToken::Suffix(s) => Rule { name, level, token: Token::Suffix(id), text: s },
        PrattToken::Inffix(s) => Rule { name, level, token: Token::Inffix(id), text: s },
    }
}

/// Collects the rules of a Pratt parser.
pub struct PrattBuilder<N: Clone, T> {
    /// The rules in the order of their registration.
    rules: Vec<Rule<N>>,
    /// The id that the next rule will get.
    id: usize,
    _mark: core::marker::PhantomData<T>,
}

impl<N: Clone, T: Parse> PrattBuilder<N, T> {
    /// The rules registered so far, in the order of their registration.
    pub closed spec fn rules(&self) -> Seq<Rule<N>> {
        self.rules@
    }

    /// The builder's invariant: the rules are numbered by their place.
    pub closed spec fn inv(&self) -> bool {
        numbered(self.rules@) && self.id == self.rules@.len()
    }

    /// A builder without rules.
    pub fn new() -> (b: PrattBuilder<N, T>)
        ensures
            b.inv(),
            b.rules() == Seq::<Rule<N>>::empty(),
    {
        PrattBuilder { rules: Vec::new(), id: 0, _mark: core::marker::PhantomData }
    }

    /// Registers an operator. It gets the next free id, which is the number
    /// of rules registered before it.
    pub fn with_rule(self, precedence: usize, name: N, token: PrattToken) -> (b: Self)
        requires
            self.inv(),
        ensures
            b.inv(),
            b.rules() == self.rules().push(
                new_rule(self.rules().len() as usize, precedence, name, token),
            ),
    {
        let mut rules = self.rules;
        let id = self.id;
        let rule = match token {
            PrattToken::Inffix(s) => Rule {
                name,
                level: precedence,
                token: Token::Inffix(id),
                text: s,
            },
            PrattToken::Preffix(s) => Rule {
                name,
                level: precedence,
                token: Token::Prefix(id),
                text: s,
            },
            PrattToken::Suffix(s) => Rule {
                name,
                level: precedence,
                token: Token::Suffix(id),
                text: s,
            },
        };
        rules.push(rule);
        let id = rules.len();
        PrattBuilder { rules, id, _mark: core::marker::PhantomData }
    }

    /// Finishes the parser: its rules are those of the builder, ordered by
    /// level and, within a level, by registration.
    pub fn build(self) -> (p: Pratt<N, T>)
        requires
            self.inv(),
        ensures
            p.inv(),
            in_order(p.rules()),
            p.rules().to_multiset() == self.rules().to_multiset(),
    {
        let mut rules = self.rules;
        sort_rules(&mut rules);
        Pratt { rules, _mark: core::marker::PhantomData }
    }
}

/// Whether `a` is reduced after `b`.
fn before<N>(a: &Rule<N>, b: &Rule<N>) -> (r: bool)
    ensures
        r == precedes(*a, *b),
{
    a.level < b.level || (a.level == b.level && a.token.index() < b.token.index())
}

/// Sorts the rules by level and, within a level, by id.
fn sort_rules<N>(rules: &mut Vec<Rule<N>>)
    ensures
        in_order(final(rules)@),
        final(rules)@.to_multiset() == old(rules)@.to_multiset(),
{
    let mut i: usize = 1;
    while i < rules.len()
        invariant
            rules@.to_multiset() == old(rules)@.to_multiset(),
            rules@.len() == old(rules)@.len(),
            in_order(rules@.subrange(0, if i <= rules@.len() { i as int } else { rules@.len() as int })),
        decreases rules.len() - i,
    {
        let ghost before_remove = rules@;
        let x = rules.remove(i);
        proof {
            to_multiset_remove(before_remove, i as int);
        }
        let mut j: usize = i;
        while j > 0 && before(&x, &rules[j - 1])
            invariant
                j <= i,
                i <= rules@.len(),
                forall|k: int| j <= k < i ==> precedes(x, #[trigger] rules@[k]),
            decreases j,
        {
            j = j - 1;
        }
        let ghost removed = rules@;
        rules.insert(j, x);
        proof {
            to_multiset_insert(removed, j as int, x);
            assert(rules@.to_multiset() =~= old(rules)@.to_multiset()) by {
                broadcast use vstd::multiset::group_multiset_axioms;

                before_remove.to_multiset_ensures();
                assert(before_remove.to_multiset().contains(before_remove[i as int]));
            }
            let prefix = rules@.subrange(0, i + 1);
            let earlier = before_remove.subrange(0, i as int);
            assert(prefix.len() == i + 1 && earlier.len() == i);
            assert forall|p: int, q: int| 0 <= p < q < prefix.len() implies !precedes(
                prefix[q],
                prefix[p],
            ) by {
                let a = if p < j { earlier[p] } else if p == j { x } else { earlier[p - 1] };
                let b = if q < j { earlier[q] } else if q == j { x } else { earlier[q - 1] };
                assert(prefix[p] == a);
                assert(prefix[q] == b);
                if q == j {
                    if j > 0 {
                        assert(!precedes(x, earlier[j - 1]));
                        assert(p < j - 1 ==> !precedes(earlier[j - 1], earlier[p]));
                    }
                } else if p == j {
                    assert(precedes(x, removed[q - 1]));
                } else {
                }
            }
        }
        i = i + 1;
    }
    proof {
        assert(rules@.subrange(0, rules@.len() as int) =~= rules@);
    }
}

/// A Pratt parser: operators ordered by precedence, over the primary parser `T`.
pub struct Pratt<N: Clone, T: Parse> {
    /// The rules from the loosest-binding to the tightest-binding.
    rules: Vec<Rule<N>>,
    _mark: core::marker::PhantomData<T>,
}

impl<N: Clone, T: Parse> Pratt<N, T> {
    /// The rules from the loosest-binding to the tightest-binding.
    pub closed spec fn rules(&self) -> Seq<Rule<N>> {
        self.rules@
    }

    /// The parser's invariant: its rules are in order.
    pub closed spec fn inv(&self) -> bool {
        in_order(self.rules@)
    }

    /// A builder without rules.
    pub fn builder() -> (b: PrattBuilder<N, T>)
        ensures
            b.inv(),
            b.rules() == Seq::<Rule<N>>::empty(),
    {
        PrattBuilder::new()
    }
}

/// An item of the flat list that an expression is cut into, or a tree that
/// the reduction has built from such items.
pub enum ParsedToken<T> {
    /// A prefix operator: the id of its rule and where it stood.
    Preffix(usize, Span),
    /// A postfix operator.
    Suffix(usize, Span),
    /// An infix operator.
    Inffix(usize, Span),
    /// A primary expression.
    Primary(T),
    /// An operator with its operands.
    Node { rule: Token, left: Option<Box<ParsedToken<T>>>, right: Option<Box<ParsedToken<T>>> },
}

impl<T> ParsedToken<T> {
    /// Whether the item can stand as an operand: a primary or a tree.
    pub open spec fn is_operand(self) -> bool {
        self is Primary || self is Node
    }

    /// The rule and the span of an operator that is not reduced yet.
    pub open spec fn operator(self) -> Option<(Token, Span)> {
        match self {
            ParsedToken::Preffix(id, span) => Some((Token::Prefix(id), span)),
            ParsedToken::Suffix(id, span) => Some((Token::Suffix(id), span)),
            ParsedToken::Inffix(id, span) => Some((Token::Inffix(id), span)),
            _ => None,
        }
    }

    /// What the item adds to the balance of a list: an operand one, an
    /// infix operator minus one, which is the operand it will absorb.
    pub open spec fn weight(self) -> int {
        match self {
            ParsedToken::Primary(_) => 1,
            ParsedToken::Node { .. } => 1,
            ParsedToken::Inffix(..) => -1,
            _ => 0,
        }
    }

    /// Whether the item can stand as an operand.
    pub fn operand(&self) -> (b: bool)
        ensures
            b == self.is_operand(),
    {
        match self {
            ParsedToken::Primary(_) => true,
            ParsedToken::Node { .. } => true,
            _ => false,
        }
    }
}

/// The list `toks` with the items from `a` up to `b` replaced by `node`.
pub open spec fn splice<T>(toks: Seq<ParsedToken<T>>, a: int, b: int, node: ParsedToken<T>) -> Seq<
    ParsedToken<T>,
> {
    toks.subrange(0, a).push(node) + toks.subrange(b, toks.len() as int)
}

/// The tree of the prefix operator `id` applied to `right`.
pub open spec fn prefix_node<T>(id: usize, right: ParsedToken<T>) -> ParsedToken<T> {
    ParsedToken::Node { rule: Token::Prefix(id), left: None, right: Some(Box::new(right)) }
}

/// The tree of the postfix operator `id` applied to `left`.
pub open spec fn suffix_node<T>(id: usize, left: ParsedToken<T>) -> ParsedToken<T> {
    ParsedToken::Node { rule: Token::Suffix(id), left: Some(Box::new(left)), right: None }
}

/// The tree of the infix operator `id` applied to `left` and `right`.
pub open spec fn infix_node<T>(id: usize, left: ParsedToken<T>, right: ParsedToken<T>) -> ParsedToken<
    T,
> {
    ParsedToken::Node {
        rule: Token::Inffix(id),
        left: Some(Box::new(left)),
        right: Some(Box::new(right)),
    }
}

/// Reduces the prefix operators of the rule `id` from the item `i` leftwards.
///
/// Each takes the item on its right, which must be an operand, and the pair
/// becomes one tree. An operator whose right neighbour is missing or is no
/// operand stops the reduction with the operator's span.
pub open spec fn reduce_prefix<T>(toks: Seq<ParsedToken<T>>, id: usize, i: int) -> Result<
    Seq<ParsedToken<T>>,
    Span,
>
    decreases i + 1,
{
    if i < 0 || i >= toks.len() {
        Ok(toks)
    } else if toks[i] matches ParsedToken::Preffix(k, span) && k == id {
        if i + 1 < toks.len() && toks[i + 1].is_operand() {
            reduce_prefix(splice(toks, i, i + 2, prefix_node(id, toks[i + 1])), id, i - 1)
        } else {
            Err(toks[i].operator().unwrap().1)
        }
    } else {
        reduce_prefix(toks, id, i - 1)
    }
}

/// Reduces the infix or postfix operators of `rule` from the item `i` rightwards.
///
/// An infix operator takes the items on both sides, a postfix operator the
/// one on its left; they must be operands. An operator with a neighbour that
/// is missing or is no operand stops the reduction with the operator's span.
pub open spec fn reduce_forward<T>(toks: Seq<ParsedToken<T>>, rule: Token, i: int) -> Result<
    Seq<ParsedToken<T>>,
    Span,
>
    decreases toks.len() - i,
{
    if i < 0 || i >= toks.len() {
        Ok(toks)
    } else {
        match toks[i] {
            ParsedToken::Inffix(k, span) if rule == Token::Inffix(k) => {
                if 1 <= i && toks[i - 1].is_operand() && i + 1 < toks.len() && toks[i
                    + 1].is_operand() {
                    reduce_forward(
                        splice(toks, i - 1, i + 2, infix_node(k, toks[i - 1], toks[i + 1])),
                        rule,
                        i,
                    )
                } else {
                    Err(span)
                }
            },
            ParsedToken::Suffix(k, span) if rule == Token::Suffix(k) => {
                if 1 <= i && toks[i - 1].is_operand() {
                    reduce_forward(
                        splice(toks, i - 1, i + 1, suffix_node(k, toks[i - 1])),
                        rule,
                        i,
                    )
                } else {
                    Err(span)
                }
            },
            _ => reduce_forward(toks, rule, i + 1),
        }
    }
}

/// Reduces all operators of one rule: prefix operators from right to left,
/// the others from left to right.
pub open spec fn reduce_rule<T>(toks: Seq<ParsedToken<T>>, rule: Token) -> Result<
    Seq<ParsedToken<T>>,
    Span,
> {
    match rule {
        Token::Prefix(id) => reduce_prefix(toks, id, toks.len() - 1),
        _ => reduce_forward(toks, rule, 0),
    }
}

/// Reduces by the first `k` rules, the last of them first.
pub open spec fn reduce_rules<N, T>(toks: Seq<ParsedToken<T>>, rules: Seq<Rule<N>>, k: int) -> Result<
    Seq<ParsedToken<T>>,
    Span,
>
    decreases k,
{
    if k <= 0 || k > rules.len() {
        Ok(toks)
    } else {
        match reduce_rule(toks, rules[k - 1].token) {
            Ok(next) => reduce_rules(next, rules, k - 1),
            Err(span) => Err(span),
        }
    }
}

/// The span of the first operator left in `toks`, from the item `i` on, or
/// the empty span at zero where there is none.
pub open spec fn leftover<T>(toks: Seq<ParsedToken<T>>, i: int) -> Span
    decreases toks.len() - i,
{
    if i < 0 || i >= toks.len() {
        Span(0, 0)
    } else {
        match toks[i].operator() {
            Some((_, span)) => span,
            None => leftover(toks, i + 1),
        }
    }
}

/// The tree that `toks` reduces to under `rules`, from the rule that binds
/// tightest to the one that binds loosest, or the span to report: that of
/// the operator that stopped the reduction, or of the first operator left
/// over where the rules do not leave exactly one tree.
pub open spec fn reduce<N, T>(toks: Seq<ParsedToken<T>>, rules: Seq<Rule<N>>) -> Result<
    ParsedToken<T>,
    Span,
> {
    match reduce_rules(toks, rules, rules.len() as int) {
        Ok(rest) => if rest.len() == 1 && rest[0].is_operand() {
            Ok(rest[0])
        } else {
            Err(leftover(rest, 0))
        },
        Err(span) => Err(span),
    }
}

/// Whether `e` is the error for an operator at `span` that found no valid neighbour.
pub open spec fn unexpected(e: Error, span: Span) -> bool {
    e.span == span && e.msg@ == "unexpected token"@
}

/// Reduces the prefix operators of the rule `id`, from right to left.
fn run_prefix<T>(tokens: &mut Vec<ParsedToken<T>>, id: usize) -> (r: Result<(), Error>)
    ensures
        match reduce_prefix(old(tokens)@, id, old(tokens)@.len() - 1) {
            Ok(next) => r is Ok && final(tokens)@ == next,
            Err(span) => r matches Err(e) && unexpected(e, span),
        },
{
    let mut i = tokens.len();
    while i > 0
        invariant
            i <= tokens@.len(),
            reduce_prefix(old(tokens)@, id, old(tokens)@.len() - 1) == reduce_prefix(
                tokens@,
                id,
                i - 1,
            ),
        decreases i,
    {
        i = i - 1;
        let found = match &tokens[i] {
            ParsedToken::Preffix(k, span) => if *k == id {
                Some(*span)
            } else {
                None
            },
            _ => None,
        };
        if let Some(span) = found {
            if i + 1 < tokens.len() && tokens[i + 1].operand() {
                let ghost before = tokens@;
                let right = tokens.remove(i + 1);
                tokens.set(
                    i,
                    ParsedToken::Node {
                        rule: Token::Prefix(id),
                        left: None,
                        right: Some(Box::new(right)),
                    },
                );
                assert(tokens@ =~= splice(before, i as int, i + 2, prefix_node(id, before[i + 1])));
            } else {
                return Err(Error::new(span, "unexpected token"));
            }
        }
    }
    Ok(())
}

/// Reduces the infix or postfix operators of `rule`, from left to right.
fn run_forward<T>(tokens: &mut Vec<ParsedToken<T>>, rule: Token) -> (r: Result<(), Error>)
    ensures
        match reduce_forward(old(tokens)@, rule, 0) {
            Ok(next) => r is Ok && final(tokens)@ == next,
            Err(span) => r matches Err(e) && unexpected(e, span),
        },
{
    let mut i: usize = 0;
    while i < tokens.len()
        invariant
            reduce_forward(old(tokens)@, rule, 0) == reduce_forward(tokens@, rule, i as int),
        decreases tokens@.len() - i,
    {
        let found = match &tokens[i] {
            ParsedToken::Inffix(k, span) => if rule == Token::Inffix(*k) {
                Some((true, *k, *span))
            } else {
                None
            },
            ParsedToken::Suffix(k, span) => if rule == Token::Suffix(*k) {
                Some((false, *k, *span))
            } else {
                None
            },
            _ => None,
        };
        match found {
            Some((true, k, span)) => {
                if i >= 1 && tokens[i - 1].operand() && i + 1 < tokens.len() && tokens[i
                    + 1].operand() {
                    let ghost before = tokens@;
                    let right = tokens.remove(i + 1);
                    let left = tokens.remove(i - 1);
                    tokens.set(
                        i - 1,
                        ParsedToken::Node {
                            rule: Token::Inffix(k),
                            left: Some(Box::new(left)),
                            right: Some(Box::new(right)),
                        },
                    );
                    assert(tokens@ =~= splice(
                        before,
                        i - 1,
                        i + 2,
                        infix_node(k, before[i - 1], before[i + 1]),
                    ));
                } else {
                    return Err(Error::new(span, "unexpected token"));
                }
            },
            Some((false, k, span)) => {
                if i >= 1 && tokens[i - 1].operand() {
                    let ghost before = tokens@;
                    let left = tokens.remove(i - 1);
                    tokens.set(
                        i - 1,
                        ParsedToken::Node {
                            rule: Token::Suffix(k),
                            left: Some(Box::new(left)),
                            right: None,
                        },
                    );
                    assert(tokens@ =~= splice(before, i - 1, i + 1, suffix_node(k, before[i - 1])));
                } else {
                    return Err(Error::new(span, "unexpected token"));
                }
            },
            None => {
                i = i + 1;
            },
        }
    }
    Ok(())
}

/// The span of the first operator left in `tokens`.
fn first_leftover<T>(tokens: &Vec<ParsedToken<T>>) -> (span: Span)
    ensures
        span == leftover(tokens@, 0),
{
    let mut i: usize = 0;
    while i < tokens.len()
        invariant
            leftover(tokens@, 0) == leftover(tokens@, i as int),
        decreases tokens@.len() - i,
    {
        match &tokens[i] {
            ParsedToken::Preffix(_, span) => {
                return *span;
            },
            ParsedToken::Suffix(_, span) => {
                return *span;
            },
            ParsedToken::Inffix(_, span) => {
                return *span;
            },
            _ => {},
        }
        i = i + 1;
    }
    Span(0, 0)
}

impl<N: Clone, T: Parse> Pratt<N, T> {
    /// Reduces a flat list of operators and operands to one tree.
    ///
    /// The rules are applied from the one that binds tightest to the one
    /// that binds loosest. An operator that finds no valid neighbour when its
    /// rule is applied gives the error "unexpected token" at its span, and so
    /// does the first operator left over where the rules do not leave exactly
    /// one tree.
    pub fn process_parsed_tokens(&self, tokens: Vec<ParsedToken<T::Output>>) -> (r: Result<
        ParsedToken<T::Output>,
        Error,
    >)
        ensures
            match reduce(tokens@, self.rules()) {
                Ok(tree) => r == Ok::<ParsedToken<T::Output>, Error>(tree),
                Err(span) => r matches Err(e) && unexpected(e, span),
            },
    {
        let mut list = tokens;
        let mut k = self.rules.len();
        while k > 0
            invariant
                k <= self.rules@.len(),
                reduce_rules(tokens@, self.rules@, self.rules@.len() as int) == reduce_rules(
                    list@,
                    self.rules@,
                    k as int,
                ),
            decreases k,
        {
            let rule = self.rules[k - 1].token;
            let ghost before = list@;
            let step = match rule {
                Token::Prefix(id) => run_prefix(&mut list, id),
                _ => run_forward(&mut list, rule),
            };
            assert(reduce_rules(before, self.rules@, k as int) == match reduce_rule(before, rule) {
                Ok(next) => reduce_rules(next, self.rules@, k - 1),
                Err(span) => Err(span),
            });
            if let Err(e) = step {
                return Err(e);
            }
            k = k - 1;
        }
        if list.len() == 1 && list[0].operand() {
            Ok(list.remove(0))
        } else {
            Err(Error::new(first_leftover(&list), "unexpected token"))
        }
    }
}

/// Whether some rule of `rules` has the role and id `token`.
pub open spec fn registered<N>(rules: Seq<Rule<N>>, token: Token) -> bool {
    exists|k: int| 0 <= k < rules.len() && (#[trigger] rules[k]).token == token
}

/// Whether `k` is the place of the first rule with the role and id `token`.
pub open spec fn first_rule<N>(rules: Seq<Rule<N>>, token: Token, k: int) -> bool {
    &&& 0 <= k < rules.len()
    &&& rules[k].token == token
    &&& forall|j: int| 0 <= j < k ==> (#[trigger] rules[j]).token != token
}

/// Whether `token` is a finished tree: primaries at its leaves and, at every
/// other node, an operator that `rules` knows.
pub open spec fn is_tree<N, T>(token: ParsedToken<T>, rules: Seq<Rule<N>>) -> bool
    decreases token,
{
    match token {
        ParsedToken::Primary(_) => true,
        ParsedToken::Node { rule, left, right } => {
            &&& registered(rules, rule)
            &&& (left matches Some(l) ==> is_tree(*l, rules))
            &&& (right matches Some(r) ==> is_tree(*r, rules))
        },
        _ => false,
    }
}

/// Whether `node` is the tree `token` with every operator replaced by a
/// clone of the name of the first rule that has its role and id.
pub open spec fn node_of<N: Clone, T>(token: ParsedToken<T>, rules: Seq<Rule<N>>, node: Node<N, T>) -> bool
    decreases token,
{
    match token {
        ParsedToken::Primary(p) => node == Node::<N, T>::Primary(p),
        ParsedToken::Node { rule, left, right } => {
            &&& node matches Node::Expr { rule: name, left: l, right: r }
            &&& exists|k: int| first_rule(rules, rule, k) && cloned(#[trigger] rules[k].name, name)
            &&& match left {
                Some(a) => l matches Some(b) && node_of(*a, rules, *b),
                None => l is None,
            }
            &&& match right {
                Some(a) => r matches Some(b) && node_of(*a, rules, *b),
                None => r is None,
            }
        },
        _ => false,
    }
}

impl<N: Clone, T: Parse> Pratt<N, T> {
    /// The place of the first rule with the role and id `token`.
    fn find_rule(&self, token: Token) -> (r: Option<usize>)
        ensures
            match r {
                Some(k) => first_rule(self.rules(), token, k as int),
                None => !registered(self.rules(), token),
            },
    {
        let mut k: usize = 0;
        while k < self.rules.len()
            invariant
                k <= self.rules@.len(),
                forall|j: int| 0 <= j < k ==> (#[trigger] self.rules@[j]).token != token,
            decreases self.rules@.len() - k,
        {
            if self.rules[k].token == token {
                return Some(k);
            }
            k = k + 1;
        }
        None
    }

    /// Turns a finished tree into the tree of rule names that the parser returns.
    pub fn parsed_token_to_node(&self, token: ParsedToken<T::Output>) -> (node: Node<
        N,
        T::Output,
    >)
        requires
            is_tree(token, self.rules()),
        ensures
            node_of(token, self.rules(), node),
        decreases token,
    {
        match token {
            ParsedToken::Primary(p) => Node::Primary(p),
            ParsedToken::Node { rule, left, right } => {
                let left = match left {
                    Some(l) => Some(Box::new(self.parsed_token_to_node(*l))),
                    None => None,
                };
                let right = match right {
                    Some(r) => Some(Box::new(self.parsed_token_to_node(*r))),
                    None => None,
                };
                match self.find_rule(rule) {
                    Some(k) => Node::Expr { rule: self.rules[k].name.clone(), left, right },
                    None => vstd::pervasive::unreached(),
                }
            },
            _ => vstd::pervasive::unreached(),
        }
    }
}

/// Whether every operand of `toks` is a finished tree over `rules`.
pub open spec fn operands_are_trees<N, T>(toks: Seq<ParsedToken<T>>, rules: Seq<Rule<N>>) -> bool {
    forall|i: int| 0 <= i < toks.len() && (#[trigger] toks[i]).is_operand() ==> is_tree(toks[i], rules)
}

/// Whether an operator of `toks` has the rule `token` and the span `span`.
pub open spec fn has_operator<T>(toks: Seq<ParsedToken<T>>, token: Token, span: Span) -> bool {
    exists|i: int| 0 <= i < toks.len() && (#[trigger] toks[i]).operator() == Some((token, span))
}

/// Whether an operator of `toks` has the span `span`.
pub open spec fn has_span<T>(toks: Seq<ParsedToken<T>>, span: Span) -> bool {
    exists|i: int|
        0 <= i < toks.len() && (#[trigger] toks[i]).operator() is Some && toks[i].operator().unwrap().1
            == span
}

/// Whether no operator of `toks` from the item `from` up to the item `to`
/// has the rule `token`.
pub open spec fn free_of<T>(toks: Seq<ParsedToken<T>>, token: Token, from: int, to: int) -> bool {
    forall|i: int|
        0 <= i < toks.len() && from <= i < to ==> !((#[trigger] toks[i]).operator() matches Some(
            (t, _),
        ) && t == token)
}

/// The number of operands of `toks` less the number of its infix operators.
pub open spec fn balance<T>(toks: Seq<ParsedToken<T>>) -> int
    decreases toks.len(),
{
    if toks.len() == 0 {
        0
    } else {
        balance(toks.drop_last()) + toks.last().weight()
    }
}

/// The balance of a list put together from two is the sum of their balances.
proof fn lemma_balance_add<T>(a: Seq<ParsedToken<T>>, b: Seq<ParsedToken<T>>)
    ensures
        balance(a + b) == balance(a) + balance(b),
    decreases b.len(),
{
    if b.len() == 0 {
        assert(a + b =~= a);
    } else {
        assert((a + b).drop_last() =~= a + b.drop_last());
        lemma_balance_add(a, b.drop_last());
    }
}

/// A list of operands alone has its length as its balance.
proof fn lemma_balance_operands<T>(toks: Seq<ParsedToken<T>>)
    requires
        forall|i: int| 0 <= i < toks.len() ==> (#[trigger] toks[i]).is_operand(),
    ensures
        balance(toks) == toks.len(),
    decreases toks.len(),
{
    if toks.len() > 0 {
        lemma_balance_operands(toks.drop_last());
    }
}

/// What replacing the items from `a` up to `b` by an operand does to a list.
proof fn lemma_splice<N, T>(
    toks: Seq<ParsedToken<T>>,
    rules: Seq<Rule<N>>,
    a: int,
    b: int,
    node: ParsedToken<T>,
)
    requires
        0 <= a < b <= toks.len(),
        node.is_operand(),
    ensures
        splice(toks, a, b, node).len() == toks.len() - (b - a) + 1,
        balance(splice(toks, a, b, node)) == balance(toks) - balance(toks.subrange(a, b)) + 1,
        forall|i: int| 0 <= i < a ==> splice(toks, a, b, node)[i] == toks[i],
        splice(toks, a, b, node)[a] == node,
        forall|i: int|
            a < i < splice(toks, a, b, node).len() ==> splice(toks, a, b, node)[i] == toks[i + (b - a)
                - 1],
        forall|t: Token, s: Span|
            has_operator(splice(toks, a, b, node), t, s) ==> has_operator(toks, t, s),
        operands_are_trees(toks, rules) && is_tree(node, rules) ==> operands_are_trees(
            splice(toks, a, b, node),
            rules,
        ),
{
    let out = splice(toks, a, b, node);
    let head = toks.subrange(0, a);
    let mid = toks.subrange(a, b);
    let rest = toks.subrange(b, toks.len() as int);
    assert(toks =~= head + mid + rest);
    lemma_balance_add(head + mid, rest);
    lemma_balance_add(head, mid);
    lemma_balance_add(head.push(node), rest);
    assert(head.push(node).drop_last() =~= head);
    assert forall|t: Token, s: Span| has_operator(out, t, s) implies has_operator(toks, t, s) by {
        let i = choose|i: int| 0 <= i < out.len() && (#[trigger] out[i]).operator() == Some((t, s));
        if i < a {
            assert(toks[i].operator() == Some((t, s)));
        } else {
            assert(toks[i + (b - a) - 1].operator() == Some((t, s)));
        }
    }
    if operands_are_trees(toks, rules) && is_tree(node, rules) {
        assert forall|i: int| 0 <= i < out.len() && (#[trigger] out[i]).is_operand() implies is_tree(
            out[i],
            rules,
        ) by {
            if i < a {
                assert(out[i] == toks[i]);
            } else if i > a {
                assert(out[i] == toks[i + (b - a) - 1]);
            }
        }
    }
}

/// The balance of two or three items in a row.
proof fn lemma_balance_few<T>(toks: Seq<ParsedToken<T>>, a: int, b: int)
    requires
        0 <= a,
        b <= toks.len(),
        b - a == 2 || b - a == 3,
    ensures
        b - a == 2 ==> balance(toks.subrange(a, b)) == toks[a].weight() + toks[a + 1].weight(),
        b - a == 3 ==> balance(toks.subrange(a, b)) == toks[a].weight() + toks[a + 1].weight()
            + toks[a + 2].weight(),
{
    let s = toks.subrange(a, b);
    reveal_with_fuel(balance, 4);
    if b - a == 2 {
        assert(s.drop_last().drop_last() =~= Seq::<ParsedToken<T>>::empty());
        assert(s.drop_last().last() == toks[a]);
    } else {
        assert(s.drop_last().drop_last().drop_last() =~= Seq::<ParsedToken<T>>::empty());
        assert(s.drop_last().drop_last().last() == toks[a]);
        assert(s.drop_last().last() == toks[a + 1]);
    }
}

/// What reducing the prefix operators of one rule does to a list.
proof fn lemma_reduce_prefix<N, T>(toks: Seq<ParsedToken<T>>, rules: Seq<Rule<N>>, id: usize, i: int)
    requires
        i < toks.len(),
        free_of(toks, Token::Prefix(id), i + 1, toks.len() as int),
    ensures
        match reduce_prefix(toks, id, i) {
            Ok(out) => {
                &&& balance(out) == balance(toks)
                &&& free_of(out, Token::Prefix(id), 0, out.len() as int)
                &&& forall|t: Token, s: Span| has_operator(out, t, s) ==> has_operator(toks, t, s)
                &&& operands_are_trees(toks, rules) && registered(rules, Token::Prefix(id))
                    ==> operands_are_trees(out, rules)
            },
            Err(span) => has_span(toks, span),
        },
    decreases i + 1,
{
    if i < 0 {
    } else if toks[i] matches ParsedToken::Preffix(k, span) && k == id {
        if i + 1 < toks.len() && toks[i + 1].is_operand() {
            let node = prefix_node(id, toks[i + 1]);
            let next = splice(toks, i, i + 2, node);
            lemma_splice(toks, rules, i, i + 2, node);
            lemma_balance_few(toks, i, i + 2);
            assert(free_of(next, Token::Prefix(id), i, next.len() as int)) by {
                assert forall|j: int| 0 <= j < next.len() && i <= j < next.len() implies !((
                #[trigger] next[j]).operator() matches Some((t, _)) && t == Token::Prefix(id)) by {
                    if j > i {
                        assert(next[j] == toks[j + 1]);
                    }
                }
            }
            lemma_reduce_prefix(next, rules, id, i - 1);
            if operands_are_trees(toks, rules) && registered(rules, Token::Prefix(id)) {
                assert(is_tree(toks[i + 1], rules));
                assert(is_tree(node, rules));
            }
        } else {
            assert(toks[i].operator() is Some);
        }
    } else {
        lemma_reduce_prefix(toks, rules, id, i - 1);
    }
}

/// What reducing the infix or postfix operators of one rule does to a list.
proof fn lemma_reduce_forward<N, T>(
    toks: Seq<ParsedToken<T>>,
    rules: Seq<Rule<N>>,
    rule: Token,
    i: int,
)
    requires
        0 <= i,
        !(rule is Prefix),
        free_of(toks, rule, 0, i),
    ensures
        match reduce_forward(toks, rule, i) {
            Ok(out) => {
                &&& balance(out) == balance(toks)
                &&& free_of(out, rule, 0, out.len() as int)
                &&& forall|t: Token, s: Span| has_operator(out, t, s) ==> has_operator(toks, t, s)
                &&& operands_are_trees(toks, rules) && registered(rules, rule) ==> operands_are_trees(
                    out,
                    rules,
                )
            },
            Err(span) => has_span(toks, span),
        },
    decreases toks.len() - i,
{
    if i >= toks.len() {
    } else {
        match toks[i] {
            ParsedToken::Inffix(k, span) if rule == Token::Inffix(k) => {
                if 1 <= i && toks[i - 1].is_operand() && i + 1 < toks.len() && toks[i
                    + 1].is_operand() {
                    let node = infix_node(k, toks[i - 1], toks[i + 1]);
                    let next = splice(toks, i - 1, i + 2, node);
                    lemma_splice(toks, rules, i - 1, i + 2, node);
                    lemma_balance_few(toks, i - 1, i + 2);
                    assert(free_of(next, rule, 0, i)) by {
                        assert forall|j: int| 0 <= j < next.len() && 0 <= j < i implies !((
                        #[trigger] next[j]).operator() matches Some((t, _)) && t == rule) by {
                            if j < i - 1 {
                                assert(next[j] == toks[j]);
                            }
                        }
                    }
                    lemma_reduce_forward(next, rules, rule, i);
                    if operands_are_trees(toks, rules) && registered(rules, rule) {
                        assert(is_tree(toks[i - 1], rules));
                        assert(is_tree(toks[i + 1], rules));
                        assert(is_tree(node, rules));
                    }
                } else {
                    assert(toks[i].operator() is Some);
                }
            },
            ParsedToken::Suffix(k, span) if rule == Token::Suffix(k) => {
                if 1 <= i && toks[i - 1].is_operand() {
                    let node = suffix_node(k, toks[i - 1]);
                    let next = splice(toks, i - 1, i + 1, node);
                    lemma_splice(toks, rules, i - 1, i + 1, node);
                    lemma_balance_few(toks, i - 1, i + 1);
                    assert(free_of(next, rule, 0, i)) by {
                        assert forall|j: int| 0 <= j < next.len() && 0 <= j < i implies !((
                        #[trigger] next[j]).operator() matches Some((t, _)) && t == rule) by {
                            if j < i - 1 {
                                assert(next[j] == toks[j]);
                            }
                        }
                    }
                    lemma_reduce_forward(next, rules, rule, i);
                    if operands_are_trees(toks, rules) && registered(rules, rule) {
                        assert(is_tree(toks[i - 1], rules));
                        assert(is_tree(node, rules));
                    }
                } else {
                    assert(toks[i].operator() is Some);
                }
            },
            _ => {
                assert(free_of(toks, rule, 0, i + 1));
                lemma_reduce_forward(toks, rules, rule, i + 1);
            },
        }
    }
}

/// Whether every operator of `toks` has its rule among the first `k` of `rules`.
pub open spec fn operators_known<N, T>(toks: Seq<ParsedToken<T>>, rules: Seq<Rule<N>>, k: int) -> bool {
    forall|i: int|
        0 <= i < toks.len() && (#[trigger] toks[i]).operator() is Some ==> registered(
            rules.subrange(0, k),
            toks[i].operator().unwrap().0,
        )
}

/// What reducing by the first `k` rules does to a list.
proof fn lemma_reduce_rules<N, T>(toks: Seq<ParsedToken<T>>, rules: Seq<Rule<N>>, k: int)
    requires
        0 <= k <= rules.len(),
    ensures
        match reduce_rules(toks, rules, k) {
            Ok(out) => {
                &&& balance(out) == balance(toks)
                &&& operators_known(toks, rules, k) ==> forall|i: int|
                    0 <= i < out.len() ==> (#[trigger] out[i]).is_operand()
                &&& operands_are_trees(toks, rules) ==> operands_are_trees(out, rules)
            },
            Err(span) => has_span(toks, span),
        },
    decreases k,
{
    if k > 0 {
        let rule = rules[k - 1].token;
        assert(registered(rules, rule));
        match rule {
            Token::Prefix(id) => lemma_reduce_prefix(toks, rules, id, toks.len() - 1),
            _ => lemma_reduce_forward(toks, rules, rule, 0),
        }
        match reduce_rule(toks, rule) {
            Ok(next) => {
                lemma_reduce_rules(next, rules, k - 1);
                if operators_known(toks, rules, k) {
                    assert forall|i: int|
                        0 <= i < next.len() && (#[trigger] next[i]).operator() is Some implies registered(
                        rules.subrange(0, k - 1),
                        next[i].operator().unwrap().0,
                    ) by {
                        let (t, s) = next[i].operator().unwrap();
                        assert(has_operator(next, t, s));
                        assert(has_operator(toks, t, s));
                        let j = choose|j: int|
                            0 <= j < toks.len() && (#[trigger] toks[j]).operator() == Some((t, s));
                        assert(registered(rules.subrange(0, k), t));
                        let r = choose|r: int|
                            0 <= r < k && (#[trigger] rules.subrange(0, k)[r]).token == t;
                        assert(t != rule);
                        assert(rules.subrange(0, k - 1)[r].token == t);
                    }
                }
                match reduce_rules(next, rules, k - 1) {
                    Ok(_) => {},
                    Err(span) => {
                        let i = choose|i: int|
                            0 <= i < next.len() && (#[trigger] next[i]).operator() is Some
                                && next[i].operator().unwrap().1 == span;
                        let (t, s) = next[i].operator().unwrap();
                        assert(has_operator(next, t, s));
                        assert(has_operator(toks, t, s));
                        let j = choose|j: int|
                            0 <= j < toks.len() && (#[trigger] toks[j]).operator() == Some((t, s));
                        assert(toks[j].operator() is Some && toks[j].operator().unwrap().1 == span);
                    },
                }
            },
            Err(_) => {},
        }
    } else {
        if operators_known(toks, rules, k) {
            assert forall|i: int| 0 <= i < toks.len() implies (#[trigger] toks[i]).is_operand() by {
                if toks[i].operator() is Some {
                    assert(registered(rules.subrange(0, 0), toks[i].operator().unwrap().0));
                }
            }
        }
    }
}

/// A list is well formed when it has one operand more than it has infix
/// operators and every operator in it belongs to a rule.
pub open spec fn well_formed<N, T>(toks: Seq<ParsedToken<T>>, rules: Seq<Rule<N>>) -> bool {
    &&& balance(toks) == 1
    &&& operators_known(toks, rules, rules.len() as int)
    &&& operands_are_trees(toks, rules)
}

/// Reduction is total. Whatever the list, it ends, in a tree or in the span
/// to report, and a span it reports is that of an operator of the list or,
/// where operators are left over without one, the empty span at zero. Of a
/// well-formed list the rules leave exactly one item, a finished tree,
/// unless an operator stops the reduction because it has no valid
/// neighbour, and then the span is that operator's.
pub proof fn lemma_reduction_total<N, T>(toks: Seq<ParsedToken<T>>, rules: Seq<Rule<N>>)
    ensures
        match reduce(toks, rules) {
            Ok(tree) => tree.is_operand() && (operands_are_trees(toks, rules) ==> is_tree(tree, rules)),
            Err(span) => has_span(toks, span) || span == Span(0, 0),
        },
        well_formed(toks, rules) ==> match reduce_rules(toks, rules, rules.len() as int) {
            Ok(rest) => rest.len() == 1 && reduce(toks, rules) == Ok::<ParsedToken<T>, Span>(rest[0]),
            Err(span) => has_span(toks, span),
        },
{
    lemma_reduce_rules(toks, rules, rules.len() as int);
    match reduce_rules(toks, rules, rules.len() as int) {
        Ok(rest) => {
            if well_formed(toks, rules) {
                lemma_balance_operands(rest);
            }
            if !(rest.len() == 1 && rest[0].is_operand()) {
                lemma_leftover(toks, rules, rest, 0);
            }
        },
        Err(_) => {},
    }
}

/// The span of an operator left over belongs to an operator of the list.
proof fn lemma_leftover<N, T>(
    toks: Seq<ParsedToken<T>>,
    rules: Seq<Rule<N>>,
    rest: Seq<ParsedToken<T>>,
    i: int,
)
    requires
        0 <= i,
        reduce_rules(toks, rules, rules.len() as int) == Ok::<Seq<ParsedToken<T>>, Span>(rest),
    ensures
        has_span(toks, leftover(rest, i)) || leftover(rest, i) == Span(0, 0),
    decreases rest.len() - i,
{
    if i < rest.len() {
        match rest[i].operator() {
            Some((t, s)) => {
                lemma_operators_kept(toks, rules, rules.len() as int);
                assert(has_operator(rest, t, s));
                assert(has_operator(toks, t, s));
                let j = choose|j: int|
                    0 <= j < toks.len() && (#[trigger] toks[j]).operator() == Some((t, s));
                assert(toks[j].operator() is Some && toks[j].operator().unwrap().1 == s);
            },
            None => lemma_leftover(toks, rules, rest, i + 1),
        }
    }
}

/// Reduction makes no operator: each one left was there before.
proof fn lemma_operators_kept<N, T>(toks: Seq<ParsedToken<T>>, rules: Seq<Rule<N>>, k: int)
    requires
        0 <= k <= rules.len(),
    ensures
        reduce_rules(toks, rules, k) matches Ok(out) ==> forall|t: Token, s: Span|
            has_operator(out, t, s) ==> has_operator(toks, t, s),
    decreases k,
{
    if k > 0 {
        let rule = rules[k - 1].token;
        match rule {
            Token::Prefix(id) => lemma_reduce_prefix(toks, rules, id, toks.len() - 1),
            _ => lemma_reduce_forward(toks, rules, rule, 0),
        }
        match reduce_rule(toks, rule) {
            Ok(next) => lemma_operators_kept(next, rules, k - 1),
            Err(_) => {},
        }
    }
}

/// The three roles an operator can play.
#[derive(Debug, Clone, Copy, PartialEq, Eq, Structural)]
pub enum Role {
    Prefix,
    Suffix,
    Inffix,
}

impl Token {
    /// The role of the rule.
    pub open spec fn role(self) -> Role {
        match self {
            Token::Prefix(_) => Role::Prefix,
            Token::Suffix(_) => Role::Suffix,
            Token::Inffix(_) => Role::Inffix,
        }
    }

    /// The role of the rule.
    pub fn kind(self) -> (r: Role)
        ensures
            r == self.role(),
    {
        match self {
            Token::Prefix(_) => Role::Prefix,
            Token::Suffix(_) => Role::Suffix,
            Token::Inffix(_) => Role::Inffix,
        }
    }
}

/// The operator of the rule `token` that was read over `span`, as an item
/// of a list of any primary type.
pub open spec fn operator_token<V>(token: Token, span: Span) -> ParsedToken<V> {
    match token {
        Token::Prefix(id) => ParsedToken::Preffix(id, span),
        Token::Suffix(id) => ParsedToken::Suffix(id, span),
        Token::Inffix(id) => ParsedToken::Inffix(id, span),
    }
}

/// The bytes of the literal of a rule.
pub open spec fn literal<N>(rule: Rule<N>) -> Seq<u8> {
    vstd::utf8::encode_utf8(rule.text@)
}

/// Whether the rule can match at `pos`: it has the role, its literal is not
/// empty and stands there.
pub open spec fn rule_matches<N>(rule: Rule<N>, role: Role, input: Seq<u8>, pos: int) -> bool {
    &&& rule.token.role() == role
    &&& rule.text@.len() > 0
    &&& bytes_at(input, pos, literal(rule))
}

/// The rule whose operator is read at `pos`: of the first `k`
/// rules with the role `role`, the last one whose literal stands there. This
/// is the one that binds tightest and, among equals, the one registered last.
/// A rule with an empty literal never matches.
pub open spec fn operator_at<N>(rules: Seq<Rule<N>>, role: Role, input: Seq<u8>, pos: int, k: int) -> Option<
    Rule<N>,
>
    decreases k,
{
    if k <= 0 || k > rules.len() {
        None
    } else if rule_matches(rules[k - 1], role, input, pos) {
        Some(rules[k - 1])
    } else {
        operator_at(rules, role, input, pos, k - 1)
    }
}

/// The run of operators of one role read from `pos` on, as a list whose
/// primaries are positions, and where the run ends.
pub open spec fn lex_operators<N>(rules: Seq<Rule<N>>, role: Role, input: Seq<u8>, pos: int) -> (
    Seq<ParsedToken<int>>,
    int,
)
    decreases input.len() - pos,
{
    match operator_at(rules, role, input, pos, rules.len() as int) {
        Some(rule) => {
            let n = literal(rule).len();
            if n == 0 || pos + n > input.len() {
                (Seq::empty(), pos)
            } else {
                let rest = lex_operators(rules, role, input, pos + n);
                (
                    seq![operator_token(rule.token, Span(pos as usize, (pos + n) as usize))]
                        + rest.0,
                    rest.1,
                )
            }
        },
        None => (Seq::empty(), pos),
    }
}

/// An operand with the operators around it, read from `pos`: a run of
/// prefix operators, a primary, a run of postfix operators. The primary
/// is recorded by the position at which it starts; `None` where `P` fails.
pub open spec fn lex_operand<N, P: Parse>(rules: Seq<Rule<N>>, input: Seq<u8>, pos: int) -> Option<
    (Seq<ParsedToken<int>>, int),
> {
    let pre = lex_operators(rules, Role::Prefix, input, pos);
    match P::end(input, pre.1) {
        Some(e) => {
            let post = lex_operators(rules, Role::Suffix, input, e);
            Some((pre.0.push(ParsedToken::Primary(pre.1)) + post.0, post.1))
        },
        None => None,
    }
}

/// What follows the first operand: as long as an infix operator is found,
/// that operator and the operand after it. Where an infix operator and the
/// prefix operators after it are not followed by a primary, they stay at
/// the end of the list and the reading stops there.
pub open spec fn lex_rest<N, P: Parse>(rules: Seq<Rule<N>>, input: Seq<u8>, pos: int) -> (
    Seq<ParsedToken<int>>,
    int,
)
    decreases input.len() - pos,
{
    match operator_at(rules, Role::Inffix, input, pos, rules.len() as int) {
        Some(rule) => {
            let n = literal(rule).len();
            let infix = operator_token::<int>(rule.token, Span(pos as usize, (pos + n) as usize));
            let pre = lex_operators(rules, Role::Prefix, input, pos + n);
            match P::end(input, pre.1) {
                Some(e) => {
                    let post = lex_operators(rules, Role::Suffix, input, e);
                    let group = seq![infix] + pre.0.push(ParsedToken::Primary(pre.1)) + post.0;
                    if post.1 <= pos || post.1 > input.len() {
                        (group, post.1)
                    } else {
                        let rest = lex_rest::<N, P>(rules, input, post.1);
                        (group + rest.0, rest.1)
                    }
                },
                None => (seq![infix] + pre.0, pre.1),
            }
        },
        None => (Seq::empty(), pos),
    }
}

/// The list that an expression at `pos` is cut into, and where it ends;
/// `None` where the first primary is missing.
pub open spec fn lex<N, P: Parse>(rules: Seq<Rule<N>>, input: Seq<u8>, pos: int) -> Option<
    (Seq<ParsedToken<int>>, int),
> {
    match lex_operand::<N, P>(rules, input, pos) {
        Some((first, p)) => {
            let rest = lex_rest::<N, P>(rules, input, p);
            Some((first + rest.0, rest.1))
        },
        None => None,
    }
}

/// Whether `tok` is the item that was read for `lexeme`: the same operator,
/// a primary with a value that `P` yields at the recorded position, or a
/// tree of the same shape whose parts were read for the parts of `lexeme`.
pub open spec fn lexed_as<P: Parse>(
    input: Seq<u8>,
    tok: ParsedToken<P::Output>,
    lexeme: ParsedToken<int>,
) -> bool
    decreases lexeme,
{
    match lexeme {
        ParsedToken::Primary(p) => tok matches ParsedToken::Primary(v) && P::yields(input, p, v),
        ParsedToken::Node { rule, left, right } => {
            &&& tok matches ParsedToken::Node { rule: r, left: a, right: b }
            &&& r == rule
            &&& match left {
                Some(l) => a matches Some(x) && lexed_as::<P>(input, *x, *l),
                None => a is None,
            }
            &&& match right {
                Some(l) => b matches Some(x) && lexed_as::<P>(input, *x, *l),
                None => b is None,
            }
        },
        _ => tok.operator() == lexeme.operator() && tok.operator() is Some,
    }
}

/// Whether `toks` holds, item by item, what was read for `lexemes`.
pub open spec fn all_lexed_as<P: Parse>(
    input: Seq<u8>,
    toks: Seq<ParsedToken<P::Output>>,
    lexemes: Seq<ParsedToken<int>>,
) -> bool {
    &&& toks.len() == lexemes.len()
    &&& forall|i: int| 0 <= i < toks.len() ==> lexed_as::<P>(input, #[trigger] toks[i], lexemes[i])
}

/// Whether `tok` can stand in a list fresh from reading: it is no tree,
/// and if it is an operator its span lies in the input.
pub open spec fn flat_item<V>(input: Seq<u8>, tok: ParsedToken<V>) -> bool {
    match tok {
        ParsedToken::Primary(_) => true,
        ParsedToken::Node { .. } => false,
        _ => span_in(input, tok.operator().unwrap().1),
    }
}

/// Whether `toks` is a list fresh from reading.
pub open spec fn flat<V>(input: Seq<u8>, toks: Seq<ParsedToken<V>>) -> bool {
    forall|i: int| 0 <= i < toks.len() ==> flat_item(input, #[trigger] toks[i])
}

/// A fresh list stays fresh when a fresh item is appended.
proof fn lemma_flat_push<V>(input: Seq<u8>, toks: Seq<ParsedToken<V>>, tok: ParsedToken<V>)
    requires
        flat(input, toks),
        flat_item(input, tok),
    ensures
        flat(input, toks.push(tok)),
{
    assert forall|i: int| 0 <= i < toks.push(tok).len() implies flat_item(
        input,
        #[trigger] toks.push(tok)[i],
    ) by {
        if i < toks.len() {
            assert(flat_item(input, toks[i]));
        }
    }
}

/// A literal that is not empty has bytes.
proof fn lemma_literal_len(text: Seq<char>)
    requires
        text.len() > 0,
    ensures
        vstd::utf8::encode_utf8(text).len() > 0,
{
    reveal_with_fuel(vstd::utf8::encode_utf8, 2);
}

impl<N: Clone, T: Parse> Pratt<N, T> {
    /// Reads one operator of the role `role` at the current position, trying
    /// the rules from the one that binds tightest down.
    fn operator<S: Source>(&self, src: &mut S, role: Role) -> (r: Option<ParsedToken<T::Output>>)
        requires
            old(src).inv(),
        ensures
            final(src).inv(),
            final(src).input() == old(src).input(),
            match operator_at(
                self.rules(),
                role,
                old(src).input(),
                old(src).position(),
                self.rules().len() as int,
            ) {
                Some(rule) => {
                    &&& literal(rule).len() > 0
                    &&& final(src).position() == old(src).position() + literal(rule).len()
                    &&& r == Some(
                        operator_token::<T::Output>(
                            rule.token,
                            Span(old(src).position() as usize, final(src).position() as usize),
                        ),
                    )
                },
                None => r is None && final(src).position() == old(src).position(),
            },
            r matches Some(tok) ==> tok.operator() matches Some((_, span)) && span_in(
                old(src).input(),
                span,
            ),
            is_position(old(src).input(), final(src).position()),
    {
        let start = src.current_position();
        let mut k = self.rules.len();
        while k > 0
            invariant
                k <= self.rules@.len(),
                src.inv(),
                src.input() == old(src).input(),
                src.position() == old(src).position(),
                start == src.position(),
                is_position(src.input(), start as int),
                operator_at(
                    self.rules@,
                    role,
                    src.input(),
                    src.position(),
                    self.rules@.len() as int,
                ) == operator_at(self.rules@, role, src.input(), src.position(), k as int),
            decreases k,
        {
            k = k - 1;
            let rule = &self.rules[k];
            if rule.token.kind() == role && !rule.text.as_str().is_empty() {
                if src.match_str(rule.text.as_str()) {
                    proof {
                        lemma_literal_len(rule.text@);
                    }
                    let span = Span::new(start, src.current_position());
                    return Some(
                        match rule.token {
                            Token::Prefix(id) => ParsedToken::Preffix(id, span),
                            Token::Suffix(id) => ParsedToken::Suffix(id, span),
                            Token::Inffix(id) => ParsedToken::Inffix(id, span),
                        },
                    );
                }
            }
        }
        None
    }

    /// Reads a run of operators of the role `role` and appends them to `tokens`.
    fn operators<S: Source>(&self, src: &mut S, role: Role, tokens: &mut Vec<ParsedToken<T::Output>>)
        requires
            old(src).inv(),
        ensures
            final(src).inv(),
            final(src).input() == old(src).input(),
            old(src).position() <= final(src).position(),
            final(src).position() == lex_operators(
                self.rules(),
                role,
                old(src).input(),
                old(src).position(),
            ).1,
            flat(old(src).input(), old(tokens)@) ==> flat(old(src).input(), final(tokens)@),
            is_position(old(src).input(), final(src).position()),
            forall|lexemes: Seq<ParsedToken<int>>| #[trigger]
                all_lexed_as::<T>(old(src).input(), old(tokens)@, lexemes) ==> all_lexed_as::<T>(
                    old(src).input(),
                    final(tokens)@,
                    lexemes + lex_operators(
                        self.rules(),
                        role,
                        old(src).input(),
                        old(src).position(),
                    ).0,
                ),
    {
        let ghost input = src.input();
        let ghost mut read: Seq<ParsedToken<int>> = Seq::empty();
        loop
            invariant
                src.inv(),
                src.input() == input,
                input == old(src).input(),
                old(src).position() <= src.position(),
                lex_operators(self.rules@, role, input, old(src).position()) == (
                    read + lex_operators(self.rules@, role, input, src.position()).0,
                    lex_operators(self.rules@, role, input, src.position()).1,
                ),
                tokens@.len() == old(tokens)@.len() + read.len(),
                forall|i: int| 0 <= i < old(tokens)@.len() ==> tokens@[i] == old(tokens)@[i],
                forall|i: int|
                    0 <= i < read.len() ==> lexed_as::<T>(
                        input,
                        #[trigger] tokens@[old(tokens)@.len() + i],
                        read[i],
                    ),
                flat(input, old(tokens)@) ==> flat(input, tokens@),
            ensures
                flat(input, old(tokens)@) ==> flat(input, tokens@),
                is_position(input, src.position()),
                src.inv(),
                src.input() == input,
                old(src).position() <= src.position(),
                lex_operators(self.rules@, role, input, old(src).position()) == (read, src.position()),
                tokens@.len() == old(tokens)@.len() + read.len(),
                forall|i: int| 0 <= i < old(tokens)@.len() ==> tokens@[i] == old(tokens)@[i],
                forall|i: int|
                    0 <= i < read.len() ==> lexed_as::<T>(
                        input,
                        #[trigger] tokens@[old(tokens)@.len() + i],
                        read[i],
                    ),
            decreases input.len() - src.position(),
        {
            let ghost pos = src.position();
            match self.operator(src, role) {
                Some(tok) => {
                    proof {
                        let rule = operator_at(
                            self.rules@,
                            role,
                            input,
                            pos,
                            self.rules@.len() as int,
                        ).unwrap();
                        let lexeme = operator_token::<int>(
                            rule.token,
                            Span(pos as usize, src.position() as usize),
                        );
                        let rest = lex_operators(self.rules@, role, input, src.position());
                        assert(read + (seq![lexeme] + rest.0) =~= read.push(lexeme) + rest.0);
                        assert(lexed_as::<T>(input, tok, lexeme));
                        read = read.push(lexeme);
                    }
                    let ghost earlier = tokens@;
                    tokens.push(tok);
                    proof {
                        if flat(input, old(tokens)@) {
                            assert forall|i: int| 0 <= i < tokens@.len() implies flat_item(
                                input,
                                #[trigger] tokens@[i],
                            ) by {
                                if i < earlier.len() {
                                    assert(flat_item(input, earlier[i]));
                                }
                            }
                        }
                    }
                },
                None => {
                    proof {
                        assert(read + Seq::<ParsedToken<int>>::empty() =~= read);
                    }
                    break ;
                },
            }
        }
        proof {
            assert forall|lexemes: Seq<ParsedToken<int>>| #[trigger]
                all_lexed_as::<T>(input, old(tokens)@, lexemes) implies all_lexed_as::<T>(
                input,
                tokens@,
                lexemes + read,
            ) by {
                assert forall|i: int| 0 <= i < tokens@.len() implies lexed_as::<T>(
                    input,
                    #[trigger] tokens@[i],
                    (lexemes + read)[i],
                ) by {
                    if i < old(tokens)@.len() {
                        assert(lexed_as::<T>(input, old(tokens)@[i], lexemes[i]));
                    } else {
                        assert(lexed_as::<T>(
                            input,
                            tokens@[old(tokens)@.len() + (i - old(tokens)@.len())],
                            read[i - old(tokens)@.len()],
                        ));
                    }
                }
            }
        }
    }
}

impl<N: Clone, T: Parse> Pratt<N, T> {
    /// Cuts the expression at the current position into a flat list.
    ///
    /// The list holds a run of prefix operators, a primary and a run of
    /// postfix operators, and then, as long as an infix operator follows,
    /// that operator and the same again. At each step the operators of the
    /// wanted role are tried from the rule that binds tightest down, and the
    /// first whose literal stands at the position is taken. Without a first
    /// primary this fails with the error of the primary parser and consumes
    /// nothing.
    pub fn parse_tokens<S: Source>(&self, src: &mut S) -> (r: Result<
        Vec<ParsedToken<T::Output>>,
        Error,
    >)
        requires
            old(src).inv(),
        ensures
            final(src).inv(),
            final(src).input() == old(src).input(),
            match r {
                Ok(toks) => old(src).position() <= final(src).position() && flat(
                    old(src).input(),
                    toks@,
                ),
                Err(e) => final(src).position() == old(src).position() && span_in(
                    old(src).input(),
                    e.span,
                ),
            },
            T::exact() ==> match lex::<N, T>(self.rules(), old(src).input(), old(src).position()) {
                Some((lexemes, end)) => {
                    &&& r matches Ok(toks)
                    &&& all_lexed_as::<T>(old(src).input(), toks@, lexemes)
                    &&& final(src).position() == end
                },
                None => r matches Err(e) && T::reports(
                    old(src).input(),
                    lex_operators(
                        self.rules(),
                        Role::Prefix,
                        old(src).input(),
                        old(src).position(),
                    ).1,
                    e,
                ),
            },
    {
        let ghost input = src.input();
        let ghost pos = src.position();
        let start = src.current_position();
        let mut tokens: Vec<ParsedToken<T::Output>> = Vec::new();
        assert(all_lexed_as::<T>(input, tokens@, Seq::empty()));
        assert(flat(input, tokens@));
        self.operators(src, Role::Prefix, &mut tokens);
        let ghost pre = lex_operators(self.rules@, Role::Prefix, input, pos);
        assert(Seq::<ParsedToken<int>>::empty() + pre.0 =~= pre.0);
        match T::parse(src) {
            Ok(v) => {
                proof {
                    if T::exact() {
                        lemma_lexed_push::<T>(
                            input,
                            tokens@,
                            pre.0,
                            ParsedToken::Primary(v),
                            ParsedToken::Primary(pre.1),
                        );
                    }
                }
                proof {
                    lemma_flat_push(input, tokens@, ParsedToken::Primary(v));
                }
                tokens.push(ParsedToken::Primary(v));
            },
            Err(e) => {
                src.set_position(start);
                return Err(e);
            },
        }
        let ghost mid = src.position();
        self.operators(src, Role::Suffix, &mut tokens);
        let ghost mut read: Seq<ParsedToken<int>> = Seq::empty();
        proof {
            if T::exact() {
                read = lex_operand::<N, T>(self.rules@, input, pos).unwrap().0;
            }
        }
        loop
            invariant_except_break
                T::exact() ==> {
                    &&& lex_operand::<N, T>(self.rules@, input, pos) is Some
                    &&& lex::<N, T>(self.rules@, input, pos) == Some(
                        (
                            read + lex_rest::<N, T>(self.rules@, input, src.position()).0,
                            lex_rest::<N, T>(self.rules@, input, src.position()).1,
                        ),
                    )
                    &&& all_lexed_as::<T>(input, tokens@, read)
                },
            invariant
                src.inv(),
                src.input() == input,
                input == old(src).input(),
                pos == old(src).position(),
                pos <= src.position(),
                flat(input, tokens@),
            ensures
                src.inv(),
                src.input() == input,
                pos <= src.position(),
                flat(input, tokens@),
                T::exact() ==> {
                    &&& lex::<N, T>(self.rules@, input, pos) == Some((read, src.position()))
                    &&& all_lexed_as::<T>(input, tokens@, read)
                },
            decreases input.len() - src.position(),
        {
            let ghost here = src.position();
            let ghost rest = lex_rest::<N, T>(self.rules@, input, here);
            let ghost before = tokens@;
            match self.operator(src, Role::Inffix) {
                Some(tok) => {
                    proof {
                        let rule = operator_at(
                            self.rules@,
                            Role::Inffix,
                            input,
                            here,
                            self.rules@.len() as int,
                        ).unwrap();
                        let lexeme = operator_token::<int>(
                            rule.token,
                            Span(here as usize, src.position() as usize),
                        );
                        if T::exact() {
                            lemma_lexed_push::<T>(input, tokens@, read, tok, lexeme);
                        }
                        read = read.push(lexeme);
                        lemma_flat_push(input, tokens@, tok);
                    }
                    tokens.push(tok);
                },
                None => {
                    proof {
                        assert(read + Seq::<ParsedToken<int>>::empty() =~= read);
                    }
                    break ;
                },
            }
            let ghost after_infix = src.position();
            let ghost read_infix = read;
            self.operators(src, Role::Prefix, &mut tokens);
            let ghost pre = lex_operators(self.rules@, Role::Prefix, input, after_infix);
            proof {
                read = read + pre.0;
            }
            match T::parse(src) {
                Ok(v) => {
                    proof {
                        if T::exact() {
                            lemma_lexed_push::<T>(
                                input,
                                tokens@,
                                read,
                                ParsedToken::Primary(v),
                                ParsedToken::Primary(pre.1),
                            );
                        }
                        read = read.push(ParsedToken::Primary(pre.1));
                        lemma_flat_push(input, tokens@, ParsedToken::Primary(v));
                    }
                    tokens.push(ParsedToken::Primary(v));
                },
                Err(_) => {
                    proof {
                        if T::exact() {
                            assert(rest.0 =~= seq![read_infix.last()] + pre.0);
                            assert(read_infix.drop_last() + rest.0 =~= read);
                        }
                    }
                    break ;
                },
            }
            let ghost after_primary = src.position();
            let ghost read_primary = read;
            self.operators(src, Role::Suffix, &mut tokens);
            proof {
                let post = lex_operators(self.rules@, Role::Suffix, input, after_primary);
                read = read + post.0;
                if T::exact() {
                    let group = seq![read_infix.last()] + pre.0.push(ParsedToken::Primary(pre.1))
                        + post.0;
                    let next = lex_rest::<N, T>(self.rules@, input, src.position());
                    assert(rest.0 =~= group + next.0);
                    assert(read =~= read_infix.drop_last() + group);
                    assert(read_infix.drop_last() + rest.0 =~= read + next.0);
                }
            }
        }
        Ok(tokens)
    }
}

/// A list that was read for `lexemes` and one more item read for one more
/// lexeme make a list read for the longer list of lexemes.
proof fn lemma_lexed_push<P: Parse>(
    input: Seq<u8>,
    toks: Seq<ParsedToken<P::Output>>,
    lexemes: Seq<ParsedToken<int>>,
    tok: ParsedToken<P::Output>,
    lexeme: ParsedToken<int>,
)
    requires
        all_lexed_as::<P>(input, toks, lexemes),
        lexed_as::<P>(input, tok, lexeme),
    ensures
        all_lexed_as::<P>(input, toks.push(tok), lexemes.push(lexeme)),
{
    assert forall|i: int| 0 <= i < toks.push(tok).len() implies lexed_as::<P>(
        input,
        #[trigger] toks.push(tok)[i],
        lexemes.push(lexeme)[i],
    ) by {
        if i < toks.len() {
            assert(lexed_as::<P>(input, toks[i], lexemes[i]));
        }
    }
}

/// Whether `node` is the expression that the tree of lexemes `tree` stands
/// for: at each primary a value that `P` yields at the recorded position, at
/// each operator a clone of the name of the first rule with its role and id.
pub open spec fn expression<N: Clone, P: Parse>(
    input: Seq<u8>,
    tree: ParsedToken<int>,
    rules: Seq<Rule<N>>,
    node: Node<N, P::Output>,
) -> bool
    decreases tree,
{
    match tree {
        ParsedToken::Primary(p) => node matches Node::Primary(v) && P::yields(input, p, v),
        ParsedToken::Node { rule, left, right } => {
            &&& node matches Node::Expr { rule: name, left: l, right: r }
            &&& exists|k: int| first_rule(rules, rule, k) && cloned(#[trigger] rules[k].name, name)
            &&& match left {
                Some(a) => l matches Some(b) && expression::<N, P>(input, *a, rules, *b),
                None => l is None,
            }
            &&& match right {
                Some(a) => r matches Some(b) && expression::<N, P>(input, *a, rules, *b),
                None => r is None,
            }
        },
        _ => false,
    }
}

/// The tree of names made from a tree that was read for a tree of lexemes
/// is the expression that the lexemes stand for.
proof fn lemma_expression<N: Clone, P: Parse>(
    input: Seq<u8>,
    tok: ParsedToken<P::Output>,
    tree: ParsedToken<int>,
    rules: Seq<Rule<N>>,
    node: Node<N, P::Output>,
)
    requires
        lexed_as::<P>(input, tok, tree),
        node_of(tok, rules, node),
    ensures
        expression::<N, P>(input, tree, rules, node),
    decreases tree,
{
    match tree {
        ParsedToken::Node { rule, left, right } => {
            match left {
                Some(a) => {
                    lemma_lexed_operand::<P>(input, *tok->left.unwrap(), *a);
                    lemma_expression::<N, P>(input, *tok->left.unwrap(), *a, rules, *node->left.unwrap());
                },
                None => {},
            }
            match right {
                Some(a) => {
                    lemma_lexed_operand::<P>(input, *tok->right.unwrap(), *a);
                    lemma_expression::<N, P>(input, *tok->right.unwrap(), *a, rules, *node->right.unwrap());
                },
                None => {},
            }
        },
        _ => {},
    }
}

/// An item and the lexeme it was read for are operands or operators alike.
proof fn lemma_lexed_operand<P: Parse>(
    input: Seq<u8>,
    tok: ParsedToken<P::Output>,
    tree: ParsedToken<int>,
)
    requires
        lexed_as::<P>(input, tok, tree),
    ensures
        tok.is_operand() == tree.is_operand(),
        tok.operator() == tree.operator(),
{
}

/// Replacing matching stretches of a list and of its lexemes by matching
/// trees gives a list and its lexemes again.
proof fn lemma_lexed_splice<P: Parse>(
    input: Seq<u8>,
    toks: Seq<ParsedToken<P::Output>>,
    lexemes: Seq<ParsedToken<int>>,
    a: int,
    b: int,
    node: ParsedToken<P::Output>,
    tree: ParsedToken<int>,
)
    requires
        all_lexed_as::<P>(input, toks, lexemes),
        0 <= a < b <= toks.len(),
        lexed_as::<P>(input, node, tree),
    ensures
        all_lexed_as::<P>(input, splice(toks, a, b, node), splice(lexemes, a, b, tree)),
{
    let x = splice(toks, a, b, node);
    let y = splice(lexemes, a, b, tree);
    assert forall|i: int| 0 <= i < x.len() implies lexed_as::<P>(input, #[trigger] x[i], y[i]) by {
        if i < a {
            assert(lexed_as::<P>(input, toks[i], lexemes[i]));
        } else if i > a {
            assert(lexed_as::<P>(input, toks[i + (b - a) - 1], lexemes[i + (b - a) - 1]));
        }
    }
}

/// Whether two reductions came out alike: both stopped at the same span, or
/// one gave the list that was read for the lexemes the other gave.
pub open spec fn reduced_alike<P: Parse>(
    input: Seq<u8>,
    toks: Result<Seq<ParsedToken<P::Output>>, Span>,
    lexemes: Result<Seq<ParsedToken<int>>, Span>,
) -> bool {
    match lexemes {
        Ok(y) => toks matches Ok(x) && all_lexed_as::<P>(input, x, y),
        Err(span) => toks == Err::<Seq<ParsedToken<P::Output>>, Span>(span),
    }
}

/// Reducing prefix operators goes the same way over a list and its lexemes.
proof fn lemma_lexed_prefix<P: Parse>(
    input: Seq<u8>,
    toks: Seq<ParsedToken<P::Output>>,
    lexemes: Seq<ParsedToken<int>>,
    id: usize,
    i: int,
)
    requires
        all_lexed_as::<P>(input, toks, lexemes),
    ensures
        reduced_alike::<P>(input, reduce_prefix(toks, id, i), reduce_prefix(lexemes, id, i)),
    decreases i + 1,
{
    if i < 0 || i >= toks.len() {
    } else {
        lemma_lexed_operand::<P>(input, toks[i], lexemes[i]);
        if toks[i] matches ParsedToken::Preffix(k, span) && k == id {
            if i + 1 < toks.len() {
                lemma_lexed_operand::<P>(input, toks[i + 1], lexemes[i + 1]);
            }
            if i + 1 < toks.len() && toks[i + 1].is_operand() {
                let node = prefix_node(id, toks[i + 1]);
                let tree = prefix_node(id, lexemes[i + 1]);
                lemma_lexed_splice::<P>(input, toks, lexemes, i, i + 2, node, tree);
                lemma_lexed_prefix::<P>(
                    input,
                    splice(toks, i, i + 2, node),
                    splice(lexemes, i, i + 2, tree),
                    id,
                    i - 1,
                );
            }
        } else {
            lemma_lexed_prefix::<P>(input, toks, lexemes, id, i - 1);
        }
    }
}

/// Reducing infix and postfix operators goes the same way over a list and
/// its lexemes.
proof fn lemma_lexed_forward<P: Parse>(
    input: Seq<u8>,
    toks: Seq<ParsedToken<P::Output>>,
    lexemes: Seq<ParsedToken<int>>,
    rule: Token,
    i: int,
)
    requires
        all_lexed_as::<P>(input, toks, lexemes),
    ensures
        reduced_alike::<P>(input, reduce_forward(toks, rule, i), reduce_forward(lexemes, rule, i)),
    decreases toks.len() - i,
{
    if i < 0 || i >= toks.len() {
    } else {
        lemma_lexed_operand::<P>(input, toks[i], lexemes[i]);
        if i >= 1 {
            lemma_lexed_operand::<P>(input, toks[i - 1], lexemes[i - 1]);
        }
        if i + 1 < toks.len() {
            lemma_lexed_operand::<P>(input, toks[i + 1], lexemes[i + 1]);
        }
        match toks[i] {
            ParsedToken::Inffix(k, span) if rule == Token::Inffix(k) => {
                if 1 <= i && toks[i - 1].is_operand() && i + 1 < toks.len() && toks[i
                    + 1].is_operand() {
                    let node = infix_node(k, toks[i - 1], toks[i + 1]);
                    let tree = infix_node(k, lexemes[i - 1], lexemes[i + 1]);
                    lemma_lexed_splice::<P>(input, toks, lexemes, i - 1, i + 2, node, tree);
                    lemma_lexed_forward::<P>(
                        input,
                        splice(toks, i - 1, i + 2, node),
                        splice(lexemes, i - 1, i + 2, tree),
                        rule,
                        i,
                    );
                }
            },
            ParsedToken::Suffix(k, span) if rule == Token::Suffix(k) => {
                if 1 <= i && toks[i - 1].is_operand() {
                    let node = suffix_node(k, toks[i - 1]);
                    let tree = suffix_node(k, lexemes[i - 1]);
                    lemma_lexed_splice::<P>(input, toks, lexemes, i - 1, i + 1, node, tree);
                    lemma_lexed_forward::<P>(
                        input,
                        splice(toks, i - 1, i + 1, node),
                        splice(lexemes, i - 1, i + 1, tree),
                        rule,
                        i,
                    );
                }
            },
            _ => {
                lemma_lexed_forward::<P>(input, toks, lexemes, rule, i + 1);
            },
        }
    }
}

/// Reducing by rules goes the same way over a list and its lexemes.
proof fn lemma_lexed_rules<N, P: Parse>(
    input: Seq<u8>,
    toks: Seq<ParsedToken<P::Output>>,
    lexemes: Seq<ParsedToken<int>>,
    rules: Seq<Rule<N>>,
    k: int,
)
    requires
        all_lexed_as::<P>(input, toks, lexemes),
    ensures
        reduced_alike::<P>(input, reduce_rules(toks, rules, k), reduce_rules(lexemes, rules, k)),
    decreases k,
{
    if k <= 0 || k > rules.len() {
    } else {
        let rule = rules[k - 1].token;
        match rule {
            Token::Prefix(id) => lemma_lexed_prefix::<P>(input, toks, lexemes, id, toks.len() - 1),
            _ => lemma_lexed_forward::<P>(input, toks, lexemes, rule, 0),
        }
        match reduce_rule(lexemes, rule) {
            Ok(y) => {
                lemma_lexed_rules::<N, P>(input, reduce_rule(toks, rule)->Ok_0, y, rules, k - 1);
            },
            Err(_) => {},
        }
    }
}

/// The first operator left over is the same in a list and in its lexemes.
proof fn lemma_lexed_leftover<P: Parse>(
    input: Seq<u8>,
    toks: Seq<ParsedToken<P::Output>>,
    lexemes: Seq<ParsedToken<int>>,
    i: int,
)
    requires
        all_lexed_as::<P>(input, toks, lexemes),
    ensures
        leftover(toks, i) == leftover(lexemes, i),
    decreases toks.len() - i,
{
    if 0 <= i < toks.len() {
        lemma_lexed_operand::<P>(input, toks[i], lexemes[i]);
        if toks[i].operator() is None {
            lemma_lexed_leftover::<P>(input, toks, lexemes, i + 1);
        }
    }
}

/// A list reduces as its lexemes do: to a tree that was read for the tree
/// of the lexemes, or to the same span.
pub proof fn lemma_reduce_lexed<N, P: Parse>(
    input: Seq<u8>,
    toks: Seq<ParsedToken<P::Output>>,
    lexemes: Seq<ParsedToken<int>>,
    rules: Seq<Rule<N>>,
)
    requires
        all_lexed_as::<P>(input, toks, lexemes),
    ensures
        match reduce(lexemes, rules) {
            Ok(tree) => reduce(toks, rules) matches Ok(tok) && lexed_as::<P>(input, tok, tree)
                && tree.is_operand(),
            Err(span) => reduce(toks, rules) == Err::<ParsedToken<P::Output>, Span>(span),
        },
{
    lemma_lexed_rules::<N, P>(input, toks, lexemes, rules, rules.len() as int);
    match reduce_rules(lexemes, rules, rules.len() as int) {
        Ok(y) => {
            let x = reduce_rules(toks, rules, rules.len() as int)->Ok_0;
            lemma_lexed_leftover::<P>(input, x, y, 0);
            if y.len() > 0 {
                lemma_lexed_operand::<P>(input, x[0], y[0]);
            }
        },
        Err(_) => {},
    }
}

impl<N: Clone, T: Parse> Pratt<N, T> {
    /// Parses an expression at the current position of `src`.
    ///
    /// The expression is cut into a flat list and the list is reduced rule
    /// by rule. A missing first primary is reported by the primary parser. An
    /// operator that finds no valid neighbour when its rule is applied is
    /// reported as "unexpected token" at the operator's span. Whenever this
    /// fails, the source is left where it was.
    pub fn parse<S: Source>(&self, src: &mut S) -> (r: Result<Node<N, T::Output>, Error>)
        requires
            old(src).inv(),
        ensures
            final(src).inv(),
            final(src).input() == old(src).input(),
            match r {
                Ok(_) => old(src).position() <= final(src).position(),
                Err(e) => final(src).position() == old(src).position() && span_in(
                    old(src).input(),
                    e.span,
                ),
            },
            T::exact() ==> match lex::<N, T>(self.rules(), old(src).input(), old(src).position()) {
                Some((lexemes, end)) => match reduce(lexemes, self.rules()) {
                    Ok(tree) => {
                        &&& r matches Ok(node)
                        &&& expression::<N, T>(old(src).input(), tree, self.rules(), node)
                        &&& final(src).position() == end
                    },
                    Err(span) => r matches Err(e) && unexpected(e, span),
                },
                None => r matches Err(e) && T::reports(
                    old(src).input(),
                    lex_operators(
                        self.rules(),
                        Role::Prefix,
                        old(src).input(),
                        old(src).position(),
                    ).1,
                    e,
                ),
            },
    {
        let ghost input = src.input();
        let start = src.current_position();
        let tokens = match self.parse_tokens(src) {
            Ok(tokens) => tokens,
            Err(e) => {
                return Err(e);
            },
        };
        proof {
            lemma_reduction_total(tokens@, self.rules@);
            if T::exact() {
                let lexemes = lex::<N, T>(self.rules@, input, start as int).unwrap().0;
                lemma_reduce_lexed::<N, T>(input, tokens@, lexemes, self.rules@);
            }
            assert(operands_are_trees(tokens@, self.rules@)) by {
                assert forall|i: int|
                    0 <= i < tokens@.len() && (#[trigger] tokens@[i]).is_operand() implies is_tree(
                    tokens@[i],
                    self.rules@,
                ) by {
                    assert(flat_item(input, tokens@[i]));
                }
            }
        }
        match self.process_parsed_tokens(tokens) {
            Ok(tree) => {
                let node = self.parsed_token_to_node(tree);
                proof {
                    if T::exact() {
                        let lexemes = lex::<N, T>(self.rules@, input, start as int).unwrap().0;
                        lemma_expression::<N, T>(
                            input,
                            tree,
                            reduce(lexemes, self.rules@)->Ok_0,
                            self.rules@,
                            node,
                        );
                    }
                }
                Ok(node)
            },
            Err(e) => {
                proof {
                    if has_span(tokens@, e.span) {
                        let i = choose|i: int|
                            0 <= i < tokens@.len() && (#[trigger] tokens@[i]).operator() is Some
                                && tokens@[i].operator().unwrap().1 == e.span;
                        assert(flat_item(input, tokens@[i]));
                    } else {
                        crate::utf8::lemma_start_is_position(input);
                    }
                }
                src.set_position(start);
                Err(e)
            },
        }
    }
}

} // verus!
