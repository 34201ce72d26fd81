//! The syntax tree of the grammar language.

use vstd::prelude::*;

verus! {

/// An ordered choice between alternatives, after a list of terms that all
/// of them begin with.
#[derive(Debug, Default, PartialEq, Eq)]
pub struct Alternatives {
    /// The terms that are matched once, before the choice.
    pub preparse: Vec<SpecialTerm>,
    /// The alternatives, tried in order.
    pub alternatives: Vec<Alternative>,
}

/// A sequence of terms.
#[derive(Debug, Default, PartialEq, Eq)]
pub struct Alternative {
    pub terms: Vec<SpecialTerm>,
}

/// A term with its quantifier, and what is done with its match.
#[derive(Debug, PartialEq, Eq)]
pub enum SpecialTerm {
    /// `$name: term`: the match is bound to a field.
    Binding(String, Term, Quantifier),
    /// `!term`: succeeds where the term fails, and consumes nothing.
    NegativeLookahead(Term, Quantifier),
    /// `_term`: the match is discarded.
    Quiet(Term, Quantifier),
    /// A plain term.
    Term(Term, Quantifier),
}

/// What can be matched.
#[derive(Debug, PartialEq, Eq)]
pub enum Term {
    /// A string literal: its bytes, exactly.
    String(String),
    /// A character literal.
    Character(char),
    /// A reference to a rule by its name.
    Rule(String),
    /// A character class: inclusive ranges or single characters, negated
    /// where `negative` is set.
    CharacterClass { negative: Option<char>, ranges: Vec<(char, Option<char>)> },
    /// A group in parentheses.
    Group(Alternatives),
}

/// How often a term is matched.
#[derive(Debug, PartialEq, Eq)]
pub enum Quantifier {
    /// `?`: once or not at all.
    Optional,
    /// `+`: once or more.
    RepeatAtleastOnce,
    /// `**sep`: once or more, with `sep` between the matches.
    RepeatSeperate { seperator: Box<Term> },
    /// `*`: any number of times.
    RepeatUnlimited,
    /// `{min}`: at least `min` times.
    RepeatMin { min: usize },
    /// `{min,max}`: from `min` to `max` times.
    Repeat { min: usize, max: usize },
    /// Exactly once.
    Once,
}

impl Default for SpecialTerm {
    fn default() -> (t: Self)
        ensures
            t@ == SpecialView::Plain(TermView::Text(Seq::empty()), QuantifierView::Once),
    {
        SpecialTerm::Term(Term::String(String::new()), Quantifier::Once)
    }
}

impl Default for Term {
    fn default() -> (t: Self)
        ensures
            t@ == TermView::Text(Seq::empty()),
    {
        Term::String(String::new())
    }
}

impl Default for Quantifier {
    fn default() -> (q: Self)
        ensures
            q@ == QuantifierView::Once,
    {
        Quantifier::Once
    }
}

/// What a term is: the model of `Term`.
pub enum TermView {
    /// A string literal, by its characters.
    Text(Seq<char>),
    /// A character literal.
    Character(char),
    /// A reference to a rule, by the characters of its name.
    Rule(Seq<char>),
    /// A character class.
    Class { negative: bool, ranges: Seq<(char, Option<char>)> },
    /// A group.
    Group(AlternativesView),
}

/// What a quantifier is: the model of `Quantifier`.
pub enum QuantifierView {
    Optional,
    AtLeastOnce,
    Separated(Box<TermView>),
    Unlimited,
    Min(usize),
    Range(usize, usize),
    Once,
}

/// What a special term is: the model of `SpecialTerm`.
pub enum SpecialView {
    Binding(Seq<char>, TermView, QuantifierView),
    Lookahead(TermView, QuantifierView),
    Quiet(TermView, QuantifierView),
    Plain(TermView, QuantifierView),
}

/// What a choice is: the model of `Alternatives`. An alternative is the
/// sequence of its terms.
pub struct AlternativesView {
    pub preparse: Seq<SpecialView>,
    pub alternatives: Seq<Seq<SpecialView>>,
}

/// The model of a term.
pub open spec fn term_view(t: Term) -> TermView
    decreases t,
{
    match t {
        Term::String(s) => TermView::Text(s@),
        Term::Character(c) => TermView::Character(c),
        Term::Rule(s) => TermView::Rule(s@),
        Term::CharacterClass { negative, ranges } => TermView::Class {
            negative: negative is Some,
            ranges: ranges@,
        },
        Term::Group(a) => TermView::Group(alternatives_view(a)),
    }
}

/// The model of a quantifier.
pub open spec fn quantifier_view(q: Quantifier) -> QuantifierView
    decreases q,
{
    match q {
        Quantifier::Optional => QuantifierView::Optional,
        Quantifier::RepeatAtleastOnce => QuantifierView::AtLeastOnce,
        Quantifier::RepeatSeperate { seperator } => QuantifierView::Separated(
            Box::new(term_view(*seperator)),
        ),
        Quantifier::RepeatUnlimited => QuantifierView::Unlimited,
        Quantifier::RepeatMin { min } => QuantifierView::Min(min),
        Quantifier::Repeat { min, max } => QuantifierView::Range(min, max),
        Quantifier::Once => QuantifierView::Once,
    }
}

/// The model of a special term.
pub open spec fn special_view(t: SpecialTerm) -> SpecialView
    decreases t,
{
    match t {
        SpecialTerm::Binding(n, t, q) => SpecialView::Binding(n@, term_view(t), quantifier_view(q)),
        SpecialTerm::NegativeLookahead(t, q) => SpecialView::Lookahead(
            term_view(t),
            quantifier_view(q),
        ),
        SpecialTerm::Quiet(t, q) => SpecialView::Quiet(term_view(t), quantifier_view(q)),
        SpecialTerm::Term(t, q) => SpecialView::Plain(term_view(t), quantifier_view(q)),
    }
}

/// The models of a sequence of terms.
pub open spec fn terms_view(terms: Seq<SpecialTerm>) -> Seq<SpecialView>
    decreases terms,
{
    Seq::new(
        terms.len(),
        |i: int|
            if 0 <= i < terms.len() {
                special_view(terms[i])
            } else {
                arbitrary()
            },
    )
}

/// The models of a list of alternatives.
pub open spec fn choice_view(alts: Seq<Alternative>) -> Seq<Seq<SpecialView>>
    decreases alts,
{
    Seq::new(
        alts.len(),
        |i: int|
            if 0 <= i < alts.len() {
                terms_view(alts[i].terms@)
            } else {
                arbitrary()
            },
    )
}

/// The model of a choice.
pub open spec fn alternatives_view(a: Alternatives) -> AlternativesView
    decreases a,
{
    AlternativesView { preparse: terms_view(a.preparse@), alternatives: choice_view(a.alternatives@) }
}

impl View for Term {
    type V = TermView;

    open spec fn view(&self) -> TermView {
        term_view(*self)
    }
}

impl View for Quantifier {
    type V = QuantifierView;

    open spec fn view(&self) -> QuantifierView {
        quantifier_view(*self)
    }
}

impl View for SpecialTerm {
    type V = SpecialView;

    open spec fn view(&self) -> SpecialView {
        special_view(*self)
    }
}

impl View for Alternative {
    type V = Seq<SpecialView>;

    open spec fn view(&self) -> Seq<SpecialView> {
        terms_view(self.terms@)
    }
}

impl View for Alternatives {
    type V = AlternativesView;

    open spec fn view(&self) -> AlternativesView {
        alternatives_view(*self)
    }
}

impl Term {
    /// The term that matches the character `c`.
    pub fn character(c: char) -> (t: Term)
        ensures
            t@ == TermView::Character(c),
    {
        Term::Character(c)
    }

    /// The term that matches one character in `ranges`, or one in none of
    /// them where `negative` is set.
    pub fn class(negative: bool, ranges: Vec<(char, Option<char>)>) -> (t: Term)
        ensures
            t@ == (TermView::Class { negative, ranges: ranges@ }),
    {
        Term::CharacterClass {
            negative: if negative {
                Some('^')
            } else {
                None
            },
            ranges,
        }
    }
}

} // verus!
