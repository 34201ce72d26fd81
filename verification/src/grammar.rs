//! The grammar language as tokens: the compiler that turns the token trees
//! of a grammar into its syntax tree.
//!
//! A grammar is a list of alternatives separated by `|`. Each alternative is
//! a sequence of terms. A term is a literal, the name of a rule with its
//! type arguments, a class in brackets or a group in parentheses. `$name:`
//! in front of a term binds it, `!` looks ahead for its absence and `_`
//! discards what it yields. Behind a term may stand `?`, `+`, `*`, bounds
//! in braces, or `**` and the term that separates the repetitions.
//!
//! What a literal stands for is asked of `syn`, once and before anything is
//! compiled: a parser learns of the literals among the tokens and keeps what
//! `syn` answered. What it then compiles is a function of the tokens and of
//! what it knows. A literal of which it knows nothing is refused.

use vstd::prelude::*;
use vstd::string::*;
use vstd::utf8::encode_utf8;
use crate::ast::{
    Alternative, Alternatives, AlternativesView, Quantifier, QuantifierView, SpecialTerm,
    SpecialView, Term, TermView,
};
use crate::error::{Error, Fault, Span};
use crate::integer::{literal, Literal};
use crate::literal::{lit_char_value, lit_str_value, unquote, unquote_char};
use crate::parse::Parse;
use crate::source::{Source, StrSource};

verus! {

/// How a group of tokens is enclosed.
#[derive(Debug, Clone, Copy, PartialEq, Eq, Structural)]
pub enum Delimiter {
    /// `( ... )`
    Parenthesis,
    /// `{ ... }`
    Brace,
    /// `[ ... ]`
    Bracket,
    /// Nothing that is written: a group that only holds tokens together.
    Bare,
}

/// A token or a group of tokens, with the stretch of text it was read from.
#[derive(Debug, PartialEq, Eq)]
pub enum TokenTree {
    /// Tokens between delimiters.
    Group { delimiter: Delimiter, stream: Vec<TokenTree>, span: Span },
    /// A word.
    Ident { name: String, span: Span },
    /// A single character of punctuation.
    Punct { ch: char, span: Span },
    /// A literal, as it was written.
    Literal { text: String, span: Span },
}

/// What a token tree is: the model of `TokenTree`.
pub enum TokenView {
    Group { delimiter: Delimiter, stream: Seq<TokenView>, span: Span },
    Ident { name: Seq<char>, span: Span },
    Punct { ch: char, span: Span },
    Literal { text: Seq<char>, span: Span },
}

/// The model of a token tree.
pub open spec fn token_view(t: TokenTree) -> TokenView
    decreases t,
{
    match t {
        TokenTree::Group { delimiter, stream, span } => TokenView::Group {
            delimiter,
            stream: tokens_view(stream@),
            span,
        },
        TokenTree::Ident { name, span } => TokenView::Ident { name: name@, span },
        TokenTree::Punct { ch, span } => TokenView::Punct { ch, span },
        TokenTree::Literal { text, span } => TokenView::Literal { text: text@, span },
    }
}

/// The models of a list of token trees.
pub open spec fn tokens_view(ts: Seq<TokenTree>) -> Seq<TokenView>
    decreases ts,
{
    Seq::new(
        ts.len(),
        |i: int|
            if 0 <= i < ts.len() {
                token_view(ts[i])
            } else {
                arbitrary()
            },
    )
}

impl View for TokenTree {
    type V = TokenView;

    open spec fn view(&self) -> TokenView {
        token_view(*self)
    }
}

impl TokenView {
    /// The stretch of text that the token was read from.
    pub open spec fn span(self) -> Span {
        match self {
            TokenView::Group { span, .. } => span,
            TokenView::Ident { span, .. } => span,
            TokenView::Punct { span, .. } => span,
            TokenView::Literal { span, .. } => span,
        }
    }

    /// Whether the token is the punctuation `c`.
    pub open spec fn is_punct(self, c: char) -> bool {
        self matches TokenView::Punct { ch, .. } && ch == c
    }
}

impl TokenTree {
    /// The stretch of text that the token was read from.
    pub fn span(&self) -> (s: Span)
        ensures
            s == self@.span(),
    {
        match self {
            TokenTree::Group { span, .. } => *span,
            TokenTree::Ident { span, .. } => *span,
            TokenTree::Punct { span, .. } => *span,
            TokenTree::Literal { span, .. } => *span,
        }
    }

    /// Whether the token is the punctuation `c`.
    pub fn is_punct(&self, c: char) -> (b: bool)
        ensures
            b == self@.is_punct(c),
    {
        match self {
            TokenTree::Punct { ch, .. } => *ch == c,
            _ => false,
        }
    }
}

/// Whether the error `e` reports the fault `f`.
pub open spec fn reports(e: Error, f: Fault) -> bool {
    e@ == f
}

/// What is known of the literals of a grammar: texts of string literals
/// with what they stand for, and texts of character literals with the
/// characters they stand for.
pub struct Known {
    pub strings: Seq<(String, String)>,
    pub chars: Seq<(String, char)>,
}

impl Known {
    /// Whether all that is known is true: each text is a literal that
    /// stands for what is held with it.
    pub open spec fn sound(self) -> bool {
        &&& forall|i: int|
            0 <= i < self.strings.len() ==> lit_str_value((#[trigger] self.strings[i]).0@)
                == Some(self.strings[i].1@)
        &&& forall|i: int|
            0 <= i < self.chars.len() ==> lit_char_value((#[trigger] self.chars[i]).0@) == Some(
                self.chars[i].1,
            )
    }

    /// Whether this holds all that `before` held, in the same place, and
    /// whatever it holds beyond that is about literals among the tokens.
    pub open spec fn learned(self, before: Known, tokens: Seq<TokenView>) -> bool {
        &&& from_tokens(self.strings, before.strings, tokens, tokens.len() as int)
        &&& from_tokens(self.chars, before.chars, tokens, tokens.len() as int)
    }
}

/// What string literals stand for, as far as it is known: texts of
/// literals with their values. The first entry for a text counts.
pub open spec fn string_of(known: Seq<(String, String)>, text: Seq<char>, i: int) -> Option<
    Seq<char>,
>
    decreases known.len() - i,
{
    if i < 0 || i >= known.len() {
        None
    } else if encode_utf8(known[i].0@) == encode_utf8(text) {
        Some(known[i].1@)
    } else {
        string_of(known, text, i + 1)
    }
}

/// What character literals stand for, as far as it is known: texts of
/// literals with their characters. The first entry for a text counts.
pub open spec fn char_of(known: Seq<(String, char)>, text: Seq<char>, i: int) -> Option<char>
    decreases known.len() - i,
{
    if i < 0 || i >= known.len() {
        None
    } else if encode_utf8(known[i].0@) == encode_utf8(text) {
        Some(known[i].1)
    } else {
        char_of(known, text, i + 1)
    }
}

/// Whether the text is that of a literal among the first `n` tokens, at any
/// depth.
pub open spec fn literal_among(tokens: Seq<TokenView>, n: int, text: Seq<char>) -> bool
    decreases tokens, n,
{
    if n <= 0 || n > tokens.len() {
        false
    } else {
        literal_among(tokens, n - 1, text) || literal_in(tokens[n - 1], text)
    }
}

/// Whether the text is that of the token, if it is a literal, or of a
/// literal inside it, if it is a group.
pub open spec fn literal_in(t: TokenView, text: Seq<char>) -> bool
    decreases t,
{
    match t {
        TokenView::Literal { text: own, .. } => own == text,
        TokenView::Group { stream, .. } => literal_among(stream, stream.len() as int, text),
        _ => false,
    }
}

/// Whether the list holds all that `before` held, in the same place, and
/// every entry beyond that is about a literal among the first `n` tokens.
pub open spec fn from_tokens<V>(
    now: Seq<(String, V)>,
    before: Seq<(String, V)>,
    tokens: Seq<TokenView>,
    n: int,
) -> bool {
    &&& before.len() <= now.len()
    &&& forall|j: int|
        0 <= j < now.len() ==> if j < before.len() {
            (#[trigger] now[j]) == before[j]
        } else {
            literal_among(tokens, n, now[j].0@)
        }
}

/// What is about literals among the first tokens is about literals among
/// more of them.
pub proof fn lemma_from_more<V>(
    now: Seq<(String, V)>,
    before: Seq<(String, V)>,
    tokens: Seq<TokenView>,
    n: int,
    m: int,
)
    requires
        0 <= n <= m <= tokens.len(),
        from_tokens(now, before, tokens, n),
    ensures
        from_tokens(now, before, tokens, m),
{
    assert forall|j: int| before.len() <= j < now.len() implies literal_among(
        tokens,
        m,
        (#[trigger] now[j]).0@,
    ) by {
        lemma_literal_among(tokens, n, m, now[j].0@);
    }
}

/// What was learned inside the group that is the `i`-th token was learned
/// from the first `i + 1` tokens.
pub proof fn lemma_from_group<V>(
    now: Seq<(String, V)>,
    mid: Seq<(String, V)>,
    before: Seq<(String, V)>,
    tokens: Seq<TokenView>,
    i: int,
)
    requires
        0 <= i < tokens.len(),
        tokens[i] is Group,
        from_tokens(mid, before, tokens, i),
        from_tokens(now, mid, tokens[i]->Group_stream, tokens[i]->Group_stream.len() as int),
    ensures
        from_tokens(now, before, tokens, i + 1),
{
    assert forall|j: int| 0 <= j < now.len() implies if j < before.len() {
        (#[trigger] now[j]) == before[j]
    } else {
        literal_among(tokens, i + 1, now[j].0@)
    } by {
        if j < mid.len() {
            assert(now[j] == mid[j]);
            if j >= before.len() {
                assert(literal_among(tokens, i, mid[j].0@));
            }
        } else {
            assert(literal_in(tokens[i], now[j].0@));
        }
    }
}

/// An entry about the literal that is the `i`-th token was learned from the
/// first `i + 1` tokens.
pub proof fn lemma_from_push<V>(
    mid: Seq<(String, V)>,
    before: Seq<(String, V)>,
    tokens: Seq<TokenView>,
    i: int,
    entry: (String, V),
)
    requires
        0 <= i < tokens.len(),
        tokens[i] matches TokenView::Literal { text, .. } && text == entry.0@,
        from_tokens(mid, before, tokens, i) || from_tokens(mid, before, tokens, i + 1),
    ensures
        from_tokens(mid.push(entry), before, tokens, i + 1),
{
    let now = mid.push(entry);
    assert forall|j: int| 0 <= j < now.len() implies if j < before.len() {
        (#[trigger] now[j]) == before[j]
    } else {
        literal_among(tokens, i + 1, now[j].0@)
    } by {
        if j < mid.len() {
            assert(now[j] == mid[j]);
            if j >= before.len() {
                assert(literal_among(tokens, i, mid[j].0@) || literal_among(
                    tokens,
                    i + 1,
                    mid[j].0@,
                ));
            }
        } else {
            assert(literal_in(tokens[i], entry.0@));
        }
    }
}

/// Whether no literal stands among the tokens, at any depth.
pub open spec fn no_literal(tokens: Seq<TokenView>) -> bool {
    forall|text: Seq<char>| !#[trigger] literal_among(tokens, tokens.len() as int, text)
}

/// Where no literal stands among the tokens, nothing was learned from them.
pub proof fn lemma_nothing_learned(now: Known, before: Known, tokens: Seq<TokenView>)
    requires
        now.learned(before, tokens),
        no_literal(tokens),
    ensures
        now == before,
{
    if now.strings.len() > before.strings.len() {
        let entry = now.strings[before.strings.len() as int];
        assert(literal_among(tokens, tokens.len() as int, entry.0@));
    }
    if now.chars.len() > before.chars.len() {
        let entry = now.chars[before.chars.len() as int];
        assert(literal_among(tokens, tokens.len() as int, entry.0@));
    }
    assert(now.strings =~= before.strings);
    assert(now.chars =~= before.chars);
}

/// A literal among the first tokens is among more of them.
pub proof fn lemma_literal_among(tokens: Seq<TokenView>, n: int, m: int, text: Seq<char>)
    requires
        0 <= n <= m <= tokens.len(),
        literal_among(tokens, n, text),
    ensures
        literal_among(tokens, m, text),
    decreases m - n,
{
    if n < m {
        lemma_literal_among(tokens, n, m - 1, text);
    }
}

/// The number that a literal of digits stands for, where it is one and
/// fits the machine's word.
pub open spec fn number_of(text: Seq<char>) -> Option<usize> {
    match literal::<usize>(encode_utf8(text), 0) {
        Literal::Number(n, end) => if end == encode_utf8(text).len() {
            Some(n as usize)
        } else {
            None
        },
        _ => None,
    }
}

/// The number that a literal of digits stands for.
fn parse_number(text: &str) -> (r: Option<usize>)
    ensures
        r == number_of(text@),
{
    let mut src = StrSource::new(text);
    match <usize as Parse>::parse(&mut src) {
        Ok(n) => {
            if src.current_position() == text.as_bytes().len() {
                Some(n)
            } else {
                None
            }
        },
        Err(_) => None,
    }
}

/// The ranges that the tokens of a class from the `i`-th on spell out: each
/// character literal is a range of its own unless a `-` and a second
/// character literal follow it.
pub open spec fn class_ranges(stream: Seq<TokenView>, i: int, known: Known) -> Result<
    Seq<(char, Option<char>)>,
    Fault,
>
    decreases stream.len() - i,
{
    if i < 0 || i >= stream.len() {
        Ok(Seq::empty())
    } else {
        match stream[i] {
            TokenView::Literal { text, span } => match char_of(known.chars, text, 0) {
                Some(lo) => if i + 1 < stream.len() && stream[i + 1].is_punct('-') {
                    if i + 2 < stream.len() && stream[i + 2] is Literal {
                        match char_of(known.chars, stream[i + 2]->Literal_text, 0) {
                            Some(hi) => match class_ranges(stream, i + 3, known) {
                                Ok(rest) => Ok(seq![(lo, Some(hi))] + rest),
                                Err(f) => Err(f),
                            },
                            None => Err(
                                Fault { span: stream[i + 2].span(), msg: "expected character"@ },
                            ),
                        }
                    } else {
                        Err(Fault { span: stream[i + 1].span(), msg: "expected character"@ })
                    }
                } else {
                    match class_ranges(stream, i + 1, known) {
                        Ok(rest) => Ok(seq![(lo, None)] + rest),
                        Err(f) => Err(f),
                    }
                },
                None => Err(Fault { span, msg: "expected character"@ }),
            },
            TokenView::Punct { ch, span } => if ch == '-' {
                Err(Fault { span, msg: "expected character"@ })
            } else {
                Err(Fault { span, msg: "expected '-' or character"@ })
            },
            other => Err(Fault { span: other.span(), msg: "unexpected token"@ }),
        }
    }
}

/// The class that the tokens between brackets spell out: negated where
/// they begin with `^`. A class without ranges is a fault.
pub open spec fn syntax_class(stream: Seq<TokenView>, known: Known) -> Result<TermView, Fault> {
    let negative = stream.len() > 0 && stream[0].is_punct('^');
    match class_ranges(
        stream,
        if negative {
            1
        } else {
            0
        },
        known,
    ) {
        Ok(ranges) => if ranges.len() == 0 {
            Err(Fault { span: Span(0, 0), msg: "empty character class"@ })
        } else {
            Ok(TermView::Class { negative, ranges })
        },
        Err(f) => Err(f),
    }
}

/// The bounds that the tokens between braces spell out, given those read
/// before the `i`-th: the first number is the lower bound, the second the
/// upper one, and a comma in front of the first stands for a lower bound of
/// zero.
pub open spec fn range_of(
    stream: Seq<TokenView>,
    i: int,
    min: Option<usize>,
    max: Option<usize>,
) -> Result<
    (Option<usize>, Option<usize>),
    Fault,
>
    decreases stream.len() - i,
{
    if i < 0 || i >= stream.len() {
        Ok((min, max))
    } else {
        match stream[i] {
            TokenView::Literal { text, span } => match number_of(text) {
                Some(n) => if min is None {
                    range_of(stream, i + 1, Some(n), max)
                } else if max is None {
                    range_of(stream, i + 1, min, Some(n))
                } else {
                    range_of(stream, i + 1, min, max)
                },
                None => Err(Fault { span, msg: "unexpected token"@ }),
            },
            TokenView::Punct { ch, span } => if ch == ',' && max is None {
                range_of(
                    stream,
                    i + 1,
                    if min is None {
                        Some(0usize)
                    } else {
                        min
                    },
                    max,
                )
            } else {
                Err(Fault { span, msg: "unexpected token"@ })
            },
            other => Err(Fault { span: other.span(), msg: "unexpected token"@ }),
        }
    }
}

/// The term that stands at `pos` by itself, and the position behind it.
///
/// A group in parentheses is a group of the grammar and one in brackets a
/// character class; braces cannot start a term. A word is the name of a
/// rule, together with what stands between `<` and the next `>` if `<`
/// follows it. A literal that begins with a double quote is a string
/// literal, any other a character literal.
pub open spec fn syntax_bare(
    tokens: Seq<TokenView>,
    pos: int,
    silent: bool,
    known: Known,
) -> Result<
    (TermView, int),
    Fault,
>
    decreases tokens, 0int, tokens.len() - pos,
{
    if pos < 0 || pos >= tokens.len() {
        Err(Fault { span: Span(0, 0), msg: "expected a term"@ })
    } else {
        match tokens[pos] {
            TokenView::Group { delimiter, stream, span } => match delimiter {
                Delimiter::Brace => Err(Fault { span, msg: "unexpected quantifier"@ }),
                Delimiter::Bracket => match syntax_class(stream, known) {
                    Ok(t) => Ok((t, pos + 1)),
                    Err(f) => Err(f),
                },
                _ => match syntax_alternative(stream, 0, silent, known) {
                    Ok(alts) => Ok((TermView::Group(alts), pos + 1)),
                    Err(f) => Err(f),
                },
            },
            TokenView::Ident { name, span } => if pos + 1 < tokens.len() && tokens[pos
                + 1].is_punct('<') {
                match generic_end(tokens, pos + 2) {
                    Some(end) => Ok((TermView::Rule(name + tokens_text(tokens, pos + 1, end)), end)),
                    None => Err(Fault { span: tokens[pos + 1].span(), msg: "missing '>' token"@ }),
                }
            } else {
                Ok((TermView::Rule(name), pos + 1))
            },
            TokenView::Literal { text, span } => if text.len() > 0 && text[0] == '"' {
                match string_of(known.strings, text, 0) {
                    Some(v) => Ok((TermView::Text(v), pos + 1)),
                    None => Err(Fault { span, msg: "malformed string literal"@ }),
                }
            } else {
                match char_of(known.chars, text, 0) {
                    Some(c) => Ok((TermView::Character(c), pos + 1)),
                    None => Err(Fault { span, msg: "expected string or character literal"@ }),
                }
            },
            TokenView::Punct { ch, span } => Err(Fault { span, msg: "unexpected token"@ }),
        }
    }
}

/// The quantifier that stands at `pos`, and the position behind it: `+`,
/// `*`, `?`, bounds in braces, `**` with the term behind it, which
/// separates the repetitions and yields nothing, or no quantifier at all,
/// which stands for exactly once.
pub open spec fn syntax_quantifier(tokens: Seq<TokenView>, pos: int, known: Known) -> Result<
    (QuantifierView, int),
    Fault,
>
    decreases tokens, 1int, tokens.len() - pos,
{
    if pos < 0 || pos >= tokens.len() {
        Ok((QuantifierView::Once, pos))
    } else {
        match tokens[pos] {
            TokenView::Punct { ch, span } => if ch == '+' {
                Ok((QuantifierView::AtLeastOnce, pos + 1))
            } else if ch == '*' {
                if pos + 1 < tokens.len() && tokens[pos + 1].is_punct('*') {
                    if pos + 2 < tokens.len() {
                        match syntax_bare(tokens, pos + 2, true, known) {
                            Ok((t, end)) => Ok((QuantifierView::Separated(Box::new(t)), end)),
                            Err(f) => Err(f),
                        }
                    } else {
                        Err(Fault { span: tokens[pos + 1].span(), msg: "expected a separator"@ })
                    }
                } else {
                    Ok((QuantifierView::Unlimited, pos + 1))
                }
            } else if ch == '?' {
                Ok((QuantifierView::Optional, pos + 1))
            } else {
                Ok((QuantifierView::Once, pos))
            },
            TokenView::Group { delimiter, stream, span } => if delimiter == Delimiter::Brace {
                match range_of(stream, 0, None, None) {
                    Ok((Some(min), Some(max))) => Ok((QuantifierView::Range(min, max), pos + 1)),
                    Ok((Some(min), None)) => Ok((QuantifierView::Min(min), pos + 1)),
                    Ok((None, _)) => Err(Fault { span, msg: "missing range specifier"@ }),
                    Err(f) => Err(f),
                }
            } else {
                Ok((QuantifierView::Once, pos))
            },
            _ => Ok((QuantifierView::Once, pos)),
        }
    }
}

/// Compiles the tokens of a grammar into its syntax tree.
///
/// A parser holds what it knows of the literals of the grammar: their texts
/// with what they stand for. It compiles a literal to what it knows of its
/// text and refuses a literal of whose text it knows nothing.
pub struct Parser {
    /// Texts of string literals with what they stand for.
    pub strings: Vec<(String, String)>,
    /// Texts of character literals with the characters they stand for.
    pub chars: Vec<(String, char)>,
}

impl Default for Parser {
    /// A parser that knows of no literal.
    fn default() -> (p: Self)
        ensures
            p.strings@.len() == 0,
            p.chars@.len() == 0,
    {
        Parser { strings: Vec::new(), chars: Vec::new() }
    }
}

impl View for Parser {
    type V = Known;

    open spec fn view(&self) -> Known {
        Known { strings: self.strings@, chars: self.chars@ }
    }
}

impl Parser {
    /// What the parser knows of the string literal with the given text.
    pub fn find_string(&self, text: &str) -> (r: Option<String>)
        ensures
            match r {
                Some(v) => string_of(self.strings@, text@, 0) == Some(v@),
                None => string_of(self.strings@, text@, 0) is None,
            },
    {
        let mut i: usize = 0;
        while i < self.strings.len()
            invariant
                i <= self.strings@.len(),
                string_of(self.strings@, text@, 0) == string_of(self.strings@, text@, i as int),
            decreases self.strings@.len() - i,
        {
            if same_text(self.strings[i].0.as_str(), text) {
                return Some(self.strings[i].1.clone());
            }
            i = i + 1;
        }
        None
    }

    /// What the parser knows of the character literal with the given text.
    pub fn find_char(&self, text: &str) -> (r: Option<char>)
        ensures
            r == char_of(self.chars@, text@, 0),
    {
        let mut i: usize = 0;
        while i < self.chars.len()
            invariant
                i <= self.chars@.len(),
                char_of(self.chars@, text@, 0) == char_of(self.chars@, text@, i as int),
            decreases self.chars@.len() - i,
        {
            if same_text(self.chars[i].0.as_str(), text) {
                return Some(self.chars[i].1);
            }
            i = i + 1;
        }
        None
    }

    /// Asks `syn` what the literals among the tokens stand for, at any
    /// depth, and keeps every answer with the text of its literal. Of a
    /// literal between brackets it asks what it stands for as a character
    /// literal. Of any other literal it asks what it stands for as a string
    /// literal where it begins with a double quote, else as a character
    /// literal. Literals between braces are numbers and are not asked for.
    /// A literal that `syn` does not read leaves nothing.
    pub fn resolve(&mut self, tokens: &[TokenTree])
        ensures
            old(self)@.sound() ==> final(self)@.sound(),
            final(self)@.learned(old(self)@, tokens_view(tokens@)),
    {
        self.learn(tokens, false)
    }

    /// Asks for the literals among the tokens, which stand between brackets
    /// where `class` is set.
    #[verifier::loop_isolation(false)]
    fn learn(&mut self, tokens: &[TokenTree], class: bool)
        ensures
            old(self)@.sound() ==> final(self)@.sound(),
            final(self)@.learned(old(self)@, tokens_view(tokens@)),
        decreases tokens@,
    {
        let ghost views = tokens_view(tokens@);
        let ghost before = *self;
        let mut i: usize = 0;
        while i < tokens.len()
            invariant
                i <= tokens@.len(),
                views == tokens_view(tokens@),
                before == *old(self),
                before@.sound() ==> self@.sound(),
                from_tokens(self.strings@, before.strings@, views, i as int),
                from_tokens(self.chars@, before.chars@, views, i as int),
            decreases tokens@.len() - i,
        {
            assert(views[i as int] == tokens@[i as int]@);
            let ghost here = *self;
            match &tokens[i] {
                TokenTree::Group { delimiter, stream, .. } => {
                    match delimiter {
                        Delimiter::Brace => {},
                        Delimiter::Bracket => self.learn(stream.as_slice(), true),
                        _ => self.learn(stream.as_slice(), false),
                    }
                    proof {
                        if *delimiter == Delimiter::Brace {
                            lemma_from_more(self.strings@, before.strings@, views, i as int, i + 1);
                            lemma_from_more(self.chars@, before.chars@, views, i as int, i + 1);
                        } else {
                            lemma_from_group(
                                self.strings@,
                                here.strings@,
                                before.strings@,
                                views,
                                i as int,
                            );
                            lemma_from_group(
                                self.chars@,
                                here.chars@,
                                before.chars@,
                                views,
                                i as int,
                            );
                        }
                    }
                },
                TokenTree::Literal { text, .. } => {
                    if !class && starts_with_quote(text.as_str()) {
                        match unquote(text.as_str()) {
                            Ok(value) => {
                                let entry = (text.clone(), value);
                                proof {
                                    lemma_from_push(
                                        here.strings@,
                                        before.strings@,
                                        views,
                                        i as int,
                                        entry,
                                    );
                                }
                                self.strings.push(entry);
                            },
                            Err(_) => {
                                proof {
                                    lemma_from_more(
                                        self.strings@,
                                        before.strings@,
                                        views,
                                        i as int,
                                        i + 1,
                                    );
                                }
                            },
                        }
                        proof {
                            lemma_from_more(self.chars@, before.chars@, views, i as int, i + 1);
                        }
                    } else {
                        match unquote_char(text.as_str()) {
                            Ok(c) => {
                                let entry = (text.clone(), c);
                                proof {
                                    lemma_from_push(
                                        here.chars@,
                                        before.chars@,
                                        views,
                                        i as int,
                                        entry,
                                    );
                                }
                                self.chars.push(entry);
                            },
                            Err(_) => {
                                proof {
                                    lemma_from_more(
                                        self.chars@,
                                        before.chars@,
                                        views,
                                        i as int,
                                        i + 1,
                                    );
                                }
                            },
                        }
                        proof {
                            lemma_from_more(self.strings@, before.strings@, views, i as int, i + 1);
                        }
                    }
                },
                _ => {
                    proof {
                        lemma_from_more(self.strings@, before.strings@, views, i as int, i + 1);
                        lemma_from_more(self.chars@, before.chars@, views, i as int, i + 1);
                    }
                },
            }
            i = i + 1;
        }
    }
}

/// Whether two texts hold the same bytes.
pub(crate) fn same_text(a: &str, b: &str) -> (r: bool)
    ensures
        r == (encode_utf8(a@) == encode_utf8(b@)),
{
    let x = a.as_bytes();
    let y = b.as_bytes();
    assert(x@ == encode_utf8(a@) && y@ == encode_utf8(b@));
    if x.len() != y.len() {
        return false;
    }
    let mut i: usize = 0;
    while i < x.len()
        invariant
            i <= x@.len(),
            x@.len() == y@.len(),
            x@ == encode_utf8(a@),
            y@ == encode_utf8(b@),
            forall|j: int| 0 <= j < i ==> x@[j] == y@[j],
        decreases x@.len() - i,
    {
        if x[i] != y[i] {
            assert(x@[i as int] != y@[i as int]);
            return false;
        }
        i = i + 1;
    }
    assert(x@ =~= y@);
    true
}

impl Parser {
    /// Compiles the tokens between the brackets of a character class.
    pub fn parse_character_class(&mut self, stream: &[TokenTree]) -> (r: Result<Term, Error>)
        ensures
            *final(self) == *old(self),
            match syntax_class(tokens_view(stream@), old(self)@) {
                Ok(t) => r matches Ok(term) && term@ == t,
                Err(f) => r matches Err(e) && e@ == f,
            },
            r matches Ok(Term::CharacterClass { negative, .. }) ==> negative is None || negative
                == Some('^'),
    {
        let ghost views = tokens_view(stream@);
        let negative = stream.len() > 0 && stream[0].is_punct('^');
        let mut i: usize = if negative {
            1
        } else {
            0
        };
        let ghost start = i as int;
        let mut ranges: Vec<(char, Option<char>)> = Vec::new();
        proof {
            if stream@.len() > 0 {
                assert(views[0] == stream@[0]@);
            }
            match class_ranges(views, start, old(self)@) {
                Ok(rest) => {
                    assert(Seq::<(char, Option<char>)>::empty() + rest =~= rest);
                },
                Err(_) => {},
            }
        }
        while i < stream.len()
            invariant
                i <= stream@.len(),
                *self == *old(self),
                views == tokens_view(stream@),
                negative == (views.len() > 0 && views[0].is_punct('^')),
                start == if negative {
                    1int
                } else {
                    0int
                },
                class_ranges(
                    views,
                    start,
                    old(self)@,
                ) == match class_ranges(views, i as int, old(self)@) {
                    Ok(rest) => Ok::<Seq<(char, Option<char>)>, Fault>(ranges@ + rest),
                    Err(f) => Err(f),
                },
            decreases stream@.len() - i,
        {
            assert(views[i as int] == stream@[i as int]@);
            match &stream[i] {
                TokenTree::Literal { text, span } => {
                    let lo = match self.find_char(text.as_str()) {
                        Some(c) => c,
                        None => {
                            return Err(Error::new(*span, "expected character"));
                        },
                    };
                    if i + 1 < stream.len() && stream[i + 1].is_punct('-') {
                        assert(views[i + 1] == stream@[i + 1]@);
                        if i + 2 < stream.len() {
                            assert(views[i + 2] == stream@[i + 2]@);
                            match &stream[i + 2] {
                                TokenTree::Literal { text: second, span: at } => {
                                    match self.find_char(second.as_str()) {
                                        Some(hi) => {
                                            proof {
                                                match class_ranges(views, i + 3, old(self)@) {
                                                    Ok(rest) => {
                                                        assert(ranges@ + (seq![(lo, Some(hi))]
                                                            + rest) =~= ranges@.push(
                                                            (lo, Some(hi)),
                                                        ) + rest);
                                                    },
                                                    Err(_) => {},
                                                }
                                            }
                                            ranges.push((lo, Some(hi)));
                                            i = i + 3;
                                        },
                                        None => {
                                            return Err(Error::new(*at, "expected character"));
                                        },
                                    }
                                },
                                _ => {
                                    return Err(
                                        Error::new(stream[i + 1].span(), "expected character"),
                                    );
                                },
                            }
                        } else {
                            return Err(Error::new(stream[i + 1].span(), "expected character"));
                        }
                    } else {
                        proof {
                            if i + 1 < stream@.len() {
                                assert(views[i + 1] == stream@[i + 1]@);
                            }
                            match class_ranges(views, i + 1, old(self)@) {
                                Ok(rest) => {
                                    assert(ranges@ + (seq![(lo, None)] + rest) =~= ranges@.push(
                                        (lo, None),
                                    ) + rest);
                                },
                                Err(_) => {},
                            }
                        }
                        ranges.push((lo, None));
                        i = i + 1;
                    }
                },
                TokenTree::Punct { ch, span } => {
                    if *ch == '-' {
                        return Err(Error::new(*span, "expected character"));
                    }
                    return Err(Error::new(*span, "expected '-' or character"));
                },
                other => {
                    return Err(Error::new(other.span(), "unexpected token"));
                },
            }
        }
        proof {
            assert(ranges@ + Seq::<(char, Option<char>)>::empty() =~= ranges@);
            if stream@.len() > 0 {
                assert(views[0] == stream@[0]@);
            }
        }
        if ranges.len() == 0 {
            return Err(Error::new(Span(0, 0), "empty character class"));
        }
        Ok(
            Term::CharacterClass {
                negative: if negative {
                    Some('^')
                } else {
                    None
                },
                ranges,
            },
        )
    }

    /// Compiles the bounds between the braces of a quantifier.
    fn parse_range(&mut self, stream: &[TokenTree]) -> (r: Result<
        (Option<usize>, Option<usize>),
        Error,
    >)
        ensures
            *final(self) == *old(self),
            match range_of(tokens_view(stream@), 0, None, None) {
                Ok(bounds) => r == Ok::<(Option<usize>, Option<usize>), Error>(bounds),
                Err(f) => r matches Err(e) && reports(e, f),
            },
    {
        let ghost views = tokens_view(stream@);
        let mut min: Option<usize> = None;
        let mut max: Option<usize> = None;
        let mut i: usize = 0;
        while i < stream.len()
            invariant
                i <= stream@.len(),
                views == tokens_view(stream@),
                range_of(views, 0, None, None) == range_of(views, i as int, min, max),
            decreases stream@.len() - i,
        {
            assert(views[i as int] == stream@[i as int]@);
            match &stream[i] {
                TokenTree::Literal { text, span } => {
                    match parse_number(text.as_str()) {
                        Some(n) => {
                            if min.is_none() {
                                min = Some(n);
                            } else if max.is_none() {
                                max = Some(n);
                            }
                        },
                        None => {
                            return Err(Error::new(*span, "unexpected token"));
                        },
                    }
                },
                TokenTree::Punct { ch, span } => {
                    if *ch == ',' && max.is_none() {
                        if min.is_none() {
                            min = Some(0);
                        }
                    } else {
                        return Err(Error::new(*span, "unexpected token"));
                    }
                },
                other => {
                    return Err(Error::new(other.span(), "unexpected token"));
                },
            }
            i = i + 1;
        }
        Ok((min, max))
    }

    /// Compiles the quantifier that stands at `pos`, if one does, and moves
    /// `pos` behind it.
    pub fn parse_quantifier(&mut self, tokens: &[TokenTree], pos: &mut usize) -> (r: Result<Quantifier, Error>)
        ensures
            *final(self) == *old(self),
            match syntax_quantifier(tokens_view(tokens@), *old(pos) as int, old(self)@) {
                Ok((q, end)) => r matches Ok(v) && v@ == q && *final(pos) == end,
                Err(f) => r matches Err(e) && e@ == f,
            },
            r is Ok && *old(pos) <= tokens@.len() ==> *old(pos) <= *final(pos) <= tokens@.len(),
        decreases tokens@, 1int, tokens@.len() - *old(pos), 0int,
    {
        let at = *pos;
        if at >= tokens.len() {
            return Ok(Quantifier::Once);
        }
        let ghost views = tokens_view(tokens@);
        assert(views[at as int] == tokens@[at as int]@);
        match &tokens[at] {
            TokenTree::Punct { ch, .. } => {
                if *ch == '+' {
                    *pos = at + 1;
                    Ok(Quantifier::RepeatAtleastOnce)
                } else if *ch == '*' {
                    if at + 1 < tokens.len() && tokens[at + 1].is_punct('*') {
                        assert(views[at + 1] == tokens@[at + 1]@);
                        if at + 2 < tokens.len() {
                            *pos = at + 2;
                            match self.bare_term(tokens, pos, true) {
                                Ok(t) => Ok(Quantifier::RepeatSeperate { seperator: Box::new(t) }),
                                Err(e) => Err(e),
                            }
                        } else {
                            Err(Error::new(tokens[at + 1].span(), "expected a separator"))
                        }
                    } else {
                        proof {
                            if at + 1 < tokens@.len() {
                                assert(views[at + 1] == tokens@[at + 1]@);
                            }
                        }
                        *pos = at + 1;
                        Ok(Quantifier::RepeatUnlimited)
                    }
                } else if *ch == '?' {
                    *pos = at + 1;
                    Ok(Quantifier::Optional)
                } else {
                    Ok(Quantifier::Once)
                }
            },
            TokenTree::Group { delimiter, stream, span } => {
                if *delimiter == Delimiter::Brace {
                    match self.parse_range(stream.as_slice()) {
                        Ok((Some(min), Some(max))) => {
                            *pos = at + 1;
                            Ok(Quantifier::Repeat { min, max })
                        },
                        Ok((Some(min), None)) => {
                            *pos = at + 1;
                            Ok(Quantifier::RepeatMin { min })
                        },
                        Ok((None, _)) => Err(Error::new(*span, "missing range specifier")),
                        Err(e) => Err(e),
                    }
                } else {
                    Ok(Quantifier::Once)
                }
            },
            _ => Ok(Quantifier::Once),
        }
    }

    /// Compiles the term that stands at `pos` by itself and moves `pos`
    /// behind it.
    pub fn bare_term(
        &mut self,
        tokens: &[TokenTree],
        pos: &mut usize,
        is_silent: bool,
    ) -> (r: Result<Term, Error>)
        ensures
            *final(self) == *old(self),
            match syntax_bare(tokens_view(tokens@), *old(pos) as int, is_silent, old(self)@) {
                Ok((t, end)) => {
                    &&& r matches Ok(v)
                    &&& v@ == t
                    &&& *final(pos) == end
                    &&& *old(pos) < *final(pos) <= tokens@.len()
                },
                Err(f) => r matches Err(e) && e@ == f,
            },
        decreases tokens@, 0int, tokens@.len() - *old(pos), 1int,
    {
        let at = *pos;
        if at >= tokens.len() {
            return Err(Error::new(Span(0, 0), "expected a term"));
        }
        assert(tokens_view(tokens@)[at as int] == tokens@[at as int]@);
        *pos = at + 1;
        match &tokens[at] {
            TokenTree::Group { .. } => self.group_term(tokens, at, is_silent),
            TokenTree::Ident { .. } => self.rule_term(tokens, pos, at),
            TokenTree::Literal { .. } => self.literal_term(tokens, at),
            TokenTree::Punct { span, .. } => Err(Error::new(*span, "unexpected token")),
        }
    }

    /// Compiles the term that the group at `at` is: a group of the grammar
    /// or a character class.
    fn group_term(&mut self, tokens: &[TokenTree], at: usize, is_silent: bool) -> (r: Result<Term, Error>)
        requires
            at < tokens@.len(),
            tokens@[at as int] is Group,
        ensures
            *final(self) == *old(self),
            match syntax_bare(tokens_view(tokens@), at as int, is_silent, old(self)@) {
                Ok((t, end)) => r matches Ok(v) && v@ == t && end == at + 1,
                Err(f) => r matches Err(e) && e@ == f,
            },
        decreases tokens@, 0int, tokens@.len() - at, 0int,
    {
        let ghost views = tokens_view(tokens@);
        assert(views[at as int] == tokens@[at as int]@);
        match &tokens[at] {
            TokenTree::Group { delimiter, stream, span } => match delimiter {
                Delimiter::Brace => Err(Error::new(*span, "unexpected quantifier")),
                Delimiter::Bracket => match self.parse_character_class(stream.as_slice()) {
                    Ok(t) => Ok(t),
                    Err(e) => Err(e),
                },
                _ => {
                    let mut inner: usize = 0;
                    match self.parse_alternative(stream.as_slice(), &mut inner, is_silent) {
                        Ok(alts) => Ok(Term::Group(alts)),
                        Err(e) => Err(e),
                    }
                },
            },
            _ => Err(Error::new(Span(0, 0), "unexpected token")),
        }
    }

    /// Compiles the reference to a rule that starts with the word at `at`.
    fn rule_term(&mut self, tokens: &[TokenTree], pos: &mut usize, at: usize) -> (r: Result<Term, Error>)
        requires
            at < tokens@.len(),
            *old(pos) == at + 1,
            tokens@[at as int] is Ident,
        ensures
            *final(self) == *old(self),
            forall|silent: bool|
                match #[trigger] syntax_bare(tokens_view(tokens@), at as int, silent, old(self)@) {
                    Ok((t, end)) => r matches Ok(v) && v@ == t && *final(pos) == end && at
                        < *final(pos) <= tokens@.len(),
                    Err(f) => r matches Err(e) && reports(e, f),
                },
    {
        let ghost views = tokens_view(tokens@);
        assert(views[at as int] == tokens@[at as int]@);
        match &tokens[at] {
            TokenTree::Ident { name, span } => {
                let mut text = name.clone();
                assert(text@ =~= name@ + tokens_text(views, at + 1, at + 1));
                if at + 1 < tokens.len() && tokens[at + 1].is_punct('<') {
                    assert(views[at + 1] == tokens@[at + 1]@);
                    let open = tokens[at + 1].span();
                    let mut i = at + 1;
                    let mut closed = false;
                    while i < tokens.len() && !closed
                        invariant
                            at + 1 <= i <= tokens@.len(),
                            views == tokens_view(tokens@),
                            text@ == name@ + tokens_text(views, at + 1, i as int),
                            closed ==> i >= at + 3 && generic_end(views, at + 2) == Some(i as int),
                            !closed ==> generic_end(views, at + 2) == generic_end(
                                views,
                                if i < at + 2 {
                                    at + 2
                                } else {
                                    i as int
                                },
                            ),
                        decreases tokens@.len() - i,
                    {
                        assert(views[i as int] == tokens@[i as int]@);
                        render(&tokens[i], &mut text);
                        if i >= at + 2 && tokens[i].is_punct('>') {
                            closed = true;
                        }
                        i = i + 1;
                        assert(text@ =~= name@ + tokens_text(views, at + 1, i as int));
                    }
                    if !closed {
                        return Err(Error::new(open, "missing '>' token"));
                    }
                    *pos = i;
                } else {
                    proof {
                        if at + 1 < tokens@.len() {
                            assert(views[at + 1] == tokens@[at + 1]@);
                        }
                    }
                }
                Ok(Term::Rule(text))
            },
            _ => Err(Error::new(Span(0, 0), "unexpected token")),
        }
    }

    /// Compiles the literal at `at`: a string literal where it begins with
    /// a double quote, else a character literal.
    fn literal_term(&mut self, tokens: &[TokenTree], at: usize) -> (r: Result<Term, Error>)
        requires
            at < tokens@.len(),
            tokens@[at as int] is Literal,
        ensures
            *final(self) == *old(self),
            forall|silent: bool|
                match #[trigger] syntax_bare(
                    tokens_view(tokens@),
                    at as int,
                    silent,
                    old(self)@,
                ) {
                    Ok((t, end)) => r matches Ok(v) && v@ == t && end == at + 1,
                    Err(f) => r matches Err(e) && e@ == f,
                },
    {
        let ghost views = tokens_view(tokens@);
        assert(views[at as int] == tokens@[at as int]@);
        match &tokens[at] {
            TokenTree::Literal { text, span } => {
                if starts_with_quote(text.as_str()) {
                    match self.find_string(text.as_str()) {
                        Some(v) => Ok(Term::String(v)),
                        None => Err(Error::new(*span, "malformed string literal")),
                    }
                } else {
                    match self.find_char(text.as_str()) {
                        Some(c) => Ok(Term::character(c)),
                        None => Err(Error::new(*span, "expected string or character literal")),
                    }
                }
            },
            _ => Err(Error::new(Span(0, 0), "unexpected token")),
        }
    }
}

/// The character that opens a group.
pub open spec fn opening(d: Delimiter) -> Seq<char> {
    match d {
        Delimiter::Parenthesis => seq!['('],
        Delimiter::Brace => seq!['{'],
        Delimiter::Bracket => seq!['['],
        Delimiter::Bare => Seq::empty(),
    }
}

/// The character that closes a group.
pub open spec fn closing(d: Delimiter) -> Seq<char> {
    match d {
        Delimiter::Parenthesis => seq![')'],
        Delimiter::Brace => seq!['}'],
        Delimiter::Bracket => seq![']'],
        Delimiter::Bare => Seq::empty(),
    }
}

/// A token as text: a word or a literal as it was written, a group
/// between its delimiters.
pub open spec fn token_text(t: TokenView) -> Seq<char>
    decreases t,
{
    match t {
        TokenView::Group { delimiter, stream, .. } => opening(delimiter) + stream_text(
            stream,
            stream.len() as int,
        ) + closing(delimiter),
        TokenView::Ident { name, .. } => name,
        TokenView::Punct { ch, .. } => seq![ch],
        TokenView::Literal { text, .. } => text,
    }
}

/// The first `n` tokens as text, one behind the other.
pub open spec fn stream_text(ts: Seq<TokenView>, n: int) -> Seq<char>
    decreases ts, n,
{
    if n <= 0 || n > ts.len() {
        Seq::empty()
    } else {
        stream_text(ts, n - 1) + token_text(ts[n - 1])
    }
}

/// The tokens from `from` up to `to` as text.
pub open spec fn tokens_text(ts: Seq<TokenView>, from: int, to: int) -> Seq<char>
    decreases to - from,
{
    if from >= to || from < 0 || to > ts.len() {
        Seq::empty()
    } else {
        tokens_text(ts, from, to - 1) + token_text(ts[to - 1])
    }
}

/// The position behind the first `>` from `i` on.
pub open spec fn generic_end(tokens: Seq<TokenView>, i: int) -> Option<int>
    decreases tokens.len() - i,
{
    if i < 0 || i >= tokens.len() {
        None
    } else if tokens[i].is_punct('>') {
        Some(i + 1)
    } else {
        generic_end(tokens, i + 1)
    }
}

/// The choice that has `s` as its only term.
pub open spec fn single(s: SpecialView) -> AlternativesView {
    AlternativesView { preparse: Seq::empty(), alternatives: seq![seq![s]] }
}

/// A special term as a term with a quantifier: itself where it is plain,
/// else a group around it.
pub open spec fn as_term(s: SpecialView) -> (TermView, QuantifierView) {
    match s {
        SpecialView::Plain(t, q) => (t, q),
        SpecialView::Quiet(t, q) => (t, q),
        other => (TermView::Group(single(other)), QuantifierView::Once),
    }
}

/// A term with its quantifier, discarded where `silent` is set.
pub open spec fn plain(silent: bool, t: TermView, q: QuantifierView) -> SpecialView {
    if silent {
        SpecialView::Quiet(t, q)
    } else {
        SpecialView::Plain(t, q)
    }
}

/// The term `t` with the quantifier that stands at `pos`.
pub open spec fn quantified(
    tokens: Seq<TokenView>,
    pos: int,
    silent: bool,
    t: TermView,
    known: Known,
) -> Result<
    (SpecialView, int),
    Fault,
>
    decreases tokens, 2int, tokens.len() - pos,
{
    match syntax_quantifier(tokens, pos, known) {
        Ok((q, end)) => Ok((plain(silent, t, q), end)),
        Err(f) => Err(f),
    }
}

/// The special term `s` with the quantifier that stands at `pos`: `s`
/// itself where none stands there, else a group around `s` under that
/// quantifier.
pub open spec fn requantified(
    tokens: Seq<TokenView>,
    pos: int,
    silent: bool,
    s: SpecialView,
    known: Known,
) -> Result<
    (SpecialView, int),
    Fault,
>
    decreases tokens, 2int, tokens.len() - pos,
{
    match syntax_quantifier(tokens, pos, known) {
        Ok((q, end)) => if q is Once {
            Ok((s, end))
        } else {
            Ok((plain(silent, TermView::Group(single(s)), q), end))
        },
        Err(f) => Err(f),
    }
}

/// The term that has nothing to match: the empty string literal.
pub open spec fn empty_term(silent: bool) -> SpecialView {
    plain(silent, TermView::Text(Seq::empty()), QuantifierView::Once)
}

/// The special term that stands at `pos`, and the position behind it: a
/// term with its quantifier, or what `$`, `!` or `_` make of one. `$` binds
/// the term behind the name and the colon that follow it, `!` looks ahead
/// for the absence of the term behind it and `_` discards what the term
/// behind it yields.
pub open spec fn syntax_term(
    tokens: Seq<TokenView>,
    pos: int,
    silent: bool,
    known: Known,
) -> Result<
    (SpecialView, int),
    Fault,
>
    decreases tokens, 3int, tokens.len() - pos,
{
    if pos < 0 || pos >= tokens.len() {
        Ok((empty_term(silent), pos))
    } else {
        match tokens[pos] {
            TokenView::Punct { ch, span } => if ch == '$' {
                if pos + 1 < tokens.len() && tokens[pos + 1] is Ident {
                    if pos + 2 < tokens.len() && tokens[pos + 2].is_punct(':') {
                        match syntax_term(tokens, pos + 3, silent, known) {
                            Ok((inner, end)) => Ok(
                                (
                                    SpecialView::Binding(
                                        tokens[pos + 1]->Ident_name,
                                        as_term(inner).0,
                                        as_term(inner).1,
                                    ),
                                    end,
                                ),
                            ),
                            Err(f) => Err(f),
                        }
                    } else {
                        Err(Fault { span, msg: "expected ':' token."@ })
                    }
                } else {
                    Err(Fault { span, msg: "expected ident behind binding declaration"@ })
                }
            } else if ch == '!' {
                match syntax_term(tokens, pos + 1, silent, known) {
                    Ok((inner, end)) => requantified(
                        tokens,
                        end,
                        silent,
                        SpecialView::Lookahead(as_term(inner).0, as_term(inner).1),
                        known,
                    ),
                    Err(f) => Err(f),
                }
            } else if ch == '_' {
                match syntax_term(tokens, pos + 1, true, known) {
                    Ok((inner, end)) => requantified(tokens, end, true, inner, known),
                    Err(f) => Err(f),
                }
            } else {
                Err(Fault { span, msg: "unexpected token"@ })
            },
            _ => match syntax_bare(tokens, pos, silent, known) {
                Ok((t, end)) => quantified(tokens, end, silent, t, known),
                Err(f) => Err(f),
            },
        }
    }
}

/// The terms that stand from `pos` up to the next `|` or the end, and the
/// position they end at.
pub open spec fn syntax_terms(
    tokens: Seq<TokenView>,
    pos: int,
    silent: bool,
    known: Known,
) -> Result<
    (Seq<SpecialView>, int),
    Fault,
>
    decreases tokens, 4int, tokens.len() - pos,
{
    if pos < 0 || pos >= tokens.len() || tokens[pos].is_punct('|') {
        Ok((Seq::empty(), pos))
    } else {
        match syntax_term(tokens, pos, silent, known) {
            Ok((t, end)) => if end <= pos || end > tokens.len() {
                Ok((seq![t], end))
            } else {
                match syntax_terms(tokens, end, silent, known) {
                    Ok((rest, last)) => Ok((seq![t] + rest, last)),
                    Err(f) => Err(f),
                }
            },
            Err(f) => Err(f),
        }
    }
}

/// The alternatives that stand from `pos` on, each up to the next `|`.
pub open spec fn syntax_choice(
    tokens: Seq<TokenView>,
    pos: int,
    silent: bool,
    known: Known,
) -> Result<
    Seq<Seq<SpecialView>>,
    Fault,
>
    decreases tokens, 5int, tokens.len() - pos,
{
    if pos < 0 || pos >= tokens.len() {
        Ok(Seq::empty())
    } else {
        match syntax_terms(tokens, pos, silent, known) {
            Ok((terms, end)) => {
                let next = if end < tokens.len() {
                    end + 1
                } else {
                    end
                };
                if next <= pos || next > tokens.len() {
                    Ok(seq![terms])
                } else {
                    match syntax_choice(tokens, next, silent, known) {
                        Ok(rest) => Ok(seq![terms] + rest),
                        Err(f) => Err(f),
                    }
                }
            },
            Err(f) => Err(f),
        }
    }
}

/// The choice that the tokens from `pos` on spell out. Nothing is shared
/// between its alternatives yet.
pub open spec fn syntax_alternative(
    tokens: Seq<TokenView>,
    pos: int,
    silent: bool,
    known: Known,
) -> Result<
    AlternativesView,
    Fault,
>
    decreases tokens, 6int, tokens.len() - pos,
{
    match syntax_choice(tokens, pos, silent, known) {
        Ok(alts) => Ok(AlternativesView { preparse: Seq::empty(), alternatives: alts }),
        Err(f) => Err(f),
    }
}

/// Whether `r` is what the tokens compile to for what `known` holds of
/// literals.
pub open spec fn compiled_as(
    known: Known,
    tokens: Seq<TokenView>,
    r: Result<Alternatives, Error>,
) -> bool {
    match syntax_alternative(tokens, 0, false, known) {
        Ok(alts) => r matches Ok(v) && v@ == alts,
        Err(f) => r matches Err(e) && e@ == f,
    }
}

/// Whether `r` is what the tokens compile to for a parser that has learned
/// of the literals among them, beyond what `start` knew.
pub open spec fn compiles(
    start: Known,
    tokens: Seq<TokenView>,
    r: Result<Alternatives, Error>,
) -> bool {
    exists|known: Known| #[trigger]
        known.learned(start, tokens) && (start.sound() ==> known.sound()) && compiled_as(
            known,
            tokens,
            r,
        )
}

/// Appends a token as text.
#[verifier::loop_isolation(false)]
fn render(t: &TokenTree, out: &mut String)
    ensures
        final(out)@ == old(out)@ + token_text(t@),
    decreases *t,
{
    match t {
        TokenTree::Group { delimiter, stream, .. } => {
            match delimiter {
                Delimiter::Parenthesis => out.push('('),
                Delimiter::Brace => out.push('{'),
                Delimiter::Bracket => out.push('['),
                Delimiter::Bare => {},
            }
            let ghost opened = out@;
            assert(opened =~= old(out)@ + opening(*delimiter));
            let ghost views = tokens_view(stream@);
            let mut i: usize = 0;
            while i < stream.len()
                invariant
                    i <= stream@.len(),
                    views == tokens_view(stream@),
                    out@ == opened + stream_text(views, i as int),
                decreases stream@.len() - i,
            {
                assert(views[i as int] == stream@[i as int]@);
                render(&stream[i], out);
                i = i + 1;
                assert(out@ =~= opened + stream_text(views, i as int));
            }
            let ghost inner = out@;
            match delimiter {
                Delimiter::Parenthesis => out.push(')'),
                Delimiter::Brace => out.push('}'),
                Delimiter::Bracket => out.push(']'),
                Delimiter::Bare => {},
            }
            assert(out@ =~= old(out)@ + token_text(t@));
        },
        TokenTree::Ident { name, .. } => {
            out.append(name.as_str());
        },
        TokenTree::Punct { ch, .. } => {
            out.push(*ch);
        },
        TokenTree::Literal { text, .. } => {
            out.append(text.as_str());
        },
    }
}

/// Whether a literal begins with a double quote.
fn starts_with_quote(text: &str) -> (b: bool)
    ensures
        b == (text@.len() > 0 && text@[0] == '"'),
{
    !text.is_empty() && text.get_char(0) == '"'
}

/// A special term as a term with a quantifier.
fn into_term(s: SpecialTerm) -> (r: (Term, Quantifier))
    ensures
        (r.0@, r.1@) == as_term(s@),
{
    match s {
        SpecialTerm::Term(t, q) => (t, q),
        SpecialTerm::Quiet(t, q) => (t, q),
        other => (Term::Group(group_of(other)), Quantifier::Once),
    }
}

/// The choice that has `s` as its only term.
fn group_of(s: SpecialTerm) -> (a: Alternatives)
    ensures
        a@ == single(s@),
{
    let mut terms: Vec<SpecialTerm> = Vec::new();
    terms.push(s);
    let mut alternatives: Vec<Alternative> = Vec::new();
    alternatives.push(Alternative { terms });
    let a = Alternatives { preparse: Vec::new(), alternatives };
    assert(a@.preparse =~= single(s@).preparse);
    assert(a@.alternatives =~= single(s@).alternatives) by {
        assert(a@.alternatives[0] =~= seq![s@]);
    }
    a
}

/// A term with its quantifier, discarded where `silent` is set.
fn make_plain(silent: bool, t: Term, q: Quantifier) -> (s: SpecialTerm)
    ensures
        s@ == plain(silent, t@, q@),
{
    if silent {
        SpecialTerm::Quiet(t, q)
    } else {
        SpecialTerm::Term(t, q)
    }
}

impl Parser {
    /// Compiles the quantifier at `pos` and puts the term `t` under it.
    fn quantify(
        &mut self,
        tokens: &[TokenTree],
        pos: &mut usize,
        silent: bool,
        t: Term,
    ) -> (r: Result<SpecialTerm, Error>)
        ensures
            *final(self) == *old(self),
            match quantified(tokens_view(tokens@), *old(pos) as int, silent, t@, old(self)@) {
                Ok((s, end)) => r matches Ok(v) && v@ == s && *final(pos) == end,
                Err(f) => r matches Err(e) && e@ == f,
            },
            r is Ok && *old(pos) <= tokens@.len() ==> *old(pos) <= *final(pos) <= tokens@.len(),
        decreases tokens@, 2int, tokens@.len() - *old(pos), 0int,
    {
        match self.parse_quantifier(tokens, pos) {
            Ok(q) => Ok(make_plain(silent, t, q)),
            Err(e) => Err(e),
        }
    }

    /// Compiles the quantifier at `pos` and, if one stands there, puts a
    /// group around `s` under it.
    fn requantify(
        &mut self,
        tokens: &[TokenTree],
        pos: &mut usize,
        silent: bool,
        s: SpecialTerm,
    ) -> (r:
        Result<SpecialTerm, Error>)
        ensures
            *final(self) == *old(self),
            match requantified(tokens_view(tokens@), *old(pos) as int, silent, s@, old(self)@) {
                Ok((v, end)) => r matches Ok(t) && t@ == v && *final(pos) == end,
                Err(f) => r matches Err(e) && e@ == f,
            },
            r is Ok && *old(pos) <= tokens@.len() ==> *old(pos) <= *final(pos) <= tokens@.len(),
        decreases tokens@, 2int, tokens@.len() - *old(pos), 0int,
    {
        match self.parse_quantifier(tokens, pos) {
            Ok(q) => match q {
                Quantifier::Once => Ok(s),
                other => Ok(make_plain(silent, Term::Group(group_of(s)), other)),
            },
            Err(e) => Err(e),
        }
    }

    /// Compiles the special term that stands at `pos` and moves `pos`
    /// behind it.
    pub fn parse_term(
        &mut self,
        tokens: &[TokenTree],
        pos: &mut usize,
        is_silent: bool,
    ) -> (r: Result<SpecialTerm, Error>)
        ensures
            *final(self) == *old(self),
            match syntax_term(tokens_view(tokens@), *old(pos) as int, is_silent, old(self)@) {
                Ok((s, end)) => r matches Ok(v) && v@ == s && *final(pos) == end,
                Err(f) => r matches Err(e) && e@ == f,
            },
            r is Ok && *old(pos) <= tokens@.len() ==> *old(pos) <= *final(pos) <= tokens@.len(),
        decreases tokens@, 3int, tokens@.len() - *old(pos), 1int,
    {
        let at = *pos;
        if at >= tokens.len() {
            return Ok(make_plain(is_silent, Term::String(String::new()), Quantifier::Once));
        }
        assert(tokens_view(tokens@)[at as int] == tokens@[at as int]@);
        match &tokens[at] {
            TokenTree::Punct { .. } => {
                *pos = at + 1;
                self.punct_term(tokens, pos, at, is_silent)
            },
            _ => match self.bare_term(tokens, pos, is_silent) {
                Ok(t) => self.quantify(tokens, pos, is_silent, t),
                Err(e) => Err(e),
            },
        }
    }

    /// Compiles the term that the punctuation at `at` introduces: a
    /// binding, a negative lookahead or a discarded term.
    fn punct_term(
        &mut self,
        tokens: &[TokenTree],
        pos: &mut usize,
        at: usize,
        is_silent: bool,
    ) -> (r:
        Result<SpecialTerm, Error>)
        requires
            at < tokens@.len(),
            *old(pos) == at + 1,
            tokens@[at as int] is Punct,
        ensures
            *final(self) == *old(self),
            match syntax_term(tokens_view(tokens@), at as int, is_silent, old(self)@) {
                Ok((s, end)) => r matches Ok(v) && v@ == s && *final(pos) == end,
                Err(f) => r matches Err(e) && e@ == f,
            },
            r is Ok ==> at <= *final(pos) <= tokens@.len(),
        decreases tokens@, 3int, tokens@.len() - at, 0int,
    {
        let ghost views = tokens_view(tokens@);
        assert(views[at as int] == tokens@[at as int]@);
        match &tokens[at] {
            TokenTree::Punct { ch, span } => {
                if *ch == '$' {
                    let next = at + 1;
                    proof {
                        if next < tokens@.len() {
                            assert(views[next as int] == tokens@[next as int]@);
                        }
                        if next + 1 < tokens@.len() {
                            assert(views[next + 1] == tokens@[next + 1]@);
                        }
                    }
                    let name = if next < tokens.len() {
                        match &tokens[next] {
                            TokenTree::Ident { name, .. } => Some(name.clone()),
                            _ => None,
                        }
                    } else {
                        None
                    };
                    match name {
                        Some(name) => {
                            if next + 1 < tokens.len() && tokens[next + 1].is_punct(':') {
                                *pos = next + 2;
                                match self.parse_term(tokens, pos, is_silent) {
                                    Ok(inner) => {
                                        let (t, q) = into_term(inner);
                                        Ok(SpecialTerm::Binding(name, t, q))
                                    },
                                    Err(e) => Err(e),
                                }
                            } else {
                                Err(Error::new(*span, "expected ':' token."))
                            }
                        },
                        None => Err(Error::new(*span, "expected ident behind binding declaration")),
                    }
                } else if *ch == '!' {
                    match self.parse_term(tokens, pos, is_silent) {
                        Ok(inner) => {
                            let (t, q) = into_term(inner);
                            self.requantify(
                                tokens,
                                pos,
                                is_silent,
                                SpecialTerm::NegativeLookahead(t, q),
                            )
                        },
                        Err(e) => Err(e),
                    }
                } else if *ch == '_' {
                    match self.parse_term(tokens, pos, true) {
                        Ok(inner) => self.requantify(tokens, pos, true, inner),
                        Err(e) => Err(e),
                    }
                } else {
                    Err(Error::new(*span, "unexpected token"))
                }
            },
            _ => Err(Error::new(Span(0, 0), "unexpected token")),
        }
    }

    /// Compiles the terms from `pos` up to the next `|` or the end and
    /// moves `pos` there.
    pub fn parse_terms(
        &mut self,
        tokens: &[TokenTree],
        pos: &mut usize,
        is_silent: bool,
    ) -> (r: Result<Alternative, Error>)
        ensures
            *final(self) == *old(self),
            match syntax_terms(tokens_view(tokens@), *old(pos) as int, is_silent, old(self)@) {
                Ok((terms, end)) => r matches Ok(v) && v@ == terms && *final(pos) == end,
                Err(f) => r matches Err(e) && e@ == f,
            },
            r is Ok && *old(pos) <= tokens@.len() ==> *old(pos) <= *final(pos) <= tokens@.len(),
        decreases tokens@, 4int, tokens@.len() - *old(pos), 0int,
    {
        let ghost views = tokens_view(tokens@);
        let at = *pos;
        if at >= tokens.len() {
            let a = Alternative { terms: Vec::new() };
            assert(a@ =~= Seq::<SpecialView>::empty());
            return Ok(a);
        }
        assert(views[at as int] == tokens@[at as int]@);
        if tokens[at].is_punct('|') {
            let a = Alternative { terms: Vec::new() };
            assert(a@ =~= Seq::<SpecialView>::empty());
            return Ok(a);
        }
        let first = match self.parse_term(tokens, pos, is_silent) {
            Ok(t) => t,
            Err(e) => {
                return Err(e);
            },
        };
        if *pos <= at || *pos > tokens.len() {
            let mut terms: Vec<SpecialTerm> = Vec::new();
            terms.push(first);
            let a = Alternative { terms };
            assert(a@ =~= seq![first@]);
            return Ok(a);
        }
        match self.parse_terms(tokens, pos, is_silent) {
            Ok(rest) => {
                let mut terms = rest.terms;
                terms.insert(0, first);
                let a = Alternative { terms };
                assert(a@ =~= seq![first@] + rest@);
                Ok(a)
            },
            Err(e) => Err(e),
        }
    }

    /// Compiles the alternatives from `pos` on into a choice and moves
    /// `pos` to the end of the tokens.
    pub fn parse_alternative(
        &mut self,
        tokens: &[TokenTree],
        pos: &mut usize,
        is_silent: bool,
    ) -> (r:
        Result<Alternatives, Error>)
        ensures
            *final(self) == *old(self),
            match syntax_alternative(
                tokens_view(tokens@),
                *old(pos) as int,
                is_silent,
                old(self)@,
            ) {
                Ok(alts) => r matches Ok(v) && v@ == alts,
                Err(f) => r matches Err(e) && e@ == f,
            },
        decreases tokens@, 6int, tokens@.len() - *old(pos), 0int,
    {
        match self.parse_choice(tokens, pos, is_silent) {
            Ok(alternatives) => {
                let a = Alternatives { preparse: Vec::new(), alternatives };
                assert(a@.preparse =~= Seq::<SpecialView>::empty());
                Ok(a)
            },
            Err(e) => Err(e),
        }
    }

    /// Compiles the alternatives from `pos` on.
    fn parse_choice(
        &mut self,
        tokens: &[TokenTree],
        pos: &mut usize,
        is_silent: bool,
    ) -> (r: Result<
        Vec<Alternative>,
        Error,
    >)
        ensures
            *final(self) == *old(self),
            match syntax_choice(tokens_view(tokens@), *old(pos) as int, is_silent, old(self)@) {
                Ok(alts,) => r matches Ok(v) && crate::ast::choice_view(v@) == alts,
                Err(f) => r matches Err(e) && e@ == f,
            },
        decreases tokens@, 5int, tokens@.len() - *old(pos), 0int,
    {
        let at = *pos;
        if at >= tokens.len() {
            let v: Vec<Alternative> = Vec::new();
            assert(crate::ast::choice_view(v@) =~= Seq::<Seq<SpecialView>>::empty());
            return Ok(v);
        }
        let first = match self.parse_terms(tokens, pos, is_silent) {
            Ok(a) => a,
            Err(e) => {
                return Err(e);
            },
        };
        if *pos < tokens.len() {
            *pos = *pos + 1;
        }
        if *pos <= at || *pos > tokens.len() {
            let mut v: Vec<Alternative> = Vec::new();
            v.push(first);
            assert(crate::ast::choice_view(v@) =~= seq![first@]);
            return Ok(v);
        }
        match self.parse_choice(tokens, pos, is_silent) {
            Ok(rest) => {
                let mut v = rest;
                let ghost tail = v@;
                v.insert(0, first);
                assert(crate::ast::choice_view(v@) =~= seq![first@] + crate::ast::choice_view(tail));
                Ok(v)
            },
            Err(e) => Err(e),
        }
    }

    /// Compiles a grammar from its tokens, after asking `syn` what the
    /// literals among them stand for. The result is the one that the syntax
    /// gives for what the parser knew and what `syn` answered. Where no
    /// literal stands among the tokens, nothing is asked, and the result is
    /// the one that the syntax gives for what the parser knew.
    pub fn parse2(self, tokens: Vec<TokenTree>) -> (r: Result<Alternatives, Error>)
        ensures
            compiles(self@, tokens_view(tokens@), r),
            no_literal(tokens_view(tokens@)) ==> compiled_as(self@, tokens_view(tokens@), r),
    {
        let mut parser = self;
        parser.resolve(tokens.as_slice());
        proof {
            if no_literal(tokens_view(tokens@)) {
                lemma_nothing_learned(parser@, self@, tokens_view(tokens@));
            }
        }
        let mut pos: usize = 0;
        parser.parse_alternative(tokens.as_slice(), &mut pos, false)
    }
}

} // verus!
