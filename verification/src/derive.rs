//! From the declaration of a type to the rule that parses it.
//!
//! A type becomes a rule by the grammar that is attached to it, or to each
//! of its variants: the attribute `grammar` holds the tokens of the grammar.
//! The fields of the type are what the grammar binds.

use vstd::prelude::*;
use vstd::string::*;
use vstd::utf8::encode_utf8;
use crate::ast_transform::optimised;
use crate::error::{Error, Fault, Span};
use crate::grammar::{
    lemma_nothing_learned, no_literal, same_text, syntax_alternative, tokens_view, Known, Parser,
    TokenTree, TokenView,
};
use crate::semantics::{
    field_names, Definition, DefinitionView, Fields, Shape, ShapeView, Variant, VariantView,
};

verus! {

/// An attribute of a declaration: its name and the tokens between its
/// parentheses.
pub struct Attribute {
    pub path: String,
    pub tokens: Vec<TokenTree>,
}

/// The declaration of a struct.
pub struct StructItem {
    pub name: String,
    /// Where the name stands.
    pub span: Span,
    pub attrs: Vec<Attribute>,
    pub fields: Fields,
}

/// The declaration of a variant of an enum.
pub struct VariantItem {
    pub name: String,
    /// Where the name stands.
    pub span: Span,
    pub attrs: Vec<Attribute>,
    pub fields: Fields,
}

/// The declaration of an enum.
pub struct EnumItem {
    pub name: String,
    pub variants: Vec<VariantItem>,
}

/// A declaration.
pub enum Item {
    Struct(StructItem),
    Enum(EnumItem),
    /// Anything that is neither a struct nor an enum.
    Other,
}

/// The tokens of the first attribute from `i` on that is called `grammar`.
pub open spec fn grammar_of(attrs: Seq<Attribute>, i: int) -> Option<Seq<TokenView>>
    decreases attrs.len() - i,
{
    if i < 0 || i >= attrs.len() {
        None
    } else if encode_utf8(attrs[i].path@) == encode_utf8("grammar"@) {
        Some(tokens_view(attrs[i].tokens@))
    } else {
        grammar_of(attrs, i + 1)
    }
}

/// The form that a declaration with the given name, fields and attributes
/// compiles to, for a parser that knows what `known` knows of literals: its
/// grammar is that of the first attribute `grammar`, compiled and
/// optimised. A declaration without that attribute is a fault at its name.
pub open spec fn compiled(
    name: Seq<char>,
    span: Span,
    attrs: Seq<Attribute>,
    fields: Fields,
    known: Known,
) -> Result<VariantView, Fault> {
    match grammar_of(attrs, 0) {
        Some(tokens) => match syntax_alternative(tokens, 0, false, known) {
            Ok(a) => Ok(VariantView { name, fields: field_names(fields), grammar: optimised(a) }),
            Err(f) => Err(f),
        },
        None => Err(Fault { span, msg: "missing grammar"@ }),
    }
}

/// The forms that the variants from `i` on compile to, or the fault of the
/// first that has one.
pub open spec fn compiled_variants(variants: Seq<VariantItem>, i: int, known: Known) -> Result<
    Seq<VariantView>,
    Fault,
>
    decreases variants.len() - i,
{
    if i < 0 || i >= variants.len() {
        Ok(Seq::empty())
    } else {
        match compiled(
            variants[i].name@,
            variants[i].span,
            variants[i].attrs@,
            variants[i].fields,
            known,
        ) {
            Ok(v) => match compiled_variants(variants, i + 1, known) {
                Ok(rest) => Ok(seq![v] + rest),
                Err(f) => Err(f),
            },
            Err(f) => Err(f),
        }
    }
}

/// Whether `r` is what the struct compiles to for a parser that knows what
/// `known` knows: the rule with the name of the struct, a record with the
/// fields of the struct and the grammar attached to it, or the fault of
/// that grammar.
pub open spec fn struct_compiled(s: StructItem, known: Known, r: Result<Definition, Error>) -> bool {
    match compiled(s.name@, s.span, s.attrs@, s.fields, known) {
        Ok(v) => {
            &&& r matches Ok(def)
            &&& def@ == (DefinitionView { name: s.name@, shape: ShapeView::Record(v) })
            &&& def.shape matches Shape::Record(form)
            &&& form.fields == s.fields
        },
        Err(f) => r matches Err(e) && e@ == f,
    }
}

/// Whether `r` is what the enum compiles to for a parser that knows what
/// `known` knows: the rule with the name of the enum, a union of the forms
/// that its variants compile to, in their order and each with the fields of
/// its variant, or the fault of the first variant that has one.
pub open spec fn enum_compiled(e: EnumItem, known: Known, r: Result<Definition, Error>) -> bool {
    match compiled_variants(e.variants@, 0, known) {
        Ok(forms) => {
            &&& r matches Ok(def)
            &&& def@ == (DefinitionView { name: e.name@, shape: ShapeView::Union(forms) })
            &&& def.shape matches Shape::Union(made)
            &&& made@.len() == e.variants@.len()
            &&& forall|i: int|
                0 <= i < made@.len() ==> (#[trigger] made@[i]).fields == e.variants@[i].fields
        },
        Err(f) => r matches Err(err) && err@ == f,
    }
}

/// Compiles the grammar that is attached to a declaration and puts the form
/// together.
fn compile_variant(
    name: String,
    span: Span,
    attrs: Vec<Attribute>,
    fields: Fields,
    parser: &mut Parser,
) -> (r: Result<Variant, Error>)
    ensures
        *final(parser) == *old(parser),
        match compiled(name@, span, attrs@, fields, old(parser)@) {
            Ok(v) => r matches Ok(form) && form@ == v && form.fields == fields,
            Err(f) => r matches Err(e) && e@ == f,
        },
{
    let mut i: usize = 0;
    while i < attrs.len()
        invariant
            i <= attrs@.len(),
            *parser == *old(parser),
            grammar_of(attrs@, 0) == grammar_of(attrs@, i as int),
        decreases attrs@.len() - i,
    {
        if same_text(attrs[i].path.as_str(), "grammar") {
            let mut pos: usize = 0;
            let mut grammar = match parser.parse_alternative(
                attrs[i].tokens.as_slice(),
                &mut pos,
                false,
            ) {
                Ok(g) => g,
                Err(e) => {
                    return Err(e);
                },
            };
            grammar.optimise();
            return Ok(Variant { name, fields, grammar });
        }
        i = i + 1;
    }
    Err(Error::new(span, "missing grammar"))
}

/// Compiles the declaration of a struct into the rule that parses it: a
/// record with the fields of the struct and the grammar attached to it. The
/// parser says what the literals of the grammar stand for.
pub fn compile_struct(s: StructItem, parser: &mut Parser) -> (r: Result<Definition, Error>)
    ensures
        *final(parser) == *old(parser),
        struct_compiled(s, old(parser)@, r),
{
    let name = s.name.clone();
    match compile_variant(s.name, s.span, s.attrs, s.fields, parser) {
        Ok(v) => Ok(Definition { name, shape: Shape::Record(v) }),
        Err(e) => Err(e),
    }
}

/// Compiles the declaration of an enum into the rule that parses it: a
/// union of the forms that its variants compile to, in their order. The
/// parser says what the literals of the grammars stand for.
pub fn compile_enum(e: EnumItem, parser: &mut Parser) -> (r: Result<Definition, Error>)
    ensures
        *final(parser) == *old(parser),
        enum_compiled(e, old(parser)@, r),
{
    let ghost known = parser@;
    let mut variants = e.variants;
    let mut forms: Vec<Variant> = Vec::new();
    let ghost mut done: Seq<VariantView> = Seq::empty();
    let ghost mut i: int = 0;
    proof {
        match compiled_variants(e.variants@, 0, known) {
            Ok(rest) => {
                assert(done + rest =~= rest);
            },
            Err(_) => {},
        }
        assert(variants@ =~= e.variants@.subrange(0, e.variants@.len() as int));
    }
    while variants.len() > 0
        invariant
            0 <= i <= e.variants@.len(),
            *parser == *old(parser),
            known == old(parser)@,
            variants@ == e.variants@.subrange(i, e.variants@.len() as int),
            forms@.len() == done.len(),
            forms@.len() == i,
            forall|j: int| 0 <= j < done.len() ==> (#[trigger] forms@[j])@ == done[j],
            forall|j: int|
                0 <= j < forms@.len() ==> (#[trigger] forms@[j]).fields == e.variants@[j].fields,
            compiled_variants(e.variants@, 0, known) == match compiled_variants(
                e.variants@,
                i,
                known,
            ) {
                Ok(rest) => Ok::<Seq<VariantView>, Fault>(done + rest),
                Err(f) => Err(f),
            },
        decreases variants@.len(),
    {
        let item = variants.remove(0);
        assert(item == e.variants@[i]);
        match compile_variant(item.name, item.span, item.attrs, item.fields, parser) {
            Ok(v) => {
                proof {
                    match compiled_variants(e.variants@, i + 1, known) {
                        Ok(rest) => {
                            assert(done + (seq![v@] + rest) =~= done.push(v@) + rest);
                        },
                        Err(_) => {},
                    }
                    done = done.push(v@);
                }
                forms.push(v);
            },
            Err(err) => {
                return Err(err);
            },
        }
        proof {
            i = i + 1;
            assert(variants@ =~= e.variants@.subrange(i, e.variants@.len() as int));
        }
    }
    proof {
        assert(done + Seq::<VariantView>::empty() =~= done);
        assert(forms@.map_values(|v: Variant| v@) =~= done);
    }
    Ok(Definition { name: e.name, shape: Shape::Union(forms) })
}

/// Whether no literal stands in a grammar that is attached to a declaration.
pub open spec fn literal_free(attrs: Seq<Attribute>) -> bool {
    forall|i: int| 0 <= i < attrs.len() ==> no_literal(tokens_view((#[trigger] attrs[i]).tokens@))
}

/// Whether no literal stands in a grammar of the declaration.
pub open spec fn without_literals(item: Item) -> bool {
    match item {
        Item::Struct(s) => literal_free(s.attrs@),
        Item::Enum(e) => forall|i: int|
            0 <= i < e.variants@.len() ==> literal_free((#[trigger] e.variants@[i]).attrs@),
        Item::Other => true,
    }
}

/// Asks `syn` what the literals of the grammars stand for that are attached
/// to a declaration. Where they hold no literal, nothing is asked.
fn learn(parser: &mut Parser, attrs: &Vec<Attribute>)
    ensures
        old(parser)@.sound() ==> final(parser)@.sound(),
        literal_free(attrs@) ==> final(parser)@ == old(parser)@,
{
    let mut i: usize = 0;
    while i < attrs.len()
        invariant
            i <= attrs@.len(),
            old(parser)@.sound() ==> parser@.sound(),
            literal_free(attrs@) ==> parser@ == old(parser)@,
        decreases attrs@.len() - i,
    {
        if same_text(attrs[i].path.as_str(), "grammar") {
            let ghost before = parser@;
            parser.resolve(attrs[i].tokens.as_slice());
            proof {
                if literal_free(attrs@) {
                    assert(no_literal(tokens_view(attrs@[i as int].tokens@)));
                    lemma_nothing_learned(parser@, before, tokens_view(attrs@[i as int].tokens@));
                }
            }
        }
        i = i + 1;
    }
}

/// Whether `r` is what a declaration compiles to for what `known` holds of
/// literals. Only structs and enums can be parsed.
pub open spec fn derived_as(item: Item, known: Known, r: Result<Definition, Error>) -> bool {
    match item {
        Item::Struct(s) => struct_compiled(s, known, r),
        Item::Enum(e) => enum_compiled(e, known, r),
        Item::Other => r matches Err(e) && e.span == Span(0, 0) && e.msg@
            == "Parse macro expected struct or enum."@,
    }
}

/// Whether `r` is what a declaration compiles to for something that holds
/// only what is true of literals.
pub open spec fn derived(item: Item, r: Result<Definition, Error>) -> bool {
    exists|known: Known| #[trigger] known.sound() && derived_as(item, known, r)
}

/// Compiles a declaration into the rule that parses it, after asking `syn`
/// what the literals of its grammars stand for. Where its grammars hold no
/// literal, nothing is asked, and the result is the one for a parser that
/// knows of no literal.
pub fn parse_derive(item: Item) -> (r: Result<Definition, Error>)
    ensures
        derived(item, r),
        without_literals(item) ==> derived_as(
            item,
            Known { strings: Seq::empty(), chars: Seq::empty() },
            r,
        ),
{
    let mut parser = Parser::default();
    let ghost none = Known { strings: Seq::empty(), chars: Seq::empty() };
    assert(parser@ == none) by {
        assert(parser@.strings =~= none.strings);
        assert(parser@.chars =~= none.chars);
    }
    assert(parser@.sound());
    match item {
        Item::Struct(s) => {
            learn(&mut parser, &s.attrs);
            let r = compile_struct(s, &mut parser);
            assert(parser@.sound() && derived_as(item, parser@, r));
            r
        },
        Item::Enum(e) => {
            let mut i: usize = 0;
            while i < e.variants.len()
                invariant
                    i <= e.variants@.len(),
                    parser@.sound(),
                    without_literals(item) ==> parser@ == none,
                    item == Item::Enum(e),
                decreases e.variants@.len() - i,
            {
                learn(&mut parser, &e.variants[i].attrs);
                i = i + 1;
            }
            let r = compile_enum(e, &mut parser);
            assert(parser@.sound() && derived_as(item, parser@, r));
            r
        },
        Item::Other => {
            let r = Err(Error::new(Span(0, 0), "Parse macro expected struct or enum."));
            assert(none.sound() && derived_as(item, none, r));
            r
        },
    }
}

} // verus!
