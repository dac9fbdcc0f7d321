use vstd::prelude::*;

use crate::syntax::{AttrEntry, AttrMeta, Decl, DeclKind, Delim, MetaLit, SourceFile, Tok};
use quote::ToTokens;

verus! {

#[verifier::external_type_specification]
#[verifier::external_body]
pub struct ExSynError(syn::Error);

#[verifier::external_type_specification]
#[verifier::external_body]
pub struct ExSynFile(syn::File);

#[verifier::external_type_specification]
#[verifier::external_body]
pub struct ExSynItem(syn::Item);

#[verifier::external_type_specification]
#[verifier::external_body]
pub struct ExSynMeta(syn::Meta);

#[verifier::external_type_specification]
#[verifier::external_body]
pub struct ExSynMetaList(syn::MetaList);

#[verifier::external_type_specification]
#[verifier::external_body]
pub struct ExSynExpr(syn::Expr);

#[verifier::external_type_specification]
#[verifier::external_body]
pub struct ExSynLit(syn::Lit);

#[verifier::external_type_specification]
#[verifier::external_body]
pub struct ExTokenStream(proc_macro2::TokenStream);

#[verifier::external_type_specification]
#[verifier::external_body]
pub struct ExDelimiter(proc_macro2::Delimiter);

/// The syntax of a source text, as the parser reads it, where it reads as a file; it
/// depends on the text alone.
pub uninterp spec fn syntax_of(src: Seq<char>) -> Option<SourceFile>;

/// Relies on `syn::parse_file`: parses a whole source file, or fails; the file is then
/// taken apart into this library's syntax types. syn prints a module with a body as its
/// outer attributes, its head and last the brace group that holds its declarations
/// (`ToTokens` for `ItemMod`), which is what `file_wf` states.
#[verifier::external_body]
pub(crate) fn parse_source(src: &str) -> (r: Result<SourceFile, syn::Error>)
    ensures
        r is Ok <==> syntax_of(src@) is Some,
        r is Ok ==> r->Ok_0 == syntax_of(src@)->0,
        r is Ok ==> crate::parser::file_wf(r->Ok_0),
{
    syn::parse_file(src).map(|f| SourceFile {
        tokens: tokens_of(f.to_token_stream()),
        items: f.items.iter().map(decl_of).collect(),
    })
}

/// Relies on syn's `ToTokens` for items, and on the fields of `syn::ItemMod`: a declaration,
/// its tokens as printed, and the declarations in a module's body.
#[verifier::external_body]
fn decl_of(item: &syn::Item) -> Decl {
    Decl {
        kind: kind_of(item),
        ident: ident_of(item),
        tokens: tokens_of(item.to_token_stream()),
        children: match item {
            syn::Item::Mod(m) => m.content.as_ref().map(|(_, items)| items.iter().map(decl_of).collect()),
            _ => None,
        },
    }
}

/// Relies on the variants of `syn::Item`.
#[verifier::external_body]
fn kind_of(item: &syn::Item) -> DeclKind {
    match item {
        syn::Item::Fn(_) => DeclKind::Fn,
        syn::Item::Mod(_) => DeclKind::Mod,
        syn::Item::Impl(_) => DeclKind::Impl,
        syn::Item::Trait(_) => DeclKind::Trait,
        syn::Item::ForeignMod(_) => DeclKind::ForeignMod,
        _ => DeclKind::Other,
    }
}

/// Relies on the `ident` fields of syn's items: the identifier of every kind of
/// declaration that declares one (with `type_ident_of`).
#[verifier::external_body]
fn ident_of(item: &syn::Item) -> Option<String> {
    match item {
        syn::Item::Fn(x) => Some(x.sig.ident.to_string()),
        syn::Item::Static(x) => Some(x.ident.to_string()),
        syn::Item::Const(x) => Some(x.ident.to_string()),
        syn::Item::Mod(x) => Some(x.ident.to_string()),
        syn::Item::Struct(x) => Some(x.ident.to_string()),
        syn::Item::Enum(x) => Some(x.ident.to_string()),
        syn::Item::Union(x) => Some(x.ident.to_string()),
        _ => type_ident_of(item),
    }
}

/// Relies on the `ident` fields of syn's items, for the kinds that `ident_of` leaves out.
#[verifier::external_body]
fn type_ident_of(item: &syn::Item) -> Option<String> {
    match item {
        syn::Item::Trait(x) => Some(x.ident.to_string()),
        syn::Item::TraitAlias(x) => Some(x.ident.to_string()),
        syn::Item::Type(x) => Some(x.ident.to_string()),
        syn::Item::ExternCrate(x) => Some(x.ident.to_string()),
        syn::Item::Macro(x) => x.ident.as_ref().map(|i| i.to_string()),
        _ => None,
    }
}

/// Relies on proc_macro2's token trees and their `Display`: each token, with a bracket
/// group's reading as an attribute.
#[verifier::external_body]
fn tokens_of(ts: proc_macro2::TokenStream) -> Vec<Tok> {
    ts.into_iter().map(|t| match t {
        proc_macro2::TokenTree::Group(g) => {
            Tok::Group(delim_of(g.delimiter()), tokens_of(g.stream()), bracket_meta(g.delimiter(), g.stream()))
        },
        proc_macro2::TokenTree::Ident(i) => Tok::Ident(i.to_string()),
        proc_macro2::TokenTree::Punct(p) => Tok::Punct(p.as_char(), matches!(p.spacing(), proc_macro2::Spacing::Alone)),
        proc_macro2::TokenTree::Literal(l) => Tok::Lit(l.to_string()),
    }).collect()
}

/// Relies on `proc_macro2::Delimiter`: its four kinds.
#[verifier::external_body]
fn delim_of(d: proc_macro2::Delimiter) -> Delim {
    match d {
        proc_macro2::Delimiter::Parenthesis => Delim::Paren,
        proc_macro2::Delimiter::Brace => Delim::Brace,
        proc_macro2::Delimiter::Bracket => Delim::Bracket,
        proc_macro2::Delimiter::None => Delim::Invisible,
    }
}

/// Relies on `syn::parse2` for `syn::Meta`: the contents of a bracket group read as an
/// attribute, where they read as one.
#[verifier::external_body]
fn bracket_meta(d: proc_macro2::Delimiter, ts: proc_macro2::TokenStream) -> Option<AttrMeta> {
    match d {
        proc_macro2::Delimiter::Bracket => syn::parse2::<syn::Meta>(ts).ok().and_then(|m| meta_of(&m)),
        _ => None,
    }
}

/// Relies on the variants of `syn::Meta` and on syn's `ToTokens` for paths. A list's
/// entries are read as comma-separated expressions; a name-value reading needs a literal.
#[verifier::external_body]
fn meta_of(m: &syn::Meta) -> Option<AttrMeta> {
    match m {
        syn::Meta::Path(p) => Some(AttrMeta::Path(p.to_token_stream().to_string())),
        syn::Meta::List(l) => list_entries(l).map(|es| AttrMeta::List(l.path.to_token_stream().to_string(), es)),
        syn::Meta::NameValue(nv) => match &nv.value {
            syn::Expr::Lit(l) => Some(AttrMeta::NameValue(nv.path.to_token_stream().to_string(), lit_of(&l.lit))),
            _ => None,
        },
    }
}

/// Relies on `syn::MetaList::parse_args_with` and `Punctuated::parse_terminated`: the
/// entries of a list, where they read as comma-separated expressions.
#[verifier::external_body]
fn list_entries(l: &syn::MetaList) -> Option<Vec<AttrEntry>> {
    l.parse_args_with(syn::punctuated::Punctuated::<syn::Expr, syn::token::Comma>::parse_terminated)
        .ok()
        .map(|es| es.iter().map(entry_of).collect())
}

/// Relies on the variants of `syn::Expr`: a literal, a path, or `path = literal`.
#[verifier::external_body]
fn entry_of(e: &syn::Expr) -> AttrEntry {
    match e {
        syn::Expr::Lit(l) => AttrEntry::Lit(lit_of(&l.lit)),
        syn::Expr::Path(p) => AttrEntry::Meta(AttrMeta::Path(p.path.to_token_stream().to_string())),
        syn::Expr::Assign(a) => match (&*a.left, &*a.right) {
            (syn::Expr::Path(p), syn::Expr::Lit(l)) => {
                AttrEntry::Meta(AttrMeta::NameValue(p.path.to_token_stream().to_string(), lit_of(&l.lit)))
            },
            _ => AttrEntry::Other,
        },
        _ => AttrEntry::Other,
    }
}

/// Relies on `syn::LitStr::value` and syn's `ToTokens` for literals: a literal's text, and
/// a string literal's value.
#[verifier::external_body]
fn lit_of(l: &syn::Lit) -> MetaLit {
    match l {
        syn::Lit::Str(s) => MetaLit::Str { value: s.value(), text: l.to_token_stream().to_string() },
        _ => MetaLit::Other { text: l.to_token_stream().to_string() },
    }
}

} // verus!
