use vstd::prelude::*;

verus! {

/// How a token group is delimited.
pub enum Delim {
    Paren,
    Brace,
    Bracket,
    Invisible,
}

/// A literal as it stands in an attribute: its source text, and for a string literal
/// also its value.
pub enum MetaLit {
    Str { value: String, text: String },
    Other { text: String },
}

/// The structured reading of an attribute's contents: `path`, `path(...)` or `path = lit`.
/// Paths are kept as their token text (`cargo_snippet :: snippet`).
pub enum AttrMeta {
    Path(String),
    List(String, Vec<AttrEntry>),
    NameValue(String, MetaLit),
}

/// One element of a parenthesised attribute list: a reading, a bare literal, or an
/// expression of another form.
pub enum AttrEntry {
    Meta(AttrMeta),
    Lit(MetaLit),
    Other,
}

/// A token tree. A bracketed group also carries the reading of its contents as an
/// attribute, where they read as one.
pub enum Tok {
    Group(Delim, Vec<Tok>, Option<AttrMeta>),
    Ident(String),
    /// A punctuation character, and whether it stands alone (is not joined to the next).
    Punct(char, bool),
    Lit(String),
}

/// The kinds of declaration that the scanner tells apart: those whose body, a brace group
/// at the end, opens with their inner attributes, and all others.
pub enum DeclKind {
    Fn,
    Mod,
    Impl,
    Trait,
    ForeignMod,
    Other,
}

/// A declaration: its tokens as printed, outer attributes first.
pub struct Decl {
    pub kind: DeclKind,
    /// The declared identifier, for every kind of declaration that has one.
    pub ident: Option<String>,
    pub tokens: Vec<Tok>,
    /// For a module with a body, the declarations inside it.
    pub children: Option<Vec<Decl>>,
}

/// A source file: its tokens (inner attributes, then the declarations) and its declarations.
pub struct SourceFile {
    pub tokens: Vec<Tok>,
    pub items: Vec<Decl>,
}

impl MetaLit {
    /// What a literal says as a name: a string's value, another literal's text.
    pub open spec fn name_text(self) -> Seq<char> {
        match self {
            MetaLit::Str { value, .. } => value@,
            MetaLit::Other { text } => text@,
        }
    }

    pub open spec fn text(self) -> Seq<char> {
        match self {
            MetaLit::Str { text, .. } => text@,
            MetaLit::Other { text } => text@,
        }
    }
}

impl AttrMeta {
    pub open spec fn path(self) -> Seq<char> {
        match self {
            AttrMeta::Path(p) => p@,
            AttrMeta::List(p, _) => p@,
            AttrMeta::NameValue(p, _) => p@,
        }
    }
}

} // verus!
