use vstd::prelude::*;

use crate::attrs::{attributes_match, extracted, is_marker, metas, opt_view, parse_attrs};
use crate::render::{
    is_punct, lemma_concat_no_nl, lemma_hidden_docs, lemma_hidden_docs_deleted, plain, plain_tok, push_tokens,
    render_bare, render_toks,
};
use crate::snippet::Snippet;
use crate::source::{parse_source, syntax_of};
use crate::syntax::{AttrMeta, Decl, DeclKind, Delim, SourceFile, Tok};
use crate::text::push_char;

verus! {

pub open spec fn is_bracket(t: Tok) -> bool {
    t is Group && t->Group_0 is Bracket
}

pub open spec fn is_brace(t: Tok) -> bool {
    t is Group && t->Group_0 is Brace
}

/// The attribute reading carried by a bracket group.
pub open spec fn attr_meta(t: Tok) -> Option<AttrMeta> {
    if t is Group {
        t->Group_2
    } else {
        None
    }
}

pub open spec fn opt_seq(m: Option<AttrMeta>) -> Seq<AttrMeta> {
    match m {
        Some(x) => seq![x],
        None => seq![],
    }
}

/// `#` and a bracket group: an outer attribute.
pub open spec fn outer_at(ts: Seq<Tok>) -> bool {
    ts.len() >= 2 && is_punct(ts[0], '#') && is_bracket(ts[1])
}

/// `#`, `!` and a bracket group: an inner attribute.
pub open spec fn inner_at(ts: Seq<Tok>) -> bool {
    ts.len() >= 3 && is_punct(ts[0], '#') && is_punct(ts[1], '!') && is_bracket(ts[2])
}

/// The number of outer attributes that `ts` opens with.
pub open spec fn outer_count(ts: Seq<Tok>) -> nat
    decreases ts.len(),
{
    if outer_at(ts) {
        1 + outer_count(ts.subrange(2, ts.len() as int))
    } else {
        0
    }
}

/// The number of inner attributes that `ts` opens with.
pub open spec fn inner_count(ts: Seq<Tok>) -> nat
    decreases ts.len(),
{
    if inner_at(ts) {
        1 + inner_count(ts.subrange(3, ts.len() as int))
    } else {
        0
    }
}

/// The readings of the outer attributes that `ts` opens with.
pub open spec fn outer_metas(ts: Seq<Tok>) -> Seq<AttrMeta>
    decreases ts.len(),
{
    if outer_at(ts) {
        opt_seq(attr_meta(ts[1])) + outer_metas(ts.subrange(2, ts.len() as int))
    } else {
        seq![]
    }
}

pub open spec fn inner_metas(ts: Seq<Tok>) -> Seq<AttrMeta>
    decreases ts.len(),
{
    if inner_at(ts) {
        opt_seq(attr_meta(ts[2])) + inner_metas(ts.subrange(3, ts.len() as int))
    } else {
        seq![]
    }
}

/// An attribute that stays in the text: any but a marker.
pub open spec fn kept(t: Tok) -> bool {
    match attr_meta(t) {
        Some(m) => !is_marker(m),
        None => true,
    }
}

/// The text of the outer attributes that `ts` opens with, markers left out.
pub open spec fn outer_text(ts: Seq<Tok>, hidden: bool) -> Seq<char>
    decreases ts.len(),
{
    if outer_at(ts) {
        (if kept(ts[1]) {
            render_toks(ts.subrange(0, 2), hidden)
        } else {
            seq![]
        }) + outer_text(ts.subrange(2, ts.len() as int), hidden)
    } else {
        seq![]
    }
}

/// The text of the inner attributes that `ts` opens with, markers left out.
pub open spec fn inner_text(ts: Seq<Tok>, hidden: bool) -> Seq<char>
    decreases ts.len(),
{
    if inner_at(ts) {
        (if kept(ts[2]) {
            render_toks(ts.subrange(0, 3), hidden)
        } else {
            seq![]
        }) + inner_text(ts.subrange(3, ts.len() as int), hidden)
    } else {
        seq![]
    }
}

/// The kinds of declaration whose body opens with their inner attributes.
pub open spec fn braced_kind(k: DeclKind) -> bool {
    !(k is Other)
}

fn is_braced(k: &DeclKind) -> (r: bool)
    ensures
        r == braced_kind(*k),
{
    match k {
        DeclKind::Other => false,
        _ => true,
    }
}

/// The name that a declaration takes when a marker gives none: its identifier, for every
/// kind of declaration that declares one.
pub open spec fn default_name(d: Decl) -> Option<Seq<char>> {
    opt_view(d.ident)
}

pub fn get_default_snippet_name(d: &Decl) -> (r: Option<String>)
    ensures
        opt_view(r) == default_name(*d),
{
    match &d.ident {
        Some(x) => Some(x.clone()),
        None => None,
    }
}

/// The tokens of a declaration after its outer attributes.
pub open spec fn after_outer(d: Decl) -> Seq<Tok> {
    d.tokens@.subrange(2 * outer_count(d.tokens@) as int, d.tokens@.len() as int)
}

/// Whether the declaration ends in a body whose inner attributes (and, for a module, whose
/// declarations) are handled one by one.
pub open spec fn has_body(d: Decl) -> bool {
    (braced_kind(d.kind) || d.children is Some) && after_outer(d).len() > 0 && is_brace(after_outer(d).last())
}

/// The contents of the body.
pub open spec fn body_stream(d: Decl) -> Seq<Tok> {
    after_outer(d).last()->Group_1@
}

/// The readings of all attributes of a declaration: outer ones, then inner ones.
pub open spec fn decl_metas(d: Decl) -> Seq<AttrMeta> {
    outer_metas(d.tokens@) + if has_body(d) {
        inner_metas(body_stream(d))
    } else {
        seq![]
    }
}

/// The text of a declaration with every marker removed, from it and, in a module, from the
/// declarations inside.
pub open spec fn decl_text(d: Decl, hidden: bool) -> Seq<char>
    decreases d,
{
    let rest = after_outer(d);
    outer_text(d.tokens@, hidden) + if has_body(d) {
        let body = body_stream(d);
        let contents = match d.children {
            Some(ch) => decls_text(ch@, hidden),
            None => render_toks(body.subrange(3 * inner_count(body) as int, body.len() as int), hidden),
        };
        render_toks(rest.drop_last(), hidden) + seq!['{'] + inner_text(body, hidden) + contents
            + seq!['}', ' ']
    } else {
        render_toks(rest, hidden)
    }
}

pub open spec fn decls_text(ds: Seq<Decl>, hidden: bool) -> Seq<char>
    decreases ds,
{
    if ds.len() == 0 {
        seq![]
    } else {
        decls_text(ds.drop_last(), hidden) + decl_text(ds.last(), hidden)
    }
}

fn bracket_meta(t: &Tok) -> (r: (bool, Option<&AttrMeta>))
    ensures
        r.0 == is_bracket(*t),
        r.1 is Some <==> attr_meta(*t) is Some,
        r.1 is Some ==> *r.1->0 == attr_meta(*t)->0,
{
    match t {
        Tok::Group(d, _, m) => {
            let b = match d {
                Delim::Bracket => true,
                _ => false,
            };
            match m {
                Some(x) => (b, Some(x)),
                None => (b, None),
            }
        },
        _ => (false, None),
    }
}

fn punct_is(t: &Tok, c: char) -> (r: bool)
    ensures
        r == is_punct(*t, c),
{
    match t {
        Tok::Punct(x, _) => *x == c,
        _ => false,
    }
}

fn outer_here(ts: &Vec<Tok>, i: usize) -> (r: bool)
    requires
        i <= ts@.len(),
    ensures
        r == outer_at(ts@.subrange(i as int, ts@.len() as int)),
{
    let ghost t = ts@.subrange(i as int, ts@.len() as int);
    if ts.len() - i >= 2 {
        assert(t[0] == ts@[i as int] && t[1] == ts@[i + 1]);
        punct_is(&ts[i], '#') && bracket_meta(&ts[i + 1]).0
    } else {
        false
    }
}

fn inner_here(ts: &Vec<Tok>, i: usize) -> (r: bool)
    requires
        i <= ts@.len(),
    ensures
        r == inner_at(ts@.subrange(i as int, ts@.len() as int)),
{
    let ghost t = ts@.subrange(i as int, ts@.len() as int);
    if ts.len() - i >= 3 {
        assert(t[0] == ts@[i as int] && t[1] == ts@[i + 1] && t[2] == ts@[i + 2]);
        punct_is(&ts[i], '#') && punct_is(&ts[i + 1], '!') && bracket_meta(&ts[i + 2]).0
    } else {
        false
    }
}

fn keeps(t: &Tok) -> (r: bool)
    ensures
        r == kept(*t),
{
    match bracket_meta(t).1 {
        Some(m) => !crate::attrs::is_snippet_path(crate::attrs::path_of(m)),
        None => true,
    }
}

/// Walks the outer attributes that `ts` opens with: appends their readings to `ms` and the
/// text of those that are not markers to `out`; returns where they end.
fn scan_outer<'a>(ts: &'a Vec<Tok>, ms: &mut Vec<&'a AttrMeta>, out: &mut String, hidden: bool) -> (r: usize)
    ensures
        r == 2 * outer_count(ts@),
        r <= ts@.len(),
        metas(final(ms)@) == metas(old(ms)@) + outer_metas(ts@),
        final(out)@ == old(out)@ + outer_text(ts@, hidden),
{
    let ghost m0 = metas(ms@);
    let ghost o0 = out@;
    let n = ts.len();
    let mut i: usize = 0;
    assert(ts@.subrange(0, n as int) =~= ts@);
    while outer_here(ts, i)
        invariant
            i <= n,
            n == ts@.len(),
            i as int + 2 * outer_count(ts@.subrange(i as int, n as int)) == 2 * outer_count(ts@),
            metas(ms@) + outer_metas(ts@.subrange(i as int, n as int)) == m0 + outer_metas(ts@),
            out@ + outer_text(ts@.subrange(i as int, n as int), hidden) == o0 + outer_text(ts@, hidden),
        decreases n - i,
    {
        let ghost t = ts@.subrange(i as int, n as int);
        let ghost (mp, op) = (metas(ms@), out@);
        assert(t.subrange(2, t.len() as int) =~= ts@.subrange(i + 2, n as int));
        assert(t.subrange(0, 2) =~= ts@.subrange(i as int, i + 2));
        assert(t[1] == ts@[i + 1]);
        if let Some(m) = bracket_meta(&ts[i + 1]).1 {
            ms.push(m);
            assert(metas(ms@) =~= mp + seq![*m]);
        }
        assert(metas(ms@) + outer_metas(ts@.subrange(i + 2, n as int)) =~= mp + outer_metas(t));
        if keeps(&ts[i + 1]) {
            push_tokens(out, ts, i, i + 2, hidden);
        }
        assert(out@ + outer_text(ts@.subrange(i + 2, n as int), hidden) =~= op + outer_text(t, hidden));
        i += 2;
    }
    assert(metas(ms@) =~= m0 + outer_metas(ts@));
    assert(out@ =~= o0 + outer_text(ts@, hidden));
    i
}

/// The same for the inner attributes that `ts` opens with.
fn scan_inner<'a>(ts: &'a Vec<Tok>, ms: &mut Vec<&'a AttrMeta>, out: &mut String, hidden: bool) -> (r: usize)
    ensures
        r == 3 * inner_count(ts@),
        r <= ts@.len(),
        metas(final(ms)@) == metas(old(ms)@) + inner_metas(ts@),
        final(out)@ == old(out)@ + inner_text(ts@, hidden),
{
    let ghost m0 = metas(ms@);
    let ghost o0 = out@;
    let n = ts.len();
    let mut i: usize = 0;
    assert(ts@.subrange(0, n as int) =~= ts@);
    while inner_here(ts, i)
        invariant
            i <= n,
            n == ts@.len(),
            i as int + 3 * inner_count(ts@.subrange(i as int, n as int)) == 3 * inner_count(ts@),
            metas(ms@) + inner_metas(ts@.subrange(i as int, n as int)) == m0 + inner_metas(ts@),
            out@ + inner_text(ts@.subrange(i as int, n as int), hidden) == o0 + inner_text(ts@, hidden),
        decreases n - i,
    {
        let ghost t = ts@.subrange(i as int, n as int);
        let ghost (mp, op) = (metas(ms@), out@);
        assert(t.subrange(3, t.len() as int) =~= ts@.subrange(i + 3, n as int));
        assert(t.subrange(0, 3) =~= ts@.subrange(i as int, i + 3));
        assert(t[2] == ts@[i + 2]);
        if let Some(m) = bracket_meta(&ts[i + 2]).1 {
            ms.push(m);
            assert(metas(ms@) =~= mp + seq![*m]);
        }
        assert(metas(ms@) + inner_metas(ts@.subrange(i + 3, n as int)) =~= mp + inner_metas(t));
        if keeps(&ts[i + 2]) {
            push_tokens(out, ts, i, i + 3, hidden);
        }
        assert(out@ + inner_text(ts@.subrange(i + 3, n as int), hidden) =~= op + inner_text(t, hidden));
        i += 3;
    }
    assert(metas(ms@) =~= m0 + inner_metas(ts@));
    assert(out@ =~= o0 + inner_text(ts@, hidden));
    i
}

proof fn lemma_outer_count_bound(ts: Seq<Tok>)
    ensures
        2 * outer_count(ts) <= ts.len(),
    decreases ts.len(),
{
    if outer_at(ts) {
        lemma_outer_count_bound(ts.subrange(2, ts.len() as int));
    }
}

fn brace_stream(t: &Tok) -> (r: Option<&Vec<Tok>>)
    ensures
        r is Some <==> is_brace(*t),
        r is Some ==> *r->0 == t->Group_1,
{
    match t {
        Tok::Group(Delim::Brace, inner, _) => Some(inner),
        _ => None,
    }
}

/// The text of a declaration's contents: its body's declarations, or the rest of its body.
pub open spec fn contents_text(d: Decl, hidden: bool) -> Seq<char>
    decreases d,
{
    let body = body_stream(d);
    match d.children {
        Some(ch) => decls_text(ch@, hidden),
        None => render_toks(body.subrange(3 * inner_count(body) as int, body.len() as int), hidden),
    }
}

proof fn lemma_decl_text_unfold(d: Decl, hidden: bool)
    ensures
        decl_text(d, hidden) == outer_text(d.tokens@, hidden) + if has_body(d) {
            render_toks(after_outer(d).drop_last(), hidden) + seq!['{'] + inner_text(body_stream(d), hidden)
                + contents_text(d, hidden) + seq!['}', ' ']
        } else {
            render_toks(after_outer(d), hidden)
        },
{
}

/// Appends the marker-free text of a declaration (see `decl_text`).
#[verifier::rlimit(40)]
fn push_decl_text(out: &mut String, d: &Decl, hidden: bool)
    ensures
        final(out)@ == old(out)@ + decl_text(*d, hidden),
    decreases *d,
{
    let ghost o0 = out@;
    proof {
        lemma_decl_text_unfold(*d, hidden);
    }
    let ts = &d.tokens;
    let mut scratch: Vec<&AttrMeta> = Vec::new();
    let k = scan_outer(ts, &mut scratch, out, hidden);
    let ghost o1 = out@;
    let n = ts.len();
    let ghost rest = after_outer(*d);
    assert(rest =~= ts@.subrange(k as int, n as int));
    let wants_body = is_braced(&d.kind) || d.children.is_some();
    if wants_body && k < n && brace_stream(&ts[n - 1]).is_some() {
        assert(rest.last() == ts@[n - 1]);
        assert(has_body(*d));
        let inner = brace_stream(&ts[n - 1]).unwrap();
        assert(inner@ == body_stream(*d));
        push_tokens(out, ts, k, n - 1, hidden);
        assert(rest.drop_last() =~= ts@.subrange(k as int, n - 1));
        push_char(out, '{');
        let mut scratch2: Vec<&AttrMeta> = Vec::new();
        let m = scan_inner(inner, &mut scratch2, out, hidden);
        let ghost o2 = out@;
        push_contents(out, d, inner, m, hidden);
        push_char(out, '}');
        push_char(out, ' ');
        assert(out@ =~= o1 + (render_toks(rest.drop_last(), hidden) + seq!['{'] + inner_text(body_stream(*d), hidden)
            + contents_text(*d, hidden) + seq!['}', ' ']));
    } else {
        proof {
            if k < n {
                assert(rest.last() == ts@[n - 1]);
            }
        }
        assert(!has_body(*d));
        push_tokens(out, ts, k, n, hidden);
    }
}

fn push_contents(out: &mut String, d: &Decl, inner: &Vec<Tok>, m: usize, hidden: bool)
    requires
        has_body(*d),
        inner@ == body_stream(*d),
        m == 3 * inner_count(inner@),
        m <= inner@.len(),
    ensures
        final(out)@ == old(out)@ + contents_text(*d, hidden),
    decreases *d, 0nat,
{
    match &d.children {
        Some(ch) => {
            assert(decreases_to!(*d => d.children));
            push_decls_text(out, ch, hidden);
        },
        None => {
            push_tokens(out, inner, m, inner.len(), hidden);
        },
    }
}

/// Appends the marker-free texts of declarations, one after the other.
fn push_decls_text(out: &mut String, ds: &Vec<Decl>, hidden: bool)
    ensures
        final(out)@ == old(out)@ + decls_text(ds@, hidden),
    decreases ds@,
{
    let ghost o0 = out@;
    let mut i: usize = 0;
    assert(ds@.subrange(0, 0) =~= Seq::<Decl>::empty());
    while i < ds.len()
        invariant
            i <= ds@.len(),
            out@ == o0 + decls_text(ds@.subrange(0, i as int), hidden),
        decreases ds.len() - i,
    {
        assert(ds@.subrange(0, i + 1).drop_last() =~= ds@.subrange(0, i as int));
        assert(decreases_to!(ds@ => ds@[i as int]));
        push_decl_text(out, &ds[i], hidden);
        assert(out@ =~= o0 + decls_text(ds@.subrange(0, i + 1), hidden));
        i += 1;
    }
    assert(ds@.subrange(0, ds@.len() as int) =~= ds@);
}

/// The readings of a declaration's attributes (see `decl_metas`).
fn collect_decl_metas(d: &Decl) -> (r: Vec<&AttrMeta>)
    ensures
        metas(r@) == decl_metas(*d),
{
    let ts = &d.tokens;
    let mut ms: Vec<&AttrMeta> = Vec::new();
    let mut scratch = String::new();
    assert(metas(ms@) =~= Seq::<AttrMeta>::empty());
    let k = scan_outer(ts, &mut ms, &mut scratch, false);
    let n = ts.len();
    let ghost rest = after_outer(*d);
    assert(rest =~= ts@.subrange(k as int, n as int));
    let wants_body = is_braced(&d.kind) || d.children.is_some();
    if wants_body && k < n && brace_stream(&ts[n - 1]).is_some() {
        assert(rest.last() == ts@[n - 1]);
        let inner = brace_stream(&ts[n - 1]).unwrap();
        scan_inner(inner, &mut ms, &mut scratch, false);
    } else {
        proof {
            if k < n {
                assert(rest.last() == ts@[n - 1]);
            }
        }
        assert(metas(ms@) =~= decl_metas(*d));
    }
    ms
}

/// A fragment that the declaration `d` gives: its attributes are those of its markers and
/// identifier, its body the declaration's marker-free text.
pub open spec fn fragment_of(s: Snippet, d: Decl) -> bool {
    &&& attributes_match(s.attrs, decl_metas(d), default_name(d))
    &&& s.content@ == decl_text(d, s.attrs.doc_hidden)
}

/// Whether the declaration yields a fragment.
pub open spec fn marked(d: Decl) -> bool {
    extracted(decl_metas(d), default_name(d))
}

/// The fragment of one declaration, if it is marked and can be named.
pub fn get_snippet_from_item(d: &Decl) -> (r: Option<Snippet>)
    ensures
        r is Some <==> marked(*d),
        r is Some ==> fragment_of(r->0, *d),
{
    let ms = collect_decl_metas(d);
    let default = get_default_snippet_name(d);
    match parse_attrs(&ms, default) {
        None => None,
        Some(attrs) => {
            let mut content = String::new();
            push_decl_text(&mut content, d, attrs.doc_hidden);
            assert(content@ =~= decl_text(*d, attrs.doc_hidden));
            Some(Snippet { attrs, content })
        },
    }
}

/// The declarations that yield fragments, depth first: a declaration, then those inside it.
pub open spec fn decl_frags(d: Decl) -> Seq<Decl>
    decreases d,
{
    (if marked(d) {
        seq![d]
    } else {
        seq![]
    }) + match d.children {
        Some(ch) => decls_frags(ch@),
        None => seq![],
    }
}

pub open spec fn decls_frags(ds: Seq<Decl>) -> Seq<Decl>
    decreases ds,
{
    if ds.len() == 0 {
        seq![]
    } else {
        decls_frags(ds.drop_last()) + decl_frags(ds.last())
    }
}

/// The fragments `r` are those of the declarations `ds`, in order.
pub open spec fn fragments_of(r: Seq<Snippet>, ds: Seq<Decl>) -> bool {
    r.len() == ds.len() && forall|i: int| 0 <= i < r.len() ==> fragment_of(#[trigger] r[i], ds[i])
}

proof fn lemma_fragments_append(r1: Seq<Snippet>, d1: Seq<Decl>, r2: Seq<Snippet>, d2: Seq<Decl>)
    requires
        fragments_of(r1, d1),
        fragments_of(r2, d2),
    ensures
        fragments_of(r1 + r2, d1 + d2),
{
    assert forall|i: int| 0 <= i < (r1 + r2).len() implies fragment_of(#[trigger] (r1 + r2)[i], (d1 + d2)[i]) by {
        if i < r1.len() {
            assert((r1 + r2)[i] == r1[i] && (d1 + d2)[i] == d1[i]);
        } else {
            assert((r1 + r2)[i] == r2[i - r1.len()] && (d1 + d2)[i] == d2[i - r1.len()]);
        }
    }
}

/// The fragments of a declaration and, in a module, of every declaration inside it.
pub fn get_snippet_from_item_recursive(d: &Decl) -> (r: Vec<Snippet>)
    ensures
        fragments_of(r@, decl_frags(*d)),
    decreases *d,
{
    let mut res: Vec<Snippet> = Vec::new();
    match get_snippet_from_item(d) {
        Some(s) => {
            res.push(s);
            assert(fragments_of(res@, seq![*d]));
        },
        None => {
            assert(fragments_of(res@, Seq::<Decl>::empty()));
        },
    }
    let ghost head = if marked(*d) { seq![*d] } else { Seq::<Decl>::empty() };
    match &d.children {
        Some(ch) => {
            assert(decreases_to!(*d => d.children));
            let mut more = get_snippets_from_items(ch);
            let ghost r1 = res@;
            let ghost r2 = more@;
            res.append(&mut more);
            proof {
                lemma_fragments_append(r1, head, r2, decls_frags(ch@));
                assert(res@ =~= r1 + r2);
            }
        },
        None => {
            assert(head + Seq::<Decl>::empty() =~= head);
        },
    }
    res
}

/// The fragments of declarations, one after the other.
pub fn get_snippets_from_items(ds: &Vec<Decl>) -> (r: Vec<Snippet>)
    ensures
        fragments_of(r@, decls_frags(ds@)),
    decreases ds@,
{
    let mut res: Vec<Snippet> = Vec::new();
    let mut i: usize = 0;
    assert(ds@.subrange(0, 0) =~= Seq::<Decl>::empty());
    while i < ds.len()
        invariant
            i <= ds@.len(),
            fragments_of(res@, decls_frags(ds@.subrange(0, i as int))),
        decreases ds.len() - i,
    {
        assert(ds@.subrange(0, i + 1).drop_last() =~= ds@.subrange(0, i as int));
        assert(decreases_to!(ds@ => ds@[i as int]));
        let mut more = get_snippet_from_item_recursive(&ds[i]);
        let ghost r1 = res@;
        let ghost r2 = more@;
        res.append(&mut more);
        proof {
            lemma_fragments_append(r1, decls_frags(ds@.subrange(0, i as int)), r2, decl_frags(ds@[i as int]));
            assert(res@ =~= r1 + r2);
        }
        i += 1;
    }
    assert(ds@.subrange(0, ds@.len() as int) =~= ds@);
    res
}

/// The readings of a file's own attributes: the inner attributes it opens with.
pub open spec fn file_metas(f: SourceFile) -> Seq<AttrMeta> {
    inner_metas(f.tokens@)
}

/// The text of a whole file with every marker removed.
pub open spec fn file_text(f: SourceFile, hidden: bool) -> Seq<char> {
    inner_text(f.tokens@, hidden) + decls_text(f.items@, hidden)
}

/// A fragment that the whole file gives.
pub open spec fn file_fragment(s: Snippet, f: SourceFile) -> bool {
    &&& attributes_match(s.attrs, file_metas(f), None)
    &&& s.content@ == file_text(f, s.attrs.doc_hidden)
}

/// The fragments of a file `r`: the whole file's first where the file is marked, then
/// those of its declarations, depth first.
pub open spec fn file_fragments(r: Seq<Snippet>, f: SourceFile) -> bool {
    if extracted(file_metas(f), None) {
        r.len() >= 1 && file_fragment(r[0], f) && fragments_of(r.skip(1), decls_frags(f.items@))
    } else {
        fragments_of(r, decls_frags(f.items@))
    }
}

/// All fragments of a file (see `file_fragments`).
pub fn get_snippet_from_file(f: &SourceFile) -> (r: Vec<Snippet>)
    ensures
        file_fragments(r@, *f),
{
    let mut res: Vec<Snippet> = Vec::new();
    let mut ms: Vec<&AttrMeta> = Vec::new();
    let mut scratch = String::new();
    assert(metas(ms@) =~= Seq::<AttrMeta>::empty());
    scan_inner(&f.tokens, &mut ms, &mut scratch, false);
    assert(metas(ms@) =~= file_metas(*f));
    let whole = parse_attrs(&ms, None);
    assert(opt_view(None) == None::<Seq<char>>);
    let is_whole = whole.is_some();
    match whole {
        Some(attrs) => {
            let mut content = String::new();
            let mut scratch2: Vec<&AttrMeta> = Vec::new();
            scan_inner(&f.tokens, &mut scratch2, &mut content, attrs.doc_hidden);
            push_decls_text(&mut content, &f.items, attrs.doc_hidden);
            assert(content@ =~= file_text(*f, attrs.doc_hidden));
            res.push(Snippet { attrs, content });
        },
        None => {},
    }
    let ghost r1 = res@;
    let mut more = get_snippets_from_items(&f.items);
    let ghost r2 = more@;
    res.append(&mut more);
    assert(res@ =~= r1 + r2);
    if is_whole {
        assert(res@.skip(1) =~= r2);
    } else {
        assert(res@ =~= r2);
    }
    res
}

/// Parses a source text and extracts its fragments. A text that does not parse is an error.
pub fn parse_snippet(src: &str) -> (r: Result<Vec<Snippet>, syn::Error>)
    ensures
        r is Ok <==> syntax_of(src@) is Some,
        r is Ok ==> file_fragments(r->Ok_0@, syntax_of(src@)->0),
        r is Ok ==> file_wf(syntax_of(src@)->0),
{
    match parse_source(src) {
        Ok(f) => Ok(get_snippet_from_file(&f)),
        Err(e) => Err(e),
    }
}

/// A declaration whose tokens, and those of the declarations inside it, hold no line feed.
pub open spec fn plain_decl(d: Decl) -> bool
    decreases d,
{
    plain(d.tokens@) && match d.children {
        Some(ch) => forall|i: int| 0 <= i < ch@.len() ==> plain_decl(#[trigger] ch@[i]),
        None => true,
    }
}

proof fn lemma_plain_sub(ts: Seq<Tok>, lo: int, hi: int)
    requires
        plain(ts),
        0 <= lo <= hi <= ts.len(),
    ensures
        plain(ts.subrange(lo, hi)),
{
    assert forall|i: int| 0 <= i < hi - lo implies plain_tok(#[trigger] ts.subrange(lo, hi)[i]) by {
        assert(ts.subrange(lo, hi)[i] == ts[lo + i]);
    }
}

proof fn lemma_outer_text_hidden(ts: Seq<Tok>)
    requires
        plain(ts),
    ensures
        !outer_text(ts, true).contains('\n'),
    decreases ts.len(),
{
    if outer_at(ts) {
        lemma_plain_sub(ts, 2, ts.len() as int);
        lemma_outer_text_hidden(ts.subrange(2, ts.len() as int));
        lemma_plain_sub(ts, 0, 2);
        lemma_hidden_docs(ts.subrange(0, 2));
        let a = if kept(ts[1]) { render_toks(ts.subrange(0, 2), true) } else { Seq::<char>::empty() };
        assert(!Seq::<char>::empty().contains('\n'));
        lemma_concat_no_nl(a, outer_text(ts.subrange(2, ts.len() as int), true));
    } else {
        assert(!Seq::<char>::empty().contains('\n'));
    }
}

proof fn lemma_inner_text_hidden(ts: Seq<Tok>)
    requires
        plain(ts),
    ensures
        !inner_text(ts, true).contains('\n'),
    decreases ts.len(),
{
    if inner_at(ts) {
        lemma_plain_sub(ts, 3, ts.len() as int);
        lemma_inner_text_hidden(ts.subrange(3, ts.len() as int));
        lemma_plain_sub(ts, 0, 3);
        lemma_hidden_docs(ts.subrange(0, 3));
        let a = if kept(ts[2]) { render_toks(ts.subrange(0, 3), true) } else { Seq::<char>::empty() };
        assert(!Seq::<char>::empty().contains('\n'));
        lemma_concat_no_nl(a, inner_text(ts.subrange(3, ts.len() as int), true));
    } else {
        assert(!Seq::<char>::empty().contains('\n'));
    }
}

/// A declaration marked `doc_hidden` is reconstructed without documentation lines: with
/// documentation hidden, the text of a plain declaration has no line feed, which every
/// documentation line ends with.
pub proof fn lemma_decl_hidden_docs(d: Decl)
    requires
        plain_decl(d),
    ensures
        !decl_text(d, true).contains('\n'),
    decreases d,
{
    let ts = d.tokens@;
    lemma_outer_count_bound(ts);
    lemma_outer_text_hidden(ts);
    lemma_decl_text_unfold(d, true);
    let rest = after_outer(d);
    lemma_plain_sub(ts, 2 * outer_count(ts) as int, ts.len() as int);
    let tail = if has_body(d) {
        let body = body_stream(d);
        assert(plain_tok(rest.last()));
        assert(rest.last() == rest[rest.len() - 1]);
        assert(plain(body));
        lemma_plain_sub(rest, 0, rest.len() - 1);
        assert(rest.drop_last() =~= rest.subrange(0, rest.len() - 1));
        lemma_hidden_docs(rest.drop_last());
        lemma_inner_text_hidden(body);
        match d.children {
            Some(ch) => {
                assert(decreases_to!(d => d.children));
                lemma_decls_hidden_docs(ch@);
            },
            None => {
                lemma_inner_count_bound(body);
                lemma_plain_sub(body, 3 * inner_count(body) as int, body.len() as int);
                lemma_hidden_docs(body.subrange(3 * inner_count(body) as int, body.len() as int));
            },
        }
        let t1 = render_toks(rest.drop_last(), true) + seq!['{'];
        let t2 = t1 + inner_text(body, true);
        let t3 = t2 + contents_text(d, true);
        assert(!seq!['{'].contains('\n'));
        assert(!seq!['}', ' '].contains('\n')) by {
            if seq!['}', ' '].contains('\n') {
                let k = choose|k: int| 0 <= k < 2 && seq!['}', ' '][k] == '\n';
            }
        }
        lemma_concat_no_nl(render_toks(rest.drop_last(), true), seq!['{']);
        lemma_concat_no_nl(t1, inner_text(body, true));
        lemma_concat_no_nl(t2, contents_text(d, true));
        lemma_concat_no_nl(t3, seq!['}', ' ']);
        t3 + seq!['}', ' ']
    } else {
        lemma_hidden_docs(rest);
        render_toks(rest, true)
    };
    lemma_concat_no_nl(outer_text(ts, true), tail);
}

proof fn lemma_decls_hidden_docs(ds: Seq<Decl>)
    requires
        forall|i: int| 0 <= i < ds.len() ==> plain_decl(#[trigger] ds[i]),
    ensures
        !decls_text(ds, true).contains('\n'),
    decreases ds,
{
    if ds.len() == 0 {
        assert(!Seq::<char>::empty().contains('\n'));
    } else {
        assert forall|i: int| 0 <= i < ds.len() - 1 implies plain_decl(#[trigger] ds.drop_last()[i]) by {
            assert(ds.drop_last()[i] == ds[i]);
        }
        lemma_decls_hidden_docs(ds.drop_last());
        assert(plain_decl(ds[ds.len() - 1]));
        lemma_decl_hidden_docs(ds.last());
        lemma_concat_no_nl(decls_text(ds.drop_last(), true), decl_text(ds.last(), true));
    }
}

proof fn lemma_inner_count_bound(ts: Seq<Tok>)
    ensures
        3 * inner_count(ts) <= ts.len(),
    decreases ts.len(),
{
    if inner_at(ts) {
        lemma_inner_count_bound(ts.subrange(3, ts.len() as int));
    }
}

proof fn lemma_decls_frags_contains(ds: Seq<Decl>, k: int)
    requires
        0 <= k < ds.len(),
        marked(ds[k]),
    ensures
        decls_frags(ds).contains(ds[k]),
    decreases ds.len(),
{
    let last = ds.last();
    let pre = decls_frags(ds.drop_last());
    if k == ds.len() - 1 {
        let f = decl_frags(last);
        assert(f[0] == last);
        assert((pre + f)[pre.len() as int] == last);
    } else {
        assert(ds.drop_last()[k] == ds[k]);
        lemma_decls_frags_contains(ds.drop_last(), k);
        let j = choose|j: int| 0 <= j < pre.len() && pre[j] == ds[k];
        assert((pre + decl_frags(last))[j] == ds[k]);
    }
}

proof fn lemma_decls_text_split(ds: Seq<Decl>, k: int, hidden: bool)
    requires
        0 <= k < ds.len(),
    ensures
        exists|a: Seq<char>, b: Seq<char>| decls_text(ds, hidden) == a + decl_text(ds[k], hidden) + b,
    decreases ds.len(),
{
    if k == ds.len() - 1 {
        let a = decls_text(ds.drop_last(), hidden);
        assert(decls_text(ds, hidden) == a + decl_text(ds[k], hidden) + Seq::<char>::empty());
    } else {
        assert(ds.drop_last()[k] == ds[k]);
        lemma_decls_text_split(ds.drop_last(), k, hidden);
        let (a, b) = choose|a: Seq<char>, b: Seq<char>|
            decls_text(ds.drop_last(), hidden) == a + decl_text(ds[k], hidden) + b;
        let c = b + decl_text(ds.last(), hidden);
        assert(decls_text(ds, hidden) =~= a + decl_text(ds[k], hidden) + c);
    }
}

/// A declaration as the parser gives it: a module with declarations inside ends in the
/// body that holds them, and so does every module inside it.
pub open spec fn wf_decl(d: Decl) -> bool
    decreases d,
{
    match d.children {
        Some(ch) => has_body(d) && forall|i: int| 0 <= i < ch@.len() ==> wf_decl(#[trigger] ch@[i]),
        None => true,
    }
}

/// Every declaration of the file is as the parser gives it (see `wf_decl`).
pub open spec fn file_wf(f: SourceFile) -> bool {
    forall|i: int| 0 <= i < f.items@.len() ==> wf_decl(#[trigger] f.items@[i])
}

/// A marked module with a marked declaration inside yields a fragment for itself, first,
/// and one for that declaration; the module's text holds the declaration's marker-free text.
pub proof fn lemma_module_recursion(d: Decl, k: int, hidden: bool)
    requires
        wf_decl(d),
        marked(d),
        d.children is Some,
        0 <= k < d.children->0@.len(),
        marked(d.children->0@[k]),
    ensures
        decl_frags(d)[0] == d,
        decl_frags(d).contains(d.children->0@[k]),
        exists|a: Seq<char>, b: Seq<char>|
            decl_text(d, hidden) == a + decl_text(d.children->0@[k], hidden) + b,
{
    lemma_module_fragments(d, k);
    lemma_module_text(d, k, hidden);
}

proof fn lemma_module_fragments(d: Decl, k: int)
    requires
        marked(d),
        d.children is Some,
        0 <= k < d.children->0@.len(),
        marked(d.children->0@[k]),
    ensures
        decl_frags(d)[0] == d,
        decl_frags(d).contains(d.children->0@[k]),
{
    let ch = d.children->0@;
    lemma_decls_frags_contains(ch, k);
    let rest = decls_frags(ch);
    let j = choose|j: int| 0 <= j < rest.len() && rest[j] == ch[k];
    assert(decl_frags(d) == seq![d] + rest);
    assert(decl_frags(d)[j + 1] == ch[k]);
}

proof fn lemma_regroup(p: Seq<char>, a: Seq<char>, m: Seq<char>, b: Seq<char>, c: Seq<char>)
    ensures
        p + (a + m + b) + c == (p + a) + m + (b + c),
{
    assert(p + (a + m + b) + c =~= (p + a) + m + (b + c));
}

proof fn lemma_module_text(d: Decl, k: int, hidden: bool)
    requires
        d.children is Some,
        0 <= k < d.children->0@.len(),
        has_body(d),
    ensures
        exists|a: Seq<char>, b: Seq<char>|
            decl_text(d, hidden) == a + decl_text(d.children->0@[k], hidden) + b,
{
    let ch = d.children->0@;
    lemma_decls_text_split(ch, k, hidden);
    let (a, b) = choose|a: Seq<char>, b: Seq<char>| decls_text(ch, hidden) == a + decl_text(ch[k], hidden) + b;
    lemma_decl_text_unfold(d, hidden);
    let pre = outer_text(d.tokens@, hidden) + (render_toks(after_outer(d).drop_last(), hidden) + seq!['{']
        + inner_text(body_stream(d), hidden));
    let m = decl_text(ch[k], hidden);
    let c = seq!['}', ' '];
    assert(contents_text(d, hidden) == decls_text(ch, hidden));
    assert(decl_text(d, hidden) == pre + (a + m + b) + c) by {
        let x = render_toks(after_outer(d).drop_last(), hidden) + seq!['{'] + inner_text(body_stream(d), hidden);
        assert(decl_text(d, hidden) == outer_text(d.tokens@, hidden) + (x + decls_text(ch, hidden) + c));
        assert(outer_text(d.tokens@, hidden) + (x + (a + m + b) + c) =~= pre + (a + m + b) + c);
    }
    lemma_regroup(pre, a, m, b, c);
}

pub open spec fn outer_bare(ts: Seq<Tok>) -> Seq<char>
    decreases ts.len(),
{
    if outer_at(ts) {
        (if kept(ts[1]) {
            render_bare(ts.subrange(0, 2))
        } else {
            seq![]
        }) + outer_bare(ts.subrange(2, ts.len() as int))
    } else {
        seq![]
    }
}

pub open spec fn inner_bare(ts: Seq<Tok>) -> Seq<char>
    decreases ts.len(),
{
    if inner_at(ts) {
        (if kept(ts[2]) {
            render_bare(ts.subrange(0, 3))
        } else {
            seq![]
        }) + inner_bare(ts.subrange(3, ts.len() as int))
    } else {
        seq![]
    }
}

/// The marker-free text of a declaration from which every documentation attribute, at any
/// depth and in the declarations inside it, has been deleted.
pub open spec fn decl_bare(d: Decl) -> Seq<char>
    decreases d,
{
    let rest = after_outer(d);
    outer_bare(d.tokens@) + if has_body(d) {
        let body = body_stream(d);
        let contents = match d.children {
            Some(ch) => decls_bare(ch@),
            None => render_bare(body.subrange(3 * inner_count(body) as int, body.len() as int)),
        };
        render_bare(rest.drop_last()) + seq!['{'] + inner_bare(body) + contents + seq!['}', ' ']
    } else {
        render_bare(rest)
    }
}

pub open spec fn decls_bare(ds: Seq<Decl>) -> Seq<char>
    decreases ds,
{
    if ds.len() == 0 {
        seq![]
    } else {
        decls_bare(ds.drop_last()) + decl_bare(ds.last())
    }
}

proof fn lemma_outer_bare(ts: Seq<Tok>)
    ensures
        outer_text(ts, true) == outer_bare(ts),
    decreases ts.len(),
{
    if outer_at(ts) {
        lemma_outer_bare(ts.subrange(2, ts.len() as int));
        lemma_hidden_docs_deleted(ts.subrange(0, 2));
    }
}

proof fn lemma_inner_bare(ts: Seq<Tok>)
    ensures
        inner_text(ts, true) == inner_bare(ts),
    decreases ts.len(),
{
    if inner_at(ts) {
        lemma_inner_bare(ts.subrange(3, ts.len() as int));
        lemma_hidden_docs_deleted(ts.subrange(0, 3));
    }
}

/// A declaration marked `doc_hidden`, whatever its tokens, is reconstructed as if every
/// documentation attribute in it had been deleted: no documentation line is emitted.
pub proof fn lemma_decl_docs_deleted(d: Decl)
    ensures
        decl_text(d, true) == decl_bare(d),
    decreases d,
{
    lemma_outer_bare(d.tokens@);
    lemma_decl_text_unfold(d, true);
    let rest = after_outer(d);
    if has_body(d) {
        let body = body_stream(d);
        lemma_hidden_docs_deleted(rest.drop_last());
        lemma_inner_bare(body);
        match d.children {
            Some(ch) => {
                assert(decreases_to!(d => d.children));
                lemma_decls_docs_deleted(ch@);
            },
            None => {
                lemma_hidden_docs_deleted(body.subrange(3 * inner_count(body) as int, body.len() as int));
            },
        }
    } else {
        lemma_hidden_docs_deleted(rest);
    }
}

proof fn lemma_decls_docs_deleted(ds: Seq<Decl>)
    ensures
        decls_text(ds, true) == decls_bare(ds),
    decreases ds,
{
    if ds.len() > 0 {
        lemma_decls_docs_deleted(ds.drop_last());
        lemma_decl_docs_deleted(ds.last());
    }
}

} // verus!
