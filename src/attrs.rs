use vstd::prelude::*;

use crate::snippet::{add_new, strs, SnippetAttributes};
use crate::snippet::extend_new;
use crate::syntax::{AttrMeta, MetaLit, AttrEntry};
use crate::text::{chars_of, name_list, split_names, string_of};

verus! {

/// The marker's path, bare or in full.
pub open spec fn marker_path(p: Seq<char>) -> bool {
    p == "snippet"@ || p == "cargo_snippet :: snippet"@
}

pub open spec fn is_marker(m: AttrMeta) -> bool {
    marker_path(m.path())
}

/// Whether two strings hold the same characters.
pub fn same_text(a: &str, b: &str) -> (r: bool)
    ensures
        r == (a@ == b@),
{
    a.to_owned() == b.to_owned()
}

/// Whether an attribute path names the marker.
pub fn is_snippet_path(path: &str) -> (r: bool)
    ensures
        r == marker_path(path@),
{
    same_text(path, "snippet") || same_text(path, "cargo_snippet :: snippet")
}

/// A literal's text without the double quotes around it, if it has them.
pub open spec fn unquoted(s: Seq<char>) -> Seq<char> {
    if s.len() >= 2 && s[0] == '"' && s.last() == '"' {
        s.subrange(1, s.len() - 1)
    } else {
        s
    }
}

pub fn unquote(s: &str) -> (r: String)
    ensures
        r@ == unquoted(s@),
{
    let cs = chars_of(s);
    let n = cs.len();
    if n >= 2 && cs[0] == '"' && cs[n - 1] == '"' {
        string_of(&cs, 1, n - 1)
    } else {
        assert(cs@.subrange(0, n as int) =~= cs@);
        string_of(&cs, 0, n)
    }
}

/// The names that one list entry gives: a bare literal, or `name = lit`; a string gives
/// its value.
pub open spec fn entry_name(e: AttrEntry) -> Seq<Seq<char>> {
    match e {
        AttrEntry::Lit(lit) => seq![lit.name_text()],
        AttrEntry::Meta(AttrMeta::NameValue(p, lit)) => if p@ == "name"@ {
            seq![lit.name_text()]
        } else {
            seq![]
        },
        _ => seq![],
    }
}

pub open spec fn entries_names(es: Seq<AttrEntry>) -> Seq<Seq<char>>
    decreases es.len(),
{
    if es.len() == 0 {
        seq![]
    } else {
        entries_names(es.drop_last()) + entry_name(es.last())
    }
}

/// The explicit names that one marker gives.
pub open spec fn meta_names(m: AttrMeta) -> Seq<Seq<char>> {
    if !is_marker(m) {
        seq![]
    } else {
        match m {
            AttrMeta::List(_, es) => entries_names(es@),
            AttrMeta::NameValue(_, lit) => seq![lit.name_text()],
            AttrMeta::Path(_) => seq![],
        }
    }
}

/// The dependencies that one list entry gives: `include = "a, b"`, split from the string's
/// value.
pub open spec fn entry_uses(e: AttrEntry) -> Seq<Seq<char>> {
    match e {
        AttrEntry::Meta(AttrMeta::NameValue(p, lit)) => if p@ == "include"@ {
            name_list(lit.name_text())
        } else {
            seq![]
        },
        _ => seq![],
    }
}

pub open spec fn entries_uses(es: Seq<AttrEntry>) -> Seq<Seq<char>>
    decreases es.len(),
{
    if es.len() == 0 {
        seq![]
    } else {
        entries_uses(es.drop_last()) + entry_uses(es.last())
    }
}

pub open spec fn meta_uses(m: AttrMeta) -> Seq<Seq<char>> {
    if !is_marker(m) {
        seq![]
    } else {
        match m {
            AttrMeta::List(_, es) => entries_uses(es@),
            _ => seq![],
        }
    }
}

/// The string values given to `key` in one list entry.
pub open spec fn entry_value(e: AttrEntry, key: Seq<char>) -> Seq<Seq<char>> {
    match e {
        AttrEntry::Meta(AttrMeta::NameValue(p, MetaLit::Str { value, .. })) => if p@ == key {
            seq![value@]
        } else {
            seq![]
        },
        _ => seq![],
    }
}

pub open spec fn entries_values(es: Seq<AttrEntry>, key: Seq<char>) -> Seq<Seq<char>>
    decreases es.len(),
{
    if es.len() == 0 {
        seq![]
    } else {
        entries_values(es.drop_last(), key) + entry_value(es.last(), key)
    }
}

pub open spec fn meta_values(m: AttrMeta, key: Seq<char>) -> Seq<Seq<char>> {
    if !is_marker(m) {
        seq![]
    } else {
        match m {
            AttrMeta::List(_, es) => entries_values(es@, key),
            _ => seq![],
        }
    }
}

/// A list entry that is the bare flag `doc_hidden`.
pub open spec fn entry_hides(e: AttrEntry) -> bool {
    match e {
        AttrEntry::Meta(AttrMeta::Path(p)) => p@ == "doc_hidden"@,
        _ => false,
    }
}

pub open spec fn meta_hides(m: AttrMeta) -> bool {
    is_marker(m) && match m {
        AttrMeta::List(_, es) => exists|j: int| 0 <= j < es@.len() && entry_hides(#[trigger] es@[j]),
        _ => false,
    }
}

/// The explicit names that one attribute gives, if it is a marker.
pub fn get_snippet_name(m: &AttrMeta) -> (r: Vec<String>)
    ensures
        strs(r@) == meta_names(*m),
{
    let mut out: Vec<String> = Vec::new();
    if !is_snippet_path(path_of(m)) {
        return out;
    }
    match m {
        AttrMeta::List(_, es) => {
            let mut j: usize = 0;
            while j < es.len()
                invariant
                    j <= es@.len(),
                    strs(out@) == entries_names(es@.subrange(0, j as int)),
                decreases es.len() - j,
            {
                let ghost prev = out@;
                assert(es@.subrange(0, j + 1).drop_last() =~= es@.subrange(0, j as int));
                match &es[j] {
                    AttrEntry::Lit(lit) => {
                        out.push(lit_name(lit).to_owned());
                        assert(strs(out@) =~= strs(prev) + entry_name(es@[j as int]));
                    },
                    AttrEntry::Meta(AttrMeta::NameValue(p, lit)) => {
                        if same_text(p.as_str(), "name") {
                            out.push(lit_name(lit).to_owned());
                            assert(strs(out@) =~= strs(prev) + entry_name(es@[j as int]));
                        } else {
                            assert(strs(out@) =~= strs(prev) + entry_name(es@[j as int]));
                        }
                    },
                    _ => {
                        assert(strs(out@) =~= strs(prev) + entry_name(es@[j as int]));
                    },
                }
                j += 1;
            }
            assert(es@.subrange(0, es@.len() as int) =~= es@);
        },
        AttrMeta::NameValue(_, lit) => {
            out.push(lit_name(lit).to_owned());
            assert(strs(out@) =~= seq![lit.name_text()]);
        },
        AttrMeta::Path(_) => {
            assert(strs(out@) =~= Seq::<Seq<char>>::empty());
        },
    }
    out
}

/// The path of an attribute reading.
pub fn path_of(m: &AttrMeta) -> (r: &str)
    ensures
        r@ == m.path(),
{
    match m {
        AttrMeta::Path(p) => p.as_str(),
        AttrMeta::List(p, _) => p.as_str(),
        AttrMeta::NameValue(p, _) => p.as_str(),
    }
}

/// What a literal says as a name (see `MetaLit::name_text`).
pub fn lit_name(lit: &MetaLit) -> (r: &str)
    ensures
        r@ == lit.name_text(),
{
    match lit {
        MetaLit::Str { value, .. } => value.as_str(),
        MetaLit::Other { text } => text.as_str(),
    }
}

/// The dependencies that one attribute declares, if it is a marker.
pub fn get_snippet_uses(m: &AttrMeta) -> (r: Vec<String>)
    ensures
        strs(r@) == meta_uses(*m),
{
    let mut out: Vec<String> = Vec::new();
    if !is_snippet_path(path_of(m)) {
        return out;
    }
    match m {
        AttrMeta::List(_, es) => {
            let mut j: usize = 0;
            while j < es.len()
                invariant
                    j <= es@.len(),
                    strs(out@) == entries_uses(es@.subrange(0, j as int)),
                decreases es.len() - j,
            {
                let ghost prev = out@;
                assert(es@.subrange(0, j + 1).drop_last() =~= es@.subrange(0, j as int));
                match &es[j] {
                    AttrEntry::Meta(AttrMeta::NameValue(p, lit)) => {
                        if same_text(p.as_str(), "include") {
                            let u = lit_name(lit).to_owned();
                            let mut names = split_names(u.as_str());
                            assert(strs(names@) == name_list(u@));
                            out.append(&mut names);
                            assert(strs(out@) =~= strs(prev) + entry_uses(es@[j as int]));
                        } else {
                            assert(strs(out@) =~= strs(prev) + entry_uses(es@[j as int]));
                        }
                    },
                    _ => {
                        assert(strs(out@) =~= strs(prev) + entry_uses(es@[j as int]));
                    },
                }
                j += 1;
            }
            assert(es@.subrange(0, es@.len() as int) =~= es@);
        },
        _ => {
            assert(strs(out@) =~= Seq::<Seq<char>>::empty());
        },
    }
    out
}

/// The string values that one marker gives to `key`.
pub fn get_simple_attr(m: &AttrMeta, key: &str) -> (r: Vec<String>)
    ensures
        strs(r@) == meta_values(*m, key@),
{
    let mut out: Vec<String> = Vec::new();
    if !is_snippet_path(path_of(m)) {
        return out;
    }
    match m {
        AttrMeta::List(_, es) => {
            let mut j: usize = 0;
            while j < es.len()
                invariant
                    j <= es@.len(),
                    strs(out@) == entries_values(es@.subrange(0, j as int), key@),
                decreases es.len() - j,
            {
                let ghost prev = out@;
                assert(es@.subrange(0, j + 1).drop_last() =~= es@.subrange(0, j as int));
                match &es[j] {
                    AttrEntry::Meta(AttrMeta::NameValue(p, MetaLit::Str { value, .. })) => {
                        if same_text(p.as_str(), key) {
                            out.push(value.clone());
                        }
                        assert(strs(out@) =~= strs(prev) + entry_value(es@[j as int], key@));
                    },
                    _ => {
                        assert(strs(out@) =~= strs(prev) + entry_value(es@[j as int], key@));
                    },
                }
                j += 1;
            }
            assert(es@.subrange(0, es@.len() as int) =~= es@);
        },
        _ => {
            assert(strs(out@) =~= Seq::<Seq<char>>::empty());
        },
    }
    out
}

/// Whether a marker asks for documentation to be left out.
pub fn hides_docs(m: &AttrMeta) -> (r: bool)
    ensures
        r == meta_hides(*m),
{
    if !is_snippet_path(path_of(m)) {
        return false;
    }
    match m {
        AttrMeta::List(_, es) => {
            let mut j: usize = 0;
            while j < es.len()
                invariant
                    j <= es@.len(),
                    is_marker(*m),
                    m->List_1 == *es,
                    *m is List,
                    forall|k: int| 0 <= k < j ==> !entry_hides(#[trigger] es@[k]),
                decreases es.len() - j,
            {
                if let AttrEntry::Meta(AttrMeta::Path(p)) = &es[j] {
                    if same_text(p.as_str(), "doc_hidden") {
                        assert(entry_hides(es@[j as int]));
                        return true;
                    }
                }
                j += 1;
            }
            false
        },
        _ => false,
    }
}

pub open spec fn all_names(ms: Seq<AttrMeta>) -> Seq<Seq<char>>
    decreases ms.len(),
{
    if ms.len() == 0 {
        seq![]
    } else {
        all_names(ms.drop_last()) + meta_names(ms.last())
    }
}

pub open spec fn all_uses(ms: Seq<AttrMeta>) -> Seq<Seq<char>>
    decreases ms.len(),
{
    if ms.len() == 0 {
        seq![]
    } else {
        all_uses(ms.drop_last()) + meta_uses(ms.last())
    }
}

pub open spec fn all_prefixes(ms: Seq<AttrMeta>) -> Seq<Seq<char>>
    decreases ms.len(),
{
    if ms.len() == 0 {
        seq![]
    } else {
        all_prefixes(ms.drop_last()) + meta_values(ms.last(), "prefix"@)
    }
}

pub open spec fn any_marker(ms: Seq<AttrMeta>) -> bool {
    exists|i: int| 0 <= i < ms.len() && is_marker(#[trigger] ms[i])
}

/// Some marker stands without arguments.
pub open spec fn any_bare(ms: Seq<AttrMeta>) -> bool {
    exists|i: int| 0 <= i < ms.len() && is_marker(#[trigger] ms[i]) && ms[i] is Path
}

pub open spec fn any_hides(ms: Seq<AttrMeta>) -> bool {
    exists|i: int| 0 <= i < ms.len() && meta_hides(#[trigger] ms[i])
}

/// The pieces joined with a newline between each two.
pub open spec fn join_lines(xs: Seq<Seq<char>>) -> Seq<char>
    decreases xs.len(),
{
    if xs.len() == 0 {
        seq![]
    } else if xs.len() == 1 {
        xs[0]
    } else {
        join_lines(xs.drop_last()) + seq!['\n'] + xs.last()
    }
}

/// The output names of a declaration with these attribute readings and this identifier:
/// every explicit name, the identifier too where a marker stands bare, and the identifier
/// alone where there is no explicit name.
pub open spec fn snippet_names(ms: Seq<AttrMeta>, default: Option<Seq<char>>) -> Seq<Seq<char>> {
    let explicit = add_new(seq![], all_names(ms));
    let with_default = if any_bare(ms) && default is Some {
        add_new(explicit, seq![default->0])
    } else {
        explicit
    };
    if with_default.len() == 0 && default is Some {
        seq![default->0]
    } else {
        with_default
    }
}

/// Whether a declaration with these attribute readings and this identifier is extracted.
pub open spec fn extracted(ms: Seq<AttrMeta>, default: Option<Seq<char>>) -> bool {
    any_marker(ms) && snippet_names(ms, default).len() > 0
}

/// The attributes of a fragment with these attribute readings and this identifier.
pub open spec fn attributes_match(a: SnippetAttributes, ms: Seq<AttrMeta>, default: Option<Seq<char>>) -> bool {
    &&& strs(a.names@) == snippet_names(ms, default)
    &&& strs(a.uses@) == add_new(seq![], all_uses(ms))
    &&& a.prefix@ == join_lines(all_prefixes(ms))
    &&& a.doc_hidden == any_hides(ms)
}

pub open spec fn opt_view(o: Option<String>) -> Option<Seq<char>> {
    match o {
        Some(s) => Some(s@),
        None => None,
    }
}

/// The readings behind a sequence of references.
pub open spec fn metas(ms: Seq<&AttrMeta>) -> Seq<AttrMeta> {
    ms.map_values(|m: &AttrMeta| *m)
}

/// Reads the markers among a declaration's attributes. `None` where there is no marker,
/// or where no name can be given (no explicit name and no identifier).
pub fn parse_attrs(ms: &Vec<&AttrMeta>, default: Option<String>) -> (r: Option<SnippetAttributes>)
    ensures
        r is Some <==> extracted(metas(ms@), opt_view(default)),
        r is Some ==> attributes_match(r->0, metas(ms@), opt_view(default)),
{
    let ghost dv = opt_view(default);
    let mut marker = false;
    let mut bare = false;
    let mut hidden = false;
    let mut names: Vec<String> = Vec::new();
    let mut uses: Vec<String> = Vec::new();
    let mut prefixes: Vec<String> = Vec::new();
    let mut i: usize = 0;
    while i < ms.len()
        invariant
            i <= metas(ms@).len(),
            marker == any_marker(metas(ms@).subrange(0, i as int)),
            bare == any_bare(metas(ms@).subrange(0, i as int)),
            hidden == any_hides(metas(ms@).subrange(0, i as int)),
            strs(names@) == all_names(metas(ms@).subrange(0, i as int)),
            strs(uses@) == all_uses(metas(ms@).subrange(0, i as int)),
            strs(prefixes@) == all_prefixes(metas(ms@).subrange(0, i as int)),
        decreases ms.len() - i,
    {
        let m = ms[i];
        let ghost sub = metas(ms@).subrange(0, i as int);
        let ghost sub1 = metas(ms@).subrange(0, i + 1);
        assert(sub1.drop_last() =~= sub);
        assert(sub1.last() == *m);
        assert(sub1[i as int] == *m);
        let ghost (n0, u0, p0) = (names@, uses@, prefixes@);
        let is_m = is_snippet_path(path_of(m));
        let mut nm = get_snippet_name(m);
        names.append(&mut nm);
        assert(strs(names@) =~= strs(n0) + meta_names(*m));
        let mut us = get_snippet_uses(m);
        uses.append(&mut us);
        assert(strs(uses@) =~= strs(u0) + meta_uses(*m));
        let mut ps = get_simple_attr(m, "prefix");
        prefixes.append(&mut ps);
        assert(strs(prefixes@) =~= strs(p0) + meta_values(*m, "prefix"@));
        let h = hides_docs(m);
        let is_bare = match m {
            AttrMeta::Path(_) => true,
            _ => false,
        };
        proof {
            assert forall|k: int| 0 <= k < i implies sub1[k] == sub[k] by {}
            if is_m {
                assert(is_marker(sub1[i as int]));
            }
            if marker {
                let k = choose|k: int| 0 <= k < sub.len() && is_marker(#[trigger] sub[k]);
                assert(is_marker(sub1[k]));
            }
            if is_m && is_bare {
                assert(is_marker(sub1[i as int]) && sub1[i as int] is Path);
            }
            if bare {
                let k = choose|k: int| 0 <= k < sub.len() && is_marker(#[trigger] sub[k]) && sub[k] is Path;
                assert(is_marker(sub1[k]) && sub1[k] is Path);
            }
            if h {
                assert(meta_hides(sub1[i as int]));
            }
            if hidden {
                let k = choose|k: int| 0 <= k < sub.len() && meta_hides(#[trigger] sub[k]);
                assert(meta_hides(sub1[k]));
            }
        }
        marker = marker || is_m;
        bare = bare || (is_m && is_bare);
        hidden = hidden || h;
        i += 1;
    }
    assert(metas(ms@).subrange(0, metas(ms@).len() as int) =~= metas(ms@));
    if !marker {
        return None;
    }
    let mut out_names: Vec<String> = Vec::new();
    assert(strs(out_names@) =~= Seq::<Seq<char>>::empty());
    extend_new(&mut out_names, &names);
    match default {
        Some(d) => {
            if bare {
                let mut dv: Vec<String> = Vec::new();
                dv.push(d.clone());
                assert(strs(dv@) =~= seq![d@]);
                extend_new(&mut out_names, &dv);
            }
            if out_names.len() == 0 {
                out_names.push(d);
                assert(strs(out_names@) =~= seq![d@]);
            }
        },
        None => {
            if out_names.len() == 0 {
                return None;
            }
        },
    }
    let mut out_uses: Vec<String> = Vec::new();
    assert(strs(out_uses@) =~= Seq::<Seq<char>>::empty());
    extend_new(&mut out_uses, &uses);
    let prefix = join_with_newlines(&prefixes);
    Some(SnippetAttributes { names: out_names, uses: out_uses, prefix, doc_hidden: hidden })
}

/// The strings joined with a newline between each two.
fn join_with_newlines(xs: &Vec<String>) -> (r: String)
    ensures
        r@ == join_lines(strs(xs@)),
{
    let mut r = String::new();
    let mut i: usize = 0;
    while i < xs.len()
        invariant
            i <= xs@.len(),
            r@ == join_lines(strs(xs@).subrange(0, i as int)),
        decreases xs.len() - i,
    {
        let ghost sub1 = strs(xs@).subrange(0, i + 1);
        assert(sub1.drop_last() =~= strs(xs@).subrange(0, i as int));
        if i > 0 {
            crate::text::push_char(&mut r, '\n');
        } else {
            assert(sub1[0] == xs@[0]@);
        }
        r.append(xs[i].as_str());
        assert(sub1.last() == xs@[i as int]@);
        i += 1;
    }
    assert(strs(xs@).subrange(0, xs@.len() as int) =~= strs(xs@));
    r
}

/// A declaration with a bare marker, an identifier and no explicit name takes the
/// identifier as its only name.
pub proof fn lemma_default_name(ms: Seq<AttrMeta>, id: Seq<char>)
    requires
        any_bare(ms),
        all_names(ms).len() == 0,
    ensures
        snippet_names(ms, Some(id)) == seq![id],
        extracted(ms, Some(id)),
{
    assert(all_names(ms) =~= Seq::<Seq<char>>::empty());
    let e = Seq::<Seq<char>>::empty();
    assert(add_new(e, e) == e);
    assert(seq![id].drop_first() =~= e);
    assert(!e.contains(id));
    assert(add_new(e, seq![id]) == add_new(e.push(id), e));
    assert(e.push(id) =~= seq![id]);
    let k = choose|k: int| 0 <= k < ms.len() && is_marker(#[trigger] ms[k]) && ms[k] is Path;
    assert(is_marker(ms[k]));
}

} // verus!
