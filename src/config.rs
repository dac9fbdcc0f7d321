use vstd::prelude::*;

use crate::attrs::same_text;
use crate::render::{split_nl, strip_cr};
use crate::render::push_doc_block;
use crate::snippet::strs;
use crate::text::{chars_of, push_char};

verus! {

/// What to extract from and how to write it.
pub struct Config {
    pub target: Target,
    pub output_type: OutputType,
}

/// Where the sources are.
pub enum Target {
    /// The `src` directory of the enclosing project; the default.
    ProjectSrc,
    /// Files or directories given by the user.
    Paths(Vec<String>),
}

/// The editor format to write.
pub enum OutputType {
    Neosnippet,
    VScode,
    Ultisnips,
}

/// What a format writer produces: text, or entries for a structured (JSON) document, each a
/// name with its prefix and body lines.
pub enum Rendered {
    Text(String),
    Entries(Vec<(String, Vec<String>)>),
}

/// The lines of `s`: split at line feeds, a carriage return before a line feed dropped,
/// and no empty last line.
pub open spec fn lines_of(s: Seq<char>) -> Seq<Seq<char>> {
    let p = split_nl(s);
    let init = p.drop_last().map_values(|l: Seq<char>| strip_cr(l));
    if p.last().len() == 0 {
        init
    } else {
        init.push(p.last())
    }
}

/// `l` with each `$` written `\$`.
pub open spec fn escape_dollars(l: Seq<char>) -> Seq<char>
    decreases l.len(),
{
    if l.len() == 0 {
        seq![]
    } else {
        escape_dollars(l.drop_last()) + if l.last() == '$' {
            seq!['\\', '$']
        } else {
            seq![l.last()]
        }
    }
}

/// A snippet in the line-oriented format: a header, each line indented by four spaces,
/// then an empty line.
pub open spec fn neosnippet_text(name: Seq<char>, body: Seq<char>) -> Seq<char> {
    "snippet "@ + name + seq!['\n'] + crate::render::doc_block(body, "    "@) + seq!['\n']
}

/// A snippet in the block format: a header, the text, a closing line, then an empty line.
pub open spec fn ultisnips_text(name: Seq<char>, body: Seq<char>) -> Seq<char> {
    "snippet "@ + name + seq!['\n'] + body + "endsnippet"@ + seq!['\n', '\n']
}

impl OutputType {
    /// The format for a type name given by the user: `vscode`, `ultisnips`, or otherwise the
    /// line-oriented one.
    pub fn from_type_name(name: Option<&str>) -> (r: OutputType)
        ensures
            r == (match name {
                Some(t) => if t@ == "vscode"@ {
                    OutputType::VScode
                } else if t@ == "ultisnips"@ {
                    OutputType::Ultisnips
                } else {
                    OutputType::Neosnippet
                },
                None => OutputType::Neosnippet,
            }),
    {
        match name {
            Some(t) => if same_text(t, "vscode") {
                OutputType::VScode
            } else if same_text(t, "ultisnips") {
                OutputType::Ultisnips
            } else {
                OutputType::Neosnippet
            },
            None => OutputType::Neosnippet,
        }
    }
}

pub open spec fn neosnippet_all(s: Seq<(String, String)>) -> Seq<char>
    decreases s.len(),
{
    if s.len() == 0 {
        seq![]
    } else {
        neosnippet_all(s.drop_last()) + neosnippet_text(s.last().0@, s.last().1@)
    }
}

pub open spec fn ultisnips_all(s: Seq<(String, String)>) -> Seq<char>
    decreases s.len(),
{
    if s.len() == 0 {
        seq![]
    } else {
        ultisnips_all(s.drop_last()) + ultisnips_text(s.last().0@, s.last().1@)
    }
}

/// The body lines of a structured entry: the text's lines with `$` escaped.
pub open spec fn vscode_lines(body: Seq<char>) -> Seq<Seq<char>> {
    lines_of(body).map_values(|l: Seq<char>| escape_dollars(l))
}

/// Writes formatted snippets, name and text, in the line-oriented format.
pub fn write_neosnippet(snippets: &Vec<(String, String)>) -> (r: String)
    ensures
        r@ == neosnippet_all(snippets@),
{
    let mut out = String::new();
    let mut i: usize = 0;
    while i < snippets.len()
        invariant
            i <= snippets@.len(),
            out@ == neosnippet_all(snippets@.subrange(0, i as int)),
        decreases snippets.len() - i,
    {
        let ghost prev = out@;
        let (name, body) = (&snippets[i].0, &snippets[i].1);
        out.append("snippet ");
        out.append(name.as_str());
        push_char(&mut out, '\n');
        let cs = chars_of(body.as_str());
        push_doc_block(&mut out, &cs, 0, cs.len(), "    ");
        assert(cs@.subrange(0, cs@.len() as int) =~= body@);
        push_char(&mut out, '\n');
        assert(snippets@.subrange(0, i + 1).drop_last() =~= snippets@.subrange(0, i as int));
        assert(out@ =~= prev + neosnippet_text(name@, body@));
        i += 1;
    }
    assert(snippets@.subrange(0, snippets@.len() as int) =~= snippets@);
    out
}

/// Writes formatted snippets, name and text, in the block format.
pub fn write_ultisnips(snippets: &Vec<(String, String)>) -> (r: String)
    ensures
        r@ == ultisnips_all(snippets@),
{
    let mut out = String::new();
    let mut i: usize = 0;
    while i < snippets.len()
        invariant
            i <= snippets@.len(),
            out@ == ultisnips_all(snippets@.subrange(0, i as int)),
        decreases snippets.len() - i,
    {
        let ghost prev = out@;
        let (name, body) = (&snippets[i].0, &snippets[i].1);
        out.append("snippet ");
        out.append(name.as_str());
        push_char(&mut out, '\n');
        out.append(body.as_str());
        out.append("endsnippet");
        push_char(&mut out, '\n');
        push_char(&mut out, '\n');
        assert(snippets@.subrange(0, i + 1).drop_last() =~= snippets@.subrange(0, i as int));
        assert(out@ =~= prev + ultisnips_text(name@, body@));
        i += 1;
    }
    assert(snippets@.subrange(0, snippets@.len() as int) =~= snippets@);
    out
}

/// The characters `cs[lo..hi]` with each `$` escaped.
fn escaped_line(cs: &Vec<char>, lo: usize, hi: usize) -> (r: String)
    requires
        lo <= hi <= cs@.len(),
    ensures
        r@ == escape_dollars(cs@.subrange(lo as int, hi as int)),
{
    let mut r = String::new();
    let mut i = lo;
    assert(cs@.subrange(lo as int, lo as int) =~= Seq::<char>::empty());
    while i < hi
        invariant
            lo <= i <= hi <= cs@.len(),
            r@ == escape_dollars(cs@.subrange(lo as int, i as int)),
        decreases hi - i,
    {
        assert(cs@.subrange(lo as int, i + 1).drop_last() =~= cs@.subrange(lo as int, i as int));
        if cs[i] == '$' {
            push_char(&mut r, '\\');
        }
        push_char(&mut r, cs[i]);
        assert(r@ =~= escape_dollars(cs@.subrange(lo as int, i + 1)));
        i += 1;
    }
    r
}

/// The body lines of a structured entry (see `vscode_lines`).
pub fn vscode_body(body: &str) -> (r: Vec<String>)
    ensures
        strs(r@) == vscode_lines(body@),
{
    let cs = chars_of(body);
    let n = cs.len();
    let mut out: Vec<String> = Vec::new();
    let mut start: usize = 0;
    let mut i: usize = 0;
    assert(cs@.subrange(0, 0) =~= Seq::<char>::empty());
    while i < n
        invariant
            start <= i <= n,
            n == cs@.len(),
            split_nl(cs@.subrange(0, i as int)).len() >= 1,
            split_nl(cs@.subrange(0, i as int)).last() == cs@.subrange(start as int, i as int),
            strs(out@) == split_nl(cs@.subrange(0, i as int)).drop_last().map_values(
                |l: Seq<char>| escape_dollars(strip_cr(l)),
            ),
        decreases n - i,
    {
        let ghost pre = cs@.subrange(0, i as int);
        let ghost cur = cs@.subrange(0, i + 1);
        let ghost sp = split_nl(pre);
        assert(cur.drop_last() =~= pre);
        assert(cur.last() == cs@[i as int]);
        if cs[i] == '\n' {
            let mut end = i;
            if end > start && cs[end - 1] == '\r' {
                end = end - 1;
            }
            assert(strip_cr(sp.last()) =~= cs@.subrange(start as int, end as int));
            let ghost prev = out@;
            out.push(escaped_line(&cs, start, end));
            assert(split_nl(cur) == sp.push(seq![]));
            assert(split_nl(cur).drop_last() =~= sp);
            assert(sp.drop_last().push(sp.last()) =~= sp);
            assert(strs(out@) =~= strs(prev).push(escape_dollars(strip_cr(sp.last()))));
            assert(sp.map_values(|l: Seq<char>| escape_dollars(strip_cr(l))) =~= sp.drop_last().map_values(
                |l: Seq<char>| escape_dollars(strip_cr(l)),
            ).push(escape_dollars(strip_cr(sp.last()))));
            assert(strs(out@) =~= split_nl(cur).drop_last().map_values(
                |l: Seq<char>| escape_dollars(strip_cr(l)),
            ));
            start = i + 1;
            assert(cs@.subrange(start as int, i + 1) =~= Seq::<char>::empty());
        } else {
            assert(split_nl(cur) == sp.update(sp.len() - 1, sp.last().push(cs@[i as int])));
            assert(split_nl(cur).drop_last() =~= sp.drop_last());
            assert(cs@.subrange(start as int, i + 1) =~= cs@.subrange(start as int, i as int).push(
                cs@[i as int],
            ));
        }
        i += 1;
    }
    assert(cs@.subrange(0, n as int) =~= cs@);
    let ghost sp = split_nl(cs@);
    if start < n {
        let ghost prev = out@;
        out.push(escaped_line(&cs, start, n));
        assert(strs(out@) =~= strs(prev).push(escape_dollars(sp.last())));
    }
    assert(vscode_lines(body@) =~= (if sp.last().len() == 0 {
        sp.drop_last().map_values(|l: Seq<char>| escape_dollars(strip_cr(l)))
    } else {
        sp.drop_last().map_values(|l: Seq<char>| escape_dollars(strip_cr(l))).push(escape_dollars(sp.last()))
    }));
    out
}

/// Structured entries for formatted snippets: each name with its body lines.
pub fn write_vscode(snippets: &Vec<(String, String)>) -> (r: Vec<(String, Vec<String>)>)
    ensures
        r@.len() == snippets@.len(),
        forall|i: int|
            0 <= i < r@.len() ==> (#[trigger] r@[i]).0@ == snippets@[i].0@ && strs(r@[i].1@) == vscode_lines(
                snippets@[i].1@,
            ),
{
    let mut out: Vec<(String, Vec<String>)> = Vec::new();
    let mut i: usize = 0;
    while i < snippets.len()
        invariant
            i <= snippets@.len(),
            out@.len() == i,
            forall|k: int|
                0 <= k < i ==> (#[trigger] out@[k]).0@ == snippets@[k].0@ && strs(out@[k].1@) == vscode_lines(
                    snippets@[k].1@,
                ),
        decreases snippets.len() - i,
    {
        let lines = vscode_body(snippets[i].1.as_str());
        out.push((snippets[i].0.clone(), lines));
        i += 1;
    }
    out
}

impl OutputType {
    /// Writes formatted snippets, name and text, in this format.
    pub fn write(&self, snippets: &Vec<(String, String)>) -> (r: Rendered)
        ensures
            match self {
                OutputType::Neosnippet => r is Text && r->Text_0@ == neosnippet_all(snippets@),
                OutputType::Ultisnips => r is Text && r->Text_0@ == ultisnips_all(snippets@),
                OutputType::VScode => r is Entries && r->Entries_0@.len() == snippets@.len() && forall|i: int|
                    0 <= i < snippets@.len() ==> (#[trigger] r->Entries_0@[i]).0@ == snippets@[i].0@
                        && strs(r->Entries_0@[i].1@) == vscode_lines(snippets@[i].1@),
            },
    {
        match self {
            OutputType::Neosnippet => Rendered::Text(write_neosnippet(snippets)),
            OutputType::VScode => Rendered::Entries(write_vscode(snippets)),
            OutputType::Ultisnips => Rendered::Text(write_ultisnips(snippets)),
        }
    }
}

} // verus!
