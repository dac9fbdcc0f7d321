use vstd::prelude::*;

use crate::syntax::{Delim, Tok};
use crate::text::{char_from_u32, chars_of, push_char};

verus! {

pub open spec fn is_hex(c: char) -> bool {
    ('0' <= c && c <= '9') || ('a' <= c && c <= 'f') || ('A' <= c && c <= 'F')
}

pub open spec fn hex_val(c: char) -> int {
    if '0' <= c && c <= '9' {
        c as int - '0' as int
    } else if 'a' <= c && c <= 'f' {
        c as int - 'a' as int + 10
    } else {
        c as int - 'A' as int + 10
    }
}

/// The number of hexadecimal digits that `s` starts with.
pub open spec fn hex_run(s: Seq<char>) -> nat
    decreases s.len(),
{
    if s.len() > 0 && is_hex(s[0]) {
        1 + hex_run(s.drop_first())
    } else {
        0
    }
}

/// The value of a string of hexadecimal digits.
pub open spec fn hex_value(s: Seq<char>) -> int
    decreases s.len(),
{
    if s.len() == 0 {
        0
    } else {
        hex_value(s.drop_last()) * 16 + hex_val(s.last())
    }
}

/// The length of the escape `\u{` one to six hex digits `}` that `s` starts with, or 0.
pub open spec fn escape_len(s: Seq<char>) -> int {
    let k = hex_run(s.skip(3)) as int;
    if s.len() >= 5 && s[0] == '\\' && s[1] == 'u' && s[2] == '{' && 1 <= k <= 6 && 3 + k < s.len()
        && s[3 + k] == '}' {
        4 + k
    } else {
        0
    }
}

pub open spec fn valid_code(code: int) -> bool {
    (0 <= code < 0xD800) || (0xE000 <= code < 0x110000)
}

/// The character whose code point is `code`.
pub open spec fn code_char(code: u32) -> char {
    choose|c: char| #[trigger] (c as u32) == code
}

proof fn lemma_char_code_injective(a: char, b: char)
    requires
        a as u32 == b as u32,
    ensures
        a == b,
{
}

/// The space-like characters that an escape turns into a plain space: U+2002 to U+200A.
pub open spec fn is_space_variant(c: char) -> bool {
    '\u{2002}' <= c && c <= '\u{200a}'
}

/// What one escape `e` (all of it, braces included) stands for: its character, with
/// space-like characters made plain spaces; the text itself where it names no character.
pub open spec fn escape_text(e: Seq<char>) -> Seq<char> {
    let code = hex_value(e.subrange(3, e.len() - 1));
    if valid_code(code) {
        let c = code_char(code as u32);
        seq![if is_space_variant(c) { ' ' } else { c }]
    } else {
        e
    }
}

/// The character that a backslash followed by `c` stands for, if it is one of the simple escapes.
pub open spec fn simple_escape(c: char) -> Option<char> {
    if c == '\\' {
        Some('\\')
    } else if c == '"' {
        Some('"')
    } else if c == 't' {
        Some('\t')
    } else if c == 'n' {
        Some('\n')
    } else if c == 'r' {
        Some('\r')
    } else {
        None
    }
}

/// The text of a literal with its escapes resolved in one pass from left to right: a
/// backslash and one of `\\`, `"`, `t`, `n`, `r` stand for one character, an escape
/// `\u{...}` for its character; any other backslash stays.
pub open spec fn unescaped(s: Seq<char>) -> Seq<char>
    decreases s.len(),
{
    if s.len() == 0 {
        seq![]
    } else if s.len() >= 2 && s[0] == '\\' && simple_escape(s[1]) is Some {
        seq![simple_escape(s[1])->0] + unescaped(s.skip(2))
    } else if escape_len(s) > 0 {
        escape_text(s.take(escape_len(s))) + unescaped(s.skip(escape_len(s)))
    } else {
        seq![s[0]] + unescaped(s.skip(1))
    }
}

fn hex_digit(c: char) -> (r: Option<u32>)
    ensures
        r is Some <==> is_hex(c),
        r is Some ==> r->0 as int == hex_val(c),
{
    if '0' <= c && c <= '9' {
        Some((c as u32) - ('0' as u32))
    } else if 'a' <= c && c <= 'f' {
        Some((c as u32) - ('a' as u32) + 10)
    } else if 'A' <= c && c <= 'F' {
        Some((c as u32) - ('A' as u32) + 10)
    } else {
        None
    }
}

proof fn lemma_hex_run_prefix(s: Seq<char>, j: int)
    requires
        0 <= j <= s.len(),
        forall|k: int| 0 <= k < j ==> is_hex(#[trigger] s[k]),
    ensures
        hex_run(s) == j + hex_run(s.skip(j)),
    decreases j,
{
    if j > 0 {
        assert(is_hex(s[0]));
        assert forall|k: int| 0 <= k < j - 1 implies is_hex(#[trigger] s.drop_first()[k]) by {
            assert(s.drop_first()[k] == s[k + 1]);
        }
        lemma_hex_run_prefix(s.drop_first(), j - 1);
        assert(s.drop_first().skip(j - 1) =~= s.skip(j));
    } else {
        assert(s.skip(0) =~= s);
    }
}

pub open spec fn pow16(n: nat) -> int
    decreases n,
{
    if n == 0 {
        1
    } else {
        16 * pow16((n - 1) as nat)
    }
}

/// The length of the escape at `cs[i..]` (see `escape_len`), and its code.
fn escape_at(cs: &Vec<char>, i: usize) -> (r: (usize, u32))
    requires
        i <= cs@.len(),
    ensures
        r.0 as int == escape_len(cs@.skip(i as int)),
        i + r.0 <= cs@.len(),
        r.0 > 0 ==> r.1 as int == hex_value(cs@.skip(i as int).subrange(3, r.0 - 1)),
{
    let ghost s = cs@.skip(i as int);
    let n = cs.len();
    if !(n - i >= 5 && cs[i] == '\\' && cs[i + 1] == 'u' && cs[i + 2] == '{') {
        return (0, 0);
    }
    let mut k: usize = 0;
    while i + 3 + k < n && k < 7 && hex_digit(cs[i + 3 + k]).is_some()
        invariant
            i + 3 + k <= n,
            n == cs@.len(),
            s == cs@.skip(i as int),
            k <= 7,
            forall|m: int| 0 <= m < k ==> is_hex(#[trigger] s.skip(3)[m]),
        decreases n - k,
    {
        assert(s.skip(3)[k as int] == cs@[i + 3 + k]);
        k += 1;
    }
    proof {
        lemma_hex_run_prefix(s.skip(3), k as int);
        if i + 3 + k < n {
            assert(s.skip(3).skip(k as int)[0] == cs@[i + 3 + k]);
        } else {
            assert(s.skip(3).skip(k as int).len() == 0);
        }
    }
    if k < 1 || k > 6 || i + 3 + k >= n || cs[i + 3 + k] != '}' {
        proof {
            if k == 7 {
                assert(hex_run(s.skip(3)) >= 7);
            }
        }
        return (0, 0);
    }
    assert(hex_run(s.skip(3).skip(k as int)) == 0);
    let mut v: u32 = 0;
    let mut t: usize = 0;
    assert(s.subrange(3, 3) =~= Seq::<char>::empty());
    while t < k
        invariant
            t <= k <= 6,
            i + 3 + k < n,
            n == cs@.len(),
            s == cs@.skip(i as int),
            forall|m: int| 0 <= m < k ==> is_hex(#[trigger] s.skip(3)[m]),
            v as int == hex_value(s.subrange(3, 3 + t)),
            0 <= v < pow16(t as nat),
        decreases k - t,
    {
        assert(s.skip(3)[t as int] == cs@[i + 3 + t]);
        let d = hex_digit(cs[i + 3 + t]).unwrap();
        let ghost w = s.subrange(3, 3 + t + 1);
        assert(w.drop_last() =~= s.subrange(3, 3 + t));
        assert(w.last() == cs@[i + 3 + t]);
        assert(pow16((t + 1) as nat) == 16 * pow16(t as nat));
        assert(pow16(6) == 0x1000000) by {
            assert(pow16(0) == 1);
            assert(pow16(1) == 16);
            assert(pow16(2) == 256);
            assert(pow16(3) == 4096);
            assert(pow16(4) == 65536);
            assert(pow16(5) == 1048576);
        }
        assert(t + 1 <= 6);
        assert(pow16((t + 1) as nat) <= 0x1000000) by {
            lemma_pow16_mono((t + 1) as nat, 6);
        }
        assert(v * 16 + d < 16 * pow16(t as nat)) by (nonlinear_arith)
            requires
                v < pow16(t as nat),
                d < 16,
        ;
        v = v * 16 + d;
        t += 1;
    }
    (k + 4, v)
}

proof fn lemma_pow16_mono(a: nat, b: nat)
    requires
        a <= b,
    ensures
        pow16(a) <= pow16(b),
        pow16(a) >= 1,
    decreases b,
{
    if a < b {
        lemma_pow16_mono(a, (b - 1) as nat);
    } else if a > 0 {
        lemma_pow16_mono((a - 1) as nat, (a - 1) as nat);
    }
}

fn space_variant(c: char) -> (r: bool)
    ensures
        r == is_space_variant(c),
{
    '\u{2002}' <= c && c <= '\u{200a}'
}

fn simple_escape_of(c: char) -> (r: Option<char>)
    ensures
        r == simple_escape(c),
{
    if c == '\\' {
        Some('\\')
    } else if c == '"' {
        Some('"')
    } else if c == 't' {
        Some('\t')
    } else if c == 'n' {
        Some('\n')
    } else if c == 'r' {
        Some('\r')
    } else {
        None
    }
}

/// Resolves the escapes of a literal's text in one pass (see `unescaped`); an escaped
/// space-like character (U+2002 to U+200A) becomes a plain space.
pub fn unescape(s: &str) -> (r: String)
    ensures
        r@ == unescaped(s@),
{
    let cs = chars_of(s);
    let mut out = String::new();
    let mut i: usize = 0;
    assert(cs@.skip(0) =~= cs@);
    while i < cs.len()
        invariant
            i <= cs@.len(),
            cs@ == s@,
            out@ + unescaped(cs@.skip(i as int)) == unescaped(cs@),
        decreases cs.len() - i,
    {
        let ghost t = cs@.skip(i as int);
        let ghost prev = out@;
        if cs[i] == '\\' && i + 1 < cs.len() && simple_escape_of(cs[i + 1]).is_some() {
            let c = simple_escape_of(cs[i + 1]).unwrap();
            push_char(&mut out, c);
            assert(t[1] == cs@[i + 1]);
            assert(t.skip(2) =~= cs@.skip(i + 2));
            assert(out@ + unescaped(cs@.skip(i + 2)) =~= prev + (seq![simple_escape(t[1])->0] + unescaped(t.skip(2))));
            i += 2;
        } else {
            proof {
                if t.len() >= 2 {
                    assert(t[1] == cs@[i + 1]);
                }
            }
            let (k, code) = escape_at(&cs, i);
            if k > 0 {
                assert(t.take(k as int) =~= cs@.subrange(i as int, i + k));
                assert(t.skip(k as int) =~= cs@.skip(i + k));
                assert(t.take(k as int).subrange(3, k - 1) =~= t.subrange(3, k - 1));
                match char_from_u32(code) {
                    Some(c) => {
                        proof {
                            assert((c as u32) == code);
                            let x = code_char(code);
                            assert((x as u32) == code);
                            lemma_char_code_injective(x, c);
                        }
                        if space_variant(c) {
                            push_char(&mut out, ' ');
                        } else {
                            push_char(&mut out, c);
                        }
                    },
                    None => {
                        let mut j = i;
                        let end = i + k;
                        while j < end
                            invariant
                                i <= j <= end,
                                end <= cs@.len(),
                                out@ == prev + cs@.subrange(i as int, j as int),
                            decreases end - j,
                        {
                            push_char(&mut out, cs[j]);
                            assert(cs@.subrange(i as int, j + 1) =~= cs@.subrange(i as int, j as int).push(cs@[j as int]));
                            j += 1;
                        }
                    },
                }
                assert(out@ + unescaped(cs@.skip(i + k)) =~= prev + (escape_text(t.take(k as int)) + unescaped(t.skip(k as int))));
                i += k;
            } else {
                push_char(&mut out, cs[i]);
                assert(t.skip(1) =~= cs@.skip(i + 1));
                assert(out@ + unescaped(cs@.skip(i + 1)) =~= prev + (seq![t[0]] + unescaped(t.skip(1))));
                i += 1;
            }
        }
    }
    assert(out@ + unescaped(cs@.skip(i as int)) =~= out@);
    out
}

/// The pieces of `s` between line feeds.
pub open spec fn split_nl(s: Seq<char>) -> Seq<Seq<char>>
    decreases s.len(),
{
    if s.len() == 0 {
        seq![seq![]]
    } else {
        let rest = split_nl(s.drop_last());
        if s.last() == '\n' {
            rest.push(seq![])
        } else {
            rest.update(rest.len() - 1, rest.last().push(s.last()))
        }
    }
}

pub open spec fn strip_cr(l: Seq<char>) -> Seq<char> {
    if l.len() > 0 && l.last() == '\r' {
        l.drop_last()
    } else {
        l
    }
}

/// Each line, without a carriage return before its line feed, after `marker` and
/// followed by a line feed.
pub open spec fn marked_lines(ls: Seq<Seq<char>>, marker: Seq<char>) -> Seq<char>
    decreases ls.len(),
{
    if ls.len() == 0 {
        seq![]
    } else {
        marked_lines(ls.drop_last(), marker) + marker + strip_cr(ls.last()) + seq!['\n']
    }
}

/// The lines of `s` as comment lines with `marker`; an empty last line is not one.
pub open spec fn doc_block(s: Seq<char>, marker: Seq<char>) -> Seq<char> {
    let p = split_nl(s);
    marked_lines(p.drop_last(), marker) + if p.last().len() == 0 {
        seq![]
    } else {
        marker + p.last() + seq!['\n']
    }
}

/// The comment lines that a documentation literal becomes: none where documentation is
/// hidden or the literal is not a plain string.
pub open spec fn doc_text(lit: Seq<char>, inner: bool, hidden: bool) -> Seq<char> {
    let u = unescaped(lit);
    if hidden || !(u.len() >= 2 && u[0] == '"' && u.last() == '"') {
        seq![]
    } else {
        doc_block(u.subrange(1, u.len() - 1), if inner { "//!"@ } else { "///"@ })
    }
}

/// Renders `cs[lo..hi]` as comment lines after `marker`.
pub(crate) fn push_doc_block(out: &mut String, cs: &Vec<char>, lo: usize, hi: usize, marker: &str)
    requires
        lo <= hi <= cs@.len(),
    ensures
        final(out)@ == old(out)@ + doc_block(cs@.subrange(lo as int, hi as int), marker@),
{
    let ghost o0 = out@;
    let mut start = lo;
    let mut i = lo;
    assert(cs@.subrange(lo as int, lo as int) =~= Seq::<char>::empty());
    while i < hi
        invariant
            lo <= start <= i <= hi,
            hi <= cs@.len(),
            split_nl(cs@.subrange(lo as int, i as int)).len() >= 1,
            split_nl(cs@.subrange(lo as int, i as int)).last() == cs@.subrange(start as int, i as int),
            out@ == o0 + marked_lines(split_nl(cs@.subrange(lo as int, i as int)).drop_last(), marker@),
        decreases hi - i,
    {
        let ghost pre = cs@.subrange(lo as int, i as int);
        let ghost cur = cs@.subrange(lo as int, i + 1);
        let ghost sp = split_nl(pre);
        assert(cur.drop_last() =~= pre);
        assert(cur.last() == cs@[i as int]);
        if cs[i] == '\n' {
            let ghost prev = out@;
            out.append(marker);
            let mut end = i;
            if end > start && cs[end - 1] == '\r' {
                end = end - 1;
            }
            let mut j = start;
            while j < end
                invariant
                    start <= j <= end <= i,
                    i < hi <= cs@.len(),
                    out@ == prev + marker@ + cs@.subrange(start as int, j as int),
                decreases end - j,
            {
                push_char(out, cs[j]);
                assert(cs@.subrange(start as int, j + 1) =~= cs@.subrange(start as int, j as int).push(cs@[j as int]));
                j += 1;
            }
            push_char(out, '\n');
            assert(strip_cr(sp.last()) =~= cs@.subrange(start as int, end as int));
            assert(split_nl(cur) == sp.push(seq![]));
            assert(split_nl(cur).drop_last() =~= sp);
            assert(sp.drop_last().push(sp.last()) =~= sp);
            assert(out@ =~= o0 + marked_lines(sp, marker@));
            start = i + 1;
            assert(cs@.subrange(start as int, i + 1) =~= Seq::<char>::empty());
        } else {
            assert(split_nl(cur) == sp.update(sp.len() - 1, sp.last().push(cs@[i as int])));
            assert(split_nl(cur).drop_last() =~= sp.drop_last());
            assert(cs@.subrange(start as int, i + 1) =~= cs@.subrange(start as int, i as int).push(cs@[i as int]));
        }
        i += 1;
    }
    let ghost whole = cs@.subrange(lo as int, hi as int);
    if start < hi {
        let ghost prev = out@;
        out.append(marker);
        let mut j = start;
        while j < hi
            invariant
                start <= j <= hi <= cs@.len(),
                out@ == prev + marker@ + cs@.subrange(start as int, j as int),
            decreases hi - j,
        {
            push_char(out, cs[j]);
            assert(cs@.subrange(start as int, j + 1) =~= cs@.subrange(start as int, j as int).push(cs@[j as int]));
            j += 1;
        }
        push_char(out, '\n');
    }
}

/// Appends the comment lines of a documentation literal (see `doc_text`).
pub fn format_doc_comment(out: &mut String, lit: &str, is_inner: bool, doc_hidden: bool)
    ensures
        final(out)@ == old(out)@ + doc_text(lit@, is_inner, doc_hidden),
{
    if doc_hidden {
        assert(old(out)@ + doc_text(lit@, is_inner, doc_hidden) =~= old(out)@);
        return;
    }
    let u = unescape(lit);
    let cs = chars_of(u.as_str());
    let n = cs.len();
    if !(n >= 2 && cs[0] == '"' && cs[n - 1] == '"') {
        assert(old(out)@ + doc_text(lit@, is_inner, doc_hidden) =~= old(out)@);
        return;
    }
    if is_inner {
        push_doc_block(out, &cs, 1, n - 1, "//!");
    } else {
        push_doc_block(out, &cs, 1, n - 1, "///");
    }
}

/// The literal of a documentation attribute's bracket group `[doc = "..."]`.
pub open spec fn doc_payload(t: Tok) -> Option<Seq<char>> {
    match t {
        Tok::Group(Delim::Bracket, ts, _) => if ts@.len() == 3 && ts@[0] is Ident && ts@[0]->Ident_0@
            == "doc"@ && ts@[1] == Tok::Punct('=', true) && ts@[2] is Lit {
            Some(ts@[2]->Lit_0@)
        } else {
            None
        },
        _ => None,
    }
}

pub open spec fn is_punct(t: Tok, c: char) -> bool {
    t is Punct && t->Punct_0 == c
}

pub open spec fn open_text(d: Delim) -> Seq<char> {
    match d {
        Delim::Paren => seq!['('],
        Delim::Brace => seq!['{'],
        Delim::Bracket => seq!['['],
        Delim::Invisible => seq![],
    }
}

pub open spec fn close_text(d: Delim) -> Seq<char> {
    match d {
        Delim::Paren => seq![')'],
        Delim::Brace => seq!['}'],
        Delim::Bracket => seq![']'],
        Delim::Invisible => seq![],
    }
}

/// The text of a token sequence. Documentation attributes (`#[doc = "..."]`, and
/// `#![doc = "..."]` for the enclosing item) become comment lines, or nothing where they are
/// hidden; every other token is followed by a space, but for a punctuation character joined
/// to the next one.
pub open spec fn render_toks(ts: Seq<Tok>, hidden: bool) -> Seq<char>
    decreases ts,
{
    if ts.len() == 0 {
        seq![]
    } else if ts.len() >= 3 && is_punct(ts[0], '#') && is_punct(ts[1], '!') && doc_payload(ts[2]) is Some {
        doc_text(doc_payload(ts[2])->0, true, hidden) + render_toks(ts.subrange(3, ts.len() as int), hidden)
    } else if ts.len() >= 2 && is_punct(ts[0], '#') && doc_payload(ts[1]) is Some {
        doc_text(doc_payload(ts[1])->0, false, hidden) + render_toks(ts.subrange(2, ts.len() as int), hidden)
    } else {
        tok_text(ts[0], hidden) + render_toks(ts.subrange(1, ts.len() as int), hidden)
    }
}

/// The text of one token that does not open a documentation attribute.
pub open spec fn tok_text(t: Tok, hidden: bool) -> Seq<char>
    decreases t,
{
    match t {
        Tok::Group(d, inner, _) => open_text(d) + render_toks(inner@, hidden) + close_text(d) + seq![' '],
        Tok::Punct(c, alone) => seq![c] + (if alone { seq![' '] } else { seq![] }),
        Tok::Ident(x) => x@ + seq![' '],
        Tok::Lit(x) => x@ + seq![' '],
    }
}

/// The literal of a documentation group, if `t` is one (see `doc_payload`).
pub fn next_token_is_doc(t: &Tok) -> (r: Option<&str>)
    ensures
        r is Some <==> doc_payload(*t) is Some,
        r is Some ==> r->0@ == doc_payload(*t)->0,
{
    match t {
        Tok::Group(Delim::Bracket, ts, _) => {
            if ts.len() != 3 {
                return None;
            }
            let name_ok = match &ts[0] {
                Tok::Ident(x) => crate::attrs::same_text(x.as_str(), "doc"),
                _ => false,
            };
            let eq_ok = match &ts[1] {
                Tok::Punct(c, alone) => *c == '=' && *alone,
                _ => false,
            };
            if !name_ok || !eq_ok {
                return None;
            }
            match &ts[2] {
                Tok::Lit(x) => Some(x.as_str()),
                _ => None,
            }
        },
        _ => None,
    }
}

fn punct_is(t: &Tok, c: char) -> (r: bool)
    ensures
        r == is_punct(*t, c),
{
    match t {
        Tok::Punct(x, _) => *x == c,
        _ => false,
    }
}

fn push_open(out: &mut String, d: &Delim)
    ensures
        final(out)@ == old(out)@ + open_text(*d),
{
    match d {
        Delim::Paren => push_char(out, '('),
        Delim::Brace => push_char(out, '{'),
        Delim::Bracket => push_char(out, '['),
        Delim::Invisible => {
            assert(old(out)@ + open_text(*d) =~= old(out)@);
        },
    }
}

fn push_close(out: &mut String, d: &Delim)
    ensures
        final(out)@ == old(out)@ + close_text(*d),
{
    match d {
        Delim::Paren => push_char(out, ')'),
        Delim::Brace => push_char(out, '}'),
        Delim::Bracket => push_char(out, ']'),
        Delim::Invisible => {
            assert(old(out)@ + close_text(*d) =~= old(out)@);
        },
    }
}

/// Appends the text of one token (see `tok_text`).
fn push_token(out: &mut String, t: &Tok, doc_hidden: bool)
    ensures
        final(out)@ == old(out)@ + tok_text(*t, doc_hidden),
    decreases *t,
{
    let ghost o0 = out@;
    match t {
        Tok::Group(d, inner, _) => {
            push_open(out, d);
            assert(decreases_to!(*t => *inner));
            push_tokens(out, inner, 0, inner.len(), doc_hidden);
            assert(inner@.subrange(0, inner@.len() as int) =~= inner@);
            push_close(out, d);
            push_char(out, ' ');
        },
        Tok::Punct(c, alone) => {
            push_char(out, *c);
            if *alone {
                push_char(out, ' ');
            }
        },
        Tok::Ident(x) => {
            out.append(x.as_str());
            push_char(out, ' ');
        },
        Tok::Lit(x) => {
            out.append(x.as_str());
            push_char(out, ' ');
        },
    }
    assert(out@ =~= o0 + tok_text(*t, doc_hidden));
}

/// Appends the text of `ts[lo..hi]` (see `render_toks`).
pub fn push_tokens(out: &mut String, ts: &Vec<Tok>, lo: usize, hi: usize, doc_hidden: bool)
    requires
        lo <= hi <= ts@.len(),
    ensures
        final(out)@ == old(out)@ + render_toks(ts@.subrange(lo as int, hi as int), doc_hidden),
    decreases ts@,
{
    let ghost o0 = out@;
    let n = hi;
    let mut i: usize = lo;
    while i < n
        invariant
            lo <= i <= n,
            n <= ts@.len(),
            out@ + render_toks(ts@.subrange(i as int, n as int), doc_hidden) == o0 + render_toks(ts@.subrange(lo as int, hi as int), doc_hidden),
        decreases n - i,
    {
        let ghost t = ts@.subrange(i as int, n as int);
        let ghost prev = out@;
        assert(t[0] == ts@[i as int]);
        if n - i >= 3 && punct_is(&ts[i], '#') && punct_is(&ts[i + 1], '!') && next_token_is_doc(&ts[i + 2]).is_some() {
            assert(t[1] == ts@[i + 1] && t[2] == ts@[i + 2]);
            let lit = next_token_is_doc(&ts[i + 2]).unwrap();
            format_doc_comment(out, lit, true, doc_hidden);
            assert(t.subrange(3, t.len() as int) =~= ts@.subrange(i + 3, n as int));
            assert(out@ + render_toks(ts@.subrange(i + 3, n as int), doc_hidden) =~= prev + render_toks(t, doc_hidden));
            i += 3;
        } else if n - i >= 2 && punct_is(&ts[i], '#') && next_token_is_doc(&ts[i + 1]).is_some() {
            assert(t[1] == ts@[i + 1]);
            let lit = next_token_is_doc(&ts[i + 1]).unwrap();
            format_doc_comment(out, lit, false, doc_hidden);
            assert(t.subrange(2, t.len() as int) =~= ts@.subrange(i + 2, n as int));
            assert(out@ + render_toks(ts@.subrange(i + 2, n as int), doc_hidden) =~= prev + render_toks(t, doc_hidden));
            i += 2;
        } else {
            proof {
                if t.len() >= 3 {
                    assert(t[1] == ts@[i + 1] && t[2] == ts@[i + 2]);
                }
                if t.len() >= 2 {
                    assert(t[1] == ts@[i + 1]);
                }
            }
            assert(t.subrange(1, t.len() as int) =~= ts@.subrange(i + 1, n as int));
            assert(decreases_to!(ts@ => ts@[i as int]));
            push_token(out, &ts[i], doc_hidden);
            assert(out@ + render_toks(ts@.subrange(i + 1, n as int), doc_hidden) =~= prev + render_toks(t, doc_hidden));
            i += 1;
        }
    }
    assert(out@ + render_toks(ts@.subrange(n as int, n as int), doc_hidden) =~= out@);
}

/// The text of a token sequence (see `render_toks`).
pub fn stringify_tokens(ts: &Vec<Tok>, doc_hidden: bool) -> (r: String)
    ensures
        r@ == render_toks(ts@, doc_hidden),
{
    let mut out = String::new();
    push_tokens(&mut out, ts, 0, ts.len(), doc_hidden);
    assert(ts@.subrange(0, ts@.len() as int) =~= ts@);
    assert(out@ =~= render_toks(ts@, doc_hidden));
    out
}

/// A token tree none of whose texts holds a line feed.
pub open spec fn plain_tok(t: Tok) -> bool
    decreases t,
{
    match t {
        Tok::Group(_, inner, _) => forall|i: int| 0 <= i < inner@.len() ==> plain_tok(#[trigger] inner@[i]),
        Tok::Ident(x) => !x@.contains('\n'),
        Tok::Lit(x) => !x@.contains('\n'),
        Tok::Punct(c, _) => c != '\n',
    }
}

pub open spec fn plain(ts: Seq<Tok>) -> bool {
    forall|i: int| 0 <= i < ts.len() ==> plain_tok(#[trigger] ts[i])
}

pub proof fn lemma_concat_no_nl(a: Seq<char>, b: Seq<char>)
    requires
        !a.contains('\n'),
        !b.contains('\n'),
    ensures
        !(a + b).contains('\n'),
{
    if (a + b).contains('\n') {
        let k = choose|k: int| 0 <= k < (a + b).len() && (a + b)[k] == '\n';
        if k < a.len() {
            assert(a[k] == '\n');
        } else {
            assert(b[k - a.len()] == '\n');
        }
    }
}

proof fn lemma_small_no_nl(a: Seq<char>)
    requires
        forall|i: int| 0 <= i < a.len() ==> a[i] != '\n',
    ensures
        !a.contains('\n'),
{
}

/// With documentation hidden, the text of plain tokens has no line feed, and so no
/// documentation line: every documentation line ends with one.
pub proof fn lemma_hidden_docs(ts: Seq<Tok>)
    requires
        plain(ts),
    ensures
        !render_toks(ts, true).contains('\n'),
    decreases ts,
{
    if ts.len() > 0 {
        let rest_at = if ts.len() >= 3 && is_punct(ts[0], '#') && is_punct(ts[1], '!') && doc_payload(ts[2]) is Some {
            3int
        } else if ts.len() >= 2 && is_punct(ts[0], '#') && doc_payload(ts[1]) is Some {
            2int
        } else {
            1int
        };
        let rest = ts.subrange(rest_at, ts.len() as int);
        assert forall|i: int| 0 <= i < rest.len() implies plain_tok(#[trigger] rest[i]) by {
            assert(rest[i] == ts[i + rest_at]);
        }
        lemma_hidden_docs(rest);
        if rest_at == 1 {
            assert(plain_tok(ts[0]));
            lemma_tok_hidden_docs(ts[0]);
            lemma_concat_no_nl(tok_text(ts[0], true), render_toks(rest, true));
        } else {
            assert(doc_text(doc_payload(ts[rest_at - 1])->0, rest_at == 3, true) =~= Seq::<char>::empty());
            assert(render_toks(ts, true) =~= render_toks(rest, true));
        }
    }
}

proof fn lemma_tok_hidden_docs(t: Tok)
    requires
        plain_tok(t),
    ensures
        !tok_text(t, true).contains('\n'),
    decreases t,
{
    match t {
        Tok::Group(d, inner, _) => {
            assert(plain(inner@));
            lemma_hidden_docs(inner@);
            lemma_small_no_nl(open_text(d));
            lemma_small_no_nl(close_text(d));
            lemma_small_no_nl(seq![' ']);
            lemma_concat_no_nl(open_text(d), render_toks(inner@, true));
            lemma_concat_no_nl(open_text(d) + render_toks(inner@, true), close_text(d));
            lemma_concat_no_nl(open_text(d) + render_toks(inner@, true) + close_text(d), seq![' ']);
        },
        Tok::Punct(c, alone) => {
            lemma_small_no_nl(tok_text(t, true));
        },
        Tok::Ident(x) => {
            lemma_small_no_nl(seq![' ']);
            lemma_concat_no_nl(x@, seq![' ']);
        },
        Tok::Lit(x) => {
            lemma_small_no_nl(seq![' ']);
            lemma_concat_no_nl(x@, seq![' ']);
        },
    }
}

/// The text of a token sequence from which every documentation attribute, at any depth,
/// has been deleted.
pub open spec fn render_bare(ts: Seq<Tok>) -> Seq<char>
    decreases ts,
{
    if ts.len() == 0 {
        seq![]
    } else if ts.len() >= 3 && is_punct(ts[0], '#') && is_punct(ts[1], '!') && doc_payload(ts[2]) is Some {
        render_bare(ts.subrange(3, ts.len() as int))
    } else if ts.len() >= 2 && is_punct(ts[0], '#') && doc_payload(ts[1]) is Some {
        render_bare(ts.subrange(2, ts.len() as int))
    } else {
        bare_tok(ts[0]) + render_bare(ts.subrange(1, ts.len() as int))
    }
}

pub open spec fn bare_tok(t: Tok) -> Seq<char>
    decreases t,
{
    match t {
        Tok::Group(d, inner, _) => open_text(d) + render_bare(inner@) + close_text(d) + seq![' '],
        _ => tok_text(t, true),
    }
}

/// With documentation hidden, the text of any token sequence is that of the sequence with
/// every documentation attribute deleted, at any depth: no documentation line is emitted.
pub proof fn lemma_hidden_docs_deleted(ts: Seq<Tok>)
    ensures
        render_toks(ts, true) == render_bare(ts),
    decreases ts,
{
    if ts.len() > 0 {
        if ts.len() >= 3 && is_punct(ts[0], '#') && is_punct(ts[1], '!') && doc_payload(ts[2]) is Some {
            lemma_hidden_docs_deleted(ts.subrange(3, ts.len() as int));
            assert(render_toks(ts, true) =~= render_bare(ts));
        } else if ts.len() >= 2 && is_punct(ts[0], '#') && doc_payload(ts[1]) is Some {
            lemma_hidden_docs_deleted(ts.subrange(2, ts.len() as int));
            assert(render_toks(ts, true) =~= render_bare(ts));
        } else {
            lemma_hidden_docs_deleted(ts.subrange(1, ts.len() as int));
            lemma_tok_hidden_deleted(ts[0]);
        }
    }
}

proof fn lemma_tok_hidden_deleted(t: Tok)
    ensures
        tok_text(t, true) == bare_tok(t),
    decreases t,
{
    if let Tok::Group(d, inner, _) = t {
        lemma_hidden_docs_deleted(inner@);
    }
}

} // verus!
