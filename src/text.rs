use vstd::prelude::*;

verus! {

/// Relies on `String::push`: appends one character.
#[verifier::external_body]
pub(crate) fn push_char(s: &mut String, c: char)
    ensures
        final(s)@ == old(s)@.push(c),
{
    s.push(c)
}

/// Relies on `char::from_u32`: the character with the given code point, if it is one.
#[verifier::external_body]
pub(crate) fn char_from_u32(u: u32) -> (r: Option<char>)
    ensures
        r is Some <==> (u < 0xD800 || (0xE000 <= u && u < 0x110000)),
        r is Some ==> r->0 as u32 == u,
{
    char::from_u32(u)
}

} // verus!

verus! {

/// Strict lexicographic order on character sequences, by code point.
pub open spec fn seq_less(a: Seq<char>, b: Seq<char>) -> bool
    decreases a.len(),
{
    if b.len() == 0 {
        false
    } else if a.len() == 0 {
        true
    } else if a[0] != b[0] {
        a[0] < b[0]
    } else {
        seq_less(a.drop_first(), b.drop_first())
    }
}

/// Two different sequences are ordered one way or the other.
pub proof fn lemma_seq_less_total(a: Seq<char>, b: Seq<char>)
    requires
        a != b,
    ensures
        seq_less(a, b) || seq_less(b, a),
    decreases a.len(),
{
    if a.len() > 0 && b.len() > 0 && a[0] == b[0] {
        if a.drop_first() == b.drop_first() {
            assert(a =~= seq![a[0]] + a.drop_first());
            assert(b =~= seq![b[0]] + b.drop_first());
        }
        lemma_seq_less_total(a.drop_first(), b.drop_first());
    } else if a.len() == 0 && b.len() == 0 {
        assert(a =~= b);
    } else if a.len() > 0 && b.len() > 0 {
        assert(a[0] < b[0] || b[0] < a[0]);
    }
}

/// Whether `a` comes strictly before `b` in lexicographic order.
pub fn str_less(a: &str, b: &str) -> (r: bool)
    ensures
        r == seq_less(a@, b@),
{
    let la = a.unicode_len();
    let lb = b.unicode_len();
    let mut i: usize = 0;
    assert(a@.skip(0) =~= a@);
    assert(b@.skip(0) =~= b@);
    while i < la && i < lb
        invariant
            la == a@.len(),
            lb == b@.len(),
            i <= la,
            i <= lb,
            seq_less(a@, b@) == seq_less(a@.skip(i as int), b@.skip(i as int)),
        decreases la - i,
    {
        let ca = a.get_char(i);
        let cb = b.get_char(i);
        if ca != cb {
            return ca < cb;
        }
        assert(a@.skip(i as int).drop_first() =~= a@.skip(i + 1));
        assert(b@.skip(i as int).drop_first() =~= b@.skip(i + 1));
        i += 1;
    }
    i < lb && i == la
}

/// Whether two strings hold the same characters.
pub fn str_eq(a: &String, b: &String) -> (r: bool)
    ensures
        r == (a@ == b@),
{
    *a == *b
}

/// Relies on `str::chars` collected into a vector: the characters of the string, in order.
#[verifier::external_body]
pub(crate) fn chars_of(s: &str) -> (r: Vec<char>)
    ensures
        r@ == s@,
{
    s.chars().collect()
}

/// The string made of `cs[lo..hi]`.
pub fn string_of(cs: &Vec<char>, lo: usize, hi: usize) -> (r: String)
    requires
        lo <= hi <= cs@.len(),
    ensures
        r@ == cs@.subrange(lo as int, hi as int),
{
    let mut r = String::new();
    let mut i = lo;
    while i < hi
        invariant
            lo <= i <= hi,
            hi <= cs@.len(),
            r@ == cs@.subrange(lo as int, i as int),
        decreases hi - i,
    {
        push_char(&mut r, cs[i]);
        assert(cs@.subrange(lo as int, i + 1) =~= cs@.subrange(lo as int, i as int).push(cs@[i as int]));
        i += 1;
    }
    r
}

/// The characters that Unicode gives the White_Space property.
pub open spec fn is_ws(c: char) -> bool {
    ('\t' <= c && c <= '\r') || c == ' ' || c == '\u{85}' || c == '\u{a0}' || c == '\u{1680}' || (
    '\u{2000}' <= c && c <= '\u{200a}') || c == '\u{2028}' || c == '\u{2029}' || c == '\u{202f}'
        || c == '\u{205f}' || c == '\u{3000}'
}

pub fn is_whitespace(c: char) -> (r: bool)
    ensures
        r == is_ws(c),
{
    ('\t' <= c && c <= '\r') || c == ' ' || c == '\u{85}' || c == '\u{a0}' || c == '\u{1680}' || (
    '\u{2000}' <= c && c <= '\u{200a}') || c == '\u{2028}' || c == '\u{2029}' || c == '\u{202f}'
        || c == '\u{205f}' || c == '\u{3000}'
}

pub open spec fn trim_start(s: Seq<char>) -> Seq<char>
    decreases s.len(),
{
    if s.len() > 0 && is_ws(s[0]) {
        trim_start(s.drop_first())
    } else {
        s
    }
}

pub open spec fn trim_end(s: Seq<char>) -> Seq<char>
    decreases s.len(),
{
    if s.len() > 0 && is_ws(s.last()) {
        trim_end(s.drop_last())
    } else {
        s
    }
}

/// `s` without leading and trailing white space.
pub open spec fn trim(s: Seq<char>) -> Seq<char> {
    trim_end(trim_start(s))
}

/// The bounds of `trim(cs[lo..hi])` within `cs`.
fn trim_bounds(cs: &Vec<char>, lo: usize, hi: usize) -> (r: (usize, usize))
    requires
        lo <= hi <= cs@.len(),
    ensures
        lo <= r.0 <= r.1 <= hi,
        cs@.subrange(r.0 as int, r.1 as int) == trim(cs@.subrange(lo as int, hi as int)),
{
    let mut a = lo;
    while a < hi && is_whitespace(cs[a])
        invariant
            lo <= a <= hi,
            hi <= cs@.len(),
            trim_start(cs@.subrange(lo as int, hi as int)) == trim_start(cs@.subrange(a as int, hi as int)),
        decreases hi - a,
    {
        assert(cs@.subrange(a as int, hi as int).drop_first() =~= cs@.subrange(a + 1, hi as int));
        a += 1;
    }
    assert(trim_start(cs@.subrange(a as int, hi as int)) == cs@.subrange(a as int, hi as int));
    let mut b = hi;
    while b > a && is_whitespace(cs[b - 1])
        invariant
            a <= b <= hi,
            hi <= cs@.len(),
            trim_end(cs@.subrange(a as int, hi as int)) == trim_end(cs@.subrange(a as int, b as int)),
        decreases b,
    {
        assert(cs@.subrange(a as int, b as int).drop_last() =~= cs@.subrange(a as int, b - 1));
        b -= 1;
    }
    (a, b)
}

/// The pieces of `s` between commas.
pub open spec fn split_commas(s: Seq<char>) -> Seq<Seq<char>>
    decreases s.len(),
{
    if s.len() == 0 {
        seq![seq![]]
    } else {
        let rest = split_commas(s.drop_last());
        if s.last() == ',' {
            rest.push(seq![])
        } else {
            rest.update(rest.len() - 1, rest.last().push(s.last()))
        }
    }
}

/// The trimmed, non-empty pieces of `xs`, in order.
pub open spec fn trimmed_nonempty(xs: Seq<Seq<char>>) -> Seq<Seq<char>>
    decreases xs.len(),
{
    if xs.len() == 0 {
        seq![]
    } else if trim(xs.last()).len() == 0 {
        trimmed_nonempty(xs.drop_last())
    } else {
        trimmed_nonempty(xs.drop_last()).push(trim(xs.last()))
    }
}

/// A comma-separated list of names: split at commas, trimmed, empty entries dropped.
pub open spec fn name_list(s: Seq<char>) -> Seq<Seq<char>> {
    trimmed_nonempty(split_commas(s))
}

/// Splits a comma-separated list of names.
pub fn split_names(s: &str) -> (r: Vec<String>)
    ensures
        r@.map_values(|x: String| x@) == name_list(s@),
{
    let cs = chars_of(s);
    let mut out: Vec<String> = Vec::new();
    let mut start: usize = 0;
    let mut i: usize = 0;
    proof {
        assert(cs@.subrange(0, 0) =~= Seq::<char>::empty());
    }
    while i < cs.len()
        invariant
            start <= i <= cs@.len(),
            cs@ == s@,
            split_commas(cs@.subrange(0, i as int)).last() == cs@.subrange(start as int, i as int),
            split_commas(cs@.subrange(0, i as int)).len() >= 1,
            out@.map_values(|x: String| x@) == trimmed_nonempty(
                split_commas(cs@.subrange(0, i as int)).drop_last(),
            ),
        decreases cs.len() - i,
    {
        let ghost pre = cs@.subrange(0, i as int);
        let ghost cur = cs@.subrange(0, i + 1);
        assert(cur.drop_last() =~= pre);
        if cs[i] == ',' {
            let (a, b) = trim_bounds(&cs, start, i);
            let ghost prev = out@;
            if a < b {
                out.push(string_of(&cs, a, b));
                assert(out@.map_values(|x: String| x@) =~= prev.map_values(|x: String| x@).push(
                    cs@.subrange(a as int, b as int),
                ));
            }
            assert(split_commas(cur) == split_commas(pre).push(seq![]));
            assert(split_commas(cur).drop_last() =~= split_commas(pre));
            assert(split_commas(pre).drop_last().push(split_commas(pre).last()) =~= split_commas(
                pre,
            ));
            start = i + 1;
            assert(cs@.subrange(start as int, i + 1) =~= Seq::<char>::empty());
        } else {
            let ghost sp = split_commas(pre);
            assert(split_commas(cur) == sp.update(sp.len() - 1, sp.last().push(cs@[i as int])));
            assert(split_commas(cur).drop_last() =~= sp.drop_last());
            assert(cs@.subrange(start as int, i + 1) =~= cs@.subrange(start as int, i as int).push(
                cs@[i as int],
            ));
        }
        i += 1;
    }
    assert(cs@.subrange(0, cs@.len() as int) =~= cs@);
    let ghost sp = split_commas(cs@);
    let (a, b) = trim_bounds(&cs, start, cs.len());
    let ghost prev = out@;
    if a < b {
        out.push(string_of(&cs, a, b));
        assert(out@.map_values(|x: String| x@) =~= prev.map_values(|x: String| x@).push(
            cs@.subrange(a as int, b as int),
        ));
    }
    assert(sp.drop_last().push(sp.last()) =~= sp);
    out
}

/// No sequence comes before itself.
pub proof fn lemma_seq_less_irreflexive(a: Seq<char>)
    ensures
        !seq_less(a, a),
    decreases a.len(),
{
    if a.len() > 0 {
        lemma_seq_less_irreflexive(a.drop_first());
    }
}

/// The order is transitive.
pub proof fn lemma_seq_less_transitive(a: Seq<char>, b: Seq<char>, c: Seq<char>)
    requires
        seq_less(a, b),
        seq_less(b, c),
    ensures
        seq_less(a, c),
    decreases a.len(),
{
    if a.len() > 0 && b.len() > 0 && c.len() > 0 && a[0] == b[0] && b[0] == c[0] {
        lemma_seq_less_transitive(a.drop_first(), b.drop_first(), c.drop_first());
    }
}

} // verus!
