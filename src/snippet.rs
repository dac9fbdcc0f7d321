use vstd::prelude::*;

use crate::text::{lemma_seq_less_irreflexive, lemma_seq_less_transitive, seq_less, str_eq, str_less};

verus! {

/// What the markers on one declaration say.
pub struct SnippetAttributes {
    /// Output names; a fragment may have several, though dependencies are preferred.
    pub names: Vec<String>,
    /// Names of the snippets that this one needs before it.
    pub uses: Vec<String>,
    /// Text emitted before the snippet's body.
    pub prefix: String,
    /// Whether documentation comments are left out of the body.
    pub doc_hidden: bool,
}

/// One extracted fragment: its attributes and its reconstructed, unformatted text.
pub struct Snippet {
    pub attrs: SnippetAttributes,
    pub content: String,
}

/// The character sequences of a sequence of strings.
pub open spec fn strs(v: Seq<String>) -> Seq<Seq<char>> {
    v.map_values(|s: String| s@)
}

impl Snippet {
    pub open spec fn names(self) -> Seq<Seq<char>> {
        strs(self.attrs.names@)
    }

    pub open spec fn uses(self) -> Seq<Seq<char>> {
        strs(self.attrs.uses@)
    }
}

/// Some fragment carries the name `n`.
pub open spec fn defined(snips: Seq<Snippet>, n: Seq<char>) -> bool {
    exists|i: int| 0 <= i < snips.len() && (#[trigger] snips[i]).names().contains(n)
}

/// The prefixes of all fragments named `n`, in order.
pub open spec fn own_prefix(snips: Seq<Snippet>, n: Seq<char>) -> Seq<char>
    decreases snips.len(),
{
    if snips.len() == 0 {
        seq![]
    } else if snips.last().names().contains(n) {
        own_prefix(snips.drop_last(), n) + snips.last().attrs.prefix@
    } else {
        own_prefix(snips.drop_last(), n)
    }
}

/// The bodies of all fragments named `n`, in order.
pub open spec fn own_content(snips: Seq<Snippet>, n: Seq<char>) -> Seq<char>
    decreases snips.len(),
{
    if snips.len() == 0 {
        seq![]
    } else if snips.last().names().contains(n) {
        own_content(snips.drop_last(), n) + snips.last().content@
    } else {
        own_content(snips.drop_last(), n)
    }
}

/// `a` extended by the elements of `b` that it lacks, in the order of `b`.
pub open spec fn add_new(a: Seq<Seq<char>>, b: Seq<Seq<char>>) -> Seq<Seq<char>>
    decreases b.len(),
{
    if b.len() == 0 {
        a
    } else if a.contains(b[0]) {
        add_new(a, b.drop_first())
    } else {
        add_new(a.push(b[0]), b.drop_first())
    }
}

/// The direct dependencies of `n`, in the order in which they were first declared.
pub open spec fn deps_of(snips: Seq<Snippet>, n: Seq<char>) -> Seq<Seq<char>>
    decreases snips.len(),
{
    if snips.len() == 0 {
        seq![]
    } else if snips.last().names().contains(n) {
        add_new(deps_of(snips.drop_last(), n), snips.last().uses())
    } else {
        deps_of(snips.drop_last(), n)
    }
}

/// Every name that occurs in the fragments, as an output name or as a dependency.
pub open spec fn universe(snips: Seq<Snippet>) -> Seq<Seq<char>>
    decreases snips.len(),
{
    if snips.len() == 0 {
        seq![]
    } else {
        universe(snips.drop_last()) + snips.last().names() + snips.last().uses()
    }
}

/// Depth-first expansion from a stack of pending names, skipping those already visited:
/// the defined names in the order in which they are first reached.
pub open spec fn walk(snips: Seq<Snippet>, stack: Seq<Seq<char>>, visited: Set<Seq<char>>) -> Seq<
    Seq<char>,
>
    decreases universe(snips).to_set().difference(visited).len(), stack.len(),
    via walk_decreases
{
    if stack.len() == 0 {
        seq![]
    } else {
        let t = stack.last();
        if visited.contains(t) || !universe(snips).contains(t) {
            walk(snips, stack.drop_last(), visited)
        } else if defined(snips, t) {
            seq![t] + walk(snips, stack.drop_last() + deps_of(snips, t).reverse(), visited.insert(t))
        } else {
            walk(snips, stack.drop_last(), visited.insert(t))
        }
    }
}

#[via_fn]
proof fn walk_decreases(snips: Seq<Snippet>, stack: Seq<Seq<char>>, visited: Set<Seq<char>>) {
    broadcast use vstd::seq_lib::seq_to_set_is_finite;

    if stack.len() > 0 {
        let t = stack.last();
        if !visited.contains(t) && universe(snips).contains(t) {
            universe(snips).to_set().lemma_set_insert_diff_decreases(visited, t);
        }
    }
}

/// The names whose text makes up the resolved snippet `n`: its dependencies, transitively
/// and each once, then `n` itself.
pub open spec fn resolution_order(snips: Seq<Snippet>, n: Seq<char>) -> Seq<Seq<char>> {
    walk(snips, deps_of(snips, n).reverse(), set![n]).push(n)
}

pub open spec fn joined_prefix(snips: Seq<Snippet>, ord: Seq<Seq<char>>) -> Seq<char>
    decreases ord.len(),
{
    if ord.len() == 0 {
        seq![]
    } else {
        joined_prefix(snips, ord.drop_last()) + own_prefix(snips, ord.last())
    }
}

pub open spec fn joined_content(snips: Seq<Snippet>, ord: Seq<Seq<char>>) -> Seq<char>
    decreases ord.len(),
{
    if ord.len() == 0 {
        seq![]
    } else {
        joined_content(snips, ord.drop_last()) + own_content(snips, ord.last())
    }
}

/// The final text of the snippet named `n`: all prefixes, then all bodies, dependencies first.
pub open spec fn resolved(snips: Seq<Snippet>, n: Seq<char>) -> Seq<char> {
    let ord = resolution_order(snips, n);
    joined_prefix(snips, ord) + joined_content(snips, ord)
}

/// Names of a resolved list.
pub open spec fn keys(r: Seq<(String, String)>) -> Seq<Seq<char>> {
    r.map_values(|p: (String, String)| p.0@)
}

/// Whether `s` occurs in `v`.
pub fn contains_str(v: &Vec<String>, s: &String) -> (r: bool)
    ensures
        r == strs(v@).contains(s@),
{
    let mut i: usize = 0;
    while i < v.len()
        invariant
            i <= v.len(),
            forall|j: int| 0 <= j < i ==> v@[j]@ != s@,
        decreases v.len() - i,
    {
        if str_eq(&v[i], s) {
            assert(strs(v@)[i as int] == s@);
            return true;
        }
        i += 1;
    }
    assert forall|j: int| 0 <= j < strs(v@).len() implies strs(v@)[j] != s@ by {
        assert(strs(v@)[j] == v@[j]@);
    }
    false
}

/// Appends to `acc` each element of `b` that it does not hold yet.
pub(crate) fn extend_new(acc: &mut Vec<String>, b: &Vec<String>)
    ensures
        strs(final(acc)@) == add_new(strs(old(acc)@), strs(b@)),
{
    let ghost a0 = strs(acc@);
    let mut j: usize = 0;
    assert(strs(b@).subrange(0, b@.len() as int) =~= strs(b@));
    while j < b.len()
        invariant
            j <= b.len(),
            add_new(strs(acc@), strs(b@).subrange(j as int, b@.len() as int)) == add_new(a0, strs(b@)),
        decreases b.len() - j,
    {
        let ghost rest = strs(b@).subrange(j as int, b@.len() as int);
        assert(rest.drop_first() =~= strs(b@).subrange(j + 1, b@.len() as int));
        assert(rest[0] == b@[j as int]@);
        if !contains_str(acc, &b[j]) {
            let ghost prev = acc@;
            let x = b[j].clone();
            acc.push(x);
            assert(strs(acc@) =~= strs(prev).push(b@[j as int]@));
        }
        j += 1;
    }
    assert(strs(b@).subrange(b@.len() as int, b@.len() as int) =~= Seq::<Seq<char>>::empty());
}

/// What the fragments named `n` contribute: prefixes, bodies, dependencies, and whether
/// there is any.
fn gather(snips: &[Snippet], n: &String) -> (r: (String, String, Vec<String>, bool))
    ensures
        r.0@ == own_prefix(snips@, n@),
        r.1@ == own_content(snips@, n@),
        strs(r.2@) == deps_of(snips@, n@),
        r.3 == defined(snips@, n@),
{
    let mut prefix = String::new();
    let mut content = String::new();
    let mut deps: Vec<String> = Vec::new();
    let mut found = false;
    let mut i: usize = 0;
    while i < snips.len()
        invariant
            i <= snips.len(),
            prefix@ == own_prefix(snips@.subrange(0, i as int), n@),
            content@ == own_content(snips@.subrange(0, i as int), n@),
            strs(deps@) == deps_of(snips@.subrange(0, i as int), n@),
            found == defined(snips@.subrange(0, i as int), n@),
        decreases snips.len() - i,
    {
        let ghost sub = snips@.subrange(0, i + 1);
        assert(sub.drop_last() =~= snips@.subrange(0, i as int));
        assert(sub.last() == snips@[i as int]);
        if contains_str(&snips[i].attrs.names, n) {
            prefix.append(snips[i].attrs.prefix.as_str());
            content.append(snips[i].content.as_str());
            extend_new(&mut deps, &snips[i].attrs.uses);
            found = true;
            assert(sub[i as int].names().contains(n@));
        } else {
            assert forall|k: int| 0 <= k < sub.len() && (#[trigger] sub[k]).names().contains(n@)
                implies snips@.subrange(0, i as int)[k].names().contains(n@) by {
                if k < i {
                    assert(snips@.subrange(0, i as int)[k] == sub[k]);
                }
            }
        }
        proof {
            if found {
                if !defined(snips@.subrange(0, i as int), n@) {
                    assert(sub[i as int].names().contains(n@));
                } else {
                    let k = choose|k: int|
                        0 <= k < i && (#[trigger] snips@.subrange(0, i as int)[k]).names().contains(
                            n@,
                        );
                    assert(sub[k] == snips@.subrange(0, i as int)[k]);
                }
            }
        }
        i += 1;
    }
    assert(snips@.subrange(0, snips@.len() as int) =~= snips@);
    (prefix, content, deps, found)
}

proof fn lemma_add_new_member(a: Seq<Seq<char>>, b: Seq<Seq<char>>, x: Seq<char>)
    requires
        add_new(a, b).contains(x),
    ensures
        a.contains(x) || b.contains(x),
    decreases b.len(),
{
    if b.len() > 0 {
        if a.contains(b[0]) {
            lemma_add_new_member(a, b.drop_first(), x);
        } else {
            lemma_add_new_member(a.push(b[0]), b.drop_first(), x);
            if a.push(b[0]).contains(x) && !a.contains(x) {
                let k = choose|k: int| 0 <= k < a.len() + 1 && a.push(b[0])[k] == x;
                if k < a.len() {
                    assert(a[k] == x);
                }
            }
        }
        if b.drop_first().contains(x) {
            let k = choose|k: int| 0 <= k < b.len() - 1 && b.drop_first()[k] == x;
            assert(b[k + 1] == x);
        }
    }
}

proof fn lemma_deps_in_universe(snips: Seq<Snippet>, n: Seq<char>, x: Seq<char>)
    requires
        deps_of(snips, n).contains(x),
    ensures
        universe(snips).contains(x),
    decreases snips.len(),
{
    if snips.len() > 0 {
        let rest = snips.drop_last();
        let u = universe(snips);
        let ur = universe(rest);
        let names = snips.last().names();
        let uses = snips.last().uses();
        assert(u == ur + names + uses);
        if snips.last().names().contains(n) {
            lemma_add_new_member(deps_of(rest, n), uses, x);
        }
        if deps_of(rest, n).contains(x) {
            lemma_deps_in_universe(rest, n, x);
            let k = choose|k: int| 0 <= k < ur.len() && ur[k] == x;
            assert(u[k] == x);
        } else {
            let k = choose|k: int| 0 <= k < uses.len() && uses[k] == x;
            assert(u[ur.len() + names.len() + k] == x);
        }
    }
}

/// Pushes the elements of `ds` onto `stack`, last first, so that the first is on top.
fn push_reversed(stack: &mut Vec<String>, ds: &Vec<String>)
    ensures
        strs(final(stack)@) == strs(old(stack)@) + strs(ds@).reverse(),
{
    let ghost s0 = strs(stack@);
    let mut k: usize = ds.len();
    while k > 0
        invariant
            k <= ds.len(),
            strs(stack@) == s0 + strs(ds@).reverse().subrange(0, ds.len() - k),
        decreases k,
    {
        let ghost prev = stack@;
        let x = ds[k - 1].clone();
        stack.push(x);
        assert(strs(stack@) =~= strs(prev).push(ds@[k - 1]@));
        assert(strs(ds@).reverse().subrange(0, ds.len() - k + 1) =~= strs(ds@).reverse().subrange(
            0,
            ds.len() - k,
        ).push(ds@[k - 1]@));
        k -= 1;
    }
    assert(strs(ds@).reverse().subrange(0, ds.len() as int) =~= strs(ds@).reverse());
}

/// The resolved text of the snippet named `n`.
fn resolve_name(snips: &[Snippet], n: &String) -> (r: String)
    ensures
        r@ == resolved(snips@, n@),
{
    broadcast use vstd::seq_lib::seq_to_set_is_finite;

    let ghost u = universe(snips@);
    let (own_p, own_c, own_deps, _) = gather(snips, n);
    let mut used: Vec<String> = Vec::new();
    used.push(n.clone());
    let mut stack: Vec<String> = Vec::new();
    push_reversed(&mut stack, &own_deps);
    let mut acc_p = String::new();
    let mut acc_c = String::new();
    let ghost start = deps_of(snips@, n@).reverse();
    let ghost mut order: Seq<Seq<char>> = seq![];
    proof {
        assert(strs(stack@) =~= start);
        assert(strs(used@).to_set() =~= set![n@]) by {
            assert(strs(used@) =~= Seq::<Seq<char>>::empty().push(n@));
            Seq::<Seq<char>>::empty().lemma_push_to_set_commute(n@);
            assert(Seq::<Seq<char>>::empty().to_set() =~= Set::empty());
        }
        assert forall|k: int| 0 <= k < strs(stack@).len() implies u.contains(
            #[trigger] strs(stack@)[k],
        ) by {
            assert(deps_of(snips@, n@).contains(start[k]));
            lemma_deps_in_universe(snips@, n@, start[k]);
        }
    }
    while stack.len() > 0
        invariant
            order + walk(snips@, strs(stack@), strs(used@).to_set()) == walk(
                snips@,
                start,
                set![n@],
            ),
            acc_p@ == joined_prefix(snips@, order),
            acc_c@ == joined_content(snips@, order),
            forall|k: int| 0 <= k < strs(stack@).len() ==> u.contains(#[trigger] strs(stack@)[k]),
            u == universe(snips@),
        decreases u.to_set().difference(strs(used@).to_set()).len(), stack.len(),
    {
        let ghost st = strs(stack@);
        let ghost vis = strs(used@).to_set();
        let dep = stack.pop().unwrap();
        assert(strs(stack@) =~= st.drop_last());
        assert(dep@ == st.last());
        if !contains_str(&used, &dep) {
            let ghost prev = used@;
            used.push(dep.clone());
            assert(strs(used@).to_set() =~= vis.insert(dep@)) by {
                assert(strs(used@) =~= strs(prev).push(dep@));
                strs(prev).lemma_push_to_set_commute(dep@);
            }
            proof {
                u.to_set().lemma_set_insert_diff_decreases(vis, dep@);
            }
            let (p, c, ds, def) = gather(snips, &dep);
            if def {
                acc_p.append(p.as_str());
                acc_c.append(c.as_str());
                let ghost before = strs(stack@);
                push_reversed(&mut stack, &ds);
                proof {
                    assert(order.push(dep@).drop_last() =~= order);
                    assert forall|k: int| 0 <= k < strs(stack@).len() implies u.contains(
                        #[trigger] strs(stack@)[k],
                    ) by {
                        if k >= before.len() {
                            let rv = strs(ds@).reverse();
                            assert(strs(stack@)[k] == rv[k - before.len()]);
                            assert(deps_of(snips@, dep@).contains(rv[k - before.len()]));
                            lemma_deps_in_universe(snips@, dep@, rv[k - before.len()]);
                        } else {
                            assert(strs(stack@)[k] == st[k]);
                        }
                    }
                    assert(order + (seq![dep@] + walk(snips@, strs(stack@), strs(used@).to_set()))
                        =~= order.push(dep@) + walk(snips@, strs(stack@), strs(used@).to_set()));
                    order = order.push(dep@);
                }
            }
        }
    }
    proof {
        let ord = order.push(n@);
        assert(ord.drop_last() =~= order);
        assert(order + walk(snips@, strs(stack@), strs(used@).to_set()) =~= order);
    }
    acc_p.append(own_p.as_str());
    acc_c.append(own_c.as_str());
    acc_p.append(acc_c.as_str());
    acc_p
}

/// Each element comes strictly before the next.
pub open spec fn sorted(s: Seq<Seq<char>>) -> bool {
    forall|i: int| 0 <= i < s.len() - 1 ==> seq_less(#[trigger] s[i], s[i + 1])
}

/// Inserts `x`, which `v` does not hold, at its place in the order.
fn insert_sorted(v: &mut Vec<String>, x: String)
    requires
        sorted(strs(old(v)@)),
        strs(old(v)@).no_duplicates(),
        !strs(old(v)@).contains(x@),
    ensures
        sorted(strs(final(v)@)),
        strs(final(v)@).no_duplicates(),
        forall|y: Seq<char>| #[trigger]
            strs(final(v)@).contains(y) <==> (strs(old(v)@).contains(y) || y == x@),
{
    let ghost s0 = strs(v@);
    let mut p: usize = 0;
    while p < v.len() && !str_less(x.as_str(), v[p].as_str())
        invariant
            p <= v.len(),
            v@ == old(v)@,
            forall|j: int| 0 <= j < p ==> !seq_less(x@, #[trigger] s0[j]),
            s0 == strs(v@),
        decreases v.len() - p,
    {
        p += 1;
    }
    proof {
        if p > 0 {
            assert(s0[p - 1] != x@);
            crate::text::lemma_seq_less_total(s0[p - 1], x@);
        }
    }
    v.insert(p, x);
    let ghost s1 = strs(v@);
    assert(s1 =~= s0.insert(p as int, x@));
    assert forall|i: int| 0 <= i < s1.len() - 1 implies seq_less(#[trigger] s1[i], s1[i + 1]) by {
        if i + 1 < p {
            assert(s1[i] == s0[i] && s1[i + 1] == s0[i + 1]);
        } else if i + 1 == p {
        } else if i == p {
        } else {
            assert(s1[i] == s0[i - 1] && s1[i + 1] == s0[i]);
        }
    }
    assert forall|i: int, j: int| 0 <= i < s1.len() && 0 <= j < s1.len() && i != j implies s1[i]
        != s1[j] by {
        if i != p as int && j != p as int {
            let i0 = if i < p { i } else { i - 1 };
            let j0 = if j < p { j } else { j - 1 };
            assert(s1[i] == s0[i0] && s1[j] == s0[j0]);
        } else if i == p {
            let j0 = if j < p { j } else { j - 1 };
            assert(s1[j] == s0[j0]);
        } else {
            let i0 = if i < p { i } else { i - 1 };
            assert(s1[i] == s0[i0]);
        }
    }
    assert forall|y: Seq<char>| #[trigger] s1.contains(y) <==> (s0.contains(y) || y == x@) by {
        if s1.contains(y) {
            let k = choose|k: int| 0 <= k < s1.len() && s1[k] == y;
            if k < p {
                assert(s0[k] == y);
            } else if k > p {
                assert(s0[k - 1] == y);
            }
        }
        if s0.contains(y) {
            let k = choose|k: int| 0 <= k < s0.len() && s0[k] == y;
            if k < p {
                assert(s1[k] == y);
            } else {
                assert(s1[k + 1] == y);
            }
        }
        if y == x@ {
            assert(s1[p as int] == y);
        }
    }
}

/// Every output name, once each, in lexicographic order.
fn sorted_names(snips: &[Snippet]) -> (r: Vec<String>)
    ensures
        sorted(strs(r@)),
        strs(r@).no_duplicates(),
        forall|y: Seq<char>| #[trigger] strs(r@).contains(y) <==> defined(snips@, y),
{
    let mut out: Vec<String> = Vec::new();
    let mut i: usize = 0;
    while i < snips.len()
        invariant
            i <= snips.len(),
            sorted(strs(out@)),
            strs(out@).no_duplicates(),
            forall|y: Seq<char>| #[trigger]
                strs(out@).contains(y) <==> defined(snips@.subrange(0, i as int), y),
        decreases snips.len() - i,
    {
        let names = &snips[i].attrs.names;
        let ghost nm = strs(names@);
        let ghost sub = snips@.subrange(0, i as int);
        let mut j: usize = 0;
        while j < names.len()
            invariant
                i < snips.len(),
                j <= names.len(),
                names == &snips@[i as int].attrs.names,
                nm == strs(names@),
                sub == snips@.subrange(0, i as int),
                sorted(strs(out@)),
                strs(out@).no_duplicates(),
                forall|y: Seq<char>| #[trigger]
                    strs(out@).contains(y) <==> (defined(sub, y) || nm.subrange(0, j as int).contains(y)),
            decreases names.len() - j,
        {
            let ghost before = strs(out@);
            if !contains_str(&out, &names[j]) {
                insert_sorted(&mut out, names[j].clone());
            }
            assert forall|y: Seq<char>| #[trigger] strs(out@).contains(y) <==> (defined(sub, y)
                || nm.subrange(0, j + 1).contains(y)) by {
                if nm.subrange(0, j + 1).contains(y) && !nm.subrange(0, j as int).contains(y) {
                    let k = choose|k: int| 0 <= k < j + 1 && #[trigger] nm.subrange(0, j + 1)[k] == y;
                    if k < j {
                        assert(nm.subrange(0, j as int)[k] == y);
                    }
                    assert(y == names@[j as int]@);
                }
                if nm.subrange(0, j as int).contains(y) {
                    let k = choose|k: int| 0 <= k < j && #[trigger] nm.subrange(0, j as int)[k] == y;
                    assert(nm.subrange(0, j + 1)[k] == y);
                }
                if y == names@[j as int]@ {
                    assert(nm.subrange(0, j + 1)[j as int] == y);
                }
            }
            j += 1;
        }
        proof {
            let sub1 = snips@.subrange(0, i + 1);
            assert(nm.subrange(0, nm.len() as int) =~= nm);
            assert forall|y: Seq<char>| #[trigger] strs(out@).contains(y) <==> defined(sub1, y) by {
                if defined(sub1, y) {
                    let k = choose|k: int| 0 <= k < sub1.len() && (#[trigger] sub1[k]).names().contains(y);
                    if k < i {
                        assert(sub[k] == sub1[k]);
                    } else {
                        assert(sub1[k] == snips@[i as int]);
                    }
                }
                if defined(sub, y) {
                    let k = choose|k: int| 0 <= k < sub.len() && (#[trigger] sub[k]).names().contains(y);
                    assert(sub1[k] == sub[k]);
                }
                if nm.contains(y) {
                    assert(sub1[i as int] == snips@[i as int]);
                }
            }
        }
        i += 1;
    }
    assert(snips@.subrange(0, snips@.len() as int) =~= snips@);
    out
}

/// Resolves every output name: each maps to the prefixes and then the bodies of its
/// dependencies, transitively and each once, followed by its own. Names come in
/// lexicographic order; a dependency that no fragment defines is left out.
pub fn process_snippets(snips: &[Snippet]) -> (r: Vec<(String, String)>)
    ensures
        sorted(keys(r@)),
        keys(r@).no_duplicates(),
        forall|n: Seq<char>| #[trigger] keys(r@).contains(n) <==> defined(snips@, n),
        forall|i: int| 0 <= i < r@.len() ==> (#[trigger] r@[i]).1@ == resolved(snips@, r@[i].0@),
{
    let names = sorted_names(snips);
    let mut out: Vec<(String, String)> = Vec::new();
    let mut i: usize = 0;
    while i < names.len()
        invariant
            i <= names.len(),
            keys(out@) == strs(names@).subrange(0, i as int),
            forall|k: int| 0 <= k < out@.len() ==> (#[trigger] out@[k]).1@ == resolved(snips@, out@[k].0@),
        decreases names.len() - i,
    {
        let text = resolve_name(snips, &names[i]);
        let ghost prev = out@;
        out.push((names[i].clone(), text));
        assert(keys(out@) =~= strs(names@).subrange(0, i + 1)) by {
            assert(keys(out@) =~= keys(prev).push(names@[i as int]@));
        }
        i += 1;
    }
    assert(strs(names@).subrange(0, names@.len() as int) =~= strs(names@));
    out
}

proof fn lemma_defined_in_universe(snips: Seq<Snippet>, n: Seq<char>)
    requires
        defined(snips, n),
    ensures
        universe(snips).contains(n),
    decreases snips.len(),
{
    let rest = snips.drop_last();
    let ur = universe(rest);
    let names = snips.last().names();
    assert(universe(snips) == ur + names + snips.last().uses());
    if snips.last().names().contains(n) {
        let k = choose|k: int| 0 <= k < names.len() && names[k] == n;
        assert(universe(snips)[ur.len() + k] == n);
    } else {
        let i = choose|i: int| 0 <= i < snips.len() && (#[trigger] snips[i]).names().contains(n);
        assert(rest[i] == snips[i]);
        lemma_defined_in_universe(rest, n);
        let k = choose|k: int| 0 <= k < ur.len() && ur[k] == n;
        assert(universe(snips)[k] == n);
    }
}

proof fn lemma_joined_append(snips: Seq<Snippet>, a: Seq<Seq<char>>, b: Seq<Seq<char>>)
    ensures
        joined_prefix(snips, a + b) == joined_prefix(snips, a) + joined_prefix(snips, b),
        joined_content(snips, a + b) == joined_content(snips, a) + joined_content(snips, b),
    decreases b.len(),
{
    if b.len() == 0 {
        assert(a + b =~= a);
    } else {
        assert((a + b).drop_last() =~= a + b.drop_last());
        lemma_joined_append(snips, a, b.drop_last());
    }
}

/// A pending name that is defined and not yet visited is reached by the expansion.
proof fn lemma_walk_reaches(
    snips: Seq<Snippet>,
    stack: Seq<Seq<char>>,
    visited: Set<Seq<char>>,
    x: Seq<char>,
)
    requires
        stack.contains(x),
        !visited.contains(x),
        defined(snips, x),
    ensures
        walk(snips, stack, visited).contains(x),
    decreases universe(snips).to_set().difference(visited).len(), stack.len(),
{
    broadcast use vstd::seq_lib::seq_to_set_is_finite;

    lemma_defined_in_universe(snips, x);
    let t = stack.last();
    let rest = stack.drop_last();
    if t == x {
        let w = walk(snips, rest + deps_of(snips, t).reverse(), visited.insert(t));
        assert((seq![t] + w)[0] == x);
    } else {
        let k = choose|k: int| 0 <= k < stack.len() && stack[k] == x;
        assert(rest[k] == x);
        if visited.contains(t) || !universe(snips).contains(t) {
            lemma_walk_reaches(snips, rest, visited, x);
        } else {
            universe(snips).to_set().lemma_set_insert_diff_decreases(visited, t);
            if defined(snips, t) {
                let st = rest + deps_of(snips, t).reverse();
                assert(st[k] == x);
                lemma_walk_reaches(snips, st, visited.insert(t), x);
                let w = walk(snips, st, visited.insert(t));
                let j = choose|j: int| 0 <= j < w.len() && w[j] == x;
                assert((seq![t] + w)[j + 1] == x);
            } else {
                lemma_walk_reaches(snips, rest, visited.insert(t), x);
            }
        }
    }
}

/// The expansion never yields a visited name, nor any name twice.
proof fn lemma_walk_unique(snips: Seq<Snippet>, stack: Seq<Seq<char>>, visited: Set<Seq<char>>)
    ensures
        walk(snips, stack, visited).no_duplicates(),
        forall|y: Seq<char>| #[trigger]
            walk(snips, stack, visited).contains(y) ==> !visited.contains(y),
    decreases universe(snips).to_set().difference(visited).len(), stack.len(),
{
    broadcast use vstd::seq_lib::seq_to_set_is_finite;

    if stack.len() > 0 {
        let t = stack.last();
        let rest = stack.drop_last();
        if visited.contains(t) || !universe(snips).contains(t) {
            lemma_walk_unique(snips, rest, visited);
        } else {
            universe(snips).to_set().lemma_set_insert_diff_decreases(visited, t);
            if defined(snips, t) {
                let st = rest + deps_of(snips, t).reverse();
                let vis = visited.insert(t);
                lemma_walk_unique(snips, st, vis);
                let w = walk(snips, st, vis);
                let all = seq![t] + w;
                assert forall|y: Seq<char>| #[trigger] all.contains(y) implies !visited.contains(y) by {
                    let j = choose|j: int| 0 <= j < all.len() && all[j] == y;
                    if j > 0 {
                        assert(w[j - 1] == y);
                        assert(w.contains(y));
                    } else {
                        assert(all[0] == t);
                    }
                }
                assert forall|i: int, j: int| 0 <= i < all.len() && 0 <= j < all.len() && i != j
                    implies all[i] != all[j] by {
                    if i > 0 && j > 0 {
                        assert(all[i] == w[i - 1] && all[j] == w[j - 1]);
                    } else if i == 0 {
                        assert(w.contains(all[j]));
                    } else {
                        assert(w.contains(all[i]));
                    }
                }
            } else {
                lemma_walk_unique(snips, rest, visited.insert(t));
            }
        }
    }
}

/// With nothing pending that is defined, the expansion adds nothing.
proof fn lemma_walk_undefined(snips: Seq<Snippet>, stack: Seq<Seq<char>>, visited: Set<Seq<char>>)
    requires
        forall|k: int| 0 <= k < stack.len() ==> !defined(snips, #[trigger] stack[k]),
    ensures
        walk(snips, stack, visited) == Seq::<Seq<char>>::empty(),
    decreases universe(snips).to_set().difference(visited).len(), stack.len(),
{
    broadcast use vstd::seq_lib::seq_to_set_is_finite;

    if stack.len() > 0 {
        let t = stack.last();
        let rest = stack.drop_last();
        assert(!defined(snips, stack[stack.len() - 1]));
        assert forall|k: int| 0 <= k < rest.len() implies !defined(snips, #[trigger] rest[k]) by {
            assert(rest[k] == stack[k]);
        }
        if visited.contains(t) || !universe(snips).contains(t) {
            lemma_walk_undefined(snips, rest, visited);
        } else {
            universe(snips).to_set().lemma_set_insert_diff_decreases(visited, t);
            lemma_walk_undefined(snips, rest, visited.insert(t));
        }
    }
}

/// Each name's text is taken once, dependencies come first and the name itself last;
/// every defined direct dependency other than the name itself takes part.
pub proof fn lemma_resolution_order(snips: Seq<Snippet>, n: Seq<char>)
    ensures
        resolution_order(snips, n).no_duplicates(),
        resolution_order(snips, n).last() == n,
        resolved(snips, n) == joined_prefix(snips, resolution_order(snips, n)) + joined_content(
            snips,
            resolution_order(snips, n),
        ),
        forall|d: Seq<char>|
            #![trigger deps_of(snips, n).contains(d)]
            deps_of(snips, n).contains(d) && defined(snips, d) && d != n ==> resolution_order(
                snips,
                n,
            ).contains(d),
{
    let start = deps_of(snips, n).reverse();
    let w = walk(snips, start, set![n]);
    lemma_walk_unique(snips, start, set![n]);
    let ord = w.push(n);
    assert forall|i: int, j: int| 0 <= i < ord.len() && 0 <= j < ord.len() && i != j implies ord[i]
        != ord[j] by {
        if i < w.len() && j < w.len() {
        } else if i == w.len() {
            assert(w.contains(ord[j]));
        } else {
            assert(w.contains(ord[i]));
        }
    }
    assert forall|d: Seq<char>|
        #![trigger deps_of(snips, n).contains(d)]
        deps_of(snips, n).contains(d) && defined(snips, d) && d != n implies ord.contains(d) by {
        let k = choose|k: int| 0 <= k < deps_of(snips, n).len() && deps_of(snips, n)[k] == d;
        assert(start[deps_of(snips, n).len() - 1 - k] == d);
        lemma_walk_reaches(snips, start, set![n], d);
        let j = choose|j: int| 0 <= j < w.len() && w[j] == d;
        assert(ord[j] == d);
    }
}

/// The text of every name taken into a resolution, such as a defined dependency, direct or
/// transitive: its prefix and body come before the dependent's own prefix and body.
pub proof fn lemma_dependency_first(snips: Seq<Snippet>, n: Seq<char>, d: Seq<char>)
    requires
        resolution_order(snips, n).contains(d),
        d != n,
    ensures
        exists|a: Seq<char>, b: Seq<char>, c: Seq<char>|
            resolved(snips, n) == a + own_prefix(snips, d) + b + own_prefix(snips, n) + c,
        exists|a: Seq<char>, b: Seq<char>|
            resolved(snips, n) == a + own_content(snips, d) + b + own_content(snips, n),
{
    lemma_resolution_order(snips, n);
    let ord = resolution_order(snips, n);
    let w = ord.drop_last();
    assert(ord =~= w.push(n));
    let j = choose|j: int| 0 <= j < ord.len() && ord[j] == d;
    assert(j < w.len());
    let w1 = w.subrange(0, j);
    let w2 = w.subrange(j + 1, w.len() as int);
    assert(w =~= w1.push(d) + w2);
    lemma_joined_append(snips, w1.push(d), w2);
    lemma_joined_append(snips, w, seq![n]);
    assert(seq![n].drop_last() =~= Seq::<Seq<char>>::empty());
    assert(w1.push(d).drop_last() =~= w1);
    let jp = joined_prefix(snips, w1);
    let jc = joined_content(snips, w1);
    let rp = joined_prefix(snips, w2);
    let rc = joined_content(snips, w2);
    let c = joined_content(snips, ord);
    assert(resolved(snips, n) =~= jp + own_prefix(snips, d) + rp + own_prefix(snips, n) + c);
    assert(resolved(snips, n) =~= (joined_prefix(snips, ord) + jc) + own_content(snips, d) + rc
        + own_content(snips, n));
}

/// When none of a name's dependencies is defined, it resolves to its own prefixes and bodies.
pub proof fn lemma_missing_dependencies(snips: Seq<Snippet>, n: Seq<char>)
    requires
        forall|d: Seq<char>| #[trigger] deps_of(snips, n).contains(d) ==> !defined(snips, d),
    ensures
        resolved(snips, n) == own_prefix(snips, n) + own_content(snips, n),
{
    let start = deps_of(snips, n).reverse();
    assert forall|k: int| 0 <= k < start.len() implies !defined(snips, #[trigger] start[k]) by {
        assert(deps_of(snips, n)[deps_of(snips, n).len() - 1 - k] == start[k]);
        assert(deps_of(snips, n).contains(start[k]));
    }
    lemma_walk_undefined(snips, start, set![n]);
    let ord = resolution_order(snips, n);
    assert(ord =~= seq![n]);
    assert(ord.drop_last() =~= Seq::<Seq<char>>::empty());
    assert(ord.last() == n);
    assert(joined_prefix(snips, ord.drop_last()) =~= Seq::<char>::empty());
    assert(joined_content(snips, ord.drop_last()) =~= Seq::<char>::empty());
    assert(joined_prefix(snips, ord) =~= own_prefix(snips, n));
    assert(joined_content(snips, ord) =~= own_content(snips, n));
}

/// Two names that always stand on the same fragments, which declare no dependencies,
/// resolve to the same text.
pub proof fn lemma_shared_names(snips: Seq<Snippet>, a: Seq<char>, b: Seq<char>)
    requires
        forall|i: int|
            0 <= i < snips.len() ==> (#[trigger] snips[i]).names().contains(a) == snips[i].names().contains(b),
        forall|i: int|
            0 <= i < snips.len() && (#[trigger] snips[i]).names().contains(a) ==> snips[i].uses().len() == 0,
    ensures
        resolved(snips, a) == resolved(snips, b),
        resolved(snips, a) == own_prefix(snips, a) + own_content(snips, a),
    decreases snips.len(),
{
    if snips.len() > 0 {
        let rest = snips.drop_last();
        assert forall|i: int| 0 <= i < rest.len() implies (#[trigger] rest[i]).names().contains(a)
            == rest[i].names().contains(b) by {
            assert(rest[i] == snips[i]);
        }
        assert forall|i: int| 0 <= i < rest.len() && (#[trigger] rest[i]).names().contains(a)
            implies rest[i].uses().len() == 0 by {
            assert(rest[i] == snips[i]);
        }
        lemma_shared_names(rest, a, b);
        assert(snips.last() == snips[snips.len() - 1]);
        if snips.last().names().contains(a) {
            assert(snips.last().uses() =~= Seq::<Seq<char>>::empty());
        }
    }
    lemma_no_deps(snips, a);
    lemma_no_deps(snips, b);
    lemma_missing_dependencies(snips, a);
    lemma_missing_dependencies(snips, b);
    lemma_same_own(snips, a, b);
}

proof fn lemma_no_deps(snips: Seq<Snippet>, a: Seq<char>)
    requires
        forall|i: int|
            0 <= i < snips.len() && (#[trigger] snips[i]).names().contains(a) ==> snips[i].uses().len() == 0,
    ensures
        deps_of(snips, a) == Seq::<Seq<char>>::empty(),
    decreases snips.len(),
{
    if snips.len() > 0 {
        let rest = snips.drop_last();
        assert forall|i: int| 0 <= i < rest.len() && (#[trigger] rest[i]).names().contains(a)
            implies rest[i].uses().len() == 0 by {
            assert(rest[i] == snips[i]);
        }
        lemma_no_deps(rest, a);
        assert(snips.last() == snips[snips.len() - 1]);
    }
}

proof fn lemma_same_own(snips: Seq<Snippet>, a: Seq<char>, b: Seq<char>)
    requires
        forall|i: int|
            0 <= i < snips.len() ==> (#[trigger] snips[i]).names().contains(a) == snips[i].names().contains(b),
    ensures
        own_prefix(snips, a) == own_prefix(snips, b),
        own_content(snips, a) == own_content(snips, b),
    decreases snips.len(),
{
    if snips.len() > 0 {
        let rest = snips.drop_last();
        assert forall|i: int| 0 <= i < rest.len() implies (#[trigger] rest[i]).names().contains(a)
            == rest[i].names().contains(b) by {
            assert(rest[i] == snips[i]);
        }
        lemma_same_own(rest, a, b);
        assert(snips.last() == snips[snips.len() - 1]);
    }
}

/// Two names that depend on each other: each resolves to the other's text once, then its own.
pub proof fn lemma_mutual_dependency(snips: Seq<Snippet>, a: Seq<char>, b: Seq<char>)
    requires
        deps_of(snips, a) == seq![b],
        deps_of(snips, b) == seq![a],
        defined(snips, a),
        defined(snips, b),
        a != b,
    ensures
        resolution_order(snips, a) == seq![b, a],
        resolved(snips, a) == own_prefix(snips, b) + own_prefix(snips, a) + own_content(snips, b)
            + own_content(snips, a),
{
    broadcast use vstd::seq_lib::seq_to_set_is_finite;

    lemma_defined_in_universe(snips, b);
    assert(seq![b].reverse() =~= seq![b]);
    assert(seq![a].reverse() =~= seq![a]);
    let v1 = set![a];
    let v2 = v1.insert(b);
    assert(seq![b].drop_last() + seq![a] =~= seq![a]);
    assert(v2.contains(a));
    assert(seq![a].drop_last() =~= Seq::<Seq<char>>::empty());
    assert(walk(snips, seq![a], v2) == walk(snips, Seq::<Seq<char>>::empty(), v2));
    assert(walk(snips, seq![b], v1) == seq![b] + walk(snips, seq![a], v2));
    assert(walk(snips, seq![b], v1) =~= seq![b]);
    let ord = resolution_order(snips, a);
    assert(ord =~= seq![b, a]);
    assert(ord.drop_last() =~= seq![b]);
    assert(seq![b].drop_last() =~= Seq::<Seq<char>>::empty());
    assert(seq![b].last() == b);
    assert(joined_prefix(snips, Seq::<Seq<char>>::empty()) =~= Seq::<char>::empty());
    assert(joined_content(snips, Seq::<Seq<char>>::empty()) =~= Seq::<char>::empty());
    assert(joined_prefix(snips, seq![b]) =~= own_prefix(snips, b));
    assert(joined_content(snips, seq![b]) =~= own_content(snips, b));
    assert(resolved(snips, a) =~= own_prefix(snips, b) + own_prefix(snips, a) + own_content(snips, b)
        + own_content(snips, a));
}

proof fn lemma_sorted_global(s: Seq<Seq<char>>, i: int, j: int)
    requires
        sorted(s),
        0 <= i < j < s.len(),
    ensures
        seq_less(s[i], s[j]),
    decreases j - i,
{
    if j > i + 1 {
        lemma_sorted_global(s, i, j - 1);
        assert(seq_less(s[j - 1], s[j]));
        lemma_seq_less_transitive(s[i], s[j - 1], s[j]);
    }
}

proof fn lemma_sorted_unique(s1: Seq<Seq<char>>, s2: Seq<Seq<char>>)
    requires
        sorted(s1),
        sorted(s2),
        forall|y: Seq<char>| s1.contains(y) <==> s2.contains(y),
    ensures
        s1 == s2,
    decreases s1.len(),
{
    if s1.len() == 0 {
        if s2.len() > 0 {
            assert(s2.contains(s2[0]));
        }
        assert(s1 =~= s2);
    } else {
        assert(s1.contains(s1[0]));
        assert(s2.len() > 0);
        assert(s2.contains(s2[0]));
        if s1[0] != s2[0] {
            let j = choose|j: int| 0 <= j < s2.len() && s2[j] == s1[0];
            let i = choose|i: int| 0 <= i < s1.len() && s1[i] == s2[0];
            lemma_sorted_global(s2, 0, j);
            lemma_sorted_global(s1, 0, i);
            lemma_seq_less_transitive(s1[0], s2[0], s1[0]);
            lemma_seq_less_irreflexive(s1[0]);
        }
        let t1 = s1.drop_first();
        let t2 = s2.drop_first();
        assert forall|y: Seq<char>| t1.contains(y) <==> t2.contains(y) by {
            if t1.contains(y) {
                let k = choose|k: int| 0 <= k < t1.len() && t1[k] == y;
                lemma_sorted_global(s1, 0, k + 1);
                lemma_seq_less_irreflexive(y);
                assert(s2.contains(y));
                let m = choose|m: int| 0 <= m < s2.len() && s2[m] == y;
                assert(m != 0);
                assert(t2[m - 1] == y);
            }
            if t2.contains(y) {
                let k = choose|k: int| 0 <= k < t2.len() && t2[k] == y;
                lemma_sorted_global(s2, 0, k + 1);
                lemma_seq_less_irreflexive(y);
                assert(s1.contains(y));
                let m = choose|m: int| 0 <= m < s1.len() && s1[m] == y;
                assert(m != 0);
                assert(t1[m - 1] == y);
            }
        }
        assert(sorted(t1)) by {
            assert forall|i: int| 0 <= i < t1.len() - 1 implies seq_less(#[trigger] t1[i], t1[i + 1]) by {
                assert(t1[i] == s1[i + 1] && t1[i + 1] == s1[i + 2]);
            }
        }
        assert(sorted(t2)) by {
            assert forall|i: int| 0 <= i < t2.len() - 1 implies seq_less(#[trigger] t2[i], t2[i + 1]) by {
                assert(t2[i] == s2[i + 1] && t2[i + 1] == s2[i + 2]);
            }
        }
        lemma_sorted_unique(t1, t2);
        assert(s1 =~= seq![s1[0]] + t1);
        assert(s2 =~= seq![s2[0]] + t2);
    }
}

/// The resolved list is a function of the fragments: any two lists that meet the contract of
/// `process_snippets` for the same fragments hold the same names and texts, in the same order.
pub proof fn lemma_resolution_deterministic(
    snips: Seq<Snippet>,
    r1: Seq<(String, String)>,
    r2: Seq<(String, String)>,
)
    requires
        sorted(keys(r1)),
        sorted(keys(r2)),
        forall|n: Seq<char>| #[trigger] keys(r1).contains(n) <==> defined(snips, n),
        forall|n: Seq<char>| #[trigger] keys(r2).contains(n) <==> defined(snips, n),
        forall|i: int| 0 <= i < r1.len() ==> (#[trigger] r1[i]).1@ == resolved(snips, r1[i].0@),
        forall|i: int| 0 <= i < r2.len() ==> (#[trigger] r2[i]).1@ == resolved(snips, r2[i].0@),
    ensures
        keys(r1) == keys(r2),
        forall|i: int| 0 <= i < r1.len() ==> (#[trigger] r1[i]).1@ == r2[i].1@,
{
    assert forall|y: Seq<char>| keys(r1).contains(y) <==> keys(r2).contains(y) by {
        if keys(r1).contains(y) {
            assert(defined(snips, y));
        }
        if keys(r2).contains(y) {
            assert(defined(snips, y));
        }
    }
    lemma_sorted_unique(keys(r1), keys(r2));
    assert forall|i: int| 0 <= i < r1.len() implies (#[trigger] r1[i]).1@ == r2[i].1@ by {
        assert(keys(r1)[i] == r1[i].0@);
        assert(keys(r2)[i] == r2[i].0@);
    }
}

/// Some fragment declares a dependency on `n`.
pub open spec fn wanted(snips: Seq<Snippet>, n: Seq<char>) -> bool {
    exists|i: int| 0 <= i < snips.len() && (#[trigger] snips[i]).uses().contains(n)
}

/// The dependencies that no fragment defines, once each, in the order first declared.
/// Resolution leaves them out; callers report them as warnings.
pub fn missing_dependencies(snips: &[Snippet]) -> (r: Vec<String>)
    ensures
        strs(r@).no_duplicates(),
        forall|n: Seq<char>| #[trigger] strs(r@).contains(n) <==> (wanted(snips@, n) && !defined(snips@, n)),
{
    let mut out: Vec<String> = Vec::new();
    let mut i: usize = 0;
    while i < snips.len()
        invariant
            i <= snips@.len(),
            strs(out@).no_duplicates(),
            forall|n: Seq<char>| #[trigger] strs(out@).contains(n) <==> (wanted(snips@.subrange(0, i as int), n)
                && !defined(snips@, n)),
        decreases snips.len() - i,
    {
        let uses = &snips[i].attrs.uses;
        let ghost sub = snips@.subrange(0, i as int);
        let ghost sub1 = snips@.subrange(0, i + 1);
        let ghost us = strs(uses@);
        let mut j: usize = 0;
        while j < uses.len()
            invariant
                i < snips@.len(),
                j <= uses@.len(),
                uses == &snips@[i as int].attrs.uses,
                us == strs(uses@),
                strs(out@).no_duplicates(),
                forall|n: Seq<char>| #[trigger] strs(out@).contains(n) <==> ((wanted(sub, n) || us.subrange(0, j as int).contains(n))
                    && !defined(snips@, n)),
            decreases uses.len() - j,
        {
            let (_, _, _, def) = gather(snips, &uses[j]);
            let ghost prev = strs(out@);
            assert(us[j as int] == uses@[j as int]@);
            assert(def == defined(snips@, us[j as int]));
            let add = !def && !contains_str(&out, &uses[j]);
            if add {
                out.push(uses[j].clone());
                assert(strs(out@) =~= prev.push(us[j as int]));
            } else {
                assert(strs(out@) == prev);
            }
            assert forall|n: Seq<char>| #[trigger] strs(out@).contains(n) <==> ((wanted(sub, n) || us.subrange(0, j + 1).contains(n))
                && !defined(snips@, n)) by {
                assert(prev.contains(n) == ((wanted(sub, n) || us.subrange(0, j as int).contains(n))
                    && !defined(snips@, n)));
                if us.subrange(0, j + 1).contains(n) && !us.subrange(0, j as int).contains(n) {
                    let k = choose|k: int| 0 <= k < j + 1 && #[trigger] us.subrange(0, j + 1)[k] == n;
                    if k < j {
                        assert(us.subrange(0, j as int)[k] == n);
                    }
                }
                if us.subrange(0, j as int).contains(n) {
                    let k = choose|k: int| 0 <= k < j && #[trigger] us.subrange(0, j as int)[k] == n;
                    assert(us.subrange(0, j + 1)[k] == n);
                }
                if n == us[j as int] {
                    assert(us.subrange(0, j + 1)[j as int] == n);
                    if !defined(snips@, n) {
                        if add {
                            assert(strs(out@)[prev.len() as int] == n);
                        } else {
                            assert(prev.contains(n));
                        }
                    }
                }
                if strs(out@).contains(n) && !prev.contains(n) {
                    assert(add);
                    let k = choose|k: int| 0 <= k < strs(out@).len() && strs(out@)[k] == n;
                    assert(k == prev.len());
                    assert(n == us[j as int]);
                    assert(!defined(snips@, n));
                }
                if prev.contains(n) {
                    let k = choose|k: int| 0 <= k < prev.len() && prev[k] == n;
                    assert(strs(out@)[k] == n);
                }
            }
            j += 1;
        }
        proof {
            assert(us.subrange(0, us.len() as int) =~= us);
            assert forall|n: Seq<char>| #[trigger] wanted(sub1, n) <==> (wanted(sub, n) || us.contains(n)) by {
                if wanted(sub1, n) {
                    let k = choose|k: int| 0 <= k < sub1.len() && (#[trigger] sub1[k]).uses().contains(n);
                    if k < i {
                        assert(sub[k] == sub1[k]);
                    } else {
                        assert(sub1[k] == snips@[i as int]);
                    }
                }
                if wanted(sub, n) {
                    let k = choose|k: int| 0 <= k < sub.len() && (#[trigger] sub[k]).uses().contains(n);
                    assert(sub1[k] == sub[k]);
                }
                if us.contains(n) {
                    assert(sub1[i as int] == snips@[i as int]);
                }
            }
        }
        i += 1;
    }
    assert(snips@.subrange(0, snips@.len() as int) =~= snips@);
    out
}

proof fn lemma_walk_closed(
    snips: Seq<Snippet>,
    stack: Seq<Seq<char>>,
    visited: Set<Seq<char>>,
    x: Seq<char>,
    y: Seq<char>,
)
    requires
        walk(snips, stack, visited).contains(x),
        deps_of(snips, x).contains(y),
        defined(snips, y),
    ensures
        walk(snips, stack, visited).contains(y) || visited.contains(y),
    decreases universe(snips).to_set().difference(visited).len(), stack.len(),
{
    broadcast use vstd::seq_lib::seq_to_set_is_finite;

    let t = stack.last();
    let rest = stack.drop_last();
    if visited.contains(t) || !universe(snips).contains(t) {
        lemma_walk_closed(snips, rest, visited, x, y);
    } else {
        universe(snips).to_set().lemma_set_insert_diff_decreases(visited, t);
        let vis = visited.insert(t);
        if defined(snips, t) {
            let st = rest + deps_of(snips, t).reverse();
            let w = walk(snips, st, vis);
            let all = seq![t] + w;
            assert(all[0] == t);
            if x == t {
                if y == t {
                } else if !vis.contains(y) {
                    let k = choose|k: int| 0 <= k < deps_of(snips, t).len() && deps_of(snips, t)[k] == y;
                    assert(st[rest.len() + deps_of(snips, t).len() - 1 - k] == y);
                    lemma_walk_reaches(snips, st, vis, y);
                    let j = choose|j: int| 0 <= j < w.len() && w[j] == y;
                    assert(all[j + 1] == y);
                }
            } else {
                let i = choose|i: int| 0 <= i < all.len() && all[i] == x;
                assert(w[i - 1] == x);
                lemma_walk_closed(snips, st, vis, x, y);
                if w.contains(y) {
                    let j = choose|j: int| 0 <= j < w.len() && w[j] == y;
                    assert(all[j + 1] == y);
                }
            }
        } else {
            lemma_walk_closed(snips, rest, vis, x, y);
        }
    }
}

/// The names taken into a resolution are closed under dependencies: a defined dependency of
/// any of them is taken too.
pub proof fn lemma_resolution_closed(snips: Seq<Snippet>, n: Seq<char>, x: Seq<char>, y: Seq<char>)
    requires
        resolution_order(snips, n).contains(x),
        deps_of(snips, x).contains(y),
        defined(snips, y),
    ensures
        resolution_order(snips, n).contains(y),
{
    let start = deps_of(snips, n).reverse();
    let w = walk(snips, start, set![n]);
    let ord = w.push(n);
    lemma_resolution_order(snips, n);
    if y == n {
        assert(ord[w.len() as int] == n);
    } else if x == n {
        assert(deps_of(snips, n).contains(y));
    } else {
        let i = choose|i: int| 0 <= i < ord.len() && ord[i] == x;
        if i == w.len() {
            assert(x == n);
        }
        assert(w[i] == x);
        lemma_walk_closed(snips, start, set![n], x, y);
        let j = choose|j: int| 0 <= j < w.len() && w[j] == y;
        assert(ord[j] == y);
    }
}

} // verus!
