use cargo_snippet::parser::parse_snippet;
use cargo_snippet::snippet::{missing_dependencies, process_snippets, Snippet, SnippetAttributes};

fn frag(names: &[&str], uses: &[&str], prefix: &str, content: &str) -> Snippet {
    Snippet {
        attrs: SnippetAttributes {
            names: names.iter().map(|s| s.to_string()).collect(),
            uses: uses.iter().map(|s| s.to_string()).collect(),
            prefix: prefix.to_string(),
            doc_hidden: false,
        },
        content: content.to_string(),
    }
}

fn pairs(v: &[(&str, &str)]) -> Vec<(String, String)> {
    v.iter().map(|(a, b)| (a.to_string(), b.to_string())).collect()
}

#[test]
fn names_come_sorted_and_once() {
    let snips = vec![
        frag(&["b"], &[], "", "B"),
        frag(&["a", "c"], &[], "", "AC"),
        frag(&["b"], &[], "", "b2"),
    ];
    assert_eq!(
        process_snippets(&snips),
        pairs(&[("a", "AC"), ("b", "Bb2"), ("c", "AC")])
    );
}

#[test]
fn prefixes_before_bodies_dependencies_first() {
    let snips = vec![
        frag(&["foo"], &[], "use a;", "foo;"),
        frag(&["bar"], &["foo"], "use b;", "bar;"),
    ];
    assert_eq!(
        process_snippets(&snips),
        pairs(&[("bar", "use a;use b;foo;bar;"), ("foo", "use a;foo;")])
    );
}

#[test]
fn transitive_dependencies_each_once_before_dependent() {
    let snips = vec![
        frag(&["a"], &["b", "c"], "", "a;"),
        frag(&["b"], &["d"], "", "b;"),
        frag(&["c"], &["d"], "", "c;"),
        frag(&["d"], &[], "", "d;"),
    ];
    let r = process_snippets(&snips);
    // Each dependency once, after its own dependencies; siblings in either order.
    assert_eq!(r[0].0, "a");
    assert!(r[0].1 == "b;d;c;a;" || r[0].1 == "c;d;b;a;");
}

#[test]
fn mutual_dependencies_take_each_body_once() {
    let snips = vec![
        frag(&["bar"], &["baz"], "", "bar;"),
        frag(&["baz"], &["bar"], "", "baz;"),
    ];
    assert_eq!(
        process_snippets(&snips),
        pairs(&[("bar", "baz;bar;"), ("baz", "bar;baz;")])
    );
}

#[test]
fn self_dependency_is_ignored() {
    let snips = vec![frag(&["a"], &["a"], "", "a;")];
    assert_eq!(process_snippets(&snips), pairs(&[("a", "a;")]));
}

#[test]
fn missing_dependency_is_left_out_and_reported() {
    let snips = vec![
        frag(&["bar"], &["foo"], "", "bar;"),
        frag(&["baz"], &["foo", "bar"], "", "baz;"),
    ];
    assert_eq!(
        process_snippets(&snips),
        pairs(&[("bar", "bar;"), ("baz", "bar;baz;")])
    );
    assert_eq!(missing_dependencies(&snips), vec!["foo".to_string()]);
}

#[test]
fn no_fragments_no_output() {
    let snips: Vec<Snippet> = Vec::new();
    assert!(process_snippets(&snips).is_empty());
    assert!(missing_dependencies(&snips).is_empty());
}

#[test]
fn whole_pipeline_is_repeatable() {
    let src = r#"
        #[snippet(prefix = "use std::io;", include = "b, c")]
        fn a() {}
        #[snippet(include = "a")]
        fn b() {}
        #[snippet]
        /// doc
        mod c { #[snippet] fn d() {} }
    "#;
    let first = process_snippets(&parse_snippet(src).unwrap());
    let second = process_snippets(&parse_snippet(src).unwrap());
    assert_eq!(first, second);
    assert_eq!(
        first.iter().map(|(n, _)| n.as_str()).collect::<Vec<_>>(),
        vec!["a", "b", "c", "d"]
    );
}

#[test]
fn module_yields_its_own_and_inner_fragment() {
    let src = r#"
        #[snippet("foo")]
        mod foo {
            #[snippet("hoge")]
            fn hoge() {}
        }
    "#;
    let snips = parse_snippet(src).unwrap();
    assert_eq!(snips.len(), 2);
    assert_eq!(snips[0].attrs.names, vec!["foo".to_string()]);
    assert_eq!(snips[0].content, "mod foo {fn hoge () {} } ");
    assert_eq!(snips[1].attrs.names, vec!["hoge".to_string()]);
    assert_eq!(snips[1].content, "fn hoge () {} ");
}

#[test]
fn bare_marker_takes_the_identifier() {
    let snips = parse_snippet("#[snippet] fn bar() {}").unwrap();
    assert_eq!(snips.len(), 1);
    assert_eq!(snips[0].attrs.names, vec!["bar".to_string()]);
    assert!(snips[0].attrs.uses.is_empty());
    assert_eq!(snips[0].attrs.prefix, "");
    assert!(!snips[0].attrs.doc_hidden);
}

#[test]
fn unnamed_declaration_without_name_is_skipped() {
    let snips = parse_snippet("#[snippet] impl Foo {}").unwrap();
    assert!(snips.is_empty());
    let snips = parse_snippet("#[snippet(\"x\")] impl Foo {}").unwrap();
    assert_eq!(snips.len(), 1);
    assert_eq!(snips[0].content, "impl Foo {} ");
}

#[test]
fn attributes_are_read_in_full() {
    let src = r#"
        #[snippet(name = "a", name = "b", include = " x ,, y", prefix = "use x;")]
        #[snippet(include = "y,z", prefix = "use y;", doc_hidden)]
        #[inline]
        fn f() {}
    "#;
    let snips = parse_snippet(src).unwrap();
    assert_eq!(snips.len(), 1);
    let a = &snips[0].attrs;
    assert_eq!(a.names, vec!["a".to_string(), "b".to_string()]);
    assert_eq!(a.uses, vec!["x".to_string(), "y".to_string(), "z".to_string()]);
    assert_eq!(a.prefix, "use x;\nuse y;");
    assert!(a.doc_hidden);
    assert_eq!(snips[0].content, "# [inline ] fn f () {} ");
}

#[test]
fn doc_hidden_text_has_no_lines() {
    let src = "/// one\n/// two\n#[snippet(doc_hidden)]\nfn foo() {\n//! three\n}";
    let snips = parse_snippet(src).unwrap();
    assert_eq!(snips[0].content, "fn foo () {} ");
    assert!(!snips[0].content.contains('\n'));
}

#[test]
fn documentation_is_rendered_as_comment_lines() {
    let src = "/// one\n/// two\n#[snippet]\nfn foo() {\n//! three\n}";
    let snips = parse_snippet(src).unwrap();
    assert_eq!(snips[0].content, "/// one\n/// two\nfn foo () {//! three\n} ");
}

#[test]
fn unparsable_source_is_an_error() {
    assert!(parse_snippet("fn (").is_err());
}

#[test]
fn whole_file_fragment_comes_first() {
    let src = "#![snippet(\"file\")]\n#[snippet]\nfn foo() {}";
    let snips = parse_snippet(src).unwrap();
    assert_eq!(snips.len(), 2);
    assert_eq!(snips[0].attrs.names, vec!["file".to_string()]);
    assert_eq!(snips[0].content, "fn foo () {} ");
    assert_eq!(snips[1].attrs.names, vec!["foo".to_string()]);
}

#[test]
fn c_string_literals_are_read() {
    let snips = parse_snippet("#[snippet] fn f() { let s = c\"x\"; m! { [x = c\"y\"] } }").unwrap();
    assert_eq!(snips.len(), 1);
    assert_eq!(snips[0].attrs.names, vec!["f".to_string()]);
    assert_eq!(snips[0].content, "fn f () {let s = c\"x\" ; m ! {[x = c\"y\" ] } } ");
}

#[test]
fn every_declared_identifier_names_a_snippet() {
    let src = r#"
        #[snippet]
        type Alias = u8;
        #[snippet]
        macro_rules! mac { () => {} }
        #[snippet]
        extern crate core;
    "#;
    let snips = parse_snippet(src).unwrap();
    let names: Vec<String> = snips.iter().map(|s| s.attrs.names[0].clone()).collect();
    assert_eq!(names, vec!["Alias".to_string(), "mac".to_string(), "core".to_string()]);
}

#[test]
fn names_and_dependencies_are_string_values() {
    let src = r#"
        #[snippet(r"x", name = "a\"b", include = r"foo, bar")]
        fn f() {}
        #[snippet = r"y"]
        fn g() {}
    "#;
    let snips = parse_snippet(src).unwrap();
    assert_eq!(snips[0].attrs.names, vec!["x".to_string(), "a\"b".to_string()]);
    assert_eq!(snips[0].attrs.uses, vec!["foo".to_string(), "bar".to_string()]);
    assert_eq!(snips[1].attrs.names, vec!["y".to_string()]);
}
