use cargo_snippet::attrs::{is_snippet_path, unquote};
use cargo_snippet::config::{
    write_neosnippet, write_ultisnips, write_vscode, OutputType, Rendered,
};
use cargo_snippet::render::unescape;
use cargo_snippet::text::{split_names, str_less};
use cargo_snippet::{report_error, snippet};

fn pairs(v: &[(&str, &str)]) -> Vec<(String, String)> {
    v.iter().map(|(a, b)| (a.to_string(), b.to_string())).collect()
}

#[test]
fn marker_paths() {
    assert!(is_snippet_path("snippet"));
    assert!(is_snippet_path("cargo_snippet :: snippet"));
    assert!(!is_snippet_path("snippets"));
    assert!(!is_snippet_path("doc"));
}

#[test]
fn unquote_strips_one_pair_of_quotes() {
    assert_eq!(unquote("\"abc\""), "abc");
    assert_eq!(unquote("\"\""), "");
    assert_eq!(unquote("\""), "\"");
    assert_eq!(unquote("abc"), "abc");
    assert_eq!(unquote("\"a\"b"), "\"a\"b");
}

#[test]
fn names_are_split_and_trimmed() {
    assert_eq!(
        split_names(" foo, bar ,,baz\t"),
        vec!["foo".to_string(), "bar".to_string(), "baz".to_string()]
    );
    assert!(split_names("").is_empty());
    assert!(split_names(" , ").is_empty());
}

#[test]
fn simple_escapes() {
    assert_eq!(unescape("a\\tb\\nc\\rd\\\\e\\\"f"), "a\tb\nc\rd\\e\"f");
    assert_eq!(unescape("keep \\q"), "keep \\q");
    assert_eq!(unescape("end\\"), "end\\");
}

#[test]
fn unicode_escapes() {
    assert_eq!(unescape("\\u{41}\\u{3b1}"), "A\u{3b1}");
    assert_eq!(unescape("\\u{d800}"), "\\u{d800}");
    assert_eq!(unescape("\\u{1234567}"), "\\u{1234567}");
    assert_eq!(unescape("\\u{}"), "\\u{}");
    assert_eq!(unescape("\\u{5c}n"), "\\n");
    assert_eq!(unescape("\\\\u{41}"), "\\u{41}");
    assert_eq!(unescape("\\u{3000}"), "\u{3000}");
    assert_eq!(unescape("\\u{2000}\\u{2001}\\u{2002}\\u{200a}\\u{200b}"), "\u{2000}\u{2001}  \u{200b}");
}

#[test]
fn lexicographic_order() {
    assert!(str_less("a", "b"));
    assert!(str_less("a", "ab"));
    assert!(!str_less("ab", "a"));
    assert!(!str_less("a", "a"));
    assert!(str_less("Z", "a"));
}

#[test]
fn line_oriented_format() {
    let out = write_neosnippet(&pairs(&[("foo", "fn foo() {}\n"), ("bar", "a\r\nb")]));
    assert_eq!(out, "snippet foo\n    fn foo() {}\n\nsnippet bar\n    a\n    b\n\n");
}

#[test]
fn block_format() {
    let out = write_ultisnips(&pairs(&[("foo", "fn foo() {}\n")]));
    assert_eq!(out, "snippet foo\nfn foo() {}\nendsnippet\n\n");
}

#[test]
fn structured_format_escapes_dollars() {
    let out = write_vscode(&pairs(&[("foo", "let $x = 1;\nfoo()\n")]));
    assert_eq!(
        out,
        vec![(
            "foo".to_string(),
            vec!["let \\$x = 1;".to_string(), "foo()".to_string()]
        )]
    );
}

#[test]
fn output_type_by_name() {
    assert!(matches!(OutputType::from_type_name(Some("vscode")), OutputType::VScode));
    assert!(matches!(OutputType::from_type_name(Some("ultisnips")), OutputType::Ultisnips));
    assert!(matches!(OutputType::from_type_name(Some("neosnippet")), OutputType::Neosnippet));
    assert!(matches!(OutputType::from_type_name(Some("other")), OutputType::Neosnippet));
    assert!(matches!(OutputType::from_type_name(None), OutputType::Neosnippet));
}

#[test]
fn write_dispatches_on_type() {
    let s = pairs(&[("foo", "x\n")]);
    match OutputType::Ultisnips.write(&s) {
        Rendered::Text(t) => assert_eq!(t, "snippet foo\nx\nendsnippet\n\n"),
        _ => panic!("expected text"),
    }
    match OutputType::VScode.write(&s) {
        Rendered::Entries(e) => assert_eq!(e, vec![("foo".to_string(), vec!["x".to_string()])]),
        _ => panic!("expected entries"),
    }
}

#[test]
fn helpers_pass_values_through() {
    let r: Result<i32, String> = Ok(3);
    assert_eq!(report_error(r), Some(3));
    let e: Result<i32, String> = Err("bad".to_string());
    assert_eq!(report_error(e), None);
    assert_eq!(snippet(1, 2), 2);
}
