use cargo_snippet::parser::parse_snippet;
use cargo_snippet::render::unescape;
use cargo_snippet::snippet::process_snippets;

fn snippets(src: &str) -> Vec<(String, String)> {
    let snips = parse_snippet(src).unwrap();
    process_snippets(&snips)
}

fn get(snip: &[(String, String)], name: &str) -> Option<String> {
    snip.iter().find(|(n, _)| n == name).map(|(_, t)| t.clone())
}

fn at(snip: &[(String, String)], name: &str) -> String {
    get(snip, name).unwrap()
}

#[test]
fn test_no_snippet() {
    let src = r#"
            fn test() {}
        "#;

    let snip = snippets(&src);
    assert_eq!(get(&snip, "test"), None);
}

#[test]
fn test_parse_simple_case() {
    let src = r#"
            #[snippet("test")]
            fn test() {}
        "#;

    let snip = snippets(&src);
    assert_eq!(at(&snip, "test"), "fn test () {} ");
}

#[test]
fn test_multiple_annotaton() {
    {
        let src = r#"
                #[snippet("test1")]
                #[snippet("test2")]
                fn test() {}
            "#;

        let snip = snippets(&src);
        assert_eq!(at(&snip, "test1"), "fn test () {} ");
        assert_eq!(at(&snip, "test2"), "fn test () {} ");
    }

    {
        let src = r#"
                #![snippet("test1")]
                #![snippet("test2")]

                fn test() {}
            "#;

        let snip = snippets(&src);
        assert_eq!(at(&snip, "test1"), "fn test () {} ");
        assert_eq!(at(&snip, "test2"), "fn test () {} ");
    }

    {
        let src = r#"
                #[snippet]
                #[snippet("bar2")]
                fn bar() {}
            "#;

        let snip = snippets(&src);
        assert_eq!(at(&snip, "bar"), "fn bar () {} ");
        assert_eq!(at(&snip, "bar2"), "fn bar () {} ");
    }
}

#[test]
fn test_deep() {
    let src = r#"
            #[snippet("bar")]
            fn bar() {}

            #[snippet("foo")]
            mod foo {
                #[snippet("hoge")]
                fn hoge() {}
            }
        "#;

    let snip = snippets(&src);

    assert_eq!(at(&snip, "bar"), "fn bar () {} ");
    // #[snippet("hoge")] should be removed.
    assert_eq!(at(&snip, "foo"), "mod foo {fn hoge () {} } ");
    assert_eq!(at(&snip, "hoge"), "fn hoge () {} ");
}

#[test]
fn test_default_snippet_name() {
    let src = r#"
            #[snippet]
            fn bar() {}

            #[snippet]
            struct Baz();
        "#;

    let snip = snippets(&src);
    assert_eq!(at(&snip, "bar"), "fn bar () {} ");
    assert_eq!(at(&snip, "Baz"), "struct Baz () ; ");
}

#[test]
fn test_snippet_dependency() {
    let src = r#"
            #[snippet("bar")]
            fn bar() {}

            #[snippet(name = "baz", include = "bar")]
            fn baz() {}
        "#;

    let snip = snippets(&src);
    assert_eq!(at(&snip, "bar"), "fn bar () {} ");
    assert_eq!(at(&snip, "baz"), "fn bar () {} fn baz () {} ");

    let src = r#"
            #[snippet]
            fn foo() {}

            #[snippet]
            fn bar() {}

            #[snippet(name = "baz", include = "foo, bar")]
            fn baz() {}
        "#;

    let snip = snippets(&src);
    assert_eq!(at(&snip, "bar"), "fn bar () {} ");
    // The order of sibling dependencies is left open; both come before the dependent.
    let baz = at(&snip, "baz");
    assert!(
        baz == "fn foo () {} fn bar () {} fn baz () {} "
            || baz == "fn bar () {} fn foo () {} fn baz () {} "
    );
}

#[test]
fn test_recursive_dependency() {
    let src = r#"
            #[snippet(include = "baz")]
            fn bar() {}

            #[snippet(include = "bar")]
            fn baz() {}
        "#;

    let snip = snippets(&src);
    assert_eq!(at(&snip, "bar"), "fn baz () {} fn bar () {} ");
    assert_eq!(at(&snip, "baz"), "fn bar () {} fn baz () {} ");
}

#[test]
fn test_missing_dependency() {
    let src = r#"
            #[snippet(include = "foo")]
            fn bar() {}

            #[snippet(include = "foo")]
            fn baz() {}
        "#;

    let snip = snippets(&src);
    assert_eq!(at(&snip, "bar"), "fn bar () {} ");
    assert_eq!(at(&snip, "baz"), "fn baz () {} ");
}

#[test]
fn test_attribute_full_path() {
    let src = r#"
            #[cargo_snippet::snippet]
            fn bar() {}
        "#;

    let snip = snippets(&src);
    assert_eq!(at(&snip, "bar"), "fn bar () {} ");
}

#[test]
fn test_attribute_prefix() {
    let src = r#"
            #[snippet(prefix = "use std::io;")]
            fn bar() {}
        "#;

    let snip = snippets(&src);
    assert_eq!(at(&snip, "bar"), "use std::io;fn bar () {} ");

    let src = r#"
            #[snippet(prefix="use std::io::{self,Read};\nuse std::str::FromStr;")]
            fn bar() {}
        "#;

    let snip = snippets(&src);
    assert_eq!(at(&snip, "bar"), "use std::io::{self,Read};\nuse std::str::FromStr;fn bar () {} ");

    let src = r#"
            #[snippet(prefix=r"use std::io::{self,Read};
use std::str::FromStr;")]
            fn bar() {}
        "#;

    let snip = snippets(&src);
    assert_eq!(at(&snip, "bar"), "use std::io::{self,Read};\nuse std::str::FromStr;fn bar () {} ");
}

#[test]
fn test_attribute_prefix_include() {
    let src = r#"
            #[snippet(prefix = "use std::sync;")]
            fn foo() {}
            #[snippet(prefix = "use std::io;", include = "foo")]
            fn bar() {}
        "#;

    let snip = snippets(&src);
    assert_eq!(at(&snip, "bar"), "use std::sync;use std::io;fn foo () {} fn bar () {} ");
}

#[test]
fn test_outer_line_doc() {
    let src = r#"
            /// This is outer doc comment. (exactly three slashes)
            // This is *NOT* doc comment.
            //// This is also *NOT* doc comment.
            #[snippet]
            fn foo() {}
        "#;

    let snip = snippets(&src);
    assert_eq!(at(&snip, "foo"), "/// This is outer doc comment. (exactly three slashes)\nfn foo () {} ");
}

#[test]
fn test_outer_block_doc() {
    let src = r#"
/** This is outer doc comment.
doc comment1
* doc comment2
 doc comment finishes here! */
/*
NOT doc comment
*/
/*** NOT doc comment */
#[snippet]
fn foo() {}
        "#;

    let snip = snippets(&src);
    assert_eq!(at(&snip, "foo"), "/// This is outer doc comment.\n///doc comment1\n///* doc comment2\n/// doc comment finishes here! \nfn foo () {} ");
}

#[test]
fn test_inner_line_doc() {
    let src = r#"
            #[snippet]
            fn foo() {
                //! This is inner doc comment.
            }
        "#;

    let snip = snippets(&src);
    assert_eq!(at(&snip, "foo"), "fn foo () {//! This is inner doc comment.\n} ");
}

#[test]
fn test_inner_block_doc() {
    let src = r#"
#[snippet]
fn foo() {
/*! This is inner doc comment.
doc comment1
* doc comment2
 doc comment finishes here! */
/*
NOT doc comment
*/
/*** NOT doc comment */
}
        "#;

    let snip = snippets(&src);
    assert_eq!(at(&snip, "foo"), "fn foo () {//! This is inner doc comment.\n//!doc comment1\n//!* doc comment2\n//! doc comment finishes here! \n} ");
}

#[test]
fn test_outer_line_doc_in_file() {
    let src = r#"
            #![snippet("file")]
            /// This is outer doc comment.
            fn foo() {}
        "#;

    let snip = snippets(&src);
    assert_eq!(at(&snip, "file"), "/// This is outer doc comment.\nfn foo () {} ");
}

#[test]
fn test_outer_line_doc_in_file_escaped_chars() {
    let src = r#"
             #![snippet("file")]
             /// ///\\\ 'This \t is \r outer " doc \n comment.
             fn foo() {}
         "#;

    let snip = snippets(&src);
    assert_eq!(at(&snip, "file"), "/// ///\\\\\\ 'This \\t is \\r outer \" doc \\n comment.\nfn foo () {} ");
}

#[test]
fn test_inner_line_doc_in_file() {
    let src = r#"
            #![snippet("file")]
            //! This is inner doc comment.
            fn foo() {}
        "#;

    let snip = snippets(&src);
    assert_eq!(at(&snip, "file"), "//! This is inner doc comment.\nfn foo () {} ");
}

#[test]
fn test_inner_line_doc_in_file_backslash() {
    let src = r#"
            #![snippet("file")]
            //! ///\\\ This is outer doc comment.
            fn foo() {}
        "#;

    let snip = snippets(&src);
    assert_eq!(at(&snip, "file"), "//! ///\\\\\\ This is outer doc comment.\nfn foo () {} ");
}

#[test]
fn test_inner_line_doc_in_file_tab() {
    let src = r#"
            #![snippet("file")]
            //! /// 	<- tab character
            fn foo() {}
        "#;

    let snip = snippets(&src);
    assert_eq!(at(&snip, "file"), "//! /// \t<- tab character\nfn foo () {} ");
}

#[test]
fn test_unicode_unescape() {
    // The space-like characters U+2002 to U+200A written as escapes come back as plain spaces.
    assert_eq!(unescape("foo\\u{2002}bar"), "foo bar"); // EN SPACE
    assert_eq!(unescape("foo\\u{2003}bar"), "foo bar"); // EM SPACE
    assert_eq!(unescape("foo\\u{2004}bar"), "foo bar"); // THREE-PER-EM SPACE
    assert_eq!(unescape("foo\\u{2005}bar"), "foo bar"); // FOUR-PER-EM SPACE
    assert_eq!(unescape("foo\\u{2006}bar"), "foo bar"); // SIX-PER-EM SPACE
    assert_eq!(unescape("foo\\u{2007}bar"), "foo bar"); // FIGURE SPACE
    assert_eq!(unescape("foo\\u{2008}bar"), "foo bar"); // PUNCTUATION SPACE
    assert_eq!(unescape("foo\\u{2009}bar"), "foo bar"); // THIN SPACE
    assert_eq!(unescape("foo\\u{200A}bar"), "foo bar"); // HAIR SPACE
    assert_eq!(unescape("foo\\u{200B}bar"), "foo\u{200B}bar"); // ZERO WIDTH SPACE
    assert_eq!(unescape("foo\\u{3000}bar"), "foo\u{3000}bar"); // IDEOGRAPHIC SPACE
}

#[test]
fn test_full_width_space_in_outer_line_doc() {
    let src = r#"
            #[snippet]
            /// [　] <- full width space
            fn foo() {}
        "#;

    let snip = snippets(&src);
    assert_eq!(at(&snip, "foo"), "/// [\u{3000}] <- full width space\nfn foo () {} ");
}

#[test]
fn test_full_width_space_in_outer_block_doc() {
    let src = r#"
#[snippet]
/** 
[　] <- full width space
*/
fn foo() {}
        "#;

    let snip = snippets(&src);
    assert_eq!(at(&snip, "foo"), "/// \n///[\u{3000}] <- full width space\nfn foo () {} ");
}

#[test]
fn test_full_width_space_in_inner_line_doc() {
    let src = r#"
            #[snippet]
            fn foo() {
                //! [　] <- full width space
            }
        "#;

    let snip = snippets(&src);
    assert_eq!(at(&snip, "foo"), "fn foo () {//! [\u{3000}] <- full width space\n} ");
}

#[test]
fn test_full_width_space_in_inner_block_doc() {
    let src = r#"
#[snippet]
fn foo() {
/*!
[　] <- full width space
*/
}
        "#;

    let snip = snippets(&src);
    assert_eq!(at(&snip, "foo"), "fn foo () {//!\n//![\u{3000}] <- full width space\n} ");
}

#[test]
fn test_divide_deref() {
    let src = r#"
#[snippet]
fn foo(a: &i32, b: &i32) -> i32 {
    *a / *b
}
        "#;
    let snip = snippets(&src);
    assert_eq!(at(&snip, "foo"), "fn foo (a : & i32 , b : & i32 ) -> i32 {* a / * b } ");
}

#[test]
fn test_doc_hidden_outer_line() {
    let src = r#"
/// comment
#[snippet(doc_hidden)]
fn foo() {}
        "#;
    let snip = snippets(&src);
    assert_eq!(at(&snip, "foo"), "fn foo () {} ");
}

#[test]
fn test_doc_hidden_inner_line() {
    let src = r#"
#[snippet(doc_hidden)]
fn foo() {
    //! comment
}
        "#;
    let snip = snippets(&src);
    assert_eq!(at(&snip, "foo"), "fn foo () {} ");
}

#[test]
fn test_doc_hidden_outer_block() {
    let src = r#"
/** comment */
#[snippet(doc_hidden)]
fn foo() {}
        "#;
    let snip = snippets(&src);
    assert_eq!(at(&snip, "foo"), "fn foo () {} ");
}

#[test]
fn test_doc_hidden_inner_block() {
    let src = r#"
#[snippet(doc_hidden)]
fn foo() {
    /*! comment */
}
        "#;
    let snip = snippets(&src);
    assert_eq!(at(&snip, "foo"), "fn foo () {} ");
}

#[test]
fn test_doc_hidden_outer_line_with_other_metas() {
    let src = r#"
/// comment
#[snippet(name = "bar", doc_hidden, prefix = "use std::collections::HashMap;")]
fn foo() {}
        "#;
    let snip = snippets(&src);
    assert_eq!(at(&snip, "bar"), "use std::collections::HashMap;fn foo () {} ");
}
