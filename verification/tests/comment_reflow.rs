use miden_tools::comment_reflow::{reflow_source, Config};

fn reflow(source: &str, width: usize) -> String {
    reflow_source(source, Config { width, include_normal_comments: false }).unwrap()
}

#[test]
fn reflows_outer_doc_comment_blocks() {
    let source = r"/// This is a doc comment that should be wrapped into a few short lines by
/// the formatter.
fn main() {}
";

    let expected = r"/// This is a doc comment that
/// should be wrapped into a
/// few short lines by the
/// formatter.
fn main() {}
";

    assert_eq!(reflow(source, 30), expected);
}

#[test]
fn does_not_reflow_trailing_comments() {
    let source = r"fn main() {
    let _value = 1; /// this trailing doc comment is ignored by design
}
";

    assert_eq!(reflow(source, 40), source);
}

#[test]
fn skips_markdown_lists() {
    let source = r"/// - first item that should stay exactly where it is
/// - second item that should stay exactly where it is
fn main() {}
";

    assert_eq!(reflow(source, 30), source);
}

#[test]
fn can_reflow_regular_comments_when_enabled() {
    let source = r"// A normal comment can also be wrapped when the caller explicitly asks for all comments.
fn main() {}
";

    let reflowed =
        reflow_source(source, Config { width: 45, include_normal_comments: true }).unwrap();

    assert_eq!(
        reflowed,
        r"// A normal comment can also be wrapped when
// the caller explicitly asks for all
// comments.
fn main() {}
"
    );
}

#[test]
fn tagged_notes_start_their_own_block() {
    let source = r"// Step 4: restore the old header from the earliest discarded nonce.
// SAFETY: the slice is non-empty here.
// TODO(someone): drop this once the caller is fixed.
fn main() {}
";

    let reflowed = reflow_source(
        source,
        Config {
            width: 100,
            include_normal_comments: true,
        },
    )
    .unwrap();

    assert_eq!(reflowed, source);
}

#[test]
fn tagged_note_keeps_its_own_continuation_lines() {
    let source = r"// SAFETY: the slice is non-empty here because the caller only builds an
// entry once at least one nonce has been pushed.
fn main() {}
";

    let expected = r"// SAFETY: the slice is non-empty here because the caller only builds an entry once at least one
// nonce has been pushed.
fn main() {}
";

    let reflowed = reflow_source(
        source,
        Config {
            width: 100,
            include_normal_comments: true,
        },
    )
    .unwrap();

    assert_eq!(reflowed, expected);
}

#[test]
fn empty_comment_lines_separate_paragraphs() {
    let source = r"/// Summary line that is short.
///
/// A body paragraph that
/// was wrapped by hand.
///
/// - a list item that must stay put
fn main() {}
";

    let expected = r"/// Summary line that is short.
///
/// A body paragraph that was wrapped by hand.
///
/// - a list item that must stay put
fn main() {}
";

    assert_eq!(reflow(source, 100), expected);
}

#[test]
fn fenced_code_is_untouched_even_with_empty_lines_inside() {
    let source = r"/// Example:
///
/// ```
/// let a = 1;
///
/// // a comment inside the example
/// let b = 2;
/// ```
fn main() {}
";

    assert_eq!(reflow(source, 100), source);
}

#[test]
fn skips_repeated_separator_comments() {
    let source = r"// ================================================================================================
// SECTION HEADER
// ================================================================================================
fn main() {}
";

    let reflowed =
        reflow_source(source, Config { width: 60, include_normal_comments: true }).unwrap();

    assert_eq!(reflowed, source);
}

fn reflow_all(source: &str, width: usize) -> String {
    reflow_source(source, Config { width, include_normal_comments: true }).unwrap()
}

#[test]
fn a_source_without_comments_is_kept() {
    assert_eq!(reflow("", 40), "");
    assert_eq!(reflow("fn main() {}", 40), "fn main() {}");
}

#[test]
fn a_second_reflow_changes_nothing() {
    let source = "/// one two three four five six seven eight nine ten\n/// eleven\nfn f() {}\n";
    let once = reflow(source, 24);
    assert_eq!(
        once,
        "/// one two three four\n/// five six seven eight\n/// nine ten eleven\nfn f() {}\n"
    );
    assert_eq!(reflow(&once, 24), once);
}

#[test]
fn a_second_reflow_keeps_fences_and_notes() {
    let source = "/// words before the code go here\n///\n/// ```\n/// let x = 1;\n/// ```\n///\n\
                  /// TODO: a note about the code\n///\n/// last words of the text go here\nfn f() {}\n";
    let once = reflow(source, 20);
    assert_eq!(
        once,
        "/// words before the\n/// code go here\n///\n/// ```\n/// let x = 1;\n/// ```\n///\n\
         /// TODO: a note\n/// about the code\n///\n/// last words of\n/// the text go here\nfn f() {}\n"
    );
    assert_eq!(reflow(&once, 20), once);
}

#[test]
fn a_note_whose_owner_is_split_is_prose_the_next_time() {
    let source = "// a\n// TODO(ann b): fix the thing soon\nfn f() {}\n";
    let once = reflow_all(source, 14);
    assert_eq!(once, "// a\n// TODO(ann\n// b): fix the\n// thing soon\nfn f() {}\n");
    let twice = reflow_all(&once, 14);
    assert_eq!(twice, "// a TODO(ann\n// b): fix the\n// thing soon\nfn f() {}\n");
}

#[test]
fn a_tag_that_reaches_a_line_start_stays_where_it_is() {
    let source = "// look for the next TODO: and then go on from there\nfn f() {}\n";
    let once = reflow_all(source, 23);
    assert_eq!(once, "// look for the next\n// TODO: and then go on\n// from there\nfn f() {}\n");
    assert_eq!(reflow_all(&once, 23), once);
}

#[test]
fn normal_comments_are_left_alone_unless_asked_for() {
    let source = "// a normal comment that is longer than it should be\nfn f() {}\n";
    assert_eq!(reflow(source, 30), source);
}

#[test]
fn four_slashes_are_left_alone() {
    let source = "//// a comment that is not documentation and not prose\nfn f() {}\n";
    assert_eq!(reflow_all(source, 30), source);
}

#[test]
fn inner_documentation_is_reflowed() {
    assert_eq!(
        reflow("//! a module with a long line of text\n", 22),
        "//! a module with a\n//! long line of text\n"
    );
}

#[test]
fn indentation_is_part_of_the_width() {
    assert_eq!(
        reflow("mod m {\n    /// aaa bbb ccc ddd\n    fn f() {}\n}\n", 20),
        "mod m {\n    /// aaa bbb ccc\n    /// ddd\n    fn f() {}\n}\n"
    );
}

#[test]
fn a_word_that_does_not_fit_keeps_its_paragraph() {
    let source = "/// short words and averyveryverylongword here too\nfn f() {}\n";
    assert_eq!(reflow(source, 20), source);
    assert_eq!(reflow(source, 3), source);
    assert_eq!(reflow(source, 4), source);
}

#[test]
fn text_that_looks_like_a_comment_in_a_string_is_kept() {
    let source = "const S: &str = \"\n/// not a comment but a rather long line of text\n\";\n";
    assert_eq!(reflow(source, 20), source);
}

#[test]
fn an_unclosed_fence_does_not_reach_the_next_comment() {
    let source = "/// ```\n/// let a = 1;\nfn f() {}\n\n/// aaa bbb\n/// ccc\nfn g() {}\n";
    assert_eq!(
        reflow(source, 30),
        "/// ```\n/// let a = 1;\nfn f() {}\n\n/// aaa bbb ccc\nfn g() {}\n"
    );
}

#[test]
fn line_breaks_of_two_bytes_are_not_part_of_the_text() {
    assert_eq!(reflow("/// aaa\r\n/// bbb\r\nfn f() {}\r\n", 30), "/// aaa bbb\r\nfn f() {}\r\n");
}

#[test]
fn characters_are_counted_not_bytes() {
    assert_eq!(reflow("/// ääää öööö üüüü\nfn f() {}\n", 14), "/// ääää öööö\n/// üüüü\nfn f() {}\n");
}

#[test]
fn a_comment_at_the_very_end_is_reflowed() {
    assert_eq!(reflow_all("// aaa bbb ccc", 10), "// aaa bbb\n// ccc");
}

#[test]
fn markdown_is_kept() {
    for line in [
        "# a heading that is somewhat long",
        "> a quotation that is somewhat long",
        "1. a numbered item that is somewhat long",
        "2) a numbered item that is somewhat long",
        "* an item that is somewhat long",
        "+ an item that is somewhat long",
        "| a | table | row | of | some | length |",
        "a cell | another cell of a table row",
        "https://example.com/a/b/c",
        "<http://example.com/a/b/c>",
        "[link]: https://example.com/somewhere",
        "aligned   text that is somewhat long",
        " indented text that is somewhat long",
        "tab\tin the text that is somewhat long",
        "-----",
    ] {
        let source = format!("/// {line}\nfn f() {{}}\n");
        assert_eq!(reflow(&source, 20), source);
    }
}

#[test]
fn tags_need_a_colon() {
    assert_eq!(
        reflow_all("// aaa\n// TODO bbb\nfn f() {}\n", 40),
        "// aaa TODO bbb\nfn f() {}\n"
    );
    let source = "// aaa\n// FIXME(me): bbb\nfn f() {}\n";
    assert_eq!(reflow_all(source, 40), source);
    assert_eq!(
        reflow_all("// aaa\n// TODO(me bbb: ccc\nfn f() {}\n", 40),
        "// aaa TODO(me bbb: ccc\nfn f() {}\n"
    );
}
