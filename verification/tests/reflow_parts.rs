use miden_tools::comment_reflow::apply::apply_replacements;
use miden_tools::comment_reflow::blocks::{reflow_block, replacements, Replacement};
use miden_tools::comment_reflow::fences::{is_fence_marker, mark_fenced_lines};
use miden_tools::comment_reflow::lines::{line_end, line_starts, CommentLine};
use miden_tools::comment_reflow::markdown::{is_repeated_separator, safe_comment_text};
use miden_tools::comment_reflow::notes::{is_empty_comment, starts_tagged_note};
use miden_tools::comment_reflow::prefix::Prefix;
use miden_tools::comment_reflow::reflow::{comments_in_place, reflow_spans};
use miden_tools::comment_reflow::syntax::{line_comment_spans, ReflowError, Span};
use miden_tools::comment_reflow::wrap::wrap_words;
use miden_tools::comment_reflow::Config;

fn line(idx: usize, content: &str) -> CommentLine {
    CommentLine {
        line_idx: idx,
        line_start: 100 * idx,
        line_end: 100 * idx + 50,
        indent: String::new(),
        prefix: Prefix::OuterDoc,
        content: content.to_string(),
        in_fence: false,
    }
}

#[test]
fn words_fill_lines() {
    assert_eq!(wrap_words("//", &["a", "bb", "ccc"], 4), "// a bb\n// ccc");
    assert_eq!(wrap_words("//", &["a", "bb", "ccc"], 8), "// a bb ccc");
    assert_eq!(wrap_words("//", &["toolong", "x"], 3), "// toolong\n// x");
    assert_eq!(wrap_words("//", &[], 3), "");
}

/// How few lines of the width the words can be cut into.
fn fewest_lines(words: &[&str], width: usize) -> usize {
    if words.is_empty() {
        return 0;
    }
    (1..=words.len())
        .filter(|&n| n == 1 || words[..n].join(" ").len() <= width)
        .map(|n| 1 + fewest_lines(&words[n..], width))
        .min()
        .unwrap()
}

#[test]
fn words_fill_as_few_lines_as_they_can() {
    let words = ["a", "bb", "ccc", "d", "eeeeeee", "ff", "g", "h"];
    for width in 1..20 {
        let lines = wrap_words("//", &words, width).lines().count();
        assert_eq!(lines, fewest_lines(&words, width), "{width}");
    }
}

#[test]
fn written_comments_are_reflowed_to_themselves() {
    let config = Config { width: 9, include_normal_comments: false };
    let source = "/// aa bb cc\nx\n";
    let once = reflow_spans(source, &[Span { start: 0, end: 12 }], config);
    assert_eq!(once, "/// aa bb\n/// cc\nx\n");
    let places = [Span { start: 0, end: 9 }, Span { start: 10, end: 16 }];
    assert!(comments_in_place(&once, &places));
    assert_eq!(reflow_spans(&once, &places, config), once);
}

#[test]
fn lines_start_behind_line_feeds() {
    let source = "ab\nc\r\n\nd";
    let starts = line_starts(source);
    assert_eq!(starts, vec![0, 3, 6, 7]);
    assert_eq!(line_end(source, 0, &starts), 2);
    assert_eq!(line_end(source, 1, &starts), 4);
    assert_eq!(line_end(source, 2, &starts), 6);
    assert_eq!(line_end(source, 3, &starts), 8);
}

#[test]
fn prefixes_are_read() {
    assert_eq!(Prefix::parse("//! a", false), Some((Prefix::InnerDoc, " a")));
    assert_eq!(Prefix::parse("/// a", false), Some((Prefix::OuterDoc, " a")));
    assert_eq!(Prefix::parse("//// a", true), None);
    assert_eq!(Prefix::parse("// a", false), None);
    assert_eq!(Prefix::parse("// a", true), Some((Prefix::Normal, " a")));
    assert_eq!(Prefix::Normal.marker(), "//");
}

#[test]
fn notes_and_blank_lines_are_told_apart() {
    assert!(starts_tagged_note(" SAFETY: x"));
    assert!(starts_tagged_note("TODO(a b): x"));
    assert!(!starts_tagged_note(" TODO (a): x"));
    assert!(!starts_tagged_note(" todo: x"));
    assert!(is_empty_comment(" \t "));
    assert!(!is_empty_comment(" x"));
}

#[test]
fn prose_is_told_from_layout() {
    assert_eq!(safe_comment_text(" some text  "), Some("some text"));
    assert_eq!(safe_comment_text("some text"), Some("some text"));
    assert_eq!(safe_comment_text("  some text"), None);
    assert_eq!(safe_comment_text(""), None);
    assert!(is_repeated_separator("==="));
    assert!(!is_repeated_separator("=="));
    assert!(!is_repeated_separator("aaa"));
    assert!(is_fence_marker("  ~~~"));
    assert!(!is_fence_marker(" ``x"));
}

#[test]
fn fences_are_tracked_by_run() {
    let mut lines = vec![
        line(1, " ```"),
        line(2, " code"),
        line(3, " ```"),
        line(4, " text"),
        line(5, " ```"),
        line(7, " text"),
    ];
    mark_fenced_lines(&mut lines);
    let flags: Vec<bool> = lines.iter().map(|line| line.in_fence).collect();
    assert_eq!(flags, vec![true, true, true, false, true, false]);
}

#[test]
fn paragraphs_are_rewritten_on_their_own() {
    let lines = vec![line(1, " aaa"), line(2, " bbb"), line(3, ""), line(4, " - c"), line(6, " d")];
    let found = replacements(&lines, 40);
    assert_eq!(found.len(), 2);
    assert_eq!(found[0].range, Span { start: 100, end: 250 });
    assert_eq!(found[0].text, "/// aaa bbb");
    assert_eq!(found[1].range, Span { start: 600, end: 650 });
    assert_eq!(found[1].text, "/// d");
    assert!(reflow_block(&lines[2..3], 40).is_none());
    assert!(reflow_block(&lines[0..2], 4).is_none());
    assert!(reflow_block(&[], 40).is_none());
}

#[test]
fn replacements_are_put_in_place() {
    let one = Replacement { range: Span { start: 1, end: 2 }, text: "XY".to_string() };
    let two = Replacement { range: Span { start: 4, end: 4 }, text: "-".to_string() };
    assert_eq!(apply_replacements("abcde", &[one, two]), "aXYcd-e");
    assert_eq!(apply_replacements("abc", &[]), "abc");
}

#[test]
fn comments_are_found_in_order() {
    let source = "// a\nfn f() {} // b\n";
    let spans = line_comment_spans(source).unwrap();
    assert_eq!(spans, vec![Span { start: 0, end: 4 }, Span { start: 15, end: 19 }]);
    assert!(comments_in_place(source, &spans));
}

#[test]
fn misplaced_comments_are_noticed() {
    let source = "// ä\n";
    assert!(comments_in_place(source, &[Span { start: 0, end: 5 }]));
    assert!(!comments_in_place(source, &[Span { start: 0, end: 4 }]));
    assert!(!comments_in_place(source, &[Span { start: 3, end: 2 }]));
    assert!(!comments_in_place(source, &[Span { start: 0, end: 9 }]));
    let twice = [Span { start: 0, end: 5 }, Span { start: 0, end: 5 }];
    assert!(!comments_in_place(source, &twice));
    assert!(!comments_in_place("a\r\n", &[Span { start: 2, end: 3 }]));
}

#[test]
fn given_comments_are_reflowed() {
    let config = Config { width: 10, include_normal_comments: true };
    let source = "// aaa bbb ccc\nx";
    assert_eq!(
        reflow_spans(source, &[Span { start: 0, end: 14 }], config),
        "// aaa bbb\n// ccc\nx"
    );
    assert_eq!(reflow_spans(source, &[], config), source);
}

#[test]
fn reflow_errors_have_messages() {
    assert_eq!(ReflowError::Grammar.message(), "loading tree-sitter Rust grammar");
    assert_eq!(ReflowError::NoTree.message(), "tree-sitter returned no parse tree");
    assert_eq!(
        ReflowError::MisplacedComment.message(),
        "tree-sitter reported a misplaced comment"
    );
}
