//! Paragraphs of comment lines and what replaces them.

use vstd::prelude::*;
use vstd::slice::slice_subrange;

use crate::comment_reflow::fences::{continues_run, same_run};
use crate::comment_reflow::lines::{models, CommentLine, LineModel};
use crate::comment_reflow::markdown::{line_text, prose, safe_comment_text};
use crate::comment_reflow::notes::{
    is_blank, is_empty_comment, is_tagged_note, starts_tagged_note,
};
use crate::comment_reflow::syntax::Span;
use crate::comment_reflow::wrap::{wrap_words, wrapped_text};
use crate::text::{str_words, texts, words};

verus! {

/// A rewrite of a run of bytes, to be applied to the source that the bytes are from.
#[derive(Debug)]
pub struct Replacement {
    pub range: Span,
    pub text: String,
}

/// What a [`Replacement`] says.
pub struct Rewrite {
    pub start: int,
    pub end: int,
    pub text: Seq<char>,
}

impl View for Replacement {
    type V = Rewrite;

    open spec fn view(&self) -> Rewrite {
        Rewrite {
            start: self.range.start as int,
            end: self.range.end as int,
            text: self.text@,
        }
    }
}

/// What each replacement of `list` says.
pub open spec fn rewrites(list: Seq<Replacement>) -> Seq<Rewrite> {
    list.map_values(|one: Replacement| one@)
}

/// Whether `current` continues the paragraph of `previous`: it continues the run, neither line is
/// blank, and it does not open a tagged note.
pub open spec fn continues_block(previous: LineModel, current: LineModel) -> bool {
    &&& continues_run(previous, current)
    &&& !is_blank(previous.content)
    &&& !is_blank(current.content)
    &&& !is_tagged_note(current.content)
}

/// Where the paragraph that holds the line before `at` ends, if it reaches `at`.
pub open spec fn block_end(lines: Seq<LineModel>, at: int) -> int
    decreases lines.len() - at,
{
    if 0 < at < lines.len() && continues_block(lines[at - 1], lines[at]) {
        block_end(lines, at + 1)
    } else {
        at
    }
}

/// What stands before the text on every line of a paragraph, up to a space: the indentation and
/// the marker of its first line.
pub open spec fn line_prefix(block: Seq<LineModel>) -> Seq<char> {
    block[0].indent + block[0].prefix.marker_chars()
}

/// The words of a paragraph, line by line.
pub open spec fn block_words(block: Seq<LineModel>) -> Seq<Seq<char>>
    decreases block.len(),
{
    if block.len() == 0 {
        Seq::empty()
    } else {
        block_words(block.drop_last()) + words(line_text(block.last().content))
    }
}

/// Whether every word is at most `width` characters long.
pub open spec fn all_fit(list: Seq<Seq<char>>, width: int) -> bool {
    forall|i: int| 0 <= i < list.len() ==> (#[trigger] list[i]).len() <= width
}

/// Whether a paragraph may be rewritten at a text width: there is room for text, no line is in a
/// fence, every line is plain prose, and there are words, each of which fits.
pub open spec fn may_reflow(block: Seq<LineModel>, text_width: int) -> bool {
    &&& text_width > 0
    &&& forall|i: int|
        0 <= i < block.len() ==> !(#[trigger] block[i]).in_fence && prose(block[i].content) is Some
    &&& all_fit(block_words(block), text_width)
    &&& block_words(block).len() > 0
}

/// How wide the text of a paragraph may be where whole lines are at most `width` wide.
pub open spec fn text_width(block: Seq<LineModel>, width: int) -> int {
    width - (line_prefix(block).len() + 1)
}

/// The rewrite of a paragraph: its words wrapped, in place of its lines.
pub open spec fn block_rewrite(block: Seq<LineModel>, width: int) -> Option<Rewrite> {
    if block.len() > 0 && may_reflow(block, text_width(block, width)) {
        Some(
            Rewrite {
                start: block[0].start,
                end: block.last().end,
                text: wrapped_text(
                    line_prefix(block),
                    block_words(block),
                    text_width(block, width) as nat,
                ),
            },
        )
    } else {
        None
    }
}

/// The rewrites of the paragraphs from line `from` on, each paragraph taken on its own.
pub open spec fn block_rewrites(lines: Seq<LineModel>, from: int, width: int) -> Seq<Rewrite>
    decreases lines.len() - from,
{
    if 0 <= from < lines.len() {
        proof {
            lemma_block_end(lines, from + 1);
        }
        let end = block_end(lines, from + 1);
        let rest = block_rewrites(lines, end, width);
        match block_rewrite(lines.subrange(from, end), width) {
            Some(rewrite) => seq![rewrite] + rest,
            None => rest,
        }
    } else {
        Seq::empty()
    }
}

/// A paragraph ends behind its first line and within the lines.
pub proof fn lemma_block_end(lines: Seq<LineModel>, at: int)
    ensures
        at <= block_end(lines, at),
        at <= lines.len() ==> block_end(lines, at) <= lines.len(),
    decreases lines.len() - at,
{
    if 0 < at < lines.len() && continues_block(lines[at - 1], lines[at]) {
        lemma_block_end(lines, at + 1);
    }
}

/// Every line of a paragraph but its first continues it.
pub proof fn lemma_block_continues(lines: Seq<LineModel>, at: int, i: int)
    requires
        at <= i < block_end(lines, at),
    ensures
        0 < i < lines.len(),
        continues_block(lines[i - 1], lines[i]),
    decreases lines.len() - at,
{
    if 0 < at < lines.len() && continues_block(lines[at - 1], lines[at]) && at < i {
        lemma_block_continues(lines, at + 1, i);
    }
}

/// Whether `current` continues the paragraph of `previous`.
pub fn same_block(previous: &CommentLine, current: &CommentLine) -> (r: bool)
    ensures
        r == continues_block(previous@, current@),
{
    same_run(previous, current) && !is_empty_comment(previous.content.as_str())
        && !is_empty_comment(current.content.as_str()) && !starts_tagged_note(
        current.content.as_str(),
    )
}

/// Adds the words of `text` to `list`, unless one is longer than `width`.
fn push_words<'a>(list: &mut Vec<&'a str>, text: &'a str, width: usize) -> (fits: bool)
    ensures
        fits == all_fit(words(text@), width as int),
        fits ==> texts(final(list)@) == texts(old(list)@) + words(text@),
{
    let found = str_words(text);
    let ghost all = words(text@);
    let ghost before = texts(list@);
    let mut i: usize = 0;
    assert(all.take(0) =~= Seq::<Seq<char>>::empty());
    assert(before + all.take(0) =~= before);
    while i < found.len()
        invariant
            i <= found@.len(),
            all == words(text@),
            texts(found@) == all,
            texts(list@) == before + all.take(i as int),
            forall|k: int| 0 <= k < i ==> (#[trigger] all[k]).len() <= width,
        decreases found@.len() - i,
    {
        let word: &'a str = found[i];
        assert(all[i as int] == word@);
        if word.unicode_len() > width {
            return false;
        }
        let ghost so_far = texts(list@);
        list.push(word);
        assert(texts(list@) =~= so_far.push(word@));
        assert(all.take(i as int + 1) =~= all.take(i as int).push(word@));
        assert(texts(list@) =~= before + all.take(i as int + 1));
        i = i + 1;
    }
    assert(all.take(i as int) =~= all);
    true
}

/// The words of a part of a paragraph are among the words of the whole.
pub proof fn lemma_block_words_take(block: Seq<LineModel>, n: int)
    requires
        0 <= n <= block.len(),
    ensures
        block_words(block.take(n)).is_prefix_of(block_words(block)),
    decreases block.len(),
{
    if n < block.len() {
        let front = block.drop_last();
        lemma_block_words_take(front, n);
        assert(front.take(n) =~= block.take(n));
    } else {
        assert(block.take(n) =~= block);
    }
}

/// The replacement for the paragraph `block`, where it may be rewritten.
pub fn reflow_block(block: &[CommentLine], width: usize) -> (r: Option<Replacement>)
    ensures
        match r {
            Some(replacement) => block_rewrite(models(block@), width as int) == Some(replacement@),
            None => block_rewrite(models(block@), width as int) is None,
        },
{
    let ghost lines = models(block@);
    if block.len() == 0 {
        return None;
    }
    let first = &block[0];
    let last = &block[block.len() - 1];
    assert(lines[0] == first@);
    assert(lines.last() == last@);
    let mut prefix = first.indent.clone();
    prefix.append(first.prefix.marker());
    assert(prefix@ =~= line_prefix(lines));
    let prefix_len: usize = prefix.as_str().unicode_len();
    if width <= prefix_len || width - prefix_len == 1 {
        return None;
    }
    let text_width: usize = width - prefix_len - 1;
    let mut all_words: Vec<&str> = Vec::new();
    let mut i: usize = 0;
    assert(texts(all_words@) =~= block_words(lines.take(0)));
    while i < block.len()
        invariant
            i <= block@.len(),
            lines == models(block@),
            block@.len() > 0,
            text_width == self::text_width(lines, width as int),
            texts(all_words@) == block_words(lines.take(i as int)),
            all_fit(texts(all_words@), text_width as int),
            forall|k: int|
                0 <= k < i ==> !(#[trigger] lines[k]).in_fence && prose(lines[k].content) is Some,
        decreases block@.len() - i,
    {
        let line = &block[i];
        let ghost done = lines.take(i as int + 1);
        proof {
            assert(lines[i as int] == line@);
            assert(done.drop_last() =~= lines.take(i as int));
            assert(done.last() == line@);
            lemma_block_words_take(lines, i as int + 1);
        }
        if line.in_fence {
            return None;
        }
        let ghost before = texts(all_words@);
        match safe_comment_text(line.content.as_str()) {
            None => {
                return None;
            },
            Some(text) => {
                if !push_words(&mut all_words, text, text_width) {
                    proof {
                        let found = words(text@);
                        let k = choose|k: int|
                            0 <= k < found.len() && (#[trigger] found[k]).len() > text_width;
                        let at = before.len() + k;
                        assert(block_words(done)[at] == found[k]);
                        assert(block_words(lines)[at] == found[k]);
                    }
                    return None;
                }
            },
        }
        i = i + 1;
    }
    assert(lines.take(i as int) =~= lines);
    if all_words.len() == 0 {
        return None;
    }
    let text = wrap_words(prefix.as_str(), &all_words, text_width);
    Some(Replacement { range: Span { start: first.line_start, end: last.line_end }, text })
}

/// The replacements for all paragraphs of `comment_lines` that may be rewritten.
pub fn replacements(comment_lines: &[CommentLine], width: usize) -> (r: Vec<Replacement>)
    ensures
        rewrites(r@) == block_rewrites(models(comment_lines@), 0, width as int),
{
    let ghost lines = models(comment_lines@);
    let ghost all = block_rewrites(lines, 0, width as int);
    let mut found: Vec<Replacement> = Vec::new();
    let mut block_start: usize = 0;
    assert(rewrites(found@) + all =~= all);
    while block_start < comment_lines.len()
        invariant
            block_start <= comment_lines@.len(),
            lines == models(comment_lines@),
            all == block_rewrites(lines, 0, width as int),
            rewrites(found@) + block_rewrites(lines, block_start as int, width as int) == all,
        decreases comment_lines@.len() - block_start,
    {
        let mut block_stop: usize = block_start + 1;
        while block_stop < comment_lines.len() && same_block(
            &comment_lines[block_stop - 1],
            &comment_lines[block_stop],
        )
            invariant
                block_start < block_stop <= comment_lines@.len(),
                lines == models(comment_lines@),
                block_end(lines, block_stop as int) == block_end(lines, block_start + 1),
            decreases comment_lines@.len() - block_stop,
        {
            block_stop = block_stop + 1;
        }
        let ghost rest = block_rewrites(lines, block_stop as int, width as int);
        let block = slice_subrange(comment_lines, block_start, block_stop);
        assert(models(block@) =~= lines.subrange(block_start as int, block_stop as int));
        let ghost before = rewrites(found@);
        match reflow_block(block, width) {
            Some(replacement) => {
                found.push(replacement);
                assert(rewrites(found@) =~= before.push(replacement@));
                assert(rewrites(found@) + rest =~= before + (seq![replacement@] + rest));
            },
            None => {},
        }
        block_start = block_stop;
    }
    assert(rewrites(found@) + Seq::<Rewrite>::empty() =~= rewrites(found@));
    found
}

} // verus!
