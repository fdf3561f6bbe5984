//! That every paragraph of prose is reflowed, and nothing else.

use vstd::prelude::*;
use vstd::utf8::encode_utf8;

use crate::comment_reflow::apply::spliced;
use crate::comment_reflow::blocks::{
    block_end, block_rewrite, block_rewrites, block_words, continues_block, lemma_block_continues,
    lemma_block_end, line_prefix, text_width, Rewrite,
};
use crate::comment_reflow::laws::{
    lemma_block_stops, lemma_block_words_are_words, lemma_only_prose_is_rewritten,
    lemma_words_of_last, rewrites_paragraph,
};
use crate::comment_reflow::lines::{spans_fit, text_at, LineModel};
use crate::comment_reflow::markdown::{line_text, prose};
use crate::comment_reflow::notes::{is_blank, is_tagged_note};
use crate::comment_reflow::reflow::{lines_of, reflow_outcome, rewrites_of, Config};
use crate::comment_reflow::syntax::{by_start, line_comments, rust_syntax};
use crate::comment_reflow::wrap::{
    is_filled, lemma_wrap_fills_lines, lemma_wrap_width, prefixed, words_of_lines, wrap,
};
use crate::text::{join, lemma_word_len, trim_start, word_len, words};

verus! {

/// Whether two lines belong together: one stands right below the other with the same indentation
/// and marker, neither is blank, and the lower one opens no note.
pub open spec fn belong_together(upper: LineModel, lower: LineModel) -> bool {
    &&& lower.idx == upper.idx + 1
    &&& lower.indent == upper.indent
    &&& lower.prefix == upper.prefix
    &&& !is_blank(upper.content)
    &&& !is_blank(lower.content)
    &&& !is_tagged_note(lower.content)
}

/// Whether the lines from `a` up to `b` are all the lines that belong together there.
pub open spec fn are_together(lines: Seq<LineModel>, a: int, b: int) -> bool {
    &&& 0 <= a < b <= lines.len()
    &&& forall|i: int, j: int|
        #![trigger lines[i], lines[j]]
        a <= i && j == i + 1 && j < b ==> belong_together(lines[i], lines[j])
    &&& a > 0 ==> !belong_together(lines[a - 1], lines[a])
    &&& b < lines.len() ==> !belong_together(lines[b - 1], lines[b])
}

/// How wide a line is that holds `text` behind the indentation and the marker of `line` and a space.
pub open spec fn line_width(line: LineModel, text: Seq<char>) -> nat {
    line.indent.len() + line.prefix.marker_chars().len() + 1 + text.len()
}

/// Whether the lines from `a` up to `b` are plain prose outside of fences, every word of which fits
/// on a line of its own.
pub open spec fn are_prose(lines: Seq<LineModel>, a: int, b: int, width: int) -> bool {
    forall|i: int|
        #![trigger lines[i]]
        a <= i < b ==> {
            &&& !lines[i].in_fence
            &&& prose(lines[i].content) is Some
            &&& forall|k: int|
                0 <= k < words(line_text(lines[i].content)).len() ==> line_width(
                    lines[i],
                    #[trigger] words(line_text(lines[i].content))[k],
                ) <= width
        }
}

/// The texts of the lines from `a` up to `b`.
pub open spec fn line_texts(lines: Seq<LineModel>, a: int, b: int) -> Seq<Seq<char>> {
    Seq::new((b - a) as nat, |i: int| line_text(lines[a + i].content))
}

/// Whether `texts` hold the words of the lines from `a` up to `b`, in order and with single spaces
/// between them, on lines that are no wider than `width` and have no room for the first word of the
/// next one.
pub open spec fn are_rewrapped(
    lines: Seq<LineModel>,
    a: int,
    b: int,
    width: int,
    texts: Seq<Seq<char>>,
) -> bool {
    &&& texts.len() > 0
    &&& words_of_lines(texts) == words_of_lines(line_texts(lines, a, b))
    &&& forall|i: int|
        0 <= i < texts.len() ==> words(#[trigger] texts[i]).len() > 0 && join(
            words(texts[i]),
            seq![' '],
        ) == texts[i] && line_width(lines[a], texts[i]) <= width
    &&& forall|i: int, j: int|
        #![trigger texts[i], texts[j]]
        0 <= i && j == i + 1 && j < texts.len() ==> line_width(lines[a], texts[i]) + 1 + words(
            texts[j],
        )[0].len() > width
}

/// The lines that hold `texts` behind the indentation and the marker of `line` and a space.
pub open spec fn written_behind(line: LineModel, texts: Seq<Seq<char>>) -> Seq<char> {
    join(
        Seq::new(
            texts.len(),
            |i: int| line.indent + line.prefix.marker_chars() + seq![' '] + texts[i],
        ),
        seq!['\n'],
    )
}

proof fn lemma_block_words_are_those_of_lines(lines: Seq<LineModel>, a: int, b: int)
    requires
        0 <= a <= b <= lines.len(),
    ensures
        block_words(lines.subrange(a, b)) == words_of_lines(line_texts(lines, a, b)),
    decreases b - a,
{
    let block = lines.subrange(a, b);
    let texts = line_texts(lines, a, b);
    if a < b {
        lemma_block_words_are_those_of_lines(lines, a, b - 1);
        assert(block.drop_last() =~= lines.subrange(a, b - 1));
        assert(texts.drop_last() =~= line_texts(lines, a, b - 1));
        assert(block.last() == lines[b - 1]);
        lemma_words_of_last(texts);
    } else {
        assert(block.len() == 0);
        assert(texts.len() == 0);
    }
}

/// A word of several lines is a word of one of them.
proof fn lemma_word_of_lines(texts: Seq<Seq<char>>, at: int) -> (place: (int, int))
    requires
        0 <= at < words_of_lines(texts).len(),
    ensures
        0 <= place.0 < texts.len(),
        0 <= place.1 < words(texts[place.0]).len(),
        words_of_lines(texts)[at] == words(texts[place.0])[place.1],
    decreases texts.len(),
{
    let first = words(texts[0]);
    if at < first.len() {
        (0, at)
    } else {
        let rest = texts.drop_first();
        let place = lemma_word_of_lines(rest, at - first.len());
        assert(rest[place.0] == texts[place.0 + 1]);
        (place.0 + 1, place.1)
    }
}

/// A line of prose has a word.
proof fn lemma_prose_has_words(content: Seq<char>)
    requires
        prose(content) is Some,
    ensures
        words(line_text(content)).len() > 0,
        words(line_text(content))[0].len() > 0,
{
    let text = line_text(content);
    assert(trim_start(text) =~= text);
    lemma_word_len(text);
    assert(words(text)[0] == text.take(word_len(text) as int));
}

/// Whether a rewrite replaces the lines from `a` up to `b` by their words, rewrapped.
pub open spec fn rewraps(
    lines: Seq<LineModel>,
    a: int,
    b: int,
    width: int,
    rewrite: Rewrite,
) -> bool {
    &&& rewrite.start == lines[a].start
    &&& rewrite.end == lines[b - 1].end
    &&& exists|texts: Seq<Seq<char>>| #[trigger]
        are_rewrapped(lines, a, b, width, texts) && rewrite.text == written_behind(lines[a], texts)
}

/// What a paragraph of prose is rewritten to.
proof fn lemma_prose_is_rewrapped(lines: Seq<LineModel>, a: int, b: int, width: int)
    requires
        0 <= a < b <= lines.len(),
        forall|i: int|
            a <= i < b ==> (#[trigger] lines[i]).indent == lines[a].indent && lines[i].prefix
                == lines[a].prefix,
        are_prose(lines, a, b, width),
    ensures
        block_rewrite(lines.subrange(a, b), width) is Some,
        rewraps(lines, a, b, width, block_rewrite(lines.subrange(a, b), width)->0),
{
    let block = lines.subrange(a, b);
    let list = block_words(block);
    let texts = line_texts(lines, a, b);
    assert(block[0] == lines[a]);
    assert(block.last() == lines[b - 1]);
    lemma_block_words_are_those_of_lines(lines, a, b);
    lemma_prose_has_words(lines[a].content);
    assert(texts[0] == line_text(lines[a].content));
    assert(list.len() > 0) by {
        assert(words_of_lines(texts) == words(texts[0]) + words_of_lines(texts.drop_first()));
    }
    let room = text_width(block, width);
    assert(line_prefix(block).len() == lines[a].indent.len() + lines[a].prefix.marker_chars().len());
    assert(room > 0) by {
        assert(line_width(lines[a], words(line_text(lines[a].content))[0]) <= width);
    }
    assert forall|at: int| 0 <= at < list.len() implies (#[trigger] list[at]).len() <= room by {
        let place = lemma_word_of_lines(texts, at);
        let i = a + place.0;
        assert(texts[place.0] == line_text(lines[i].content));
        assert(line_width(lines[i], words(line_text(lines[i].content))[place.1]) <= width);
        assert(lines[i].indent == lines[a].indent);
    }
    assert forall|i: int| 0 <= i < block.len() implies !(#[trigger] block[i]).in_fence && prose(
        block[i].content,
    ) is Some by {
        assert(block[i] == lines[a + i]);
    }
    assert(block_rewrite(block, width) is Some);
    lemma_rewrapped(lines, a, b, width);
}

/// What a paragraph that is rewritten is rewritten to.
proof fn lemma_rewrapped(lines: Seq<LineModel>, a: int, b: int, width: int)
    requires
        0 <= a < b <= lines.len(),
        block_rewrite(lines.subrange(a, b), width) is Some,
    ensures
        rewraps(lines, a, b, width, block_rewrite(lines.subrange(a, b), width)->0),
{
    let block = lines.subrange(a, b);
    let list = block_words(block);
    let room = text_width(block, width) as nat;
    let made = wrap(list, room);
    assert(block[0] == lines[a]);
    assert(block.last() == lines[b - 1]);
    lemma_block_words_are_those_of_lines(lines, a, b);
    lemma_block_words_are_words(block);
    lemma_wrap_fills_lines(list, room);
    lemma_wrap_width(list, room);
    assert(made.len() > 0) by {
        if made.len() == 0 {
            assert(words_of_lines(made).len() == 0);
        }
    }
    assert forall|i: int| 0 <= i < made.len() implies words(#[trigger] made[i]).len() > 0 && join(
        words(made[i]),
        seq![' '],
    ) == made[i] && line_width(lines[a], made[i]) <= width by {
        assert(is_filled(made[i], room));
    }
    assert(are_rewrapped(lines, a, b, width, made));
    let rewrite = block_rewrite(block, width)->0;
    assert(written_behind(lines[a], made) == rewrite.text) by {
        assert(Seq::new(
            made.len(),
            |i: int| lines[a].indent + lines[a].prefix.marker_chars() + seq![' '] + made[i],
        ) =~= prefixed(line_prefix(block), made));
    }
}

/// The rewrites that come from the paragraphs from `from` on hold that of every paragraph.
proof fn lemma_paragraph_is_met(
    lines: Seq<LineModel>,
    from: int,
    a: int,
    b: int,
    width: int,
) -> (k: int)
    requires
        0 <= from <= a,
        are_together(lines, a, b),
        block_rewrite(lines.subrange(a, b), width) is Some,
    ensures
        0 <= k < block_rewrites(lines, from, width).len(),
        block_rewrites(lines, from, width)[k] == block_rewrite(lines.subrange(a, b), width)->0,
    decreases lines.len() - from,
{
    let end = block_end(lines, from + 1);
    lemma_block_end(lines, from + 1);
    lemma_block_stops(lines, from + 1);
    let rest = block_rewrites(lines, end, width);
    let own = block_rewrite(lines.subrange(from, end), width);
    let all = block_rewrites(lines, from, width);
    if from == a {
        if end < b {
            assert(belong_together(lines[end - 1], lines[end]));
        }
        if b < end {
            lemma_block_continues(lines, from + 1, b);
        }
        assert(all[0] == own->0);
        0
    } else {
        if a < end {
            lemma_block_continues(lines, from + 1, a);
        }
        let k = lemma_paragraph_is_met(lines, end, a, b, width);
        if own is Some {
            assert(all[k + 1] == rest[k]);
            k + 1
        } else {
            k
        }
    }
}

/// Every paragraph of prose is rewritten, however many lines it has: where adjacent lines with the
/// same indentation and marker, up to where a blank line, a note or anything else parts them from
/// others, are all plain prose outside of fences whose words fit, they are replaced by their words
/// on lines that are as full as the width allows.
pub proof fn lemma_every_paragraph_of_prose_is_rewritten(
    lines: Seq<LineModel>,
    a: int,
    b: int,
    width: int,
)
    requires
        are_together(lines, a, b),
        are_prose(lines, a, b, width),
    ensures
        exists|k: int|
            0 <= k < block_rewrites(lines, 0, width).len() && rewraps(
                lines,
                a,
                b,
                width,
                #[trigger] block_rewrites(lines, 0, width)[k],
            ),
{
    assert forall|i: int| a <= i < b implies (#[trigger] lines[i]).indent == lines[a].indent
        && lines[i].prefix == lines[a].prefix by {
        lemma_same_margin(lines, a, b, i);
    }
    lemma_prose_is_rewrapped(lines, a, b, width);
    let k = lemma_paragraph_is_met(lines, 0, a, b, width);
    assert(rewraps(lines, a, b, width, block_rewrites(lines, 0, width)[k]));
}

proof fn lemma_same_margin(lines: Seq<LineModel>, a: int, b: int, i: int)
    requires
        are_together(lines, a, b),
        a <= i < b,
    ensures
        lines[i].indent == lines[a].indent,
        lines[i].prefix == lines[a].prefix,
    decreases i - a,
{
    if i > a {
        lemma_same_margin(lines, a, b, i - 1);
        assert(belong_together(lines[i - 1], lines[i]));
    }
}

/// Nothing else is rewritten: every rewrite replaces lines that belong together, all of them plain
/// prose outside of fences whose words fit, by their words, rewrapped.
pub proof fn lemma_nothing_else_is_rewritten(lines: Seq<LineModel>, width: int, k: int)
    requires
        0 <= k < block_rewrites(lines, 0, width).len(),
    ensures
        exists|a: int, b: int| #[trigger]
            are_together(lines, a, b) && are_prose(lines, a, b, width) && rewraps(
                lines,
                a,
                b,
                width,
                block_rewrites(lines, 0, width)[k],
            ),
{
    let rewrite = block_rewrites(lines, 0, width)[k];
    lemma_only_prose_is_rewritten(lines, width, 0, k);
    let (a, b): (int, int) = choose|a: int, b: int|
        0 <= a && #[trigger] rewrites_paragraph(lines, width, a, b, rewrite);
    let block = lines.subrange(a, b);
    assert(are_together(lines, a, b)) by {
        assert forall|i: int, j: int|
            #![trigger lines[i], lines[j]]
            a <= i && j == i + 1 && j < b implies belong_together(lines[i], lines[j]) by {
            assert(continues_block(lines[i], lines[j]));
        }
        if a > 0 && belong_together(lines[a - 1], lines[a]) {
            assert(continues_block(lines[a - 1], lines[a]));
        }
        if b < lines.len() && belong_together(lines[b - 1], lines[b]) {
            assert(continues_block(lines[b - 1], lines[b]));
        }
    }
    lemma_rewrapped(lines, a, b, width);
    lemma_block_words_are_those_of_lines(lines, a, b);
    assert(block[0] == lines[a]);
    assert(are_prose(lines, a, b, width)) by {
        assert forall|i: int|
            #![trigger lines[i]]
            a <= i < b implies !lines[i].in_fence && prose(lines[i].content) is Some && forall|m: int|
            0 <= m < words(line_text(lines[i].content)).len() ==> line_width(
                lines[i],
                #[trigger] words(line_text(lines[i].content))[m],
            ) <= width by {
            lemma_same_margin(lines, a, b, i);
            assert forall|m: int| 0 <= m < words(line_text(lines[i].content)).len() implies line_width(
                lines[i],
                #[trigger] words(line_text(lines[i].content))[m],
            ) <= width by {
                let texts = line_texts(lines, a, b);
                assert(texts[i - a] == line_text(lines[i].content));
                let at = lemma_word_is_among(texts, i - a, m);
                assert(block_words(block)[at].len() <= text_width(block, width));
            }
        }
    }
}

/// A word of one of several lines is among their words.
proof fn lemma_word_is_among(texts: Seq<Seq<char>>, i: int, m: int) -> (at: int)
    requires
        0 <= i < texts.len(),
        0 <= m < words(texts[i]).len(),
    ensures
        0 <= at < words_of_lines(texts).len(),
        words_of_lines(texts)[at] == words(texts[i])[m],
    decreases texts.len(),
{
    if i == 0 {
        m
    } else {
        let rest = texts.drop_first();
        assert(rest[i - 1] == texts[i]);
        let at = lemma_word_is_among(rest, i - 1, m);
        words(texts[0]).len() + at
    }
}

/// The text of every rewrite stands in the text that the rewrites give.
proof fn lemma_rewrite_stands_in_text(bytes: Seq<u8>, list: Seq<Rewrite>, cursor: int, k: int)
    requires
        0 <= k < list.len(),
    ensures
        exists|before: Seq<char>, behind: Seq<char>|
            spliced(bytes, list, cursor) == #[trigger] (before + list[k].text + behind),
    decreases list.len(),
{
    let rest = list.drop_first();
    let kept = text_at(bytes, cursor, list[0].start);
    let tail = spliced(bytes, rest, list[0].end);
    if k == 0 {
        assert(spliced(bytes, list, cursor) == kept + list[0].text + tail);
    } else {
        lemma_rewrite_stands_in_text(bytes, rest, list[0].end, k - 1);
        let (before, behind): (Seq<char>, Seq<char>) = choose|before: Seq<char>, behind: Seq<char>|
            tail == #[trigger] (before + rest[k - 1].text + behind);
        assert(rest[k - 1] == list[k]);
        assert(spliced(bytes, list, cursor) =~= (kept + list[0].text + before) + list[k].text
            + behind);
    }
}

/// A reflow of a Rust text gives a text in which every paragraph of prose is rewrapped: whenever the
/// parser gives a tree whose comments fit the text, the reflow succeeds, and for each paragraph of
/// prose among the comment lines the new text holds its words on lines that are as full as the width
/// allows.
pub proof fn lemma_reflow_rewraps_every_paragraph(
    source: Seq<char>,
    config: Config,
    a: int,
    b: int,
)
    requires
        rust_syntax(source) is Ok,
        rust_syntax(source)->Ok_0 is Some,
        spans_fit(encode_utf8(source), by_start(line_comments(rust_syntax(source)->Ok_0->0))),
        ({
            let lines = lines_of(
                source,
                by_start(line_comments(rust_syntax(source)->Ok_0->0)),
                config.include_normal_comments,
            );
            are_together(lines, a, b) && are_prose(lines, a, b, config.width as int)
        }),
    ensures
        ({
            let lines = lines_of(
                source,
                by_start(line_comments(rust_syntax(source)->Ok_0->0)),
                config.include_normal_comments,
            );
            &&& reflow_outcome(source, config) is Ok
            &&& exists|texts: Seq<Seq<char>>, before: Seq<char>, behind: Seq<char>|
                are_rewrapped(lines, a, b, config.width as int, texts) && reflow_outcome(
                    source,
                    config,
                )->Ok_0 == #[trigger] (before + written_behind(lines[a], texts) + behind)
        }),
{
    let spans = by_start(line_comments(rust_syntax(source)->Ok_0->0));
    let lines = lines_of(source, spans, config.include_normal_comments);
    let width = config.width as int;
    let list = rewrites_of(source, spans, config);
    lemma_every_paragraph_of_prose_is_rewritten(lines, a, b, width);
    let k = choose|k: int|
        0 <= k < block_rewrites(lines, 0, width).len() && rewraps(
            lines,
            a,
            b,
            width,
            #[trigger] block_rewrites(lines, 0, width)[k],
        );
    let texts = choose|texts: Seq<Seq<char>>| #[trigger]
        are_rewrapped(lines, a, b, width, texts) && list[k].text == written_behind(lines[a], texts);
    lemma_rewrite_stands_in_text(encode_utf8(source), list, 0, k);
    let (before, behind): (Seq<char>, Seq<char>) = choose|before: Seq<char>, behind: Seq<char>|
        spliced(encode_utf8(source), list, 0) == #[trigger] (before + list[k].text + behind);
    assert(reflow_outcome(source, config)->Ok_0 == before + written_behind(lines[a], texts) + behind);
}

/// A paragraph on its own is rewritten exactly where it is plain prose outside of fences whose words
/// fit, however many lines and words it has; what replaces it are its words, rewrapped.
pub proof fn lemma_paragraph_is_rewritten_where_it_is_prose(block: Seq<LineModel>, width: int)
    requires
        block.len() > 0,
        forall|i: int|
            0 <= i < block.len() ==> (#[trigger] block[i]).indent == block[0].indent
                && block[i].prefix == block[0].prefix,
    ensures
        block_rewrite(block, width) is Some <==> are_prose(block, 0, block.len() as int, width),
        block_rewrite(block, width) matches Some(rewrite) ==> rewraps(
            block,
            0,
            block.len() as int,
            width,
            rewrite,
        ),
{
    let len = block.len() as int;
    assert(block.subrange(0, len) =~= block);
    if are_prose(block, 0, len, width) {
        lemma_prose_is_rewrapped(block, 0, len, width);
    }
    if block_rewrite(block, width) is Some {
        lemma_rewrapped(block, 0, len, width);
        let room = text_width(block, width);
        let list = block_words(block);
        assert forall|i: int|
            #![trigger block[i]]
            0 <= i < len implies !block[i].in_fence && prose(block[i].content) is Some && forall|
            k: int,
        |
            0 <= k < words(line_text(block[i].content)).len() ==> line_width(
                block[i],
                #[trigger] words(line_text(block[i].content))[k],
            ) <= width by {
            let own = words(line_text(block[i].content));
            assert forall|k: int| 0 <= k < own.len() implies line_width(
                block[i],
                #[trigger] own[k],
            ) <= width by {
                let at = lemma_block_word_place(block, i, k);
                assert(list[at] == own[k]);
            }
        }
    }
}

proof fn lemma_block_word_place(block: Seq<LineModel>, i: int, k: int) -> (at: int)
    requires
        0 <= i < block.len(),
        0 <= k < words(line_text(block[i].content)).len(),
    ensures
        0 <= at < block_words(block).len(),
        block_words(block)[at] == words(line_text(block[i].content))[k],
    decreases block.len(),
{
    let front = block.drop_last();
    if i < front.len() {
        let at = lemma_block_word_place(front, i, k);
        assert(front[i] == block[i]);
        at
    } else {
        block_words(front).len() + k
    }
}

} // verus!
