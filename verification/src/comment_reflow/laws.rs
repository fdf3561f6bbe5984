//! What holds of every reflow.

use vstd::prelude::*;
use vstd::utf8::{
    encode_utf8, encode_utf8_decode_utf8, encode_utf8_valid_utf8, is_char_boundary_start_end_of_seq,
    valid_utf8,
};

use crate::comment_reflow::apply::{
    lemma_block_rewrites_fit, rewrite_fits, rewrites_fit, spliced,
};
use crate::comment_reflow::blocks::{
    block_end, block_rewrite, block_rewrites, block_words, continues_block,
    lemma_block_continues, lemma_block_end, lemma_block_words_take, line_prefix, text_width, Rewrite,
};
use crate::comment_reflow::fences::with_fences;
use crate::comment_reflow::lines::{
    comment_line_of, found_lines, lemma_found_lines_fit, lemma_starts, lemma_text_at_split,
    lemma_text_end, line_index, lines_fit, spans_fit, starts, text_at, LineModel,
};
use crate::comment_reflow::markdown::{line_text, prose};
use crate::comment_reflow::notes::{
    is_blank, is_tagged_note, lemma_tag_is_a_word, note_tags, opens_note,
};
use crate::comment_reflow::prefix::Prefix;
use crate::comment_reflow::reflow::{reflowed, rewrites_of, Config};
use crate::comment_reflow::syntax::Span;
use crate::comment_reflow::wrap::{
    lemma_wrap_again, lemma_wrap_begins, lemma_wrap_fills_lines, lemma_wrap_width,
    lemma_wrapped_line_is_trimmed, prefixed, words_of_lines, wrap,
};
use crate::text::{
    all_white, are_words, is_white, join, lemma_trim_end, lemma_trim_start, lemma_word_len,
    lemma_words_are_words, no_white, trim_end, trim_start, word_len, words,
};

verus! {

/// The words of a paragraph are words.
pub proof fn lemma_block_words_are_words(block: Seq<LineModel>)
    ensures
        are_words(block_words(block)),
    decreases block.len(),
{
    if block.len() > 0 {
        lemma_block_words_are_words(block.drop_last());
        lemma_words_are_words(line_text(block.last().content));
        let front = block_words(block.drop_last());
        let back = words(line_text(block.last().content));
        assert forall|i: int| 0 <= i < block_words(block).len() implies (#[trigger] block_words(
            block,
        )[i]).len() > 0 && no_white(block_words(block)[i]) by {
            if i < front.len() {
                assert(block_words(block)[i] == front[i]);
            } else {
                assert(block_words(block)[i] == back[i - front.len()]);
            }
        }
    }
}

/// The lines that a rewritten paragraph gets, without what stands before the text.
pub open spec fn block_lines(block: Seq<LineModel>, width: int) -> Seq<Seq<char>> {
    wrap(block_words(block), text_width(block, width) as nat)
}

/// A rewritten paragraph keeps its words in order, and no line of it is wider than asked for.
pub proof fn lemma_rewritten_block(block: Seq<LineModel>, width: int)
    requires
        block_rewrite(block, width) is Some,
    ensures
        block_rewrite(block, width)->Some_0.text == join(
            prefixed(line_prefix(block), block_lines(block, width)),
            seq!['\n'],
        ),
        words_of_lines(block_lines(block, width)) == block_words(block),
        forall|i: int|
            0 <= i < block_lines(block, width).len() ==> (#[trigger] prefixed(
                line_prefix(block),
                block_lines(block, width),
            )[i]).len() <= width,
{
    let list = block_words(block);
    let room = text_width(block, width) as nat;
    lemma_block_words_are_words(block);
    lemma_wrap_fills_lines(list, room);
    lemma_wrap_width(list, room);
    assert forall|i: int| 0 <= i < wrap(list, room).len() implies (#[trigger] prefixed(
        line_prefix(block),
        wrap(list, room),
    )[i]).len() <= width by {
        assert(wrap(list, room)[i].len() <= room);
    }
}

/// The first word of a paragraph stays at the start of its first line.
pub proof fn lemma_first_word_stays_in_front(block: Seq<LineModel>, width: int)
    requires
        block_rewrite(block, width) is Some,
    ensures
        block_lines(block, width).len() > 0,
        block_words(block)[0].is_prefix_of(block_lines(block, width)[0]),
{
    lemma_block_words_are_words(block);
    lemma_wrap_begins(block_words(block), text_width(block, width) as nat);
}

/// The tag of a note stays at the start of a line, where a reader or a scanner for tags finds it: a
/// rewritten paragraph that opens with a tag has that tag at the start of its first line.
pub proof fn lemma_tag_stays_in_front(block: Seq<LineModel>, width: int, i: int)
    requires
        block_rewrite(block, width) is Some,
        0 <= i < note_tags().len(),
        opens_note(trim_start(block[0].content), note_tags()[i]),
    ensures
        block_lines(block, width).len() > 0,
        note_tags()[i].is_prefix_of(block_lines(block, width)[0]),
{
    let content = block[0].content;
    let tag = note_tags()[i];
    let text = line_text(content);
    let body = if content.len() > 0 && content[0] == ' ' {
        content.skip(1)
    } else {
        content
    };
    lemma_tag_is_a_word(i);
    lemma_trim_end(body);
    assert(prose(content) is Some);
    assert(body[0] == text[0]);
    assert(content.len() > 0 && content[0] == ' ' ==> content.drop_first() =~= body);
    assert(trim_start(body) =~= body);
    assert(trim_start(content) =~= body);
    if text.len() < tag.len() {
        let at = text.len() as int;
        assert(body.skip(at)[0] == body[at]);
        assert(body[at] == tag[at]);
    }
    assert(tag.is_prefix_of(text));
    assert(trim_start(text) =~= text);
    lemma_word_len(text);
    if word_len(text) < tag.len() {
        assert(text[word_len(text) as int] == tag[word_len(text) as int]);
    }
    let word = words(text)[0];
    assert(word == text.take(word_len(text) as int));
    assert(tag.is_prefix_of(word));
    let first = block.take(1);
    assert(first.drop_last() =~= Seq::<LineModel>::empty());
    assert(block_words(first) =~= words(text)) by {
        assert(block_words(Seq::<LineModel>::empty()) =~= Seq::<Seq<char>>::empty());
        assert(first.last() == block[0]);
    }
    lemma_block_words_take(block, 1);
    assert(block_words(block)[0] == word);
    lemma_first_word_stays_in_front(block, width);
}

/// Whether `again` are comment lines that hold the lines of the rewritten `block` from `from` on,
/// as they are written: indented and marked as the block is, with one space before the text.
pub open spec fn holds_rewritten(
    again: Seq<LineModel>,
    block: Seq<LineModel>,
    width: int,
    from: int,
) -> bool {
    &&& from + again.len() <= block_lines(block, width).len()
    &&& forall|i: int|
        0 <= i < again.len() ==> (#[trigger] again[i]).indent == block[0].indent && again[i].prefix
            == block[0].prefix && again[i].content == seq![' '] + block_lines(
            block,
            width,
        )[from + i]
}

proof fn lemma_words_written_again(
    again: Seq<LineModel>,
    block: Seq<LineModel>,
    width: int,
    from: int,
)
    requires
        0 <= from,
        holds_rewritten(again, block, width, from),
    ensures
        block_words(again) == words_of_lines(
            block_lines(block, width).subrange(from, from + again.len()),
        ),
    decreases again.len(),
{
    let lines = block_lines(block, width);
    let part = lines.subrange(from, from + again.len());
    if again.len() > 0 {
        let front = again.drop_last();
        assert(holds_rewritten(front, block, width, from)) by {
            assert forall|i: int| 0 <= i < front.len() implies (#[trigger] front[i]).indent
                == block[0].indent && front[i].prefix == block[0].prefix && front[i].content
                == seq![' '] + lines[from + i] by {
                assert(front[i] == again[i]);
            }
        }
        lemma_words_written_again(front, block, width, from);
        let last = again.len() - 1;
        let line = lines[from + last];
        lemma_block_words_are_words(block);
        lemma_wrapped_line_is_trimmed(
            block_words(block),
            text_width(block, width) as nat,
            from + last,
        );
        assert(again[last].content == seq![' '] + line);
        assert((seq![' '] + line).skip(1) =~= line);
        assert(trim_end(line) =~= line);
        assert(line_text(again.last().content) == line);
        assert(part.drop_last() =~= lines.subrange(from, from + front.len()));
        lemma_words_of_last(part);
    } else {
        assert(part =~= Seq::<Seq<char>>::empty());
    }
}

/// The words of several lines end with those of the last one.
pub proof fn lemma_words_of_last(lines: Seq<Seq<char>>)
    requires
        lines.len() > 0,
    ensures
        words_of_lines(lines) == words_of_lines(lines.drop_last()) + words(lines.last()),
    decreases lines.len(),
{
    let rest = lines.drop_first();
    if rest.len() > 0 {
        lemma_words_of_last(rest);
        assert(lines.drop_last().drop_first() =~= rest.drop_last());
        assert(words_of_lines(lines) =~= words_of_lines(lines.drop_last()) + words(lines.last()));
    } else {
        assert(words_of_lines(rest) =~= Seq::<Seq<char>>::empty());
        assert(words_of_lines(lines.drop_last()) =~= Seq::<Seq<char>>::empty());
        assert(words_of_lines(lines) =~= words_of_lines(lines.drop_last()) + words(lines.last()));
    }
}

/// Rewriting is stable: whichever neighbouring lines of a rewritten paragraph are taken for a
/// paragraph the next time, if that paragraph is rewritten, then to the lines that it already has.
pub proof fn lemma_reflow_is_stable(
    again: Seq<LineModel>,
    block: Seq<LineModel>,
    width: int,
    from: int,
)
    requires
        block_rewrite(block, width) is Some,
        0 <= from,
        holds_rewritten(again, block, width, from),
        block_rewrite(again, width) is Some,
    ensures
        block_rewrite(again, width)->Some_0.text == join(
            prefixed(line_prefix(block), block_lines(block, width)).subrange(
                from,
                from + again.len(),
            ),
            seq!['\n'],
        ),
{
    let lines = block_lines(block, width);
    let room = text_width(block, width) as nat;
    let to = from + again.len();
    assert(again[0].indent == block[0].indent);
    lemma_words_written_again(again, block, width, from);
    lemma_block_words_are_words(block);
    lemma_wrap_again(block_words(block), room, from, to);
    assert(block_lines(again, width) == lines.subrange(from, to));
    assert(prefixed(line_prefix(block), lines.subrange(from, to)) =~= prefixed(
        line_prefix(block),
        lines,
    ).subrange(from, to));
}

/// A line in a fence, and a line that is not plain prose, keeps its whole paragraph from being
/// rewritten.
pub proof fn lemma_paragraph_left_alone(block: Seq<LineModel>, width: int, i: int)
    requires
        0 <= i < block.len(),
        block[i].in_fence || prose(block[i].content) is None,
    ensures
        block_rewrite(block, width) is None,
{
}

/// A blank comment line is not prose.
pub proof fn lemma_blank_is_not_prose(content: Seq<char>)
    requires
        is_blank(content),
    ensures
        prose(content) is None,
{
    let front = trim_start(content);
    lemma_trim_start(content);
    lemma_trim_end(front);
    let text = line_text(content);
    let body = if content.len() > 0 && content[0] == ' ' {
        content.skip(1)
    } else {
        content
    };
    lemma_trim_end(body);
    assert(front.skip(0) =~= front);
    if text.len() > 0 && !is_white(text[0]) {
        let at = content.len() - body.len();
        assert(content[at] == text[0]);
        let cut = content.len() - front.len();
        if at < cut {
            assert(content.take(cut)[at] == content[at]);
        } else {
            assert(front[at - cut] == content[at]);
            assert(front.skip(0)[at - cut] == content[at]);
        }
    }
}

/// A blank comment line parts paragraphs, and so does a tagged note: neither continues what stands
/// before it, and nothing continues a blank line. So a tagged note is the first line of its
/// paragraph.
pub proof fn lemma_paragraph_breaks(previous: LineModel, current: LineModel)
    ensures
        is_blank(previous.content) ==> !continues_block(previous, current),
        is_blank(current.content) ==> !continues_block(previous, current),
        is_tagged_note(current.content) ==> !continues_block(previous, current),
{
}

/// Paragraphs are reflowed on their own: what becomes of the lines on one side of a paragraph
/// boundary does not depend on those on the other.
pub proof fn lemma_paragraphs_are_independent(
    before: Seq<LineModel>,
    after: Seq<LineModel>,
    width: int,
)
    requires
        before.len() > 0 && after.len() > 0 ==> !continues_block(before.last(), after[0]),
    ensures
        block_rewrites(before + after, 0, width) == block_rewrites(before, 0, width)
            + block_rewrites(after, 0, width),
{
    lemma_rewrites_in_front(before, after, 0, width);
    lemma_rewrites_behind(before, after, 0, width);
}

proof fn lemma_block_end_in_front(before: Seq<LineModel>, after: Seq<LineModel>, at: int)
    requires
        before.len() > 0 && after.len() > 0 ==> !continues_block(before.last(), after[0]),
        0 < at <= before.len(),
    ensures
        block_end(before + after, at) == block_end(before, at),
    decreases before.len() - at,
{
    let all = before + after;
    if at < before.len() {
        if continues_block(before[at - 1], before[at]) {
            lemma_block_end_in_front(before, after, at + 1);
        }
    } else if after.len() > 0 {
        assert(all[at] == after[0]);
        assert(all[at - 1] == before.last());
    }
}

proof fn lemma_rewrites_in_front(
    before: Seq<LineModel>,
    after: Seq<LineModel>,
    from: int,
    width: int,
)
    requires
        before.len() > 0 && after.len() > 0 ==> !continues_block(before.last(), after[0]),
        0 <= from <= before.len(),
    ensures
        block_rewrites(before + after, from, width) == block_rewrites(before, from, width)
            + block_rewrites(before + after, before.len() as int, width),
    decreases before.len() - from,
{
    let all = before + after;
    let tail = block_rewrites(all, before.len() as int, width);
    if from < before.len() {
        let end = block_end(before, from + 1);
        lemma_block_end(before, from + 1);
        lemma_block_end_in_front(before, after, from + 1);
        lemma_rewrites_in_front(before, after, end, width);
        assert(all.subrange(from, end) =~= before.subrange(from, end));
        assert(block_rewrites(all, from, width) =~= block_rewrites(before, from, width) + tail);
    } else {
        assert(Seq::<Rewrite>::empty() + tail =~= tail);
    }
}

proof fn lemma_block_end_behind(before: Seq<LineModel>, after: Seq<LineModel>, at: int)
    requires
        0 < at,
    ensures
        block_end(before + after, before.len() + at) == before.len() + block_end(after, at),
    decreases after.len() - at,
{
    let all = before + after;
    if at < after.len() {
        assert(all[before.len() + at] == after[at]);
        assert(all[before.len() + at - 1] == after[at - 1]);
        if continues_block(after[at - 1], after[at]) {
            lemma_block_end_behind(before, after, at + 1);
        }
    }
}

proof fn lemma_rewrites_behind(
    before: Seq<LineModel>,
    after: Seq<LineModel>,
    from: int,
    width: int,
)
    requires
        0 <= from,
    ensures
        block_rewrites(before + after, before.len() + from, width) == block_rewrites(
            after,
            from,
            width,
        ),
    decreases after.len() - from,
{
    let all = before + after;
    if from < after.len() {
        let end = block_end(after, from + 1);
        lemma_block_end(after, from + 1);
        lemma_block_end_behind(before, after, from + 1);
        lemma_rewrites_behind(before, after, end, width);
        assert(all.subrange(before.len() + from, before.len() + end) =~= after.subrange(from, end));
    }
}

/// Whether the lines from `from` up to `to` are one paragraph.
pub open spec fn is_paragraph(lines: Seq<LineModel>, from: int, to: int) -> bool {
    &&& 0 <= from < to <= lines.len()
    &&& from > 0 ==> !continues_block(lines[from - 1], lines[from])
    &&& forall|i: int, j: int|
        #![trigger lines[i], lines[j]]
        from <= i && j == i + 1 && j < to ==> continues_block(lines[i], lines[j])
    &&& to < lines.len() ==> !continues_block(lines[to - 1], lines[to])
}

/// Whether a rewrite is that of the paragraph from `from` up to `to`, all of whose lines are plain
/// prose outside of fences.
pub open spec fn rewrites_paragraph(
    lines: Seq<LineModel>,
    width: int,
    from: int,
    to: int,
    rewrite: Rewrite,
) -> bool {
    &&& is_paragraph(lines, from, to)
    &&& block_rewrite(lines.subrange(from, to), width) == Some(rewrite)
    &&& forall|i: int|
        from <= i < to ==> !(#[trigger] lines[i]).in_fence && prose(lines[i].content) is Some
}

/// What is rewritten is a contiguous paragraph of plain prose: adjacent lines with the same
/// indentation and marker, up to where the paragraph ends.
pub proof fn lemma_only_prose_is_rewritten(lines: Seq<LineModel>, width: int, from: int, k: int)
    requires
        0 <= from <= lines.len(),
        0 < from < lines.len() ==> !continues_block(lines[from - 1], lines[from]),
        0 <= k < block_rewrites(lines, from, width).len(),
    ensures
        exists|a: int, b: int|
            from <= a && #[trigger] rewrites_paragraph(
                lines,
                width,
                a,
                b,
                block_rewrites(lines, from, width)[k],
            ),
    decreases lines.len() - from,
{
    let end = block_end(lines, from + 1);
    lemma_block_end(lines, from + 1);
    lemma_block_stops(lines, from + 1);
    let block = lines.subrange(from, end);
    let rewrite = block_rewrites(lines, from, width)[k];
    match block_rewrite(block, width) {
        Some(first) => {
            if k == 0 {
                assert forall|i: int, j: int|
                    #![trigger lines[i], lines[j]]
                    from <= i && j == i + 1 && j < end implies continues_block(
                    lines[i],
                    lines[j],
                ) by {
                    lemma_block_continues(lines, from + 1, j);
                }
                assert forall|i: int| from <= i < end implies !(#[trigger] lines[i]).in_fence
                    && prose(lines[i].content) is Some by {
                    assert(block[i - from] == lines[i]);
                }
                assert(rewrites_paragraph(lines, width, from, end, rewrite));
            } else {
                assert(rewrite == block_rewrites(lines, end, width)[k - 1]);
                lemma_only_prose_is_rewritten(lines, width, end, k - 1);
            }
        },
        None => {
            lemma_only_prose_is_rewritten(lines, width, end, k);
        },
    }
}

/// A paragraph ends where the next line does not continue it.
pub proof fn lemma_block_stops(lines: Seq<LineModel>, at: int)
    requires
        0 < at <= lines.len(),
    ensures
        block_end(lines, at) < lines.len() ==> !continues_block(
            lines[block_end(lines, at) - 1],
            lines[block_end(lines, at)],
        ),
    decreases lines.len() - at,
{
    if at < lines.len() && continues_block(lines[at - 1], lines[at]) {
        lemma_block_stops(lines, at + 1);
    }
}

/// No rewrite touches a line of fenced code or a line that is not plain prose.
pub proof fn lemma_lines_left_alone(
    bytes: Seq<u8>,
    lines: Seq<LineModel>,
    width: int,
    i: int,
    k: int,
)
    requires
        lines_fit(bytes, lines),
        0 <= i < lines.len(),
        lines[i].in_fence || prose(lines[i].content) is None,
        0 <= k < block_rewrites(lines, 0, width).len(),
    ensures
        block_rewrites(lines, 0, width)[k].end < lines[i].start || lines[i].end < block_rewrites(
            lines,
            0,
            width,
        )[k].start,
{
    let rewrite = block_rewrites(lines, 0, width)[k];
    lemma_only_prose_is_rewritten(lines, width, 0, k);
    let (a, b): (int, int) = choose|a: int, b: int|
        0 <= a && #[trigger] rewrites_paragraph(lines, width, a, b, rewrite);
    let first = lines[a];
    let last = lines[b - 1];
    assert(lines.subrange(a, b)[0] == first);
    assert(lines.subrange(a, b).last() == last);
    if i < a {
        lemma_lines_are_apart(bytes, lines, i, a);
    } else {
        assert(i >= b);
        lemma_lines_are_apart(bytes, lines, b - 1, i);
    }
}

/// A line ends before a later one starts.
proof fn lemma_lines_are_apart(bytes: Seq<u8>, lines: Seq<LineModel>, i: int, j: int)
    requires
        lines_fit(bytes, lines),
        0 <= i < j < lines.len(),
    ensures
        lines[i].end < lines[j].start,
{
    lemma_starts(bytes);
    lemma_text_end(bytes, lines[i].idx);
    assert(lines[i].idx < lines[j].idx);
    assert(starts(bytes)[lines[i].idx + 1] <= starts(bytes)[lines[j].idx]);
}

/// Where every rewrite writes what already stands there, the text stays as it is.
pub proof fn lemma_same_text_spliced(bytes: Seq<u8>, list: Seq<Rewrite>, cursor: int)
    requires
        valid_utf8(bytes),
        rewrites_fit(bytes, list),
        rewrite_fits(bytes, (Rewrite { start: 0, end: cursor, text: Seq::empty() })),
        forall|i: int| 0 <= i < list.len() ==> cursor <= (#[trigger] list[i]).start,
        forall|i: int|
            0 <= i < list.len() ==> (#[trigger] list[i]).text == text_at(
                bytes,
                list[i].start,
                list[i].end,
            ),
    ensures
        spliced(bytes, list, cursor) == text_at(bytes, cursor, bytes.len() as int),
    decreases list.len(),
{
    if list.len() > 0 {
        let first = list[0];
        let rest = list.drop_first();
        let end = bytes.len() as int;
        assert forall|i: int| 0 <= i < rest.len() implies rewrite_fits(bytes, #[trigger] rest[i])
            && first.end <= rest[i].start && rest[i].text == text_at(
            bytes,
            rest[i].start,
            rest[i].end,
        ) by {
            assert(rest[i] == list[i + 1]);
        }
        assert(rewrite_fits(bytes, first));
        is_char_boundary_start_end_of_seq(bytes);
        lemma_same_text_spliced(bytes, rest, first.end);
        lemma_text_at_split(bytes, cursor, first.start, end);
        lemma_text_at_split(bytes, first.start, first.end, end);
        assert(spliced(bytes, list, cursor) =~= text_at(bytes, cursor, end));
    }
}

/// A source in which every paragraph that may be rewritten already reads as its rewrite is left as
/// it is; one without such paragraphs, too.
pub proof fn lemma_reflowed_source_is_kept(source: Seq<char>, spans: Seq<Span>, config: Config)
    requires
        spans_fit(encode_utf8(source), spans),
        forall|i: int|
            #![trigger rewrites_of(source, spans, config)[i]]
            0 <= i < rewrites_of(source, spans, config).len() ==> rewrites_of(
                source,
                spans,
                config,
            )[i].text == text_at(
                encode_utf8(source),
                rewrites_of(source, spans, config)[i].start,
                rewrites_of(source, spans, config)[i].end,
            ),
    ensures
        reflowed(source, spans, config) == source,
{
    let bytes = encode_utf8(source);
    let found = found_lines(bytes, spans, config.include_normal_comments);
    let lines = with_fences(found);
    encode_utf8_valid_utf8(source);
    lemma_found_lines_fit(bytes, spans, config.include_normal_comments);
    assert(lines_fit(bytes, lines));
    lemma_block_rewrites_fit(bytes, lines, 0, config.width as int);
    let list = rewrites_of(source, spans, config);
    is_char_boundary_start_end_of_seq(bytes);
    assert forall|i: int| 0 <= i < list.len() implies 0 <= (#[trigger] list[i]).start by {
        assert(rewrite_fits(bytes, list[i]));
    }
    lemma_same_text_spliced(bytes, list, 0);
    assert(bytes.subrange(0, bytes.len() as int) =~= bytes);
    encode_utf8_decode_utf8(source);
}

/// A comment behind code makes no comment line, so it is never rewritten.
pub proof fn lemma_trailing_comment_is_ignored(bytes: Seq<u8>, span: Span, include_normal: bool)
    requires
        !all_white(
            text_at(
                bytes,
                starts(bytes)[line_index(bytes, span.start as int)],
                span.start as int,
            ),
        ),
    ensures
        comment_line_of(bytes, span, include_normal) is None,
{
}

/// A comment with four slashes is never taken, with or without normal comments.
pub proof fn lemma_four_slashes_are_ignored(rest: Seq<char>, include_normal: bool)
    ensures
        Prefix::parsed(seq!['/', '/', '/', '/'] + rest, include_normal) is None,
{
    let comment = seq!['/', '/', '/', '/'] + rest;
    assert(comment[2] == '/');
    assert(Prefix::InnerDoc.marker_chars()[2] == '!');
    assert(seq!['/', '/', '/', '/'].is_prefix_of(comment)) by {
        assert(comment.subrange(0, 4) =~= seq!['/', '/', '/', '/']);
    }
}

} // verus!
