//! The lines of a source that was reflowed.

use vstd::prelude::*;
use vstd::utf8::{
    encode_utf8, is_char_boundary, is_char_boundary_start_end_of_seq, valid_utf8,
};

use crate::comment_reflow::apply::{lemma_block_rewrites_fit, rewrite_fits, rewrites_fit, spliced};
use crate::comment_reflow::blocks::{
    block_end, block_rewrite, block_rewrites, block_words, lemma_block_continues, lemma_block_end,
    line_prefix, text_width, Rewrite,
};
use crate::comment_reflow::breaks::{
    are_lines, body_len, broken_lines, byte_lines, glued, has_break, lemma_byte_lines,
    lemma_encode_concat, lemma_encode_text_at, lemma_glued_concat, lemma_joined_lines,
    lemma_no_feed_in_bytes, lemma_places, line_tail, no_feed,
};
use crate::comment_reflow::laws::{
    block_lines, lemma_block_words_are_words, lemma_first_word_stays_in_front,
};
use crate::comment_reflow::lines::{
    lemma_end_boundary, lemma_start_boundary, lemma_text_at_split, lemma_text_end, lines_fit,
    starts, text_at, LineModel,
};
use crate::comment_reflow::wrap::{lemma_wrapped_line_has_no_feed, prefixed};

verus! {

/// The lines of a rewritten paragraph as they are written.
pub open spec fn written_lines(block: Seq<LineModel>, width: int) -> Seq<Seq<char>> {
    prefixed(line_prefix(block), block_lines(block, width))
}

/// What stands in place of the lines of a paragraph behind a reflow, given the lines of the source.
pub open spec fn new_block(old_lines: Seq<Seq<u8>>, block: Seq<LineModel>, width: int) -> Seq<
    Seq<u8>,
> {
    if block_rewrite(block, width) is Some {
        broken_lines(written_lines(block, width), line_tail(old_lines[block.last().idx]))
    } else {
        old_lines.subrange(block[0].idx, block.last().idx + 1)
    }
}

/// The lines of the new text that come from the lines of the source from `cursor` on, where the
/// paragraphs from comment line `from` on are still to come.
pub open spec fn new_lines(
    old_lines: Seq<Seq<u8>>,
    lines: Seq<LineModel>,
    from: int,
    width: int,
    cursor: int,
) -> Seq<Seq<u8>>
    decreases lines.len() - from,
{
    if 0 <= from < lines.len() {
        proof {
            lemma_block_end(lines, from + 1);
        }
        let end = block_end(lines, from + 1);
        let block = lines.subrange(from, end);
        old_lines.subrange(cursor, block[0].idx) + new_block(old_lines, block, width) + new_lines(
            old_lines,
            lines,
            end,
            width,
            block.last().idx + 1,
        )
    } else {
        old_lines.skip(cursor)
    }
}

/// Where line `cursor` starts, or the text ends where there is none.
pub open spec fn offset(bytes: Seq<u8>, cursor: int) -> int {
    glued(byte_lines(bytes).take(cursor)).len() as int
}

/// The bytes between two line starts are the lines between them.
proof fn lemma_offsets(bytes: Seq<u8>, from: int, to: int)
    requires
        valid_utf8(bytes),
        0 <= from <= to <= byte_lines(bytes).len(),
    ensures
        0 <= offset(bytes, from) <= offset(bytes, to) <= bytes.len(),
        is_char_boundary(bytes, offset(bytes, from)),
        is_char_boundary(bytes, offset(bytes, to)),
        bytes.subrange(offset(bytes, from), offset(bytes, to)) == glued(
            byte_lines(bytes).subrange(from, to),
        ),
        offset(bytes, byte_lines(bytes).len() as int) == bytes.len(),
        byte_lines(bytes).len() == starts(bytes).len(),
{
    let list = byte_lines(bytes);
    lemma_byte_lines(bytes);
    let a = list.take(from);
    let b = list.subrange(from, to);
    let c = list.skip(to);
    lemma_glued_concat(a, b);
    lemma_glued_concat(a + b, c);
    assert(a + b =~= list.take(to));
    assert(a + b + c =~= list);
    assert(bytes.subrange(offset(bytes, from), offset(bytes, to)) =~= glued(b));
    assert(list.take(list.len() as int) =~= list);
    lemma_offset_is_boundary(bytes, from);
    lemma_offset_is_boundary(bytes, to);
    lemma_places(list, 0);
}

proof fn lemma_offset_is_boundary(bytes: Seq<u8>, at: int)
    requires
        valid_utf8(bytes),
        0 <= at <= byte_lines(bytes).len(),
    ensures
        is_char_boundary(bytes, offset(bytes, at)),
{
    let list = byte_lines(bytes);
    lemma_byte_lines(bytes);
    if at < list.len() {
        lemma_places(list, at);
        lemma_start_boundary(bytes, at);
    } else {
        assert(list.take(at) =~= list);
        is_char_boundary_start_end_of_seq(bytes);
    }
}

/// The lines of a paragraph follow each other and share their indentation and marker.
pub proof fn lemma_block_shape(lines: Seq<LineModel>, from: int, i: int)
    requires
        0 <= from <= i < block_end(lines, from + 1),
        from < lines.len(),
    ensures
        i < lines.len(),
        lines[i].idx == lines[from].idx + (i - from),
        lines[i].indent == lines[from].indent,
        lines[i].prefix == lines[from].prefix,
    decreases i - from,
{
    lemma_block_end(lines, from + 1);
    if i > from {
        lemma_block_shape(lines, from, i - 1);
        lemma_block_continues(lines, from + 1, i);
    }
}

/// A splice can be cut at any place before the first rewrite.
proof fn lemma_splice_cut(bytes: Seq<u8>, list: Seq<Rewrite>, from: int, cut: int)
    requires
        valid_utf8(bytes),
        rewrites_fit(bytes, list),
        0 <= from <= cut <= bytes.len(),
        is_char_boundary(bytes, from),
        is_char_boundary(bytes, cut),
        list.len() > 0 ==> cut <= list[0].start,
    ensures
        spliced(bytes, list, from) == text_at(bytes, from, cut) + spliced(bytes, list, cut),
{
    is_char_boundary_start_end_of_seq(bytes);
    if list.len() == 0 {
        lemma_text_at_split(bytes, from, cut, bytes.len() as int);
    } else {
        assert(rewrite_fits(bytes, list[0]));
        lemma_text_at_split(bytes, from, cut, list[0].start);
        assert(spliced(bytes, list, from) =~= text_at(bytes, from, cut) + spliced(
            bytes,
            list,
            cut,
        ));
    }
}

/// A line of the source, by the number of its comment line.
pub proof fn lemma_comment_line_places(bytes: Seq<u8>, lines: Seq<LineModel>, i: int)
    requires
        valid_utf8(bytes),
        lines_fit(bytes, lines),
        0 <= i < lines.len(),
    ensures
        0 <= lines[i].idx < byte_lines(bytes).len(),
        lines[i].start == offset(bytes, lines[i].idx),
        lines[i].end == offset(bytes, lines[i].idx) + body_len(byte_lines(bytes)[lines[i].idx]),
        is_char_boundary(bytes, lines[i].start),
        is_char_boundary(bytes, lines[i].end),
        bytes.subrange(lines[i].end, offset(bytes, lines[i].idx + 1)) == line_tail(
            byte_lines(bytes)[lines[i].idx],
        ),
        lines[i].end <= offset(bytes, lines[i].idx + 1),
{
    let list = byte_lines(bytes);
    let idx = lines[i].idx;
    lemma_byte_lines(bytes);
    lemma_places(list, 0);
    lemma_places(list, idx);
    lemma_start_boundary(bytes, idx);
    lemma_end_boundary(bytes, idx);
    lemma_text_end(bytes, idx);
    let line = list[idx];
    assert(bytes.subrange(lines[i].end, offset(bytes, idx + 1)) =~= line_tail(line)) by {
        let upto = glued(list.take(idx + 1));
        assert forall|k: int| 0 <= k < upto.len() implies upto[k] == bytes[k] by {}
    }
}

/// The bytes of the new text, from a line start on, are its lines.
#[verifier::rlimit(30)]
pub proof fn lemma_new_text(
    bytes: Seq<u8>,
    lines: Seq<LineModel>,
    from: int,
    width: int,
    cursor: int,
)
    requires
        valid_utf8(bytes),
        lines_fit(bytes, lines),
        0 <= from <= lines.len(),
        0 <= cursor <= byte_lines(bytes).len(),
        from < lines.len() ==> cursor <= lines[from].idx,
    ensures
        encode_utf8(spliced(bytes, block_rewrites(lines, from, width), offset(bytes, cursor)))
            == glued(new_lines(byte_lines(bytes), lines, from, width, cursor)),
    decreases lines.len() - from,
{
    let list = byte_lines(bytes);
    let total = list.len() as int;
    let rewrites = block_rewrites(lines, from, width);
    lemma_block_rewrites_fit(bytes, lines, from, width);
    lemma_offsets(bytes, cursor, total);
    if from == lines.len() {
        lemma_encode_text_at(bytes, offset(bytes, cursor), bytes.len() as int);
        assert(list.skip(cursor) =~= list.subrange(cursor, total));
    } else {
        let end = block_end(lines, from + 1);
        lemma_block_end(lines, from + 1);
        let block = lines.subrange(from, end);
        let first = lines[from];
        let last = lines[end - 1];
        assert(block[0] == first);
        assert(block.last() == last);
        lemma_block_shape(lines, from, end - 1);
        let next = last.idx + 1;
        let rest = block_rewrites(lines, end, width);
        lemma_comment_line_places(bytes, lines, from);
        lemma_comment_line_places(bytes, lines, end - 1);
        if end < lines.len() {
            lemma_comment_line_places(bytes, lines, end);
            assert(last.idx < lines[end].idx);
        }
        lemma_new_text(bytes, lines, end, width, next);
        lemma_block_rewrites_fit(bytes, lines, end, width);
        lemma_offsets(bytes, cursor, first.idx);
        lemma_offsets(bytes, first.idx, next);
        if end < lines.len() {
            lemma_offsets(bytes, next, lines[end].idx);
        }
        let before = list.subrange(cursor, first.idx);
        let after = new_lines(list, lines, end, width, next);
        let a = offset(bytes, cursor);
        let b = offset(bytes, first.idx);
        let d = offset(bytes, next);
        lemma_encode_text_at(bytes, a, b);
        lemma_glued_concat(before, new_block(list, block, width));
        lemma_glued_concat(before + new_block(list, block, width), after);
        let tail_text = spliced(bytes, rest, d);
        match block_rewrite(block, width) {
            Some(rewrite) => {
                assert(rewrites == seq![rewrite] + rest);
                assert(rewrites.drop_first() =~= rest);
                let texts = written_lines(block, width);
                let tail = line_tail(list[last.idx]);
                lemma_first_word_stays_in_front(block, width);
                lemma_joined_lines(texts, tail);
                lemma_splice_cut(bytes, rest, rewrite.end, d);
                lemma_encode_text_at(bytes, rewrite.end, d);
                let kept = text_at(bytes, a, b);
                let broken = text_at(bytes, rewrite.end, d);
                lemma_encode_concat(kept + rewrite.text, broken + tail_text);
                lemma_encode_concat(kept, rewrite.text);
                lemma_encode_concat(broken, tail_text);
                assert(spliced(bytes, rewrites, a) == kept + rewrite.text + (broken + tail_text));
                assert(glued(new_block(list, block, width)) == encode_utf8(rewrite.text) + tail);
                assert(encode_utf8(spliced(bytes, rewrites, a)) =~= glued(before) + glued(
                    new_block(list, block, width),
                ) + glued(after));
            },
            None => {
                assert(rewrites == rest);
                lemma_offsets(bytes, cursor, next);
                lemma_splice_cut(bytes, rest, a, d);
                lemma_encode_text_at(bytes, a, d);
                lemma_encode_concat(text_at(bytes, a, d), tail_text);
                let own = list.subrange(first.idx, next);
                assert(list.subrange(cursor, next) =~= before + own);
                lemma_glued_concat(before, own);
                assert(encode_utf8(spliced(bytes, rewrites, a)) =~= glued(before) + glued(own)
                    + glued(after));
            },
        }
    }
}

/// Whether no comment line has a line feed in its indentation.
pub open spec fn indents_fit(lines: Seq<LineModel>) -> bool {
    forall|i: int| 0 <= i < lines.len() ==> !(#[trigger] lines[i]).indent.contains('\n')
}

/// The lines of a rewritten paragraph hold no line feed, as texts and as bytes.
pub proof fn lemma_written_line(block: Seq<LineModel>, width: int, j: int)
    requires
        block_rewrite(block, width) is Some,
        !block[0].indent.contains('\n'),
        0 <= j < written_lines(block, width).len(),
    ensures
        !written_lines(block, width)[j].contains('\n'),
        no_feed(encode_utf8(written_lines(block, width)[j])),
{
    let list = block_words(block);
    let room = text_width(block, width) as nat;
    lemma_block_words_are_words(block);
    lemma_wrapped_line_has_no_feed(list, room, j);
    let indent = block[0].indent;
    let marker = block[0].prefix.marker_chars();
    let line = block_lines(block, width)[j];
    let text = written_lines(block, width)[j];
    assert(text == indent + marker + seq![' '] + line);
    if text.contains('\n') {
        let k = choose|k: int| 0 <= k < text.len() && text[k] == '\n';
        if k < indent.len() {
            assert(indent[k] == '\n');
        } else if k < indent.len() + marker.len() {
            assert(marker[k - indent.len()] == '\n');
        } else if k > indent.len() + marker.len() {
            assert(line[k - indent.len() - marker.len() - 1] == '\n');
        }
    }
    lemma_no_feed_in_bytes(text);
}

proof fn lemma_lines_concat(a: Seq<Seq<u8>>, b: Seq<Seq<u8>>)
    requires
        forall|i: int| 0 <= i < a.len() ==> has_break(#[trigger] a[i]),
        are_lines(b),
    ensures
        are_lines(a + b),
{
    let all = a + b;
    assert forall|i: int| 0 <= i < all.len() - 1 implies has_break(#[trigger] all[i]) by {
        if i < a.len() {
            assert(all[i] == a[i]);
        } else {
            assert(all[i] == b[i - a.len()]);
        }
    }
    assert(all.last() == b.last());
}

proof fn lemma_break_behind(text: Seq<u8>, tail: Seq<u8>)
    requires
        no_feed(text),
    ensures
        no_feed(tail) ==> no_feed(text + tail),
        has_break(tail) ==> has_break(text + tail),
{
    let all = text + tail;
    assert forall|i: int| 0 <= i < text.len() implies #[trigger] all[i] != 10 by {
        assert(all[i] == text[i]);
    }
    if no_feed(tail) {
        assert forall|i: int| 0 <= i < all.len() implies #[trigger] all[i] != 10 by {
            if i >= text.len() {
                assert(all[i] == tail[i - text.len()]);
            }
        }
    }
    if has_break(tail) {
        let front = all.drop_last();
        assert forall|i: int| 0 <= i < front.len() implies #[trigger] front[i] != 10 by {
            assert(front[i] == all[i]);
            if i >= text.len() {
                assert(all[i] == tail[i - text.len()]);
                assert(tail.drop_last()[i - text.len()] != 10);
            }
        }
    }
}

/// What of a line is not its text breaks off as the line does.
proof fn lemma_tail_breaks(line: Seq<u8>)
    ensures
        has_break(line) ==> has_break(line_tail(line)),
        no_feed(line) ==> no_feed(line_tail(line)),
        0 <= body_len(line) <= line.len(),
{
    let tail = line_tail(line);
    let cut = body_len(line);
    assert forall|i: int| 0 <= i < tail.len() implies tail[i] == line[cut + i] by {}
    if has_break(line) {
        let front = tail.drop_last();
        assert forall|i: int| 0 <= i < front.len() implies #[trigger] front[i] != 10 by {
            assert(front[i] == line.drop_last()[cut + i]);
        }
    }
    if no_feed(line) {
        assert forall|i: int| 0 <= i < tail.len() implies #[trigger] tail[i] != 10 by {
            assert(tail[i] == line[cut + i]);
        }
    }
}

/// What stands in place of a paragraph is lines: with line breaks, or the last lines of the text
/// where the paragraph was.
proof fn lemma_new_block_lines(bytes: Seq<u8>, lines: Seq<LineModel>, from: int, width: int)
    requires
        valid_utf8(bytes),
        lines_fit(bytes, lines),
        indents_fit(lines),
        0 <= from < lines.len(),
    ensures
        ({
            let end = block_end(lines, from + 1);
            let list = byte_lines(bytes);
            let block = new_block(list, lines.subrange(from, end), width);
            if lines[end - 1].idx + 1 == list.len() {
                are_lines(block)
            } else {
                forall|i: int| 0 <= i < block.len() ==> has_break(#[trigger] block[i])
            }
        }),
{
    let end = block_end(lines, from + 1);
    let list = byte_lines(bytes);
    lemma_block_end(lines, from + 1);
    lemma_block_shape(lines, from, end - 1);
    lemma_comment_line_places(bytes, lines, from);
    lemma_comment_line_places(bytes, lines, end - 1);
    lemma_byte_lines(bytes);
    let source = lines.subrange(from, end);
    assert(source[0] == lines[from]);
    assert(source.last() == lines[end - 1]);
    let last = lines[end - 1].idx;
    let block = new_block(list, source, width);
    let is_end = last + 1 == list.len();
    assert(!is_end ==> has_break(list[last]));
    assert(is_end ==> no_feed(list[last]));
    if block_rewrite(source, width) is Some {
        let texts = written_lines(source, width);
        let tail = line_tail(list[last]);
        lemma_tail_breaks(list[last]);
        lemma_first_word_stays_in_front(source, width);
        assert(seq![10u8].drop_last() =~= Seq::<u8>::empty());
        assert(has_break(seq![10u8]));
        assert forall|i: int| 0 <= i < block.len() && (i < block.len() - 1 || !is_end) implies
            has_break(#[trigger] block[i]) by {
            lemma_written_line(source, width, i);
            lemma_break_behind(
                encode_utf8(texts[i]),
                if i + 1 < texts.len() {
                    seq![10u8]
                } else {
                    tail
                },
            );
        }
        if is_end {
            lemma_written_line(source, width, texts.len() - 1);
            lemma_break_behind(encode_utf8(texts[texts.len() - 1]), tail);
            assert(block.last() == encode_utf8(texts[texts.len() - 1]) + tail);
        }
    } else {
        assert forall|i: int| 0 <= i < block.len() && (i < block.len() - 1 || !is_end) implies
            has_break(#[trigger] block[i]) by {
            assert(block[i] == list[lines[from].idx + i]);
        }
        if is_end {
            assert(block.last() == list[last]);
        }
    }
}

/// The lines of the new text are lines.
pub proof fn lemma_new_lines(
    bytes: Seq<u8>,
    lines: Seq<LineModel>,
    from: int,
    width: int,
    cursor: int,
)
    requires
        valid_utf8(bytes),
        lines_fit(bytes, lines),
        indents_fit(lines),
        0 <= from <= lines.len(),
        0 <= cursor <= byte_lines(bytes).len(),
        from < lines.len() ==> cursor <= lines[from].idx,
    ensures
        ({
            let made = new_lines(byte_lines(bytes), lines, from, width, cursor);
            if cursor < byte_lines(bytes).len() {
                are_lines(made)
            } else {
                made.len() == 0
            }
        }),
    decreases lines.len() - from,
{
    let list = byte_lines(bytes);
    lemma_byte_lines(bytes);
    if from == lines.len() {
        let made = list.skip(cursor);
        assert forall|i: int| 0 <= i < made.len() - 1 implies has_break(#[trigger] made[i]) by {
            assert(made[i] == list[cursor + i]);
        }
        if cursor < list.len() {
            assert(made.last() == list.last());
        }
    } else {
        let end = block_end(lines, from + 1);
        lemma_block_end(lines, from + 1);
        lemma_block_shape(lines, from, end - 1);
        lemma_comment_line_places(bytes, lines, from);
        lemma_comment_line_places(bytes, lines, end - 1);
        if end < lines.len() {
            lemma_comment_line_places(bytes, lines, end);
            assert(lines[end - 1].idx < lines[end].idx);
        }
        let source = lines.subrange(from, end);
        assert(source[0] == lines[from]);
        assert(source.last() == lines[end - 1]);
        let next = lines[end - 1].idx + 1;
        let before = list.subrange(cursor, lines[from].idx);
        let block = new_block(list, source, width);
        let after = new_lines(list, lines, end, width, next);
        lemma_new_block_lines(bytes, lines, from, width);
        lemma_new_lines(bytes, lines, end, width, next);
        assert forall|i: int| 0 <= i < before.len() implies has_break(#[trigger] before[i]) by {
            assert(before[i] == list[cursor + i]);
        }
        if next == list.len() {
            assert(before + block + after =~= before + block);
            lemma_lines_concat(before, block);
        } else {
            let front = before + block;
            assert forall|i: int| 0 <= i < front.len() implies has_break(#[trigger] front[i]) by {
                if i < before.len() {
                    assert(front[i] == before[i]);
                } else {
                    assert(front[i] == block[i - before.len()]);
                }
            }
            lemma_lines_concat(front, after);
        }
    }
}

} // verus!
