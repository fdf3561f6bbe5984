//! That the comments of a reflowed text read as they were written.

use vstd::prelude::*;
use vstd::utf8::{
    decode_utf8, encode_scalar, encode_utf8, encode_utf8_decode_utf8, valid_utf8,
};

use crate::comment_reflow::again::{
    block_after, lemma_block_after, lemma_lines_behind, lemma_lines_between,
    lemma_written_line_ends, lines_after, matches_from, same_comment,
};
use crate::comment_reflow::blocks::{block_end, block_rewrite, lemma_block_end};
use crate::comment_reflow::breaks::{
    are_lines, body_len, broken_lines, byte_lines, glued, lemma_body_len, lemma_byte_lines,
    lemma_encode_concat, lemma_encode_text_at, lemma_last_byte, lemma_places, line_tail,
};
use crate::comment_reflow::laws::block_lines;
use crate::comment_reflow::lines::{
    comment_line_of, found_lines, lemma_boundary_before, lemma_end_boundary, lemma_found_lines_fit,
    lemma_line_index, lemma_line_index_is, lemma_start_boundary, lemma_starts, lemma_text_at_split,
    lemma_text_end, line_index, lines_fit, span_fits, spans_fit, starts, text_at, text_end,
    LineModel,
};
use crate::comment_reflow::new_text::{
    indents_fit, lemma_block_shape, lemma_written_line, new_block, new_lines, written_lines,
};
use crate::comment_reflow::prefix::Prefix;
use crate::comment_reflow::syntax::Span;
use crate::text::{all_white, is_white};

verus! {

/// Whether `text`, the text of a line, reads as `line`: white space, a marker that counts, and what
/// stands behind it.
pub open spec fn reads_as(text: Seq<char>, line: LineModel, include_normal: bool) -> bool {
    let comment = line.prefix.marker_chars() + line.content;
    &&& text == line.indent + comment
    &&& all_white(line.indent)
    &&& Prefix::parsed(comment, include_normal) == Some((line.prefix, line.content))
}

/// Whether the text of each comment line reads as it.
pub open spec fn all_read(bytes: Seq<u8>, lines: Seq<LineModel>, include_normal: bool) -> bool {
    forall|i: int|
        0 <= i < lines.len() ==> reads_as(
            text_at(bytes, lines[i].start, lines[i].end),
            #[trigger] lines[i],
            include_normal,
        )
}

/// Whether every comment that fills its line goes on to the end of the line.
pub open spec fn reach_line_ends(
    bytes: Seq<u8>,
    spans: Seq<Span>,
    include_normal: bool,
) -> bool {
    forall|i: int|
        0 <= i < spans.len() && comment_line_of(bytes, #[trigger] spans[i], include_normal) is Some
            ==> text_end(bytes, line_index(bytes, spans[i].start as int)) <= spans[i].end
}

/// Whether the comment lines `found` stand on the lines of `expected`.
pub open spec fn stand_on_lines(found: Seq<LineModel>, expected: Seq<LineModel>) -> bool {
    &&& found.len() == expected.len()
    &&& forall|j: int| 0 <= j < expected.len() ==> (#[trigger] found[j]).idx == expected[j].idx
}

/// A line reads in one way.
proof fn lemma_reads_one_way(text: Seq<char>, a: LineModel, b: LineModel, include_normal: bool)
    requires
        reads_as(text, a, include_normal),
        reads_as(text, b, include_normal),
    ensures
        a.indent == b.indent,
        a.prefix == b.prefix,
        a.content == b.content,
{
    let x = a.prefix.marker_chars() + a.content;
    let y = b.prefix.marker_chars() + b.content;
    let m = a.indent.len() as int;
    let n = b.indent.len() as int;
    assert(!is_white('/'));
    assert(x[0] == '/' && y[0] == '/');
    assert(text[m] == x[0]);
    assert(text[n] == y[0]);
    if m < n {
        assert(text[m] == b.indent[m]);
    }
    if n < m {
        assert(text[n] == a.indent[n]);
    }
    assert(a.indent =~= text.take(m));
    assert(b.indent =~= text.take(m));
    assert(x =~= text.skip(m));
    assert(y =~= text.skip(m));
}

/// A comment that goes on to the end of its line is read from the text of the line.
proof fn lemma_comment_reads(bytes: Seq<u8>, span: Span, include_normal: bool)
    requires
        valid_utf8(bytes),
        span_fits(bytes, span),
        comment_line_of(bytes, span, include_normal) is Some,
        text_end(bytes, line_index(bytes, span.start as int)) <= span.end,
    ensures
        ({
            let line = comment_line_of(bytes, span, include_normal)->0;
            reads_as(text_at(bytes, line.start, line.end), line, include_normal)
        }),
{
    let line = comment_line_of(bytes, span, include_normal)->0;
    let at = span.start as int;
    let idx = line_index(bytes, at);
    lemma_line_index(bytes, at);
    lemma_text_end(bytes, idx);
    lemma_start_boundary(bytes, idx);
    lemma_end_boundary(bytes, idx);
    lemma_text_at_split(bytes, line.start, at, line.end);
    let comment = text_at(bytes, at, line.end);
    assert(line.prefix.marker_chars() + line.content =~= comment);
}

/// The comment lines of a text read as its lines.
pub proof fn lemma_found_lines_read(bytes: Seq<u8>, spans: Seq<Span>, include_normal: bool)
    requires
        valid_utf8(bytes),
        spans_fit(bytes, spans),
        reach_line_ends(bytes, spans, include_normal),
    ensures
        all_read(bytes, found_lines(bytes, spans, include_normal), include_normal),
{
    let found = found_lines(bytes, spans, include_normal);
    lemma_found_lines_fit(bytes, spans, include_normal);
    assert forall|i: int| 0 <= i < found.len() implies reads_as(
        text_at(bytes, found[i].start, found[i].end),
        #[trigger] found[i],
        include_normal,
    ) by {
        let j = choose|j: int|
            #![trigger spans[j]]
            0 <= j < spans.len() && comment_line_of(bytes, spans[j], include_normal) == Some(
                found[i],
            );
        lemma_comment_reads(bytes, spans[j], include_normal);
    }
}

/// The text of a line of a text.
proof fn lemma_text_of_line(list: Seq<Seq<u8>>, i: int)
    requires
        are_lines(list),
        0 <= i < list.len(),
    ensures
        text_at(glued(list), starts(glued(list))[i], text_end(glued(list), i)) == decode_utf8(
            list[i].take(body_len(list[i])),
        ),
{
    assert(0 <= body_len(list[i]) <= list[i].len());
    lemma_lines_between(list, i, i);
    assert(list.subrange(i, i) =~= Seq::<Seq<u8>>::empty());
    let body = list[i].take(body_len(list[i]));
    assert(glued(list.subrange(i, i)) + body =~= body);
}

/// What is written for a line of a rewritten paragraph reads as it.
proof fn lemma_written_reads(
    lines: Seq<LineModel>,
    from: int,
    width: int,
    shift: int,
    include_normal: bool,
    text: Seq<char>,
    j: int,
)
    requires
        0 <= from < lines.len(),
        block_rewrite(lines.subrange(from, block_end(lines, from + 1)), width) is Some,
        reads_as(text, lines[from], include_normal),
        0 <= j < block_lines(lines.subrange(from, block_end(lines, from + 1)), width).len(),
    ensures
        reads_as(
            written_lines(lines.subrange(from, block_end(lines, from + 1)), width)[j],
            block_after(lines.subrange(from, block_end(lines, from + 1)), width, shift)[j],
            include_normal,
        ),
{
    let end = block_end(lines, from + 1);
    lemma_block_end(lines, from + 1);
    let block = lines.subrange(from, end);
    assert(block[0] == lines[from]);
    let made = block_after(block, width, shift)[j];
    let comment = made.prefix.marker_chars() + made.content;
    let marker = made.prefix.marker_chars();
    let before = marker + lines[from].content;
    let n = marker.len() as int;
    assert(made.content[0] == ' ');
    assert(comment[n] == ' ');
    assert(comment.skip(n) =~= made.content);
    assert(comment.take(n) =~= marker);
    assert(before.take(n) =~= marker);
    assert(marker.is_prefix_of(comment));
    match made.prefix {
        Prefix::InnerDoc => {},
        Prefix::OuterDoc => {
            assert(comment[2] == '/');
            assert(comment[3] == ' ');
            assert(!Prefix::InnerDoc.marker_chars().is_prefix_of(comment));
            assert(!seq!['/', '/', '/', '/'].is_prefix_of(comment));
        },
        Prefix::Normal => {
            assert(comment[2] == ' ');
            assert(!Prefix::InnerDoc.marker_chars().is_prefix_of(comment));
            assert(!seq!['/', '/', '/', '/'].is_prefix_of(comment));
            assert(!Prefix::OuterDoc.marker_chars().is_prefix_of(comment));
        },
    }
    assert(written_lines(block, width)[j] =~= made.indent + comment);
}

/// Whether `out` holds, on the line of `line`, a text that reads as `line`.
pub open spec fn is_written(out: Seq<u8>, line: LineModel, include_normal: bool) -> bool {
    &&& 0 <= line.idx < starts(out).len()
    &&& reads_as(
        text_at(out, starts(out)[line.idx], text_end(out, line.idx)),
        line,
        include_normal,
    )
}

/// Whether `out` holds each of `lines`, on lines that follow each other.
pub open spec fn are_written(
    out: Seq<u8>,
    lines: Seq<LineModel>,
    include_normal: bool,
) -> bool {
    &&& forall|i: int| 0 <= i < lines.len() ==> is_written(out, #[trigger] lines[i], include_normal)
    &&& forall|i: int, j: int| 0 <= i < j < lines.len() ==> lines[i].idx < lines[j].idx
}

/// The new text holds what was written or left for line `j` of a paragraph.
proof fn lemma_line_is_written(
    bytes: Seq<u8>,
    lines: Seq<LineModel>,
    from: int,
    width: int,
    shift: int,
    include_normal: bool,
    made: Seq<Seq<u8>>,
    j: int,
)
    requires
        lines_fit(bytes, lines),
        indents_fit(lines),
        all_read(bytes, lines, include_normal),
        0 <= from < lines.len(),
        are_lines(made),
        ({
            let block = lines.subrange(from, block_end(lines, from + 1));
            let put = new_block(byte_lines(bytes), block, width);
            &&& 0 <= j < put.len()
            &&& put.len() == block_after(block, width, shift).len()
            &&& 0 <= lines[from].idx + shift + j < made.len()
            &&& made[lines[from].idx + shift + j] == put[j]
        }),
    ensures
        is_written(
            glued(made),
            block_after(lines.subrange(from, block_end(lines, from + 1)), width, shift)[j],
            include_normal,
        ),
{
    let end = block_end(lines, from + 1);
    lemma_block_end(lines, from + 1);
    let block = lines.subrange(from, end);
    let list = byte_lines(bytes);
    let after = block_after(block, width, shift);
    let put = new_block(list, block, width);
    let at = lines[from].idx + shift + j;
    assert(block[0] == lines[from]);
    lemma_block_after(lines, from, width, shift);
    assert(after[j].idx == at);
    lemma_places(made, at);
    lemma_text_of_line(made, at);
    if block_rewrite(block, width) is Some {
        let texts = written_lines(block, width);
        let tail = list[block.last().idx];
        let bytes_of = encode_utf8(texts[j]);
        assert(made[at] == broken_lines(texts, line_tail(tail))[j]);
        lemma_written_line(block, width, j);
        lemma_written_line_ends(block, width, j);
        lemma_last_byte(texts[j]);
        lemma_body_len(bytes_of, tail);
        assert(body_len(made[at]) == bytes_of.len());
        assert(made[at].take(bytes_of.len() as int) =~= bytes_of);
        encode_utf8_decode_utf8(texts[j]);
        let first = text_at(bytes, lines[from].start, lines[from].end);
        assert(reads_as(first, lines[from], include_normal));
        lemma_written_reads(lines, from, width, shift, include_normal, first, j);
    } else {
        lemma_block_shape(lines, from, end - 1);
        lemma_block_shape(lines, from, from + j);
        assert(block.last() == lines[end - 1]);
        assert(block[j] == lines[from + j]);
        let own = lines[from + j];
        lemma_byte_lines(bytes);
        lemma_places(list, 0);
        let last = lines[end - 1];
        assert(last.idx < list.len());
        assert(put[j] == list[lines[from].idx + j]);
        lemma_text_of_line(list, own.idx);
        assert(reads_as(text_at(bytes, own.start, own.end), own, include_normal));
    }
}

/// The new text holds the comment lines that were written and left, in order.
pub proof fn lemma_comments_are_written(
    bytes: Seq<u8>,
    lines: Seq<LineModel>,
    from: int,
    width: int,
    cursor: int,
    shift: int,
    include_normal: bool,
    made: Seq<Seq<u8>>,
)
    requires
        valid_utf8(bytes),
        lines_fit(bytes, lines),
        indents_fit(lines),
        all_read(bytes, lines, include_normal),
        0 <= from <= lines.len(),
        0 <= cursor,
        from < lines.len() ==> cursor <= lines[from].idx,
        0 <= cursor + shift <= made.len(),
        made.skip(cursor + shift) == new_lines(byte_lines(bytes), lines, from, width, cursor),
        are_lines(made),
    ensures
        are_written(glued(made), lines_after(lines, from, width, shift), include_normal),
        forall|i: int|
            0 <= i < lines_after(lines, from, width, shift).len() ==> cursor + shift <= (
            #[trigger] lines_after(lines, from, width, shift)[i]).idx,
    decreases lines.len() - from,
{
    let out = glued(made);
    let expected = lines_after(lines, from, width, shift);
    if from < lines.len() {
        let end = block_end(lines, from + 1);
        lemma_block_end(lines, from + 1);
        let block = lines.subrange(from, end);
        let after = block_after(block, width, shift);
        let grown = shift + after.len() - block.len();
        let rest = lines_after(lines, end, width, grown);
        let next = lines[end - 1].idx + 1;
        lemma_lines_behind(bytes, lines, from, width, cursor, shift, made);
        lemma_block_after(lines, from, width, shift);
        assert(expected == after + rest);
        if end < lines.len() {
            assert(lines[end - 1].idx < lines[end].idx);
        }
        lemma_comments_are_written(bytes, lines, end, width, next, grown, include_normal, made);
        assert forall|i: int| 0 <= i < expected.len() implies is_written(
            out,
            #[trigger] expected[i],
            include_normal,
        ) && cursor + shift <= expected[i].idx by {
            if i < after.len() {
                assert(expected[i] == after[i]);
                lemma_line_is_written(
                    bytes,
                    lines,
                    from,
                    width,
                    shift,
                    include_normal,
                    made,
                    i,
                );
            } else {
                assert(expected[i] == rest[i - after.len()]);
            }
        }
        assert forall|i: int, j: int| 0 <= i < j < expected.len() implies expected[i].idx
            < expected[j].idx by {
            if j < after.len() {
                assert(expected[i] == after[i]);
                assert(expected[j] == after[j]);
            } else {
                assert(expected[j] == rest[j - after.len()]);
                if i < after.len() {
                    assert(expected[i] == after[i]);
                } else {
                    assert(expected[i] == rest[i - after.len()]);
                }
            }
        }
    }
}

/// Where the comment lines of a text stand on the lines on which comments were written, they are
/// what was written there.
pub proof fn lemma_comments_are_found_again(
    out: Seq<u8>,
    found: Seq<LineModel>,
    expected: Seq<LineModel>,
    include_normal: bool,
)
    requires
        lines_fit(out, found),
        all_read(out, found, include_normal),
        are_written(out, expected, include_normal),
        stand_on_lines(found, expected),
    ensures
        matches_from(found, 0, expected),
{
    assert forall|j: int| 0 <= j < expected.len() implies same_comment(
        #[trigger] found[0 + j],
        expected[j],
    ) by {
        let line = found[j];
        let text = text_at(out, line.start, line.end);
        assert(reads_as(text, line, include_normal));
        assert(is_written(out, expected[j], include_normal));
        lemma_reads_one_way(text, line, expected[j], include_normal);
    }
}

/// Where the comment of a written line stands: behind the indentation, up to the end of the line.
pub open spec fn place_of(out: Seq<u8>, line: LineModel) -> Span {
    Span {
        start: (starts(out)[line.idx] + encode_utf8(line.indent).len()) as usize,
        end: text_end(out, line.idx) as usize,
    }
}

/// Where the comments of written lines stand.
pub open spec fn places_of(out: Seq<u8>, lines: Seq<LineModel>) -> Seq<Span> {
    Seq::new(lines.len(), |j: int| place_of(out, lines[j]))
}

/// The byte of a slash.
proof fn lemma_encode_slash()
    ensures
        encode_utf8(seq!['/']) == seq![47u8],
{
    let text = seq!['/'];
    assert(text.drop_first() =~= Seq::<char>::empty());
    assert(encode_utf8(text.drop_first()) =~= Seq::<u8>::empty());
    assert('/' as u32 == 47);
    assert(vstd::utf8::leading_byte_width_1(47u32) == 47u8) by {
        assert((47u32 & 0x7F) as u8 == 47u8) by (bit_vector);
    }
    assert(encode_scalar(47u32) =~= seq![47u8]);
    assert(encode_utf8(text) =~= seq![47u8]);
}

/// The two parts of a run of bytes.
proof fn lemma_cut(bytes: Seq<u8>, start: int, end: int, lead: Seq<u8>, body: Seq<u8>)
    requires
        0 <= start <= end <= bytes.len(),
        bytes.subrange(start, end) == lead + body,
    ensures
        start + lead.len() + body.len() == end,
        bytes.subrange(start, start + lead.len()) == lead,
        bytes.subrange(start + lead.len(), end) == body,
        body.len() > 0 ==> bytes[start + lead.len()] == body[0],
{
    let part = bytes.subrange(start, end);
    let n = lead.len() as int;
    assert(part.len() == lead.len() + body.len());
    assert forall|k: int| 0 <= k < lead.len() implies bytes[start + k] == #[trigger] lead[k] by {
        assert(part[k] == lead[k]);
    }
    assert forall|k: int| 0 <= k < body.len() implies bytes[start + n + k]
        == #[trigger] body[k] by {
        assert(part[n + k] == body[k]);
    }
    assert(bytes.subrange(start, start + n) =~= lead);
    assert(bytes.subrange(start + n, end) =~= body);
}

/// The bytes of a written line are those of its indentation and of its comment, which begin with
/// that of a slash.
proof fn lemma_written_bytes(out: Seq<u8>, line: LineModel, include_normal: bool)
    requires
        valid_utf8(out),
        is_written(out, line, include_normal),
    ensures
        ({
            let start = starts(out)[line.idx];
            let end = text_end(out, line.idx);
            let at = start + encode_utf8(line.indent).len();
            &&& 0 <= start <= at < end <= out.len()
            &&& out[at] == 47
            &&& text_at(out, start, at) == line.indent
            &&& text_at(out, at, end) == line.prefix.marker_chars() + line.content
        }),
{
    let start = starts(out)[line.idx];
    let end = text_end(out, line.idx);
    let comment = line.prefix.marker_chars() + line.content;
    let lead = encode_utf8(line.indent);
    let body = encode_utf8(comment);
    lemma_starts(out);
    lemma_text_end(out, line.idx);
    lemma_start_boundary(out, line.idx);
    lemma_end_boundary(out, line.idx);
    lemma_encode_text_at(out, start, end);
    lemma_encode_concat(line.indent, comment);
    assert(out.subrange(start, end) == lead + body);
    assert(body.len() > 0 && body[0] == 47) by {
        let tail = comment.drop_first();
        assert(comment[0] == '/');
        assert(comment =~= seq!['/'] + tail);
        lemma_encode_concat(seq!['/'], tail);
        lemma_encode_slash();
    }
    lemma_cut(out, start, end, lead, body);
    encode_utf8_decode_utf8(line.indent);
    encode_utf8_decode_utf8(comment);
}

/// At the place of a written line there is a comment that fills the line.
proof fn lemma_comment_at_place(out: Seq<u8>, line: LineModel, include_normal: bool)
    requires
        valid_utf8(out),
        out.len() <= usize::MAX,
        is_written(out, line, include_normal),
    ensures
        ({
            let span = place_of(out, line);
            let found = comment_line_of(out, span, include_normal);
            &&& starts(out)[line.idx] <= span.start < text_end(out, line.idx) == span.end
            &&& span_fits(out, span)
            &&& line_index(out, span.start as int) == line.idx
            &&& found is Some && found->0.idx == line.idx
        }),
{
    let at = starts(out)[line.idx] + encode_utf8(line.indent).len();
    lemma_written_bytes(out, line, include_normal);
    lemma_text_end(out, line.idx);
    lemma_end_boundary(out, line.idx);
    lemma_boundary_before(out, at);
    lemma_line_index_is(out, at, line.idx);
}

/// What the comments at `spans` make where each of them fills a line.
proof fn lemma_found_at_places(
    out: Seq<u8>,
    spans: Seq<Span>,
    lines: Seq<LineModel>,
    include_normal: bool,
)
    requires
        spans.len() == lines.len(),
        forall|i: int|
            0 <= i < spans.len() ==> comment_line_of(out, #[trigger] spans[i], include_normal)
                is Some && comment_line_of(out, spans[i], include_normal)->0.idx == lines[i].idx,
    ensures
        stand_on_lines(found_lines(out, spans, include_normal), lines),
    decreases spans.len(),
{
    if spans.len() > 0 {
        let front = spans.drop_last();
        let others = lines.drop_last();
        assert forall|i: int| 0 <= i < front.len() implies comment_line_of(
            out,
            #[trigger] front[i],
            include_normal,
        ) is Some && comment_line_of(out, front[i], include_normal)->0.idx == others[i].idx by {
            assert(front[i] == spans[i]);
        }
        lemma_found_at_places(out, front, others, include_normal);
        let found = found_lines(out, spans, include_normal);
        let before = found_lines(out, front, include_normal);
        assert(spans.last() == spans[spans.len() - 1]);
        assert forall|j: int| 0 <= j < lines.len() implies (#[trigger] found[j]).idx
            == lines[j].idx by {
            if j < others.len() {
                assert(found[j] == before[j]);
                assert(others[j] == lines[j]);
            }
        }
    }
}

/// The comments that were written stand in the new text: at their places are comments that fill
/// their lines, up to the end, on the lines on which they were written and on no others.
pub proof fn lemma_comments_are_in_place(
    out: Seq<u8>,
    lines: Seq<LineModel>,
    include_normal: bool,
)
    requires
        valid_utf8(out),
        out.len() <= usize::MAX,
        are_written(out, lines, include_normal),
    ensures
        spans_fit(out, places_of(out, lines)),
        reach_line_ends(out, places_of(out, lines), include_normal),
        stand_on_lines(found_lines(out, places_of(out, lines), include_normal), lines),
{
    let spans = places_of(out, lines);
    assert forall|i: int| 0 <= i < spans.len() implies span_fits(out, #[trigger] spans[i])
        && comment_line_of(out, spans[i], include_normal) is Some && comment_line_of(
        out,
        spans[i],
        include_normal,
    )->0.idx == lines[i].idx && text_end(out, line_index(out, spans[i].start as int))
        <= spans[i].end by {
        lemma_comment_at_place(out, lines[i], include_normal);
    }
    assert forall|i: int, j: int| 0 <= i < j < spans.len() implies spans[i].start
        < spans[j].start by {
        lemma_comment_at_place(out, lines[i], include_normal);
        lemma_comment_at_place(out, lines[j], include_normal);
        lemma_starts(out);
        lemma_text_end(out, lines[i].idx);
        assert(starts(out)[lines[i].idx + 1] <= starts(out)[lines[j].idx]);
    }
    lemma_found_at_places(out, spans, lines, include_normal);
}

} // verus!
