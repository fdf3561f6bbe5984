//! What a second reflow makes of a source that was reflowed.

use vstd::prelude::*;
use vstd::utf8::{encode_utf8, encode_utf8_decode_utf8, valid_utf8};

use crate::comment_reflow::blocks::{
    block_end, block_rewrite, block_words, continues_block, lemma_block_continues, lemma_block_end,
    lemma_block_words_take, line_prefix, text_width, Rewrite,
};
use crate::comment_reflow::breaks::{
    are_lines, body_len, broken_lines, byte_lines, glued, lemma_body_len, lemma_glued_concat,
    lemma_joined_lines, lemma_last_byte, lemma_places, line_tail, no_feed,
};
use crate::comment_reflow::fences::{
    continues_run, fence_marker, fence_open, fenced, with_fences,
};
use crate::comment_reflow::laws::{
    block_lines, holds_rewritten, lemma_blank_is_not_prose, lemma_block_stops,
    lemma_block_words_are_words, lemma_first_word_stays_in_front, lemma_reflow_is_stable,
    rewrites_paragraph,
};
use crate::comment_reflow::lines::{lines_fit, starts, text_at, text_end, LineModel};
use crate::comment_reflow::markdown::{line_text, opens_fence, prose};
use crate::comment_reflow::new_text::{
    indents_fit, lemma_block_shape, lemma_comment_line_places, lemma_written_line, new_block,
    new_lines, written_lines,
};
use crate::comment_reflow::notes::{is_blank, is_tagged_note, note_tags, opens_note};
use crate::comment_reflow::wrap::{lemma_wrapped_line_begins, lemma_wrapped_line_is_trimmed};
use crate::text::{is_white, join, lemma_word_len, no_white, trim_start, word_len, words};

verus! {

/// A comment line of the new text, as far as it is known without the text.
pub open spec fn new_comment(idx: int, like: LineModel, content: Seq<char>) -> LineModel {
    LineModel {
        idx,
        start: 0,
        end: 0,
        indent: like.indent,
        prefix: like.prefix,
        content,
        in_fence: false,
    }
}

/// The comment lines that stand in place of a paragraph behind a reflow: the lines that it is
/// rewritten to, or its own. `shift` is how many lines the text before it has grown by.
pub open spec fn block_after(block: Seq<LineModel>, width: int, shift: int) -> Seq<LineModel> {
    if block_rewrite(block, width) is Some {
        Seq::new(
            block_lines(block, width).len(),
            |j: int|
                new_comment(
                    block[0].idx + shift + j,
                    block[0],
                    seq![' '] + block_lines(block, width)[j],
                ),
        )
    } else {
        Seq::new(
            block.len(),
            |j: int| new_comment(block[j].idx + shift, block[j], block[j].content),
        )
    }
}

/// The comment lines of the new text that come from the paragraphs from comment line `from` on.
pub open spec fn lines_after(lines: Seq<LineModel>, from: int, width: int, shift: int) -> Seq<
    LineModel,
>
    decreases lines.len() - from,
{
    if 0 <= from < lines.len() {
        proof {
            lemma_block_end(lines, from + 1);
        }
        let end = block_end(lines, from + 1);
        let block = lines.subrange(from, end);
        let made = block_after(block, width, shift);
        made + lines_after(lines, end, width, shift + made.len() - block.len())
    } else {
        Seq::empty()
    }
}

/// Whether two comment lines stand on the same line with the same indentation, marker and text.
pub open spec fn same_comment(a: LineModel, b: LineModel) -> bool {
    &&& a.idx == b.idx
    &&& a.indent == b.indent
    &&& a.prefix == b.prefix
    &&& a.content == b.content
}

/// Whether `found` from `at` on is `expected`, line by line.
pub open spec fn matches_from(
    found: Seq<LineModel>,
    at: int,
    expected: Seq<LineModel>,
) -> bool {
    &&& at + expected.len() == found.len()
    &&& forall|j: int|
        0 <= j < expected.len() ==> same_comment(#[trigger] found[at + j], expected[j])
}

/// Whether a line of prose stays what it is when its words are wrapped otherwise: no word of it
/// would open a fence at the start of a line, and where it opens a tagged note, its first word does.
pub open spec fn is_settled(line: LineModel) -> bool {
    let list = words(line_text(line.content));
    &&& forall|k: int| 0 <= k < list.len() ==> !opens_fence(#[trigger] list[k])
    &&& is_tagged_note(line.content) ==> list.len() > 0 && is_tagged_note(list[0])
}

/// Whether every line of prose outside of fences is settled.
pub open spec fn are_settled(lines: Seq<LineModel>) -> bool {
    forall|i: int|
        0 <= i < lines.len() && !(#[trigger] lines[i]).in_fence && prose(lines[i].content) is Some
            ==> is_settled(lines[i])
}

/// Whether the fence flags are set.
pub open spec fn flags_set(lines: Seq<LineModel>) -> bool {
    forall|i: int| 0 <= i < lines.len() ==> lines[i].in_fence == #[trigger] fenced(lines, i)
}

/// Whether a fence is open in front of line `i` in its run.
pub open spec fn fence_before(lines: Seq<LineModel>, i: int) -> bool {
    i > 0 && continues_run(lines[i - 1], lines[i]) && fence_open(lines, i - 1)
}

/// A text that begins with the word of a note is a note.
proof fn lemma_note_stays(word: Seq<char>, text: Seq<char>)
    requires
        is_tagged_note(word),
        word.len() > 0,
        !is_white(word[0]),
        word.is_prefix_of(text),
    ensures
        is_tagged_note(seq![' '] + text),
{
    let content = seq![' '] + text;
    assert(trim_start(word) =~= word);
    assert(content.drop_first() =~= text);
    assert(text[0] == word[0]);
    assert(trim_start(text) =~= text);
    assert(trim_start(content) == text);
    let i = choose|i: int|
        0 <= i < note_tags().len() && opens_note(word, #[trigger] note_tags()[i]);
    let tag = note_tags()[i];
    let a = word.skip(tag.len() as int);
    let b = text.skip(tag.len() as int);
    assert forall|k: int| 0 <= k < a.len() implies b[k] == a[k] by {
        assert(text[tag.len() + k] == word[tag.len() + k]);
    }
    assert(tag.is_prefix_of(text));
    if a[0] == '(' {
        let k = choose|k: int|
            1 <= k && k + 1 < a.len() && #[trigger] a[k] == ')' && a[k + 1] == ':' && (forall|j: int|
                1 <= j < k ==> a[j] != ')');
        assert(b[k] == ')' && b[k + 1] == ':');
    }
    assert(opens_note(text, tag));
}

/// The first word of a rewritten paragraph is that of its first line.
proof fn lemma_first_word(block: Seq<LineModel>, width: int)
    requires
        block_rewrite(block, width) is Some,
    ensures
        words(line_text(block[0].content)).len() > 0,
        block_words(block).len() > 0,
        block_words(block)[0] == words(line_text(block[0].content))[0],
{
    let text = line_text(block[0].content);
    let first = block.take(1);
    assert(first.drop_last() =~= Seq::<LineModel>::empty());
    assert(block_words(first) =~= words(text)) by {
        assert(block_words(Seq::<LineModel>::empty()) =~= Seq::<Seq<char>>::empty());
        assert(first.last() == block[0]);
    }
    lemma_block_words_take(block, 1);
    assert(prose(block[0].content) is Some);
    assert(trim_start(text) =~= text);
    lemma_word_len(text);
    assert(words(text).len() > 0);
}

/// Every word of a paragraph is a word of one of its lines.
proof fn lemma_word_of_a_line(block: Seq<LineModel>, at: int)
    requires
        0 <= at < block_words(block).len(),
    ensures
        exists|i: int, k: int|
            0 <= i < block.len() && 0 <= k < words(line_text(block[i].content)).len()
                && block_words(block)[at] == #[trigger] words(line_text(block[i].content))[k],
    decreases block.len(),
{
    let front = block.drop_last();
    let before = block_words(front);
    if at < before.len() {
        lemma_word_of_a_line(front, at);
        let (i, k): (int, int) = choose|i: int, k: int|
            0 <= i < front.len() && 0 <= k < words(line_text(front[i].content)).len()
                && before[at] == #[trigger] words(line_text(front[i].content))[k];
        assert(front[i] == block[i]);
        assert(block_words(block)[at] == words(line_text(block[i].content))[k]);
    } else {
        let i = block.len() - 1;
        let k = at - before.len();
        assert(block_words(block)[at] == words(line_text(block[i].content))[k]);
    }
}

/// No line of a rewritten paragraph opens a fence.
proof fn lemma_no_new_fence(block: Seq<LineModel>, width: int, j: int)
    requires
        block_rewrite(block, width) is Some,
        are_settled(block),
        0 <= j < block_lines(block, width).len(),
    ensures
        !fence_marker(seq![' '] + block_lines(block, width)[j]),
{
    let list = block_words(block);
    let room = text_width(block, width) as nat;
    let line = block_lines(block, width)[j];
    let content = seq![' '] + line;
    lemma_block_words_are_words(block);
    lemma_wrapped_line_begins(list, room, j);
    lemma_wrapped_line_is_trimmed(list, room, j);
    assert(content.drop_first() =~= line);
    assert(trim_start(line) =~= line);
    assert(trim_start(content) == line);
    let word = words(line)[0];
    let at = choose|at: int| 0 <= at < list.len() && list[at] == word;
    lemma_word_of_a_line(block, at);
    let (i, k): (int, int) = choose|i: int, k: int|
        0 <= i < block.len() && 0 <= k < words(line_text(block[i].content)).len()
            && block_words(block)[at] == #[trigger] words(line_text(block[i].content))[k];
    assert(is_settled(block[i]));
    assert(!opens_fence(word));
    assert(no_white(word));
    if opens_fence(line) {
        lemma_fence_in_word(line, word);
    }
}

/// Where a text opens a fence, its first word does.
proof fn lemma_fence_in_word(text: Seq<char>, word: Seq<char>)
    requires
        opens_fence(text),
        words(text).len() > 0,
        word == words(text)[0],
        trim_start(text) == text,
    ensures
        opens_fence(word),
{
    reveal_strlit("```");
    reveal_strlit("~~~");
    let mark = if "```"@.is_prefix_of(text) {
        "```"@
    } else {
        "~~~"@
    };
    lemma_word_len(text);
    let n = word_len(text) as int;
    assert(word == text.take(n));
    if n < 3 {
        assert(text[n] == mark[n]);
        assert(!is_white(text[n]));
    }
    assert(mark.is_prefix_of(word));
}

/// What follows a paragraph in the new text follows it as in the source: it is not a part of it,
/// and continues its run exactly where it did.
proof fn lemma_boundary_stays(
    lines: Seq<LineModel>,
    from: int,
    width: int,
    shift: int,
    previous: LineModel,
    current: LineModel,
)
    requires
        0 <= from < lines.len(),
        block_end(lines, from + 1) < lines.len(),
        are_settled(lines),
        ({
            let end = block_end(lines, from + 1);
            let made = block_after(lines.subrange(from, end), width, shift);
            let rest = lines_after(lines, end, width, shift + made.len() - (end - from));
            same_comment(previous, made.last()) && same_comment(current, rest[0])
        }),
    ensures
        !continues_block(previous, current),
        continues_run(previous, current) == continues_run(
            lines[block_end(lines, from + 1) - 1],
            lines[block_end(lines, from + 1)],
        ),
{
    let end = block_end(lines, from + 1);
    lemma_block_end(lines, from + 1);
    lemma_block_stops(lines, from + 1);
    lemma_block_shape(lines, from, end - 1);
    let block = lines.subrange(from, end);
    let made = block_after(block, width, shift);
    let grown = shift + made.len() - block.len();
    let last = lines[end - 1];
    assert(block[0] == lines[from]);
    assert(block.last() == last);
    lemma_block_after(lines, from, width, shift);
    assert(made.last() == made[made.len() - 1]);
    assert(previous.idx == last.idx + grown);
    assert(previous.indent == last.indent && previous.prefix == last.prefix);
    let stop = block_end(lines, end + 1);
    lemma_block_end(lines, end + 1);
    let next = lines.subrange(end, stop);
    let first = lines[end];
    assert(next[0] == first);
    let rest = block_after(next, width, grown);
    lemma_block_after(lines, end, width, grown);
    assert(current.idx == first.idx + grown);
    assert(current.indent == first.indent && current.prefix == first.prefix);
    if is_blank(last.content) {
        lemma_blank_is_not_prose(last.content);
        assert(block[block.len() - 1] == last);
        assert(block_rewrite(block, width) is None);
        assert(previous.content == last.content);
    }
    if is_blank(first.content) {
        lemma_blank_is_not_prose(first.content);
        assert(block_rewrite(next, width) is None);
        assert(current.content == first.content);
    }
    if is_tagged_note(first.content) {
        if block_rewrite(next, width) is Some {
            assert(!next[0].in_fence && prose(next[0].content) is Some);
            assert(is_settled(first));
            lemma_first_word(next, width);
            lemma_first_word_stays_in_front(next, width);
            lemma_block_words_are_words(next);
            let word = block_words(next)[0];
            assert(word.len() > 0 && no_white(word));
            lemma_note_stays(word, block_lines(next, width)[0]);
        } else {
            assert(current.content == first.content);
        }
    }
}

/// The comment lines in place of a paragraph: at least one, on lines that follow each other, with
/// the indentation and marker of the paragraph.
pub proof fn lemma_block_after(lines: Seq<LineModel>, from: int, width: int, shift: int)
    requires
        0 <= from < lines.len(),
    ensures
        ({
            let made = block_after(
                lines.subrange(from, block_end(lines, from + 1)),
                width,
                shift,
            );
            &&& made.len() > 0
            &&& forall|j: int|
                0 <= j < made.len() ==> (#[trigger] made[j]).idx == lines[from].idx + shift + j
                    && made[j].indent == lines[from].indent && made[j].prefix
                    == lines[from].prefix
        }),
{
    let end = block_end(lines, from + 1);
    lemma_block_end(lines, from + 1);
    let block = lines.subrange(from, end);
    let made = block_after(block, width, shift);
    assert(block[0] == lines[from]);
    if block_rewrite(block, width) is Some {
        lemma_first_word_stays_in_front(block, width);
    } else {
        assert forall|j: int| 0 <= j < made.len() implies (#[trigger] made[j]).idx
            == lines[from].idx + shift + j && made[j].indent == lines[from].indent
            && made[j].prefix == lines[from].prefix by {
            assert(block[j] == lines[from + j]);
            lemma_block_shape(lines, from, from + j);
        }
    }
}

/// The lines of a paragraph that is not rewritten are fenced as they were.
proof fn lemma_fences_kept(
    lines: Seq<LineModel>,
    from: int,
    width: int,
    shift: int,
    found: Seq<LineModel>,
    at: int,
    j: int,
)
    requires
        0 <= from < lines.len(),
        0 <= at,
        0 <= j < block_end(lines, from + 1) - from,
        holds_block_after(lines, from, width, shift, found, at),
        block_rewrite(lines.subrange(from, block_end(lines, from + 1)), width) is None,
        fence_before(found, at) == fence_before(lines, from),
    ensures
        fence_open(found, at + j) == fence_open(lines, from + j),
        fenced(found, at + j) == fenced(lines, from + j),
    decreases j,
{
    let end = block_end(lines, from + 1);
    lemma_block_end(lines, from + 1);
    let block = lines.subrange(from, end);
    let made = block_after(block, width, shift);
    lemma_block_after(lines, from, width, shift);
    assert(block[j] == lines[from + j]);
    assert(same_comment(found[at + j], made[j]));
    assert(found[at + j].content == lines[from + j].content);
    if j > 0 {
        lemma_fences_kept(lines, from, width, shift, found, at, j - 1);
        lemma_block_continues(lines, from + 1, from + j);
        assert(same_comment(found[at + (j - 1)], made[j - 1]));
        assert(continues_run(found[at + j - 1], found[at + j]));
    }
}

/// Whether the comment lines from `at` on begin with those in place of the paragraph at `from`.
pub open spec fn holds_block_after(
    lines: Seq<LineModel>,
    from: int,
    width: int,
    shift: int,
    found: Seq<LineModel>,
    at: int,
) -> bool {
    let made = block_after(lines.subrange(from, block_end(lines, from + 1)), width, shift);
    &&& at + made.len() <= found.len()
    &&& forall|j: int| 0 <= j < made.len() ==> same_comment(#[trigger] found[at + j], made[j])
}

/// The lines of a rewritten paragraph are outside of fences.
proof fn lemma_still_unfenced(
    lines: Seq<LineModel>,
    from: int,
    width: int,
    shift: int,
    found: Seq<LineModel>,
    at: int,
    j: int,
)
    requires
        0 <= from < lines.len(),
        0 <= at,
        are_settled(lines),
        holds_block_after(lines, from, width, shift, found, at),
        block_rewrite(lines.subrange(from, block_end(lines, from + 1)), width) is Some,
        0 <= j < block_lines(lines.subrange(from, block_end(lines, from + 1)), width).len(),
        !fence_before(found, at),
    ensures
        !fence_open(found, at + j),
    decreases j,
{
    let end = block_end(lines, from + 1);
    lemma_block_end(lines, from + 1);
    let block = lines.subrange(from, end);
    let made = block_after(block, width, shift);
    assert(same_comment(found[at + j], made[j]));
    assert(are_settled(block)) by {
        assert forall|i: int|
            0 <= i < block.len() && !(#[trigger] block[i]).in_fence && prose(block[i].content) is Some
            implies is_settled(block[i]) by {
            assert(block[i] == lines[from + i]);
        }
    }
    lemma_no_new_fence(block, width, j);
    if j > 0 {
        lemma_still_unfenced(lines, from, width, shift, found, at, j - 1);
    }
}

/// Fences stand behind a paragraph as they did.
proof fn lemma_fences_behind(
    lines: Seq<LineModel>,
    from: int,
    width: int,
    shift: int,
    found: Seq<LineModel>,
    at: int,
)
    requires
        0 <= from < lines.len(),
        0 <= at,
        flags_set(lines),
        are_settled(lines),
        holds_block_after(lines, from, width, shift, found, at),
        fence_before(found, at) == fence_before(lines, from),
    ensures
        ({
            let end = block_end(lines, from + 1);
            let made = block_after(lines.subrange(from, end), width, shift);
            fence_open(found, at + made.len() - 1) == fence_open(lines, end - 1)
        }),
{
    let end = block_end(lines, from + 1);
    lemma_block_end(lines, from + 1);
    let block = lines.subrange(from, end);
    let made = block_after(block, width, shift);
    lemma_block_after(lines, from, width, shift);
    if block_rewrite(block, width) is Some {
        assert(block[0] == lines[from]);
        assert(block[block.len() - 1] == lines[end - 1]);
        assert(!fenced(lines, from));
        assert(!fenced(lines, end - 1));
        assert(!fence_before(lines, from));
        lemma_still_unfenced(lines, from, width, shift, found, at, made.len() - 1);
    } else {
        lemma_fences_kept(lines, from, width, shift, found, at, made.len() - 1);
    }
}

proof fn lemma_same_words(a: Seq<LineModel>, b: Seq<LineModel>)
    requires
        a.len() == b.len(),
        forall|i: int| 0 <= i < a.len() ==> (#[trigger] a[i]).content == b[i].content,
    ensures
        block_words(a) == block_words(b),
    decreases a.len(),
{
    if a.len() > 0 {
        let x = a.drop_last();
        let y = b.drop_last();
        assert forall|i: int| 0 <= i < x.len() implies (#[trigger] x[i]).content
            == y[i].content by {
            assert(x[i] == a[i]);
            assert(y[i] == b[i]);
        }
        lemma_same_words(x, y);
        assert(a[a.len() - 1].content == b[b.len() - 1].content);
    }
}

/// A paragraph that was left alone is left alone again, wherever it stands.
proof fn lemma_left_alone_again(a: Seq<LineModel>, b: Seq<LineModel>, width: int)
    requires
        a.len() == b.len(),
        forall|i: int|
            0 <= i < a.len() ==> (#[trigger] a[i]).content == b[i].content && a[i].indent
                == b[i].indent && a[i].prefix == b[i].prefix && a[i].in_fence == b[i].in_fence,
        block_rewrite(a, width) is None,
    ensures
        block_rewrite(b, width) is None,
{
    lemma_same_words(a, b);
    if block_rewrite(b, width) is Some {
        assert(a[0].indent == b[0].indent);
        assert(line_prefix(a) == line_prefix(b));
        assert forall|i: int| 0 <= i < a.len() implies !(#[trigger] a[i]).in_fence && prose(
            a[i].content,
        ) is Some by {
            assert(!b[i].in_fence);
        }
    }
}

/// What stands from the start of line `a` to the end of the text of line `z`.
pub proof fn lemma_lines_between(made: Seq<Seq<u8>>, a: int, z: int)
    requires
        are_lines(made),
        0 <= a <= z < made.len(),
        0 <= body_len(made[z]) <= made[z].len(),
    ensures
        0 <= starts(glued(made))[a] <= text_end(glued(made), z) <= glued(made).len(),
        glued(made).subrange(starts(glued(made))[a], text_end(glued(made), z)) == glued(
            made.subrange(a, z),
        ) + made[z].take(body_len(made[z])),
{
    let out = glued(made);
    lemma_places(made, a);
    lemma_places(made, z);
    let front = made.subrange(a, z);
    lemma_glued_concat(made.take(a), front);
    assert(made.take(a) + front =~= made.take(z));
    lemma_between(out, glued(made.take(a)), glued(front), made[z], body_len(made[z]));
}

/// What stands between the first part of a run of bytes and the end of the first `n` bytes of its
/// third part.
proof fn lemma_between(bytes: Seq<u8>, before: Seq<u8>, front: Seq<u8>, line: Seq<u8>, n: int)
    requires
        ((before + front) + line).is_prefix_of(bytes),
        0 <= n <= line.len(),
    ensures
        before.len() + front.len() + n <= bytes.len(),
        bytes.subrange(before.len() as int, before.len() + front.len() + n) == front + line.take(n),
{
    let upto = (before + front) + line;
    let from = before.len() as int;
    let part = bytes.subrange(from, from + front.len() + n);
    let both = front + line.take(n);
    assert forall|k: int| 0 <= k < both.len() implies part[k] == both[k] by {
        assert(bytes[from + k] == upto[from + k]);
    }
    assert(part =~= both);
}

/// What the new text holds between two lines of a rewritten paragraph, with those lines.
proof fn lemma_text_of_written(
    made: Seq<Seq<u8>>,
    texts: Seq<Seq<char>>,
    line: Seq<u8>,
    at: int,
    from: int,
    to: int,
)
    requires
        are_lines(made),
        0 <= at,
        at + texts.len() <= made.len(),
        forall|j: int|
            0 <= j < texts.len() ==> #[trigger] made[at + j] == broken_lines(
                texts,
                line_tail(line),
            )[j],
        0 <= from < to <= texts.len(),
        texts[to - 1].len() > 0,
        texts[to - 1].last() != '\r',
        no_feed(encode_utf8(texts[to - 1])),
    ensures
        text_at(
            glued(made),
            starts(glued(made))[at + from],
            text_end(glued(made), at + to - 1),
        ) == join(texts.subrange(from, to), seq!['\n']),
{
    let a = at + from;
    let z = at + to - 1;
    let part = texts.subrange(from, to);
    let last = encode_utf8(texts[to - 1]);
    let broken = broken_lines(texts, line_tail(line));
    assert(made[at + (to - 1)] == broken[to - 1]);
    assert(body_len(made[z]) == last.len() && made[z].take(last.len() as int) == last) by {
        lemma_last_byte(texts[to - 1]);
        lemma_body_len(last, line);
        assert(made[z].take(last.len() as int) =~= last);
    }
    lemma_lines_between(made, a, z);
    let front = made.subrange(a, z);
    let own = broken_lines(part, Seq::<u8>::empty());
    assert(own == front.push(last)) by {
        assert forall|j: int| 0 <= j < own.len() implies own[j] == front.push(last)[j] by {
            assert(part[j] == texts[from + j]);
            assert(made[at + (from + j)] == broken[from + j]);
            if j + 1 < own.len() {
                assert(front[j] == made[a + j]);
            } else {
                assert(own[j] =~= last);
            }
        }
        assert(own =~= front.push(last));
    }
    lemma_joined_lines(part, Seq::<u8>::empty());
    assert(own.drop_last() =~= front);
    let joined = join(part, seq!['\n']);
    assert(encode_utf8(joined) =~= glued(front) + last);
    encode_utf8_decode_utf8(joined);
}

/// The line that comes from wrapping ends neither in a line feed nor in a carriage return.
pub proof fn lemma_written_line_ends(block: Seq<LineModel>, width: int, j: int)
    requires
        block_rewrite(block, width) is Some,
        0 <= j < written_lines(block, width).len(),
    ensures
        written_lines(block, width)[j].len() > 0,
        written_lines(block, width)[j].last() != '\r',
{
    lemma_block_words_are_words(block);
    lemma_wrapped_line_is_trimmed(block_words(block), text_width(block, width) as nat, j);
    let line = block_lines(block, width)[j];
    let text = written_lines(block, width)[j];
    assert(text.last() == line.last());
    assert(is_white('\r'));
}

/// What is found in the new text from one paragraph on: the lines from `cursor + shift` on, and the
/// comment lines from `at` on, come from what the source holds from line `cursor` and comment line
/// `from` on.
pub open spec fn stands_at(
    bytes: Seq<u8>,
    lines: Seq<LineModel>,
    from: int,
    width: int,
    cursor: int,
    shift: int,
    made: Seq<Seq<u8>>,
    found: Seq<LineModel>,
    at: int,
) -> bool {
    &&& 0 <= from <= lines.len()
    &&& 0 <= cursor <= byte_lines(bytes).len()
    &&& from < lines.len() ==> cursor <= lines[from].idx
    &&& 0 <= cursor + shift <= made.len()
    &&& made.skip(cursor + shift) == new_lines(byte_lines(bytes), lines, from, width, cursor)
    &&& 0 <= at
    &&& matches_from(found, at, lines_after(lines, from, width, shift))
    &&& 0 < at < found.len() ==> !continues_block(found[at - 1], found[at])
    &&& from < lines.len() ==> fence_before(found, at) == fence_before(lines, from)
}

/// The lines of the new text that stand for a paragraph, and those behind it.
pub proof fn lemma_lines_behind(
    bytes: Seq<u8>,
    lines: Seq<LineModel>,
    from: int,
    width: int,
    cursor: int,
    shift: int,
    made: Seq<Seq<u8>>,
)
    requires
        valid_utf8(bytes),
        lines_fit(bytes, lines),
        0 <= from < lines.len(),
        0 <= cursor <= lines[from].idx,
        0 <= cursor + shift <= made.len(),
        made.skip(cursor + shift) == new_lines(byte_lines(bytes), lines, from, width, cursor),
    ensures
        ({
            let end = block_end(lines, from + 1);
            let block = lines.subrange(from, end);
            let next = lines[end - 1].idx + 1;
            let put = new_block(byte_lines(bytes), block, width);
            let grown = shift + put.len() - block.len();
            &&& 0 <= next <= byte_lines(bytes).len()
            &&& put.len() == block_after(block, width, shift).len()
            &&& 0 <= next + grown == lines[from].idx + shift + put.len() <= made.len()
            &&& forall|j: int|
                0 <= j < put.len() ==> #[trigger] made[lines[from].idx + shift + j] == put[j]
            &&& made.skip(next + grown) == new_lines(byte_lines(bytes), lines, end, width, next)
        }),
{
    let end = block_end(lines, from + 1);
    lemma_block_end(lines, from + 1);
    let block = lines.subrange(from, end);
    let list = byte_lines(bytes);
    let first = lines[from];
    let last = lines[end - 1];
    let next = last.idx + 1;
    assert(block[0] == first);
    assert(block.last() == last);
    lemma_block_shape(lines, from, end - 1);
    lemma_block_after(lines, from, width, shift);
    lemma_comment_line_places(bytes, lines, from);
    lemma_comment_line_places(bytes, lines, end - 1);
    let put = new_block(list, block, width);
    let grown = shift + put.len() - block.len();
    let before = list.subrange(cursor, first.idx);
    let tail = new_lines(list, lines, end, width, next);
    let all = made.skip(cursor + shift);
    assert(all == before + put + tail);
    assert forall|j: int| 0 <= j < put.len() implies #[trigger] made[first.idx + shift + j]
        == put[j] by {
        assert(all[before.len() + j] == put[j]);
        assert(all[before.len() + j] == made[cursor + shift + (before.len() + j)]);
    }
    assert(next + grown == first.idx + shift + put.len());
    assert(made.skip(next + grown) =~= tail) by {
        assert forall|j: int| 0 <= j < tail.len() implies made.skip(next + grown)[j] == tail[j] by {
            assert(all[before.len() + put.len() + j] == tail[j]);
            assert(all[before.len() + put.len() + j] == made[cursor + shift + (before.len()
                + put.len() + j)]);
        }
    }
}

/// The comment lines of the new text that stand for a paragraph, and those behind it.
proof fn lemma_comments_behind(
    lines: Seq<LineModel>,
    from: int,
    width: int,
    shift: int,
    found: Seq<LineModel>,
    at: int,
)
    requires
        0 <= from < lines.len(),
        0 <= at,
        matches_from(found, at, lines_after(lines, from, width, shift)),
    ensures
        ({
            let end = block_end(lines, from + 1);
            let block = lines.subrange(from, end);
            let after = block_after(block, width, shift);
            let grown = shift + after.len() - block.len();
            &&& holds_block_after(lines, from, width, shift, found, at)
            &&& matches_from(found, at + after.len(), lines_after(lines, end, width, grown))
        }),
{
    let end = block_end(lines, from + 1);
    lemma_block_end(lines, from + 1);
    let block = lines.subrange(from, end);
    let after = block_after(block, width, shift);
    let expected = lines_after(lines, from, width, shift);
    let grown = shift + after.len() - block.len();
    let rest = lines_after(lines, end, width, grown);
    assert(expected == after + rest);
    assert forall|j: int| 0 <= j < after.len() implies same_comment(
        #[trigger] found[at + j],
        after[j],
    ) by {
        assert(expected[j] == after[j]);
    }
    assert forall|j: int| 0 <= j < rest.len() implies same_comment(
        #[trigger] found[at + after.len() + j],
        rest[j],
    ) by {
        assert(expected[after.len() + j] == rest[j]);
        assert(same_comment(found[at + (after.len() + j)], expected[after.len() + j]));
    }
}

/// What stands behind a paragraph in the new text.
proof fn lemma_stands_behind(
    bytes: Seq<u8>,
    lines: Seq<LineModel>,
    from: int,
    width: int,
    cursor: int,
    shift: int,
    made: Seq<Seq<u8>>,
    found: Seq<LineModel>,
    at: int,
)
    requires
        valid_utf8(bytes),
        lines_fit(bytes, lines),
        flags_set(lines),
        are_settled(lines),
        from < lines.len(),
        stands_at(bytes, lines, from, width, cursor, shift, made, found, at),
    ensures
        ({
            let end = block_end(lines, from + 1);
            let block = lines.subrange(from, end);
            let after = block_after(block, width, shift);
            stands_at(
                bytes,
                lines,
                end,
                width,
                lines[end - 1].idx + 1,
                shift + after.len() - block.len(),
                made,
                found,
                at + after.len(),
            )
        }),
{
    let end = block_end(lines, from + 1);
    lemma_block_end(lines, from + 1);
    let block = lines.subrange(from, end);
    let after = block_after(block, width, shift);
    let grown = shift + after.len() - block.len();
    let rest = lines_after(lines, end, width, grown);
    lemma_lines_behind(bytes, lines, from, width, cursor, shift, made);
    lemma_comments_behind(lines, from, width, shift, found, at);
    lemma_block_after(lines, from, width, shift);
    if end < lines.len() {
        assert(lines[end - 1].idx < lines[end].idx);
        lemma_block_end(lines, end + 1);
        lemma_block_after(lines, end, width, grown);
        assert(rest.len() > 0);
        let previous = found[at + after.len() - 1];
        let current = found[at + after.len()];
        assert(same_comment(found[at + (after.len() - 1)], after[after.len() - 1]));
        assert(same_comment(found[at + after.len() + 0], rest[0]));
        assert(after.last() == after[after.len() - 1]);
        lemma_boundary_stays(lines, from, width, shift, previous, current);
        lemma_fences_behind(lines, from, width, shift, found, at);
    } else {
        assert(rest.len() == 0);
    }
}

/// What a second reflow writes in place of a paragraph of the new text is what stands there.
pub proof fn lemma_rewritten_again(
    bytes: Seq<u8>,
    lines: Seq<LineModel>,
    from: int,
    width: int,
    cursor: int,
    shift: int,
    made: Seq<Seq<u8>>,
    found: Seq<LineModel>,
    at: int,
    a: int,
    b: int,
    rewrite: Rewrite,
)
    requires
        valid_utf8(bytes),
        lines_fit(bytes, lines),
        indents_fit(lines),
        flags_set(lines),
        are_settled(lines),
        are_lines(made),
        lines_fit(glued(made), found),
        stands_at(bytes, lines, from, width, cursor, shift, made, found, at),
        at <= a,
        rewrites_paragraph(with_fences(found), width, a, b, rewrite),
    ensures
        rewrite.text == text_at(glued(made), rewrite.start, rewrite.end),
    decreases lines.len() - from,
{
    let flagged = with_fences(found);
    assert(a < found.len());
    if from == lines.len() {
        assert(lines_after(lines, from, width, shift).len() == 0);
    } else {
        let end = block_end(lines, from + 1);
        let block = lines.subrange(from, end);
        let after = block_after(block, width, shift);
        let grown = shift + after.len() - block.len();
        let stop = at + after.len();
        lemma_block_end(lines, from + 1);
        lemma_stands_behind(bytes, lines, from, width, cursor, shift, made, found, at);
        lemma_lines_behind(bytes, lines, from, width, cursor, shift, made);
        lemma_comments_behind(lines, from, width, shift, found, at);
        lemma_block_after(lines, from, width, shift);
        if stop <= a {
            lemma_rewritten_again(
                bytes,
                lines,
                end,
                width,
                lines[end - 1].idx + 1,
                grown,
                made,
                found,
                stop,
                a,
                b,
                rewrite,
            );
        } else {
            if b > stop {
                assert(continues_block(flagged[stop - 1], flagged[stop]));
                assert(continues_block(found[stop - 1], found[stop]));
            }
            let again = flagged.subrange(a, b);
            assert(again[0] == flagged[a]);
            assert(again.last() == flagged[b - 1]);
            if block_rewrite(block, width) is Some {
                lemma_written_part(lines, from, width, shift, made, found, at, a, b, rewrite, bytes);
            } else {
                lemma_kept_part(lines, from, width, shift, found, at, a, b, rewrite);
            }
        }
    }
}

/// A paragraph of the new text that stands for one that was left alone is left alone again.
proof fn lemma_kept_part(
    lines: Seq<LineModel>,
    from: int,
    width: int,
    shift: int,
    found: Seq<LineModel>,
    at: int,
    a: int,
    b: int,
    rewrite: Rewrite,
)
    requires
        0 <= from < lines.len(),
        0 <= at,
        flags_set(lines),
        holds_block_after(lines, from, width, shift, found, at),
        block_rewrite(lines.subrange(from, block_end(lines, from + 1)), width) is None,
        fence_before(found, at) == fence_before(lines, from),
        at <= a < b <= at + (block_end(lines, from + 1) - from),
    ensures
        !rewrites_paragraph(with_fences(found), width, a, b, rewrite),
{
    if rewrites_paragraph(with_fences(found), width, a, b, rewrite) {
        let flagged = with_fences(found);
        let end = block_end(lines, from + 1);
        lemma_block_end(lines, from + 1);
        let block = lines.subrange(from, end);
        let made = block_after(block, width, shift);
        lemma_block_after(lines, from, width, shift);
        let stop = at + block.len();
        assert forall|j: int| 0 < j < block.len() implies continues_block(
            #[trigger] flagged[at + j - 1],
            flagged[at + j],
        ) by {
            lemma_block_continues(lines, from + 1, from + j);
            assert(same_comment(found[at + (j - 1)], made[j - 1]));
            assert(same_comment(found[at + j], made[j]));
            assert(block[j] == lines[from + j]);
            assert(block[j - 1] == lines[from + j - 1]);
        }
        if a > at {
            assert(continues_block(flagged[at + (a - at) - 1], flagged[at + (a - at)]));
        }
        if b < stop {
            assert(continues_block(flagged[at + (b - at) - 1], flagged[at + (b - at)]));
        }
        let again = flagged.subrange(a, b);
        assert forall|i: int| 0 <= i < block.len() implies (#[trigger] block[i]).content
            == again[i].content && block[i].indent == again[i].indent && block[i].prefix
            == again[i].prefix && block[i].in_fence == again[i].in_fence by {
            assert(block[i] == lines[from + i]);
            assert(again[i] == flagged[at + i]);
            assert(same_comment(found[at + i], made[i]));
            lemma_fences_kept(lines, from, width, shift, found, at, i);
        }
        lemma_left_alone_again(block, again, width);
    }
}

/// A paragraph of the new text that stands for a rewritten one, or a part of it, is rewritten to
/// what stands there.
proof fn lemma_written_part(
    lines: Seq<LineModel>,
    from: int,
    width: int,
    shift: int,
    made: Seq<Seq<u8>>,
    found: Seq<LineModel>,
    at: int,
    a: int,
    b: int,
    rewrite: Rewrite,
    bytes: Seq<u8>,
)
    requires
        0 <= from < lines.len(),
        0 <= at,
        indents_fit(lines),
        are_lines(made),
        lines_fit(glued(made), found),
        holds_block_after(lines, from, width, shift, found, at),
        block_rewrite(lines.subrange(from, block_end(lines, from + 1)), width) is Some,
        ({
            let block = lines.subrange(from, block_end(lines, from + 1));
            let put = new_block(byte_lines(bytes), block, width);
            &&& 0 <= lines[from].idx + shift
            &&& lines[from].idx + shift + put.len() <= made.len()
            &&& forall|j: int|
                0 <= j < put.len() ==> #[trigger] made[lines[from].idx + shift + j] == put[j]
            &&& at <= a < b <= at + put.len()
        }),
        rewrites_paragraph(with_fences(found), width, a, b, rewrite),
    ensures
        rewrite.text == text_at(glued(made), rewrite.start, rewrite.end),
{
    let flagged = with_fences(found);
    let end = block_end(lines, from + 1);
    lemma_block_end(lines, from + 1);
    let block = lines.subrange(from, end);
    let after = block_after(block, width, shift);
    let texts = written_lines(block, width);
    let line = byte_lines(bytes)[block.last().idx];
    let again = flagged.subrange(a, b);
    let first = lines[from].idx + shift;
    assert(block[0] == lines[from]);
    assert(again[0] == flagged[a]);
    assert(again.last() == flagged[b - 1]);
    assert(holds_rewritten(again, block, width, a - at)) by {
        assert forall|i: int| 0 <= i < again.len() implies (#[trigger] again[i]).indent
            == block[0].indent && again[i].prefix == block[0].prefix && again[i].content
            == seq![' '] + block_lines(block, width)[a - at + i] by {
            assert(again[i] == flagged[a + i]);
            assert(same_comment(found[at + (a - at + i)], after[a - at + i]));
        }
    }
    lemma_reflow_is_stable(again, block, width, a - at);
    lemma_written_line(block, width, b - at - 1);
    lemma_written_line_ends(block, width, b - at - 1);
    lemma_text_of_written(made, texts, line, first, a - at, b - at);
    assert(same_comment(found[at + (a - at)], after[a - at]));
    assert(same_comment(found[at + (b - at - 1)], after[b - at - 1]));
    assert(found[a].start == starts(glued(made))[first + (a - at)]);
    assert(found[b - 1].end == text_end(glued(made), first + (b - at) - 1));
}

} // verus!
