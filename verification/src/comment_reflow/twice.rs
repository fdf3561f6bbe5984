//! That a second reflow changes nothing.

use vstd::prelude::*;
use vstd::utf8::{encode_utf8, encode_utf8_valid_utf8, valid_utf8};

use crate::comment_reflow::again::{
    are_settled, flags_set, is_settled, lemma_rewritten_again, lines_after, same_comment, stands_at,
};
use crate::comment_reflow::breaks::{
    are_lines, byte_lines, glued, lemma_byte_lines, lemma_encode_text_at, lemma_no_feed_in_text,
    lemma_places,
};
use crate::comment_reflow::fences::{fence_open, fenced, with_fences};
use crate::comment_reflow::laws::{
    lemma_only_prose_is_rewritten, lemma_reflowed_source_is_kept, rewrites_paragraph,
};
use crate::comment_reflow::lines::{
    comment_line_of, found_lines, lemma_found_lines_fit, lemma_line_index, lemma_start_boundary,
    line_index, lines_fit, span_fits, spans_fit, starts, text_at, LineModel,
};
use crate::comment_reflow::markdown::{line_text, opens_fence, prose};
use crate::comment_reflow::new_text::{
    indents_fit, lemma_new_lines, lemma_new_text, new_lines, offset,
};
use crate::comment_reflow::notes::{is_tagged_note, lemma_tag_is_a_word, note_tags, opens_note};
use crate::comment_reflow::read_again::{
    all_read, are_written, lemma_comments_are_found_again, lemma_comments_are_in_place,
    lemma_comments_are_written, lemma_found_lines_read, places_of, reach_line_ends, reads_as,
    stand_on_lines,
};
use crate::comment_reflow::reflow::{lines_of, reflow_outcome, reflowed, rewrites_of, Config};
use crate::comment_reflow::syntax::{by_start, line_comments, rust_syntax, ReflowError, Span};
use crate::text::{
    is_white, lemma_trim_end, lemma_trim_start, lemma_word_len, trim_start, word_len, words,
};

verus! {

/// Whether a fence is open does not depend on the flags.
proof fn lemma_fence_open_same(a: Seq<LineModel>, b: Seq<LineModel>, i: int)
    requires
        a.len() == b.len(),
        0 <= i < a.len(),
        forall|j: int| 0 <= j < a.len() ==> same_comment(#[trigger] a[j], b[j]),
    ensures
        fence_open(a, i) == fence_open(b, i),
    decreases i,
{
    assert(same_comment(a[i], b[i]));
    if i > 0 {
        assert(same_comment(a[i - 1], b[i - 1]));
        lemma_fence_open_same(a, b, i - 1);
    }
}

/// The flags that are set are those of the flagged lines.
proof fn lemma_flags_are_set(found: Seq<LineModel>)
    ensures
        flags_set(with_fences(found)),
{
    let lines = with_fences(found);
    assert forall|i: int| 0 <= i < lines.len() implies lines[i].in_fence == #[trigger] fenced(
        lines,
        i,
    ) by {
        assert forall|j: int| 0 <= j < found.len() implies same_comment(
            #[trigger] found[j],
            lines[j],
        ) by {}
        lemma_fence_open_same(found, lines, i);
    }
}

/// No comment line has a line feed in its indentation.
proof fn lemma_found_indents(bytes: Seq<u8>, spans: Seq<Span>, include_normal: bool)
    requires
        valid_utf8(bytes),
        spans_fit(bytes, spans),
    ensures
        indents_fit(found_lines(bytes, spans, include_normal)),
{
    let found = found_lines(bytes, spans, include_normal);
    lemma_found_lines_fit(bytes, spans, include_normal);
    assert forall|i: int| 0 <= i < found.len() implies !(#[trigger] found[i]).indent.contains(
        '\n',
    ) by {
        let j = choose|j: int|
            #![trigger spans[j]]
            0 <= j < spans.len() && comment_line_of(bytes, spans[j], include_normal) == Some(
                found[i],
            );
        lemma_indent_has_no_feed(bytes, spans[j]);
    }
}

/// What stands on a line before a comment holds no line feed.
proof fn lemma_indent_has_no_feed(bytes: Seq<u8>, span: Span)
    requires
        valid_utf8(bytes),
        span_fits(bytes, span),
    ensures
        !text_at(
            bytes,
            starts(bytes)[line_index(bytes, span.start as int)],
            span.start as int,
        ).contains('\n'),
{
    let list = byte_lines(bytes);
    let at = span.start as int;
    let idx = line_index(bytes, at);
    lemma_byte_lines(bytes);
    lemma_line_index(bytes, at);
    lemma_places(list, 0);
    lemma_places(list, idx);
    let start = starts(bytes)[idx];
    let part = bytes.subrange(start, at);
    let upto = glued(list.take(idx + 1));
    assert(upto == glued(list.take(idx)) + list[idx]);
    assert forall|k: int| 0 <= k < part.len() implies #[trigger] part[k] != 10 by {
        assert(bytes[start + k] == upto[start + k]);
        assert(list[idx][k] == part[k]);
        if idx + 1 < list.len() {
            assert(list[idx].drop_last()[k] == list[idx][k]);
        } else {
            assert(list[idx] == list.last());
        }
    }
    lemma_start_boundary(bytes, idx);
    lemma_encode_text_at(bytes, start, at);
    lemma_no_feed_in_text(part);
}

/// The spans of the comments that the parser finds in the Rust text `source`, in order.
pub open spec fn parsed_comments(source: Seq<char>) -> Seq<Span> {
    match rust_syntax(source) {
        Ok(Some(nodes)) => by_start(line_comments(nodes)),
        _ => Seq::empty(),
    }
}

/// Whether the comments at `spans` fit `source`, and those that fill their lines go on to the end of
/// the line.
pub open spec fn comments_fit(source: Seq<char>, spans: Seq<Span>, config: Config) -> bool {
    &&& spans_fit(encode_utf8(source), spans)
    &&& reach_line_ends(encode_utf8(source), spans, config.include_normal_comments)
}

/// Whether the comments of the new text, which stand at `again`, are on the lines on which the
/// reflow has written or left comments, and no others.
pub open spec fn comments_stay(
    source: Seq<char>,
    spans: Seq<Span>,
    again: Seq<Span>,
    config: Config,
) -> bool {
    let once = encode_utf8(reflowed(source, spans, config));
    stand_on_lines(
        found_lines(once, again, config.include_normal_comments),
        comments_once(source, spans, config),
    )
}

/// The lines of the text that a reflow gives.
spec fn lines_once(source: Seq<char>, spans: Seq<Span>, config: Config) -> Seq<Seq<u8>> {
    new_lines(
        byte_lines(encode_utf8(source)),
        lines_of(source, spans, config.include_normal_comments),
        0,
        config.width as int,
        0,
    )
}

/// The comment lines that a reflow has written and left, where they stand in the text that it gives.
pub open spec fn comments_once(
    source: Seq<char>,
    spans: Seq<Span>,
    config: Config,
) -> Seq<LineModel> {
    lines_after(
        lines_of(source, spans, config.include_normal_comments),
        0,
        config.width as int,
        0,
    )
}

/// What is known of the comment lines of a text and of the text that a reflow gives.
proof fn lemma_once(source: Seq<char>, spans: Seq<Span>, config: Config)
    requires
        comments_fit(source, spans, config),
    ensures
        ({
            let bytes = encode_utf8(source);
            let lines = lines_of(source, spans, config.include_normal_comments);
            let made = lines_once(source, spans, config);
            &&& valid_utf8(bytes)
            &&& lines_fit(bytes, lines)
            &&& indents_fit(lines)
            &&& flags_set(lines)
            &&& are_lines(made)
            &&& encode_utf8(reflowed(source, spans, config)) == glued(made)
            &&& are_written(
                glued(made),
                comments_once(source, spans, config),
                config.include_normal_comments,
            )
        }),
{
    let normal = config.include_normal_comments;
    let width = config.width as int;
    let bytes = encode_utf8(source);
    let before = found_lines(bytes, spans, normal);
    let lines = with_fences(before);
    let list = byte_lines(bytes);
    let made = lines_once(source, spans, config);
    encode_utf8_valid_utf8(source);
    lemma_found_lines_fit(bytes, spans, normal);
    lemma_found_indents(bytes, spans, normal);
    lemma_flags_are_set(before);
    assert(lines_fit(bytes, lines));
    assert(indents_fit(lines)) by {
        assert forall|i: int| 0 <= i < lines.len() implies !(#[trigger] lines[i]).indent.contains(
            '\n',
        ) by {
            assert(lines[i].indent == before[i].indent);
        }
    }
    lemma_byte_lines(bytes);
    assert(offset(bytes, 0) == 0) by {
        assert(list.take(0) =~= Seq::<Seq<u8>>::empty());
    }
    lemma_new_text(bytes, lines, 0, width, 0);
    lemma_new_lines(bytes, lines, 0, width, 0);
    lemma_found_lines_read(bytes, spans, normal);
    assert(all_read(bytes, lines, normal)) by {
        assert forall|i: int| 0 <= i < lines.len() implies reads_as(
            text_at(bytes, lines[i].start, lines[i].end),
            #[trigger] lines[i],
            normal,
        ) by {
            assert(reads_as(text_at(bytes, before[i].start, before[i].end), before[i], normal));
        }
    }
    assert(made.skip(0) =~= made);
    lemma_comments_are_written(bytes, lines, 0, width, 0, 0, normal, made);
}

/// A second reflow changes nothing: the new text, whose comments stand at `again`, is its own
/// reflow. Wrapping must not move a fence or the owner of a note: no word of a line of prose may
/// open a fence, and the first word of a note must hold its tag up to the colon.
pub proof fn lemma_second_reflow_changes_nothing(
    source: Seq<char>,
    spans: Seq<Span>,
    again: Seq<Span>,
    config: Config,
)
    requires
        comments_fit(source, spans, config),
        are_settled(lines_of(source, spans, config.include_normal_comments)),
        comments_fit(reflowed(source, spans, config), again, config),
        comments_stay(source, spans, again, config),
    ensures
        reflowed(reflowed(source, spans, config), again, config) == reflowed(source, spans, config),
{
    let once = reflowed(source, spans, config);
    let normal = config.include_normal_comments;
    let width = config.width as int;
    let bytes = encode_utf8(source);
    let out = encode_utf8(once);
    let lines = lines_of(source, spans, normal);
    let found = found_lines(out, again, normal);
    let made = lines_once(source, spans, config);
    lemma_once(source, spans, config);
    encode_utf8_valid_utf8(once);
    lemma_found_lines_fit(out, again, normal);
    lemma_found_lines_read(out, again, normal);
    lemma_comments_are_found_again(out, found, comments_once(source, spans, config), normal);
    lemma_byte_lines(bytes);
    assert(made.skip(0) =~= made);
    assert(stands_at(bytes, lines, 0, width, 0, 0, made, found, 0));
    let rewrites = rewrites_of(once, again, config);
    assert forall|k: int| 0 <= k < rewrites.len() implies #[trigger] rewrites[k].text == text_at(
        out,
        rewrites[k].start,
        rewrites[k].end,
    ) by {
        let flagged = with_fences(found);
        lemma_only_prose_is_rewritten(flagged, width, 0, k);
        let (a, b): (int, int) = choose|a: int, b: int|
            0 <= a && #[trigger] rewrites_paragraph(flagged, width, a, b, rewrites[k]);
        lemma_rewritten_again(
            bytes,
            lines,
            0,
            width,
            0,
            0,
            made,
            found,
            0,
            a,
            b,
            rewrites[k],
        );
    }
    lemma_reflowed_source_is_kept(once, again, config);
}

/// Where the comments stand that a reflow has written and left.
pub open spec fn places_once(source: Seq<char>, spans: Seq<Span>, config: Config) -> Seq<Span> {
    places_of(
        encode_utf8(reflowed(source, spans, config)),
        comments_once(source, spans, config),
    )
}

/// A reflow is done in one go: reading the text that it gives by the comments that it has written
/// and left, each from its marker to the end of its line, and reflowing it again gives that text.
pub proof fn lemma_reflow_is_done_in_one_go(source: Seq<char>, spans: Seq<Span>, config: Config)
    requires
        comments_fit(source, spans, config),
        are_settled(lines_of(source, spans, config.include_normal_comments)),
        encode_utf8(reflowed(source, spans, config)).len() <= usize::MAX,
    ensures
        comments_fit(
            reflowed(source, spans, config),
            places_once(source, spans, config),
            config,
        ),
        comments_stay(source, spans, places_once(source, spans, config), config),
        reflowed(reflowed(source, spans, config), places_once(source, spans, config), config)
            == reflowed(source, spans, config),
{
    let once = reflowed(source, spans, config);
    lemma_once(source, spans, config);
    encode_utf8_valid_utf8(once);
    lemma_comments_are_in_place(
        encode_utf8(once),
        comments_once(source, spans, config),
        config.include_normal_comments,
    );
    lemma_second_reflow_changes_nothing(
        source,
        spans,
        places_once(source, spans, config),
        config,
    );
}

/// A second reflow of a Rust text changes nothing, where the parser finds the comments of the new
/// text in place.
pub proof fn lemma_reflow_is_idempotent(source: Seq<char>, once: Seq<char>, config: Config)
    requires
        reflow_outcome(source, config) == Ok::<Seq<char>, ReflowError>(once),
        are_settled(
            lines_of(source, parsed_comments(source), config.include_normal_comments),
        ),
        comments_fit(source, parsed_comments(source), config),
        rust_syntax(once) matches Ok(Some(_)),
        comments_fit(once, parsed_comments(once), config),
        comments_stay(source, parsed_comments(source), parsed_comments(once), config),
    ensures
        reflow_outcome(once, config) == Ok::<Seq<char>, ReflowError>(once),
{
    lemma_second_reflow_changes_nothing(
        source,
        parsed_comments(source),
        parsed_comments(once),
        config,
    );
}

/// Whether `s` holds `c` three times in a row.
pub open spec fn has_run(s: Seq<char>, c: char) -> bool {
    exists|i: int|
        0 <= i && i + 2 < s.len() && #[trigger] s[i] == c && s[i + 1] == c && s[i + 2] == c
}

/// Whether `content` holds nothing that may open a fence, nor an opening parenthesis.
pub open spec fn is_plain(content: Seq<char>) -> bool {
    !has_run(content, '`') && !has_run(content, '~') && !content.contains('(')
}

/// A word of a text stands in it.
proof fn lemma_word_is_a_part(s: Seq<char>, k: int)
    requires
        0 <= k < words(s).len(),
    ensures
        exists|at: int|
            0 <= at && at + words(s)[k].len() <= s.len() && #[trigger] s.subrange(
                at,
                at + words(s)[k].len(),
            ) == words(s)[k],
    decreases s.len(),
{
    let t = trim_start(s);
    let n = word_len(t) as int;
    lemma_trim_start(s);
    lemma_word_len(t);
    let cut = s.len() - t.len();
    let rest = t.skip(n);
    let word = words(s)[k];
    if k == 0 {
        assert(word == t.take(n));
        assert(s.subrange(cut, cut + n) =~= t.take(n));
        assert(s.subrange(cut, cut + word.len()) == word);
    } else {
        assert(word == words(rest)[k - 1]);
        lemma_word_is_a_part(rest, k - 1);
        let at = choose|at: int|
            0 <= at && at + word.len() <= rest.len() && #[trigger] rest.subrange(
                at,
                at + word.len(),
            ) == word;
        let place = cut + n + at;
        assert(s.subrange(place, place + word.len()) =~= rest.subrange(at, at + word.len()));
    }
}

/// A plain line of prose is settled.
proof fn lemma_plain_is_settled(line: LineModel)
    requires
        is_plain(line.content),
        prose(line.content) is Some,
    ensures
        is_settled(line),
{
    let content = line.content;
    let text = line_text(content);
    let list = words(text);
    let lead: int = if content.len() > 0 && content[0] == ' ' {
        1
    } else {
        0
    };
    let body = content.skip(lead);
    assert(lead == 0 ==> body =~= content);
    lemma_trim_end(body);
    assert(text == body.take(text.len() as int));
    assert forall|k: int| 0 <= k < list.len() implies !opens_fence(#[trigger] list[k]) by {
        let word = list[k];
        lemma_word_is_a_part(text, k);
        let at = choose|at: int|
            0 <= at && at + word.len() <= text.len() && #[trigger] text.subrange(
                at,
                at + word.len(),
            ) == word;
        reveal_strlit("```");
        reveal_strlit("~~~");
        if opens_fence(word) {
            let mark = if "```"@.is_prefix_of(word) {
                "```"@
            } else {
                "~~~"@
            };
            let c = mark[0];
            assert(word[0] == mark[0] && word[1] == mark[1] && word[2] == mark[2]);
            let i = lead + at;
            assert forall|d: int| 0 <= d < 3 implies #[trigger] content[i + d] == c by {
                assert(text.subrange(at, at + word.len())[d] == word[d]);
                assert(text[at + d] == word[d]);
                assert(body[at + d] == text[at + d]);
            }
            assert(content[i + 0] == c && content[i + 1] == c && content[i + 2] == c);
            assert(has_run(content, c));
        }
    }
    if is_tagged_note(content) {
        let i = choose|i: int|
            0 <= i < note_tags().len() && opens_note(trim_start(content), #[trigger] note_tags()[i]);
        let tag = note_tags()[i];
        let n = tag.len() as int;
        lemma_tag_is_a_word(i);
        assert(body[0] == text[0]);
        assert(lead == 1 ==> content.drop_first() =~= body);
        assert(trim_start(body) =~= body);
        assert(trim_start(content) == body);
        let after = body.skip(n);
        assert(after[0] == body[n]);
        assert(body[n] == content[lead + n]);
        assert(body[n] == ':');
        assert(!is_white(':'));
        if text.len() <= n {
            let at = text.len() as int;
            assert(body.skip(at)[n - at] == body[n]);
        }
        assert(trim_start(text) =~= text);
        lemma_word_len(text);
        let len = word_len(text) as int;
        let word = list[0];
        assert(word == text.take(len));
        if len <= n {
            assert(text[len] == body[len]);
            assert(len < n ==> body[len] == tag[len]);
        }
        assert(trim_start(word) =~= word);
        assert(tag.is_prefix_of(word)) by {
            assert forall|d: int| 0 <= d < n implies word[d] == tag[d] by {
                assert(word[d] == body[d]);
            }
        }
        assert(word.skip(n)[0] == word[n]);
        assert(word[n] == body[n]);
        assert(opens_note(word, tag));
        assert(is_tagged_note(word));
    }
}

/// Comments without fences and without parentheses are settled.
pub proof fn lemma_plain_comments_are_settled(lines: Seq<LineModel>)
    requires
        forall|i: int| 0 <= i < lines.len() ==> is_plain((#[trigger] lines[i]).content),
    ensures
        are_settled(lines),
{
    assert forall|i: int|
        0 <= i < lines.len() && !(#[trigger] lines[i]).in_fence && prose(lines[i].content) is Some
        implies is_settled(lines[i]) by {
        lemma_plain_is_settled(lines[i]);
    }
}

} // verus!
