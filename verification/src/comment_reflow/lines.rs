//! The lines of a source and the comments that fill whole lines.
//!
//! Places in a source are byte offsets, as the parser reports them.

use vstd::prelude::*;
use vstd::string::StringSliceAdditionalSpecFns;
use vstd::utf8::{
    decode_utf8, decode_utf8_split, encode_utf8_decode_utf8, encode_utf8_valid_utf8, is_char_boundary,
    is_char_boundary_iff_not_is_continuation_byte, is_char_boundary_start_end_of_seq,
    valid_utf8, valid_utf8_split,
};

use crate::comment_reflow::prefix::Prefix;
use crate::comment_reflow::syntax::Span;
use crate::text::{all_white, chars_of, is_white, is_whitespace};

verus! {

/// A comment that fills a line, and the place of that line in its source.
#[derive(Debug)]
pub struct CommentLine {
    /// The number of the line, counted from zero.
    pub line_idx: usize,
    /// The first byte of the line.
    pub line_start: usize,
    /// The byte behind the text of the line; the line break is not a part of the text.
    pub line_end: usize,
    /// What stands before the comment.
    pub indent: String,
    /// Which marker opens the comment.
    pub prefix: Prefix,
    /// What stands behind the marker.
    pub content: String,
    /// Whether the line is a fence marker or sits inside a fenced code block.
    pub in_fence: bool,
}

/// What a [`CommentLine`] says.
pub struct LineModel {
    pub idx: int,
    pub start: int,
    pub end: int,
    pub indent: Seq<char>,
    pub prefix: Prefix,
    pub content: Seq<char>,
    pub in_fence: bool,
}

impl View for CommentLine {
    type V = LineModel;

    open spec fn view(&self) -> LineModel {
        LineModel {
            idx: self.line_idx as int,
            start: self.line_start as int,
            end: self.line_end as int,
            indent: self.indent@,
            prefix: self.prefix,
            content: self.content@,
            in_fence: self.in_fence,
        }
    }
}

/// What each line of `lines` says.
pub open spec fn models(lines: Seq<CommentLine>) -> Seq<LineModel> {
    lines.map_values(|line: CommentLine| line@)
}

/// The offsets in `list`.
pub open spec fn offsets(list: Seq<usize>) -> Seq<int> {
    list.map_values(|at: usize| at as int)
}

/// Where the lines of `bytes` start: at the first byte and behind each line feed.
pub open spec fn starts(bytes: Seq<u8>) -> Seq<int>
    decreases bytes.len(),
{
    if bytes.len() == 0 {
        seq![0int]
    } else if bytes.last() == 10 {
        starts(bytes.drop_last()).push(bytes.len() as int)
    } else {
        starts(bytes.drop_last())
    }
}

/// The number of the line that holds the place `at`: the number of line feeds before it.
pub open spec fn line_index(bytes: Seq<u8>, at: int) -> int {
    starts(bytes.take(at)).len() - 1
}

/// Where the line after line `idx` starts, or the end of the text where there is none.
pub open spec fn next_start(bytes: Seq<u8>, idx: int) -> int {
    if idx + 1 < starts(bytes).len() {
        starts(bytes)[idx + 1]
    } else {
        bytes.len() as int
    }
}

/// `end` moved back over `byte` where it stands directly before `end` and not before `start`.
pub open spec fn back_over(bytes: Seq<u8>, start: int, end: int, byte: u8) -> int {
    if end > start && bytes[end - 1] == byte {
        end - 1
    } else {
        end
    }
}

/// The end of the text of line `idx`, which leaves out its line feed and a carriage return before
/// that.
pub open spec fn text_end(bytes: Seq<u8>, idx: int) -> int {
    let start = starts(bytes)[idx];
    back_over(bytes, start, back_over(bytes, start, next_start(bytes, idx), 10), 13)
}

/// The text in the bytes from `from` up to `to`.
pub open spec fn text_at(bytes: Seq<u8>, from: int, to: int) -> Seq<char> {
    decode_utf8(bytes.subrange(from, to))
}

/// Whether `span` lies in `bytes`, cuts no character, and does not start inside a line break.
pub open spec fn span_fits(bytes: Seq<u8>, span: Span) -> bool {
    &&& span.start <= span.end <= bytes.len()
    &&& is_char_boundary(bytes, span.start as int)
    &&& is_char_boundary(bytes, span.end as int)
    &&& span.start <= text_end(bytes, line_index(bytes, span.start as int))
}

/// The comment line that the comment at `span` makes: the comment must have only white space
/// before it on its line, and a marker that counts.
pub open spec fn comment_line_of(
    bytes: Seq<u8>,
    span: Span,
    include_normal_comments: bool,
) -> Option<LineModel> {
    let idx = line_index(bytes, span.start as int);
    let start = starts(bytes)[idx];
    let end = text_end(bytes, idx);
    let indent = text_at(bytes, start, span.start as int);
    let stop = if span.end <= end {
        span.end as int
    } else {
        end
    };
    if !all_white(indent) {
        None
    } else {
        match Prefix::parsed(text_at(bytes, span.start as int, stop), include_normal_comments) {
            Some((prefix, content)) => Some(
                LineModel { idx, start, end, indent, prefix, content, in_fence: false },
            ),
            None => None,
        }
    }
}

/// A line start is within the text, the first is its beginning, and they ascend.
pub proof fn lemma_starts(bytes: Seq<u8>)
    ensures
        starts(bytes).len() >= 1,
        starts(bytes).len() <= bytes.len() + 1,
        starts(bytes)[0] == 0,
        forall|i: int|
            0 <= i < starts(bytes).len() ==> 0 <= #[trigger] starts(bytes)[i] <= bytes.len(),
        forall|i: int, j: int|
            0 <= i < j < starts(bytes).len() ==> starts(bytes)[i] < starts(bytes)[j],
        forall|i: int|
            0 < i < starts(bytes).len() ==> bytes[#[trigger] starts(bytes)[i] - 1] == 10,
    decreases bytes.len(),
{
    if bytes.len() > 0 {
        lemma_starts(bytes.drop_last());
    }
}

/// The lines that start up to `at` come first, and all others start behind it.
pub proof fn lemma_starts_take(bytes: Seq<u8>, at: int)
    requires
        0 <= at <= bytes.len(),
    ensures
        starts(bytes.take(at)).is_prefix_of(starts(bytes)),
        forall|i: int|
            starts(bytes.take(at)).len() <= i < starts(bytes).len() ==> at < #[trigger] starts(
                bytes,
            )[i],
    decreases bytes.len() - at,
{
    if at < bytes.len() {
        let front = bytes.drop_last();
        lemma_starts_take(front, at);
        assert(front.take(at) =~= bytes.take(at));
        lemma_starts(front);
    } else {
        assert(bytes.take(at) =~= bytes);
    }
}

/// The line of `at` starts no later than `at`, and the next line starts behind it.
pub proof fn lemma_line_index(bytes: Seq<u8>, at: int)
    requires
        0 <= at <= bytes.len(),
    ensures
        0 <= line_index(bytes, at) < starts(bytes).len(),
        0 <= starts(bytes)[line_index(bytes, at)] <= at,
        line_index(bytes, at) + 1 < starts(bytes).len() ==> at < starts(bytes)[line_index(bytes, at)
            + 1],
{
    lemma_starts_take(bytes, at);
    lemma_starts(bytes.take(at));
    let idx = line_index(bytes, at);
    assert(starts(bytes.take(at))[idx] == starts(bytes)[idx]);
}

/// Two places have the same line number exactly where the same line holds them.
pub proof fn lemma_line_index_is(bytes: Seq<u8>, at: int, idx: int)
    requires
        0 <= at <= bytes.len(),
        0 <= idx < starts(bytes).len(),
        starts(bytes)[idx] <= at,
        idx + 1 < starts(bytes).len() ==> at < starts(bytes)[idx + 1],
    ensures
        line_index(bytes, at) == idx,
{
    lemma_line_index(bytes, at);
    lemma_starts(bytes);
    let other = line_index(bytes, at);
    if other < idx {
        assert(starts(bytes)[other + 1] <= starts(bytes)[idx]);
    } else if idx < other {
        assert(starts(bytes)[idx + 1] <= starts(bytes)[other]);
    }
}

/// The text of a line lies between its start and the start of the next line, and what follows it
/// is the end of the text or a byte of a line break.
pub proof fn lemma_text_end(bytes: Seq<u8>, idx: int)
    requires
        0 <= idx < starts(bytes).len(),
    ensures
        starts(bytes)[idx] <= text_end(bytes, idx) <= next_start(bytes, idx) <= bytes.len(),
        text_end(bytes, idx) < bytes.len() ==> bytes[text_end(bytes, idx)] == 10 || bytes[text_end(
            bytes,
            idx,
        )] == 13,
        idx + 1 < starts(bytes).len() ==> text_end(bytes, idx) < starts(bytes)[idx + 1],
{
    lemma_starts(bytes);
    if idx + 1 < starts(bytes).len() {
        assert(starts(bytes)[idx] < starts(bytes)[idx + 1]);
        assert(bytes[starts(bytes)[idx + 1] - 1] == 10);
    }
}

/// A place before a byte that continues no character cuts no character.
pub proof fn lemma_boundary_before(bytes: Seq<u8>, at: int)
    requires
        valid_utf8(bytes),
        0 <= at <= bytes.len(),
        at < bytes.len() ==> bytes[at] < 0x80,
    ensures
        is_char_boundary(bytes, at),
{
    if at < bytes.len() {
        is_char_boundary_iff_not_is_continuation_byte(bytes, at);
    } else {
        is_char_boundary_start_end_of_seq(bytes);
    }
}

/// A place behind an ASCII byte cuts no character.
pub proof fn lemma_boundary_behind(bytes: Seq<u8>, at: int)
    requires
        valid_utf8(bytes),
        0 < at <= bytes.len(),
        bytes[at - 1] < 0x80,
    ensures
        is_char_boundary(bytes, at),
{
    lemma_boundary_before(bytes, at - 1);
    valid_utf8_split(bytes, at - 1);
    let tail = bytes.subrange(at - 1, bytes.len() as int);
    assert(tail[0] == bytes[at - 1]);
    assert(is_char_boundary(tail, 1)) by {
        reveal_with_fuel(is_char_boundary, 2);
    }
    if at < bytes.len() {
        is_char_boundary_iff_not_is_continuation_byte(tail, 1);
        assert(tail[1] == bytes[at]);
        is_char_boundary_iff_not_is_continuation_byte(bytes, at);
    } else {
        is_char_boundary_start_end_of_seq(bytes);
    }
}

/// A line starts where no character is cut.
pub proof fn lemma_start_boundary(bytes: Seq<u8>, idx: int)
    requires
        valid_utf8(bytes),
        0 <= idx < starts(bytes).len(),
    ensures
        is_char_boundary(bytes, starts(bytes)[idx]),
{
    lemma_starts(bytes);
    if idx > 0 {
        lemma_boundary_behind(bytes, starts(bytes)[idx]);
    } else {
        is_char_boundary_start_end_of_seq(bytes);
    }
}

/// The text of a line ends where no character is cut.
pub proof fn lemma_end_boundary(bytes: Seq<u8>, idx: int)
    requires
        valid_utf8(bytes),
        0 <= idx < starts(bytes).len(),
    ensures
        is_char_boundary(bytes, text_end(bytes, idx)),
{
    lemma_text_end(bytes, idx);
    lemma_starts(bytes);
    lemma_boundary_before(bytes, text_end(bytes, idx));
}

/// What stays a boundary behind a cut.
pub proof fn lemma_boundary_in_tail(bytes: Seq<u8>, cut: int, at: int)
    requires
        valid_utf8(bytes),
        0 <= cut <= at <= bytes.len(),
        is_char_boundary(bytes, cut),
        is_char_boundary(bytes, at),
    ensures
        valid_utf8(bytes.subrange(cut, bytes.len() as int)),
        is_char_boundary(bytes.subrange(cut, bytes.len() as int), at - cut),
{
    valid_utf8_split(bytes, cut);
    let tail = bytes.subrange(cut, bytes.len() as int);
    if at < bytes.len() {
        is_char_boundary_iff_not_is_continuation_byte(bytes, at);
        assert(tail[at - cut] == bytes[at]);
        is_char_boundary_iff_not_is_continuation_byte(tail, at - cut);
    } else {
        is_char_boundary_start_end_of_seq(tail);
    }
}

/// The text of `source` from byte `from` up to byte `to`.
pub fn slice_at(source: &str, from: usize, to: usize) -> (r: &str)
    requires
        from <= to <= source.spec_bytes().len(),
        is_char_boundary(source.spec_bytes(), from as int),
        is_char_boundary(source.spec_bytes(), to as int),
    ensures
        r@ == text_at(source.spec_bytes(), from as int, to as int),
        r.spec_bytes() == source.spec_bytes().subrange(from as int, to as int),
{
    let ghost bytes = source.spec_bytes();
    proof {
        encode_utf8_valid_utf8(source@);
        lemma_boundary_in_tail(bytes, from as int, to as int);
    }
    let tail = source.split_at(from).1;
    let part = tail.split_at(to - from).0;
    proof {
        assert(part.spec_bytes() =~= bytes.subrange(from as int, to as int));
        encode_utf8_decode_utf8(part@);
    }
    part
}

/// Where the lines of `source` start.
pub fn line_starts(source: &str) -> (r: Vec<usize>)
    ensures
        offsets(r@) == starts(source.spec_bytes()),
{
    let bytes = source.as_bytes();
    let mut list: Vec<usize> = Vec::new();
    list.push(0);
    let mut i: usize = 0;
    assert(bytes@.take(0) =~= Seq::<u8>::empty());
    assert(offsets(list@) =~= starts(bytes@.take(0)));
    while i < bytes.len()
        invariant
            i <= bytes@.len(),
            offsets(list@) == starts(bytes@.take(i as int)),
        decreases bytes@.len() - i,
    {
        let ghost done = bytes@.take(i as int + 1);
        assert(done.drop_last() =~= bytes@.take(i as int));
        let ghost before = offsets(list@);
        if bytes[i] == 10 {
            list.push(i + 1);
            assert(offsets(list@) =~= before.push(i as int + 1));
        }
        i = i + 1;
    }
    assert(bytes@.take(i as int) =~= bytes@);
    list
}

/// The number of the line that holds the byte `at`, found by halving.
pub(crate) fn find_line(line_starts: &[usize], at: usize, Ghost(bytes): Ghost<Seq<u8>>) -> (idx: usize)
    requires
        offsets(line_starts@) == starts(bytes),
        at <= bytes.len(),
    ensures
        idx == line_index(bytes, at as int),
        idx < line_starts@.len(),
{
    let mut low: usize = 0;
    let mut high: usize = line_starts.len();
    proof {
        lemma_starts(bytes);
        assert(offsets(line_starts@)[0] == 0);
    }
    while high - low > 1
        invariant
            low < high <= line_starts@.len(),
            offsets(line_starts@) == starts(bytes),
            line_starts@[low as int] <= at,
            high < line_starts@.len() ==> at < line_starts@[high as int],
        decreases high - low,
    {
        let middle: usize = low + (high - low) / 2;
        if line_starts[middle] <= at {
            low = middle;
        } else {
            high = middle;
        }
    }
    proof {
        assert(starts(bytes)[low as int] == line_starts@[low as int]);
        if high < line_starts@.len() {
            assert(starts(bytes)[high as int] == line_starts@[high as int]);
        }
        lemma_line_index_is(bytes, at as int, low as int);
    }
    low
}

/// The end of the text of line `line_idx`, without its line break.
pub fn line_end(source: &str, line_idx: usize, line_starts: &[usize]) -> (r: usize)
    requires
        offsets(line_starts@) == starts(source.spec_bytes()),
        line_idx < line_starts@.len(),
    ensures
        r == text_end(source.spec_bytes(), line_idx as int),
{
    let bytes = source.as_bytes();
    proof {
        lemma_starts(bytes@);
        assert(starts(bytes@)[line_idx as int] == line_starts@[line_idx as int]);
        if line_idx + 1 < line_starts@.len() {
            assert(starts(bytes@)[line_idx as int + 1] == line_starts@[line_idx as int + 1]);
        }
    }
    let line_start: usize = line_starts[line_idx];
    let mut end: usize = if line_idx < line_starts.len() - 1 {
        line_starts[line_idx + 1]
    } else {
        bytes.len()
    };
    if end > line_start && bytes[end - 1] == 10 {
        end = end - 1;
    }
    if end > line_start && bytes[end - 1] == 13 {
        end = end - 1;
    }
    end
}

/// Whether every character of `text` is white space.
fn only_white(text: &str) -> (r: bool)
    ensures
        r == all_white(text@),
{
    let chars = chars_of(text);
    let mut i: usize = 0;
    while i < chars.len()
        invariant
            i <= chars@.len(),
            chars@ == text@,
            forall|j: int| 0 <= j < i ==> is_white(#[trigger] chars@[j]),
        decreases chars@.len() - i,
    {
        if !is_whitespace(chars[i]) {
            assert(!is_white(text@[i as int]));
            return false;
        }
        i = i + 1;
    }
    true
}

/// The comment line that the comment at `range` makes.
///
/// Only comments that fill a line count: one behind code belongs to that code, and is often not
/// prose.
pub fn comment_line(
    source: &str,
    range: Span,
    line_starts: &[usize],
    include_normal_comments: bool,
) -> (r: Option<CommentLine>)
    requires
        offsets(line_starts@) == starts(source.spec_bytes()),
        span_fits(source.spec_bytes(), range),
    ensures
        match r {
            Some(line) => comment_line_of(source.spec_bytes(), range, include_normal_comments)
                == Some(line@),
            None => comment_line_of(source.spec_bytes(), range, include_normal_comments) is None,
        },
{
    let ghost bytes = source.spec_bytes();
    let line_idx: usize = find_line(line_starts, range.start, Ghost(bytes));
    let line_start: usize = line_starts[line_idx];
    let line_end: usize = line_end(source, line_idx, line_starts);
    proof {
        encode_utf8_valid_utf8(source@);
        lemma_line_index(bytes, range.start as int);
        lemma_text_end(bytes, line_idx as int);
        lemma_start_boundary(bytes, line_idx as int);
        lemma_end_boundary(bytes, line_idx as int);
        assert(starts(bytes)[line_idx as int] == line_starts@[line_idx as int]);
    }
    let indent = slice_at(source, line_start, range.start);
    if !only_white(indent) {
        return None;
    }
    let stop: usize = if range.end <= line_end {
        range.end
    } else {
        line_end
    };
    let comment = slice_at(source, range.start, stop);
    match Prefix::parse(comment, include_normal_comments) {
        Some((prefix, content)) => Some(
            CommentLine {
                line_idx,
                line_start,
                line_end,
                indent: String::from_str(indent),
                prefix,
                content: String::from_str(content),
                in_fence: false,
            },
        ),
        None => None,
    }
}

/// The comment lines that the comments at `spans` make, in the order of the spans.
pub open spec fn found_lines(
    bytes: Seq<u8>,
    spans: Seq<Span>,
    include_normal_comments: bool,
) -> Seq<LineModel>
    decreases spans.len(),
{
    if spans.len() == 0 {
        Seq::empty()
    } else {
        let before = found_lines(bytes, spans.drop_last(), include_normal_comments);
        match comment_line_of(bytes, spans.last(), include_normal_comments) {
            Some(line) => before.push(line),
            None => before,
        }
    }
}

/// Whether every span fits `bytes` and starts behind those before it.
pub open spec fn spans_fit(bytes: Seq<u8>, spans: Seq<Span>) -> bool {
    &&& forall|i: int| 0 <= i < spans.len() ==> span_fits(bytes, #[trigger] spans[i])
    &&& forall|i: int, j: int| 0 <= i < j < spans.len() ==> spans[i].start < spans[j].start
}

/// Whether every line is a line of `bytes` and comes behind those before it.
pub open spec fn lines_fit(bytes: Seq<u8>, lines: Seq<LineModel>) -> bool {
    &&& forall|i: int|
        #![trigger lines[i]]
        0 <= i < lines.len() ==> 0 <= lines[i].idx < starts(bytes).len() && lines[i].start
            == starts(bytes)[lines[i].idx] && lines[i].end == text_end(bytes, lines[i].idx)
    &&& forall|i: int, j: int| 0 <= i < j < lines.len() ==> lines[i].idx < lines[j].idx
}

/// The text of a run of bytes is that of its two parts, wherever it is cut between characters.
pub proof fn lemma_text_at_split(bytes: Seq<u8>, from: int, cut: int, to: int)
    requires
        valid_utf8(bytes),
        0 <= from <= cut <= to <= bytes.len(),
        is_char_boundary(bytes, from),
        is_char_boundary(bytes, cut),
        is_char_boundary(bytes, to),
    ensures
        text_at(bytes, from, to) == text_at(bytes, from, cut) + text_at(bytes, cut, to),
        from < to ==> text_at(bytes, from, to).len() > 0,
{
    let end = bytes.len() as int;
    let tail = bytes.subrange(from, end);
    lemma_boundary_in_tail(bytes, from, to);
    lemma_boundary_in_tail(bytes, from, cut);
    valid_utf8_split(tail, to - from);
    let part = tail.subrange(0, to - from);
    assert(part =~= bytes.subrange(from, to));
    if cut < to {
        is_char_boundary_iff_not_is_continuation_byte(bytes, cut);
        assert(part[cut - from] == bytes[cut]);
        is_char_boundary_iff_not_is_continuation_byte(part, cut - from);
    } else {
        is_char_boundary_start_end_of_seq(part);
    }
    decode_utf8_split(part, cut - from);
    assert(part.subrange(0, cut - from) =~= bytes.subrange(from, cut));
    assert(part.subrange(cut - from, part.len() as int) =~= bytes.subrange(cut, to));
}

/// Two comments that both fill their lines, of which one starts behind the other, fill different
/// lines.
proof fn lemma_lines_ascend(bytes: Seq<u8>, first: Span, second: Span, include_normal: bool)
    requires
        valid_utf8(bytes),
        span_fits(bytes, first),
        span_fits(bytes, second),
        first.start < second.start,
        comment_line_of(bytes, first, include_normal) is Some,
        comment_line_of(bytes, second, include_normal) is Some,
    ensures
        line_index(bytes, first.start as int) < line_index(bytes, second.start as int),
{
    let a = first.start as int;
    let b = second.start as int;
    let idx = line_index(bytes, a);
    let other = line_index(bytes, b);
    lemma_line_index(bytes, a);
    lemma_line_index(bytes, b);
    lemma_starts(bytes);
    if other < idx {
        assert(starts(bytes)[other + 1] <= starts(bytes)[idx]);
    }
    if other == idx {
        let start = starts(bytes)[idx];
        let end = text_end(bytes, idx);
        let stop = if first.end <= end {
            first.end as int
        } else {
            end
        };
        lemma_text_end(bytes, idx);
        lemma_start_boundary(bytes, idx);
        lemma_end_boundary(bytes, idx);
        let comment = text_at(bytes, a, stop);
        assert(comment.len() > 0 && comment[0] == '/');
        if a == stop {
            assert(bytes.subrange(a, stop) =~= Seq::<u8>::empty());
            assert(text_at(bytes, a, stop).len() == 0);
        }
        let near = if stop <= b {
            stop
        } else {
            b
        };
        lemma_text_at_split(bytes, a, near, stop);
        lemma_text_at_split(bytes, a, near, b);
        lemma_text_at_split(bytes, a, a, near);
        lemma_text_at_split(bytes, start, a, b);
        let indent = text_at(bytes, start, b);
        let at = text_at(bytes, start, a).len() as int;
        assert(text_at(bytes, a, near)[0] == '/');
        assert(text_at(bytes, a, b)[0] == '/');
        assert(indent[at] == '/');
        assert(!is_white('/'));
        assert(false);
    }
}

/// The comment lines found at fitting spans come in the order of the source, one to a line.
pub proof fn lemma_found_lines_fit(bytes: Seq<u8>, spans: Seq<Span>, include_normal: bool)
    requires
        valid_utf8(bytes),
        spans_fit(bytes, spans),
    ensures
        lines_fit(bytes, found_lines(bytes, spans, include_normal)),
        forall|i: int|
            0 <= i < found_lines(bytes, spans, include_normal).len() ==> exists|j: int|
                #![trigger spans[j]]
                0 <= j < spans.len() && comment_line_of(bytes, spans[j], include_normal) == Some(
                    #[trigger] found_lines(bytes, spans, include_normal)[i],
                ),
    decreases spans.len(),
{
    if spans.len() > 0 {
        let front = spans.drop_last();
        lemma_found_lines_fit(bytes, front, include_normal);
        let before = found_lines(bytes, front, include_normal);
        let span = spans.last();
        lemma_line_index(bytes, span.start as int);
        assert forall|i: int| 0 <= i < before.len() implies exists|j: int|
            #![trigger spans[j]]
            0 <= j < spans.len() && comment_line_of(bytes, spans[j], include_normal) == Some(
                #[trigger] before[i],
            ) by {
            let j = choose|j: int|
                #![trigger front[j]]
                0 <= j < front.len() && comment_line_of(bytes, front[j], include_normal) == Some(
                    before[i],
                );
            assert(spans[j] == front[j]);
        }
        if let Some(line) = comment_line_of(bytes, span, include_normal) {
            assert(spans[spans.len() - 1] == span);
            assert forall|i: int| 0 <= i < before.len() implies before[i].idx < line.idx by {
                let j = choose|j: int|
                    #![trigger front[j]]
                    0 <= j < front.len() && comment_line_of(bytes, front[j], include_normal)
                        == Some(before[i]);
                assert(spans[j] == front[j]);
                lemma_lines_ascend(bytes, spans[j], span, include_normal);
            }
        }
    }
}

/// The comments at `ranges` that fill their lines, in order.
pub fn full_line_comments(
    source: &str,
    ranges: &[Span],
    line_starts: &[usize],
    include_normal_comments: bool,
) -> (r: Vec<CommentLine>)
    requires
        offsets(line_starts@) == starts(source.spec_bytes()),
        forall|i: int|
            0 <= i < ranges@.len() ==> span_fits(source.spec_bytes(), #[trigger] ranges@[i]),
    ensures
        models(r@) == found_lines(source.spec_bytes(), ranges@, include_normal_comments),
{
    let mut lines: Vec<CommentLine> = Vec::new();
    let mut i: usize = 0;
    assert(models(lines@) =~= Seq::<LineModel>::empty());
    while i < ranges.len()
        invariant
            i <= ranges@.len(),
            offsets(line_starts@) == starts(source.spec_bytes()),
            forall|k: int|
                0 <= k < ranges@.len() ==> span_fits(source.spec_bytes(), #[trigger] ranges@[k]),
            models(lines@) == found_lines(
                source.spec_bytes(),
                ranges@.take(i as int),
                include_normal_comments,
            ),
        decreases ranges@.len() - i,
    {
        let ghost done = ranges@.take(i as int + 1);
        assert(done.drop_last() =~= ranges@.take(i as int));
        let ghost before = models(lines@);
        match comment_line(source, ranges[i], line_starts, include_normal_comments) {
            Some(line) => {
                lines.push(line);
                assert(models(lines@) =~= before.push(line@));
            },
            None => {},
        }
        i = i + 1;
    }
    assert(ranges@.take(i as int) =~= ranges@);
    lines
}

/// A line starts at the beginning and behind every line feed, and nowhere else.
pub proof fn lemma_lines_start_behind_feeds(bytes: Seq<u8>, byte: u8)
    ensures
        starts(Seq::empty()) == seq![0int],
        byte == 10 ==> starts(bytes.push(byte)) == starts(bytes).push(bytes.len() as int + 1),
        byte != 10 ==> starts(bytes.push(byte)) == starts(bytes),
{
    assert(bytes.push(byte).drop_last() =~= bytes);
}

proof fn lemma_no_feed_no_start(bytes: Seq<u8>, more: Seq<u8>)
    requires
        !more.contains(10),
    ensures
        starts(bytes + more) == starts(bytes),
    decreases more.len(),
{
    if more.len() > 0 {
        let front = more.drop_last();
        assert(more[more.len() - 1] != 10) by {
            assert(more.contains(more[more.len() - 1]));
        }
        assert forall|i: int| 0 <= i < front.len() implies front[i] != 10 by {
            assert(front[i] == more[i]);
            assert(more.contains(more[i]));
        }
        lemma_no_feed_no_start(bytes, front);
        assert((bytes + more).drop_last() =~= bytes + front);
    } else {
        assert(bytes + more =~= bytes);
    }
}

/// The text of a line ends before its line break, be it a line feed alone or a carriage return and a
/// line feed, or at the end of the text.
proof fn lemma_line_between_breaks(before: Seq<u8>, text: Seq<u8>, behind: Seq<u8>)
    requires
        before.len() == 0 || before.last() == 10,
        text.len() > 0,
        !text.contains(10),
        text.last() != 13,
        behind.len() == 0 || behind[0] == 10 || (behind.len() > 1 && behind[0] == 13 && behind[1]
            == 10),
    ensures
        ({
            let bytes = before + text + behind;
            let idx = starts(before).len() - 1;
            &&& 0 <= idx < starts(bytes).len()
            &&& starts(bytes)[idx] == before.len()
            &&& text_end(bytes, idx) == before.len() + text.len()
            &&& forall|at: int|
                before.len() <= at <= before.len() + text.len() ==> #[trigger] line_index(bytes, at)
                    == idx
        }),
{
    let bytes = before + text + behind;
    let idx = starts(before).len() - 1;
    let end = (before.len() + text.len()) as int;
    lemma_starts(before);
    lemma_starts(bytes);
    assert(starts(before).last() == before.len());
    assert forall|at: int| before.len() <= at <= end implies #[trigger] starts(bytes.take(at))
        == starts(before) by {
        let part = text.take(at - before.len());
        assert forall|i: int| 0 <= i < part.len() implies part[i] != 10 by {
            assert(part[i] == text[i]);
            assert(text.contains(text[i]));
        }
        lemma_no_feed_no_start(before, part);
        assert(bytes.take(at) =~= before + part);
    }
    assert(starts(bytes.take(end)) == starts(before));
    lemma_starts_take(bytes, end);
    assert(starts(bytes.take(end))[idx] == starts(bytes)[idx]);
    assert(bytes[end - 1] == text.last());
    assert(text.contains(text[text.len() - 1]));
    if behind.len() == 0 {
        assert(bytes.take(end) =~= bytes);
    } else if behind[0] == 10 {
        let upto = bytes.take(end + 1);
        assert(upto =~= bytes.take(end).push(10));
        lemma_lines_start_behind_feeds(bytes.take(end), 10);
        lemma_starts_take(bytes, end + 1);
        assert(starts(upto)[idx + 1] == starts(bytes)[idx + 1]);
    } else {
        let upto = bytes.take(end + 2);
        assert(upto =~= bytes.take(end).push(13).push(10));
        lemma_lines_start_behind_feeds(bytes.take(end), 13);
        lemma_lines_start_behind_feeds(bytes.take(end).push(13), 10);
        lemma_starts_take(bytes, end + 2);
        assert(starts(upto)[idx + 1] == starts(bytes)[idx + 1]);
    }
}

/// A comment that fills its line but for what stands before it makes a comment line exactly where
/// that is white space and the comment has a marker that counts. The line says where it stands, what
/// stands before the comment, and what stands behind the marker; that the comment may be said to
/// reach into the line break changes nothing.
pub proof fn lemma_comment_makes_a_line(
    before: Seq<u8>,
    indent: Seq<u8>,
    comment: Seq<u8>,
    behind: Seq<u8>,
    span: Span,
    include_normal_comments: bool,
)
    requires
        before.len() == 0 || before.last() == 10,
        !indent.contains(10),
        !comment.contains(10),
        comment.len() > 0,
        comment.last() != 13,
        behind.len() == 0 || behind[0] == 10 || (behind.len() > 1 && behind[0] == 13 && behind[1]
            == 10),
        span.start == before.len() + indent.len(),
        span.end >= span.start + comment.len(),
    ensures
        comment_line_of(before + (indent + comment) + behind, span, include_normal_comments)
            == match Prefix::parsed(decode_utf8(comment), include_normal_comments) {
            Some((prefix, content)) => if all_white(decode_utf8(indent)) {
                Some(
                    LineModel {
                        idx: starts(before).len() - 1,
                        start: before.len() as int,
                        end: (before.len() + indent.len() + comment.len()) as int,
                        indent: decode_utf8(indent),
                        prefix,
                        content,
                        in_fence: false,
                    },
                )
            } else {
                None
            },
            None => None,
        },
{
    let text = indent + comment;
    let bytes = before + text + behind;
    assert(!text.contains(10)) by {
        assert forall|i: int| 0 <= i < text.len() implies text[i] != 10 by {
            if i < indent.len() {
                assert(indent.contains(indent[i]));
            } else {
                assert(comment.contains(comment[i - indent.len()]));
            }
        }
    }
    lemma_line_between_breaks(before, text, behind);
    let start = before.len() as int;
    let end = (before.len() + text.len()) as int;
    assert(line_index(bytes, span.start as int) == starts(before).len() - 1);
    assert(bytes.subrange(start, span.start as int) =~= indent);
    assert(bytes.subrange(span.start as int, end) =~= comment);
}

/// Every comment that makes a line gives its line, in the order of the comments, however many there
/// are.
pub proof fn lemma_every_comment_line_is_found(
    bytes: Seq<u8>,
    spans: Seq<Span>,
    span: Span,
    include_normal_comments: bool,
)
    ensures
        found_lines(bytes, Seq::empty(), include_normal_comments).len() == 0,
        found_lines(bytes, spans.push(span), include_normal_comments) == match comment_line_of(
            bytes,
            span,
            include_normal_comments,
        ) {
            Some(line) => found_lines(bytes, spans, include_normal_comments).push(line),
            None => found_lines(bytes, spans, include_normal_comments),
        },
{
    assert(spans.push(span).drop_last() =~= spans);
}

} // verus!
