//! Fenced code blocks in comments.
//!
//! Fences are tracked within one run of adjacent lines with the same indentation and marker, so a
//! fence that is never closed affects the comment it belongs to and no later one.

use vstd::prelude::*;

use crate::comment_reflow::lines::{models, CommentLine, LineModel};
use crate::comment_reflow::markdown::opens_fence;
use crate::text::{
    all_white, chars_of, is_white, lemma_trim_start, lemma_trim_start_skip, same_text, starts_with,
    str_trim_start, trim_start,
};

verus! {

/// Whether the comment line `content` opens or closes a fenced code block.
pub open spec fn fence_marker(content: Seq<char>) -> bool {
    opens_fence(trim_start(content))
}

/// Whether `current` continues the comment of `previous`: the next line, equally indented, with
/// the same marker.
pub open spec fn continues_run(previous: LineModel, current: LineModel) -> bool {
    &&& previous.idx + 1 == current.idx
    &&& previous.indent == current.indent
    &&& previous.prefix == current.prefix
}

/// Whether a fence is open behind line `i`. A marker opens a fence or closes the open one, and
/// every run starts without one.
pub open spec fn fence_open(lines: Seq<LineModel>, i: int) -> bool
    decreases i,
{
    let before = i > 0 && continues_run(lines[i - 1], lines[i]) && fence_open(lines, i - 1);
    if fence_marker(lines[i].content) {
        !before
    } else {
        before
    }
}

/// Whether line `i` is a fence marker or sits inside a fenced code block.
pub open spec fn fenced(lines: Seq<LineModel>, i: int) -> bool {
    fence_marker(lines[i].content) || fence_open(lines, i)
}

/// `line` with its fence flag set to `in_fence`.
pub open spec fn flagged(line: LineModel, in_fence: bool) -> LineModel {
    LineModel { in_fence, ..line }
}

/// The lines with their fence flags set.
pub open spec fn with_fences(lines: Seq<LineModel>) -> Seq<LineModel> {
    Seq::new(lines.len(), |i: int| flagged(lines[i], fenced(lines, i)))
}

/// Whether the comment line `content` opens or closes a fenced code block.
pub fn is_fence_marker(content: &str) -> (r: bool)
    ensures
        r == fence_marker(content@),
{
    let text = chars_of(str_trim_start(content));
    starts_with(&text, "```") || starts_with(&text, "~~~")
}

/// Whether `current` continues the comment of `previous`.
pub fn same_run(previous: &CommentLine, current: &CommentLine) -> (r: bool)
    ensures
        r == continues_run(previous@, current@),
{
    current.line_idx > 0 && previous.line_idx == current.line_idx - 1 && same_text(
        previous.indent.as_str(),
        current.indent.as_str(),
    ) && previous.prefix == current.prefix
}

/// Flags the fence markers and every line between them.
pub fn mark_fenced_lines(lines: &mut Vec<CommentLine>)
    ensures
        models(final(lines)@) == with_fences(models(old(lines)@)),
{
    let ghost given = models(lines@);
    let mut in_fence = false;
    let mut idx: usize = 0;
    while idx < lines.len()
        invariant
            idx <= lines@.len(),
            lines@.len() == given.len(),
            given == models(old(lines)@),
            idx > 0 ==> in_fence == fence_open(given, idx - 1),
            forall|k: int|
                0 <= k < idx ==> (#[trigger] lines@[k])@ == flagged(
                    given[k],
                    fenced(given, k),
                ),
            forall|k: int| idx <= k < lines@.len() ==> (#[trigger] lines@[k])@ == given[k],
        decreases lines@.len() - idx,
    {
        if idx == 0 || !same_run(&lines[idx - 1], &lines[idx]) {
            in_fence = false;
        }
        let marker = is_fence_marker(lines[idx].content.as_str());
        if marker {
            in_fence = !in_fence;
        }
        lines[idx].in_fence = marker || in_fence;
        idx = idx + 1;
    }
    assert(models(lines@) =~= with_fences(given));
}

/// Everything from an opening marker on is fenced, up to the next marker or the end of the run,
/// whether or not blank comment lines part it.
pub proof fn lemma_code_is_fenced(lines: Seq<LineModel>, open: int, i: int)
    requires
        0 <= open <= i < lines.len(),
        fence_marker(lines[open].content),
        open == 0 || !continues_run(lines[open - 1], lines[open]) || !fence_open(lines, open - 1),
        forall|k: int|
            open < k <= i ==> continues_run(lines[k - 1], #[trigger] lines[k]) && !fence_marker(
                lines[k].content,
            ),
    ensures
        fence_open(lines, i),
        with_fences(lines)[i].in_fence,
    decreases i,
{
    if i > open {
        lemma_code_is_fenced(lines, open, i - 1);
    }
}

/// A marker is fenced, whether it opens or closes.
pub proof fn lemma_marker_is_fenced(lines: Seq<LineModel>, i: int)
    requires
        0 <= i < lines.len(),
        fence_marker(lines[i].content),
    ensures
        with_fences(lines)[i].in_fence,
{
}

/// Fences do not leak out of a run: where a run ends, the flags on either side are those that the
/// lines would have on their own.
pub proof fn lemma_runs_are_independent(before: Seq<LineModel>, after: Seq<LineModel>)
    requires
        before.len() > 0 && after.len() > 0 ==> !continues_run(before.last(), after[0]),
    ensures
        with_fences(before + after) == with_fences(before) + with_fences(after),
{
    let all = before + after;
    assert forall|i: int| 0 <= i < before.len() implies fenced(all, i) == fenced(before, i) by {
        lemma_open_in_front(before, after, i);
    }
    assert forall|i: int| 0 <= i < after.len() implies fenced(all, before.len() + i) == fenced(
        after,
        i,
    ) by {
        lemma_open_behind(before, after, i);
    }
    assert forall|i: int| 0 <= i < all.len() implies with_fences(all)[i] == (with_fences(before)
        + with_fences(after))[i] by {
        if i >= before.len() {
            assert(fenced(all, before.len() + (i - before.len())) == fenced(
                after,
                i - before.len(),
            ));
        }
    }
    assert(with_fences(all) =~= with_fences(before) + with_fences(after));
}

proof fn lemma_open_in_front(before: Seq<LineModel>, after: Seq<LineModel>, i: int)
    requires
        0 <= i < before.len(),
    ensures
        fence_open(before + after, i) == fence_open(before, i),
    decreases i,
{
    if i > 0 {
        lemma_open_in_front(before, after, i - 1);
    }
}

proof fn lemma_open_behind(before: Seq<LineModel>, after: Seq<LineModel>, i: int)
    requires
        before.len() > 0 && after.len() > 0 ==> !continues_run(before.last(), after[0]),
        0 <= i < after.len(),
    ensures
        fence_open(before + after, before.len() + i) == fence_open(after, i),
    decreases i,
{
    let all = before + after;
    let at = before.len() + i;
    assert(all[at] == after[i]);
    if i > 0 {
        lemma_open_behind(before, after, i - 1);
        assert(all[at - 1] == after[i - 1]);
    } else if before.len() > 0 {
        assert(all[at - 1] == before.last());
    }
}

/// A line is a fence marker exactly where it is white space and three backticks or three tildes,
/// with anything behind.
pub proof fn lemma_fence_markers(content: Seq<char>)
    ensures
        fence_marker(content) <==> exists|lead: Seq<char>, rest: Seq<char>|
            all_white(lead) && opens_fence(rest) && content == #[trigger] (lead + rest),
{
    let body = trim_start(content);
    lemma_trim_start(content);
    let cut = content.len() - body.len();
    if fence_marker(content) {
        assert(content =~= content.take(cut) + body);
    }
    if exists|lead: Seq<char>, rest: Seq<char>|
        all_white(lead) && opens_fence(rest) && content == #[trigger] (lead + rest) {
        let (lead, rest): (Seq<char>, Seq<char>) = choose|lead: Seq<char>, rest: Seq<char>|
            all_white(lead) && opens_fence(rest) && content == #[trigger] (lead + rest);
        let n = lead.len() as int;
        assert(content.take(n) =~= lead);
        assert(content.skip(n) =~= rest);
        lemma_trim_start_skip(content, n);
        reveal_strlit("```");
        reveal_strlit("~~~");
        if "```"@.is_prefix_of(rest) {
            assert(rest.subrange(0, 3)[0] == '`');
        } else {
            assert(rest.subrange(0, 3)[0] == '~');
        }
        assert(!is_white(rest[0]));
        assert(trim_start(rest) =~= rest);
    }
}

/// How many of the lines from `from` up to and with `i` are fence markers.
pub open spec fn markers_between(lines: Seq<LineModel>, from: int, i: int) -> nat
    decreases i - from + 1,
{
    if i < from {
        0
    } else {
        markers_between(lines, from, i - 1) + if fence_marker(lines[i].content) {
            1nat
        } else {
            0nat
        }
    }
}

/// Markers open and close in turn: in a run of adjacent lines with the same indentation and marker,
/// a line is flagged exactly where it is a fence marker or an odd number of them stands before it in
/// the run. Nothing but the flag of a line changes.
pub proof fn lemma_markers_take_turns(lines: Seq<LineModel>, from: int, i: int)
    requires
        0 <= from <= i < lines.len(),
        from > 0 ==> !(lines[from].idx == lines[from - 1].idx + 1 && lines[from].indent
            == lines[from - 1].indent && lines[from].prefix == lines[from - 1].prefix),
        forall|k: int, m: int|
            #![trigger lines[k], lines[m]]
            from <= k && m == k + 1 && m <= i ==> lines[m].idx == lines[k].idx + 1 && lines[m].indent
                == lines[k].indent && lines[m].prefix == lines[k].prefix,
    ensures
        with_fences(lines).len() == lines.len(),
        with_fences(lines)[i].in_fence <==> fence_marker(lines[i].content) || markers_between(
            lines,
            from,
            i - 1,
        ) % 2 == 1,
        with_fences(lines)[i].idx == lines[i].idx,
        with_fences(lines)[i].start == lines[i].start,
        with_fences(lines)[i].end == lines[i].end,
        with_fences(lines)[i].indent == lines[i].indent,
        with_fences(lines)[i].prefix == lines[i].prefix,
        with_fences(lines)[i].content == lines[i].content,
{
    lemma_open_by_turns(lines, from, i);
    if !fence_marker(lines[i].content) {
        assert(markers_between(lines, from, i) == markers_between(lines, from, i - 1));
    }
}

proof fn lemma_open_by_turns(lines: Seq<LineModel>, from: int, i: int)
    requires
        0 <= from <= i < lines.len(),
        from > 0 ==> !continues_run(lines[from - 1], lines[from]),
        forall|k: int, m: int|
            #![trigger lines[k], lines[m]]
            from <= k && m == k + 1 && m <= i ==> continues_run(lines[k], lines[m]),
    ensures
        fence_open(lines, i) <==> markers_between(lines, from, i) % 2 == 1,
    decreases i - from,
{
    if i > from {
        lemma_open_by_turns(lines, from, i - 1);
        assert(continues_run(lines[i - 1], lines[i]));
    } else {
        assert(markers_between(lines, from, from - 1) == 0);
    }
}

} // verus!
