//! Rewrites put into a source.

use vstd::prelude::*;
use vstd::string::StringSliceAdditionalSpecFns;
use vstd::utf8::{
    encode_utf8_valid_utf8, is_char_boundary, is_char_boundary_start_end_of_seq, valid_utf8,
};

use crate::comment_reflow::blocks::{
    block_end, block_rewrite, block_rewrites, lemma_block_end, rewrites, Replacement, Rewrite,
};
use crate::comment_reflow::lines::{
    lemma_end_boundary, lemma_start_boundary, lemma_starts, lemma_text_end, lines_fit, slice_at,
    starts, text_at, LineModel,
};

verus! {

/// Whether a rewrite replaces a run of `bytes` that cuts no character.
pub open spec fn rewrite_fits(bytes: Seq<u8>, rewrite: Rewrite) -> bool {
    &&& 0 <= rewrite.start <= rewrite.end <= bytes.len()
    &&& is_char_boundary(bytes, rewrite.start)
    &&& is_char_boundary(bytes, rewrite.end)
}

/// Whether every rewrite fits `bytes` and none reaches into the next.
pub open spec fn rewrites_fit(bytes: Seq<u8>, list: Seq<Rewrite>) -> bool {
    &&& forall|i: int| 0 <= i < list.len() ==> rewrite_fits(bytes, #[trigger] list[i])
    &&& forall|i: int, j: int| 0 <= i < j < list.len() ==> list[i].end <= list[j].start
}

/// The text of `bytes` from `cursor` on, with the rewrites in place of what they replace.
pub open spec fn spliced(bytes: Seq<u8>, list: Seq<Rewrite>, cursor: int) -> Seq<char>
    decreases list.len(),
{
    if list.len() == 0 {
        text_at(bytes, cursor, bytes.len() as int)
    } else {
        text_at(bytes, cursor, list[0].start) + list[0].text + spliced(
            bytes,
            list.drop_first(),
            list[0].end,
        )
    }
}

/// `source` with every replacement in place of its range.
pub fn apply_replacements(source: &str, replacements: &[Replacement]) -> (r: String)
    requires
        rewrites_fit(source.spec_bytes(), rewrites(replacements@)),
    ensures
        r@ == spliced(source.spec_bytes(), rewrites(replacements@), 0),
{
    let ghost bytes = source.spec_bytes();
    let ghost all = rewrites(replacements@);
    let mut output = String::new();
    let mut cursor: usize = 0;
    let mut i: usize = 0;
    proof {
        encode_utf8_valid_utf8(source@);
        is_char_boundary_start_end_of_seq(bytes);
        assert(all.skip(0) =~= all);
        assert(output@ + spliced(bytes, all, 0) =~= spliced(bytes, all, 0));
    }
    while i < replacements.len()
        invariant
            i <= replacements@.len(),
            bytes == source.spec_bytes(),
            all == rewrites(replacements@),
            rewrites_fit(bytes, all),
            cursor <= bytes.len(),
            is_char_boundary(bytes, cursor as int),
            forall|k: int| i <= k < all.len() ==> cursor <= (#[trigger] all[k]).start,
            output@ + spliced(bytes, all.skip(i as int), cursor as int) == spliced(bytes, all, 0),
        decreases replacements@.len() - i,
    {
        let replacement = &replacements[i];
        let ghost rest = all.skip(i as int);
        let ghost before = output@;
        assert(all[i as int] == replacement@);
        assert(rewrite_fits(bytes, all[i as int]));
        assert(rest[0] == replacement@);
        assert(rest.drop_first() =~= all.skip(i as int + 1));
        let kept = slice_at(source, cursor, replacement.range.start);
        output.append(kept);
        output.append(replacement.text.as_str());
        cursor = replacement.range.end;
        i = i + 1;
        proof {
            let tail = spliced(bytes, all.skip(i as int), cursor as int);
            assert(output@ + tail =~= before + (kept@ + replacement@.text + tail));
        }
    }
    proof {
        encode_utf8_valid_utf8(source@);
        is_char_boundary_start_end_of_seq(bytes);
        assert(all.skip(i as int).len() == 0);
    }
    let kept = slice_at(source, cursor, source.as_bytes().len());
    output.append(kept);
    output
}

/// What the rewrites of the paragraphs from `from` on replace: whole lines of the source, no
/// earlier than that line, none of them twice.
pub proof fn lemma_block_rewrites_fit(
    bytes: Seq<u8>,
    lines: Seq<LineModel>,
    from: int,
    width: int,
)
    requires
        valid_utf8(bytes),
        lines_fit(bytes, lines),
        0 <= from <= lines.len(),
    ensures
        rewrites_fit(bytes, block_rewrites(lines, from, width)),
        from < lines.len() ==> forall|i: int|
            0 <= i < block_rewrites(lines, from, width).len() ==> lines[from].start <= (
            #[trigger] block_rewrites(lines, from, width)[i]).start,
        from == lines.len() ==> block_rewrites(lines, from, width).len() == 0,
    decreases lines.len() - from,
{
    if from < lines.len() {
        let end = block_end(lines, from + 1);
        lemma_block_end(lines, from + 1);
        lemma_block_rewrites_fit(bytes, lines, end, width);
        lemma_starts(bytes);
        let block = lines.subrange(from, end);
        let first = lines[from];
        let last = lines[end - 1];
        assert(first.idx <= last.idx);
        lemma_text_end(bytes, last.idx);
        lemma_start_boundary(bytes, first.idx);
        lemma_end_boundary(bytes, last.idx);
        assert(starts(bytes)[first.idx] <= starts(bytes)[last.idx]);
        if end < lines.len() {
            let next = lines[end];
            assert(last.idx < next.idx);
            assert(starts(bytes)[last.idx + 1] <= starts(bytes)[next.idx]);
            assert(last.end < next.start);
            assert(first.start <= next.start);
        }
        if let Some(rewrite) = block_rewrite(block, width) {
            assert(rewrite.start == first.start);
            assert(rewrite.end == last.end);
        }
    }
}

/// Nothing but the rewritten runs changes: behind the rewrites so far, and up to the next, the text
/// stays, and so does what is behind the last.
pub proof fn lemma_text_around_rewrites_stays(
    bytes: Seq<u8>,
    list: Seq<Rewrite>,
    next: Rewrite,
    cursor: int,
)
    requires
        0 <= cursor <= next.start <= next.end <= bytes.len(),
        list.len() > 0 ==> cursor <= list[0].start,
        forall|i: int|
            0 <= i < list.len() ==> 0 <= (#[trigger] list[i]).start <= list[i].end <= next.start,
        forall|i: int, j: int| 0 <= i < j < list.len() ==> list[i].end <= list[j].start,
    ensures
        spliced(bytes, Seq::empty(), cursor) == text_at(bytes, cursor, bytes.len() as int),
        spliced(bytes, list.push(next), cursor) == spliced(bytes.take(next.start), list, cursor)
            + next.text + text_at(bytes, next.end, bytes.len() as int),
    decreases list.len(),
{
    let front = bytes.take(next.start);
    let all = list.push(next);
    if list.len() == 0 {
        assert(all.drop_first() =~= Seq::<Rewrite>::empty());
        assert(front.subrange(cursor, next.start) =~= bytes.subrange(cursor, next.start));
        assert(spliced(front, list, cursor) == text_at(bytes, cursor, next.start));
        assert(spliced(bytes, all.drop_first(), next.end) == text_at(
            bytes,
            next.end,
            bytes.len() as int,
        ));
        assert(spliced(bytes, all, cursor) =~= spliced(front, list, cursor) + next.text + text_at(
            bytes,
            next.end,
            bytes.len() as int,
        ));
    } else {
        let rest = list.drop_first();
        assert forall|i: int| 0 <= i < rest.len() implies 0 <= (#[trigger] rest[i]).start
            <= rest[i].end <= next.start by {
            assert(rest[i] == list[i + 1]);
        }
        lemma_text_around_rewrites_stays(bytes, rest, next, list[0].end);
        assert(all.drop_first() =~= rest.push(next));
        assert(all[0] == list[0]);
        assert(front.subrange(cursor, list[0].start) =~= bytes.subrange(cursor, list[0].start));
        assert(spliced(bytes, all, cursor) =~= spliced(front, list, cursor) + next.text + text_at(
            bytes,
            next.end,
            bytes.len() as int,
        ));
    }
}

} // verus!
