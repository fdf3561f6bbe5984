//! Tagged notes such as `TODO:` and `SAFETY:`.
//!
//! A tagged note is a paragraph of its own: merged into the prose before it, its tag would end up
//! in the middle of a line, where neither a reader nor a scanner for tags finds it.

use vstd::prelude::*;
use vstd::slice::slice_subrange;

use crate::text::{
    all_white, chars_of, is_white, lemma_trim_end, lemma_trim_start, lemma_trim_start_skip,
    no_white, starts_with, str_trim, str_trim_start, trim, trim_start,
};

verus! {

/// The tags that open a note.
pub open spec fn note_tags() -> Seq<Seq<char>> {
    seq![
        "FIXME"@,
        "HACK"@,
        "INVARIANT"@,
        "NOTE"@,
        "PANIC"@,
        "SAFETY"@,
        "TODO"@,
        "WARNING"@,
        "XXX"@,
    ]
}

/// Whether `rest` is what may stand behind a tag: a colon, or an owner in parentheses, which the
/// first closing parenthesis ends, and a colon.
pub open spec fn closes_tag(rest: Seq<char>) -> bool {
    if rest.len() > 0 && rest[0] == '(' {
        exists|k: int|
            1 <= k && k + 1 < rest.len() && #[trigger] rest[k] == ')' && rest[k + 1] == ':' && (
            forall|j: int| 1 <= j < k ==> rest[j] != ')')
    } else {
        rest.len() > 0 && rest[0] == ':'
    }
}

/// Whether `text` begins with `tag` as the tag of a note.
pub open spec fn opens_note(text: Seq<char>, tag: Seq<char>) -> bool {
    tag.is_prefix_of(text) && closes_tag(text.skip(tag.len() as int))
}

/// Whether the comment line `content` opens a tagged note, as `TODO:` or `TODO(owner):`.
pub open spec fn is_tagged_note(content: Seq<char>) -> bool {
    exists|i: int|
        0 <= i < note_tags().len() && opens_note(trim_start(content), #[trigger] note_tags()[i])
}

/// Whether `rest` may stand behind a tag.
fn ends_tag(rest: &[char]) -> (r: bool)
    ensures
        r == closes_tag(rest@),
{
    if rest.len() == 0 {
        return false;
    }
    if rest[0] != '(' {
        return rest[0] == ':';
    }
    let mut k: usize = 1;
    while k < rest.len() && rest[k] != ')'
        invariant
            1 <= k <= rest@.len(),
            forall|j: int| 1 <= j < k ==> rest@[j] != ')',
        decreases rest@.len() - k,
    {
        k = k + 1;
    }
    if k == rest.len() {
        return false;
    }
    assert(rest@[k as int] == ')');
    k < rest.len() - 1 && rest[k + 1] == ':'
}

/// Whether `text` begins with `tag` as the tag of a note.
fn begins_note(text: &[char], tag: &str) -> (r: bool)
    ensures
        r == opens_note(text@, tag@),
{
    if !starts_with(text, tag) {
        return false;
    }
    let rest = slice_subrange(text, tag.unicode_len(), text.len());
    assert(rest@ =~= text@.skip(tag@.len() as int));
    ends_tag(rest)
}

/// Whether the comment line `content` opens a tagged note.
pub fn starts_tagged_note(content: &str) -> (r: bool)
    ensures
        r == is_tagged_note(content@),
{
    let text = chars_of(str_trim_start(content));
    let found = begins_note(&text, "FIXME") || begins_note(&text, "HACK") || begins_note(
        &text,
        "INVARIANT",
    ) || begins_note(&text, "NOTE") || begins_note(&text, "PANIC") || begins_note(&text, "SAFETY")
        || begins_note(&text, "TODO") || begins_note(&text, "WARNING") || begins_note(&text, "XXX");
    proof {
        let tags = note_tags();
        let t = trim_start(content@);
        assert(tags[0] == "FIXME"@ && tags[1] == "HACK"@ && tags[2] == "INVARIANT"@);
        assert(tags[3] == "NOTE"@ && tags[4] == "PANIC"@ && tags[5] == "SAFETY"@);
        assert(tags[6] == "TODO"@ && tags[7] == "WARNING"@ && tags[8] == "XXX"@);
        if is_tagged_note(content@) {
            let i = choose|i: int| 0 <= i < tags.len() && opens_note(t, #[trigger] tags[i]);
            assert(i == 0 || i == 1 || i == 2 || i == 3 || i == 4 || i == 5 || i == 6 || i == 7 || i
                == 8);
        }
    }
    found
}

/// Whether a comment line has no text behind its marker.
pub open spec fn is_blank(content: Seq<char>) -> bool {
    trim(content).len() == 0
}

/// Whether the comment line `content` has no text behind its marker.
///
/// Such a line separates paragraphs: it is a block of its own, which stays as it is.
pub fn is_empty_comment(content: &str) -> (r: bool)
    ensures
        r == is_blank(content@),
{
    str_trim(content).is_empty()
}

/// A tag is a single word.
pub proof fn lemma_tag_is_a_word(i: int)
    requires
        0 <= i < note_tags().len(),
    ensures
        no_white(note_tags()[i]),
{
    reveal_strlit("FIXME");
    reveal_strlit("HACK");
    reveal_strlit("INVARIANT");
    reveal_strlit("NOTE");
    reveal_strlit("PANIC");
    reveal_strlit("SAFETY");
    reveal_strlit("TODO");
    reveal_strlit("WARNING");
    reveal_strlit("XXX");
    let tag = note_tags()[i];
    assert forall|k: int| 0 <= k < tag.len() implies !is_white(#[trigger] tag[k]) by {
        assert(i == 0 || i == 1 || i == 2 || i == 3 || i == 4 || i == 5 || i == 6 || i == 7 || i
            == 8);
        assert('A' <= tag[k] && tag[k] <= 'Z');
    }
}

/// The nine words that open a note.
pub open spec fn is_tag(tag: Seq<char>) -> bool {
    tag == "FIXME"@ || tag == "HACK"@ || tag == "INVARIANT"@ || tag == "NOTE"@ || tag == "PANIC"@
        || tag == "SAFETY"@ || tag == "TODO"@ || tag == "WARNING"@ || tag == "XXX"@
}

/// A line is a note exactly where it is white space, one of nine tags, and a colon with anything
/// behind it, or an owner in parentheses between the tag and the colon.
pub proof fn lemma_notes_are_tagged(content: Seq<char>)
    ensures
        is_tagged_note(content) <==> exists|lead: Seq<char>, tag: Seq<char>, rest: Seq<char>|
            all_white(lead) && is_tag(tag) && closes_tag(rest) && content == #[trigger] (lead + tag
                + rest),
{
    let body = trim_start(content);
    lemma_trim_start(content);
    let cut = content.len() - body.len();
    let tags = note_tags();
    if is_tagged_note(content) {
        let i = choose|i: int| 0 <= i < tags.len() && opens_note(body, #[trigger] tags[i]);
        let tag = tags[i];
        let lead = content.take(cut);
        let rest = body.skip(tag.len() as int);
        assert(is_tag(tag)) by {
            assert(i == 0 || i == 1 || i == 2 || i == 3 || i == 4 || i == 5 || i == 6 || i == 7 || i
                == 8);
        }
        assert(body.subrange(0, tag.len() as int) == tag);
        assert(body =~= tag + rest);
        assert(content =~= lead + tag + rest);
    }
    if exists|lead: Seq<char>, tag: Seq<char>, rest: Seq<char>|
        all_white(lead) && is_tag(tag) && closes_tag(rest) && content == #[trigger] (lead + tag
            + rest) {
        let (lead, tag, rest): (Seq<char>, Seq<char>, Seq<char>) = choose|
            lead: Seq<char>,
            tag: Seq<char>,
            rest: Seq<char>,
        |
            all_white(lead) && is_tag(tag) && closes_tag(rest) && content == #[trigger] (lead + tag
                + rest);
        lemma_tag_opens_note(lead, tag, rest);
    }
}

proof fn lemma_tag_opens_note(lead: Seq<char>, tag: Seq<char>, rest: Seq<char>)
    requires
        all_white(lead),
        is_tag(tag),
        closes_tag(rest),
    ensures
        is_tagged_note(lead + tag + rest),
{
    let content = lead + tag + rest;
    let n = lead.len() as int;
    let text = tag + rest;
    lemma_tag_is_listed(tag);
    assert(content.take(n) =~= lead);
    assert(content.skip(n) =~= text);
    lemma_trim_start_skip(content, n);
    assert(text[0] == tag[0]);
    assert(trim_start(text) =~= text);
    assert(text.subrange(0, tag.len() as int) =~= tag);
    assert(text.skip(tag.len() as int) =~= rest);
    let tags = note_tags();
    let i = choose|i: int| 0 <= i < tags.len() && tag == #[trigger] tags[i];
    assert(opens_note(trim_start(content), tags[i]));
}

proof fn lemma_tag_is_listed(tag: Seq<char>)
    requires
        is_tag(tag),
    ensures
        tag.len() > 0,
        !is_white(tag[0]),
        exists|i: int| 0 <= i < note_tags().len() && tag == #[trigger] note_tags()[i],
{
    let tags = note_tags();
    reveal_strlit("FIXME");
    reveal_strlit("HACK");
    reveal_strlit("INVARIANT");
    reveal_strlit("NOTE");
    reveal_strlit("PANIC");
    reveal_strlit("SAFETY");
    reveal_strlit("TODO");
    reveal_strlit("WARNING");
    reveal_strlit("XXX");
    if tag == "FIXME"@ {
        assert(tag == tags[0]);
    } else if tag == "HACK"@ {
        assert(tag == tags[1]);
    } else if tag == "INVARIANT"@ {
        assert(tag == tags[2]);
    } else if tag == "NOTE"@ {
        assert(tag == tags[3]);
    } else if tag == "PANIC"@ {
        assert(tag == tags[4]);
    } else if tag == "SAFETY"@ {
        assert(tag == tags[5]);
    } else if tag == "TODO"@ {
        assert(tag == tags[6]);
    } else if tag == "WARNING"@ {
        assert(tag == tags[7]);
    } else {
        assert(tag == tags[8]);
    }
}

/// What stands behind a tag is a colon, or an owner without a closing parenthesis, however long, in
/// parentheses, and a colon.
pub proof fn lemma_tags_are_closed(rest: Seq<char>)
    ensures
        closes_tag(rest) <==> (exists|more: Seq<char>| rest == #[trigger] (seq![':'] + more)) || (
        exists|owner: Seq<char>, more: Seq<char>|
            !owner.contains(')') && rest == #[trigger] (seq!['('] + owner + seq![')'] + (seq![':']
                + more))),
{
    if closes_tag(rest) {
        if rest[0] == '(' {
            let k = choose|k: int|
                1 <= k && k + 1 < rest.len() && #[trigger] rest[k] == ')' && rest[k + 1] == ':' && (
                forall|j: int| 1 <= j < k ==> rest[j] != ')');
            let owner = rest.subrange(1, k);
            let more = rest.skip(k + 2);
            assert(!owner.contains(')')) by {
                assert forall|j: int| 0 <= j < owner.len() implies owner[j] != ')' by {
                    assert(owner[j] == rest[j + 1]);
                }
            }
            assert(rest =~= seq!['('] + owner + seq![')'] + (seq![':'] + more));
        } else {
            assert(rest =~= seq![':'] + rest.skip(1));
        }
    }
    if exists|owner: Seq<char>, more: Seq<char>|
        !owner.contains(')') && rest == #[trigger] (seq!['('] + owner + seq![')'] + (seq![':']
            + more)) {
        let (owner, more): (Seq<char>, Seq<char>) = choose|owner: Seq<char>, more: Seq<char>|
            !owner.contains(')') && rest == #[trigger] (seq!['('] + owner + seq![')'] + (seq![':']
                + more));
        let k = owner.len() as int + 1;
        assert(rest[k] == ')' && rest[k + 1] == ':');
        assert forall|j: int| 1 <= j < k implies rest[j] != ')' by {
            assert(rest[j] == owner[j - 1]);
            assert(owner.contains(owner[j - 1]));
        }
    }
}

/// A line is blank exactly where it holds white space alone, or nothing.
pub proof fn lemma_blank_lines(content: Seq<char>)
    ensures
        is_blank(content) <==> forall|i: int|
            0 <= i < content.len() ==> is_white(#[trigger] content[i]),
{
    let front = trim_start(content);
    lemma_trim_start(content);
    lemma_trim_end(front);
    let cut = content.len() - front.len();
    if is_blank(content) {
        if front.len() > 0 {
            assert(front.skip(0) =~= front);
            assert(is_white(front.skip(0)[0]));
        }
        assert forall|i: int| 0 <= i < content.len() implies is_white(#[trigger] content[i]) by {
            assert(content.take(cut)[i] == content[i]);
        }
    }
    if forall|i: int| 0 <= i < content.len() ==> is_white(#[trigger] content[i]) {
        if front.len() > 0 {
            assert(front[0] == content[cut]);
        }
    }
}

} // verus!
