//! Which comment lines are plain prose.
//!
//! A line whose layout may carry meaning, as a list, a table, a link or a rule does in Markdown,
//! is not prose, and a block with such a line is left alone.

use vstd::prelude::*;
use vstd::slice::slice_subrange;

use crate::text::{
    all_white, chars_of, contains_char, contains_pair, has_pair, is_white, is_whitespace,
    lemma_trim_end_take, no_white, starts_with, str_trim_end, trim_end,
};

verus! {

/// Whether `text` holds a tab or two spaces in a row.
pub open spec fn spaced(text: Seq<char>) -> bool {
    text.contains('\t') || has_pair(text, ' ', ' ')
}

/// Whether `text` holds a tab or two spaces in a row, which often mean alignment.
pub fn has_intentional_spacing(text: &str) -> (r: bool)
    ensures
        r == spaced(text@),
{
    let chars = chars_of(text);
    contains_char(&chars, '\t') || contains_pair(&chars, ' ', ' ')
}

/// Whether `c` is a decimal digit of ASCII.
pub open spec fn is_digit(c: char) -> bool {
    '0' <= c <= '9'
}

/// Whether `text` begins as an item of a list: a bullet and a space, or a number, a dot or closing
/// parenthesis, and white space.
pub open spec fn list_item(text: Seq<char>) -> bool {
    ||| text.len() >= 2 && (text[0] == '-' || text[0] == '*' || text[0] == '+') && text[1] == ' '
    ||| exists|n: int|
        0 < n && n + 1 < text.len() && (#[trigger] text[n] == '.' || text[n] == ')') && is_white(
            text[n + 1],
        ) && (forall|i: int| 0 <= i < n ==> is_digit(#[trigger] text[i]))
}

/// Whether `trimmed` begins as an item of a list.
pub fn is_list_item(trimmed: &str) -> (r: bool)
    ensures
        r == list_item(trimmed@),
{
    let text = chars_of(trimmed);
    if text.len() < 2 {
        return false;
    }
    if (text[0] == '-' || text[0] == '*' || text[0] == '+') && text[1] == ' ' {
        return true;
    }
    let mut n: usize = 0;
    while n < text.len() && '0' <= text[n] && text[n] <= '9'
        invariant
            n <= text@.len(),
            forall|i: int| 0 <= i < n ==> is_digit(#[trigger] text@[i]),
        decreases text@.len() - n,
    {
        n = n + 1;
    }
    let found = n > 0 && n < text.len() - 1 && (text[n] == '.' || text[n] == ')') && is_whitespace(
        text[n + 1],
    );
    proof {
        if list_item(trimmed@) {
            let m = choose|m: int|
                0 < m && m + 1 < text@.len() && (#[trigger] text@[m] == '.' || text@[m] == ')')
                    && is_white(text@[m + 1]) && (forall|i: int|
                    0 <= i < m ==> is_digit(#[trigger] text@[i]));
            assert(!is_digit(text@[m]));
            if n < m {
                assert(is_digit(text@[n as int]));
            }
            assert(n == m);
        }
        if found {
            assert(text@[n as int] == '.' || text@[n as int] == ')');
        }
    }
    found
}

/// Whether a space, a bar and a space follow each other in `text`.
pub open spec fn has_cell_border(text: Seq<char>) -> bool {
    exists|i: int|
        0 <= i && i + 2 < text.len() && #[trigger] text[i] == ' ' && text[i + 1] == '|' && text[i
            + 2] == ' '
}

/// Whether `text` looks like a row of a table.
pub open spec fn table_row(text: Seq<char>) -> bool {
    ||| text.len() > 0 && text[0] == '|'
    ||| text.len() > 0 && text.last() == '|'
    ||| has_cell_border(text)
}

/// Whether `trimmed` looks like a row of a table.
pub fn is_table_row(trimmed: &str) -> (r: bool)
    ensures
        r == table_row(trimmed@),
{
    let text = chars_of(trimmed);
    if text.len() == 0 {
        return false;
    }
    if text[0] == '|' || text[text.len() - 1] == '|' {
        return true;
    }
    if text.len() < 3 {
        return false;
    }
    let last: usize = text.len() - 2;
    let mut i: usize = 0;
    while i < last
        invariant
            i <= last,
            text@ == trimmed@,
            last + 2 == text.len(),
            forall|j: int|
                0 <= j < i ==> !(#[trigger] text@[j] == ' ' && text@[j + 1] == '|' && text@[j + 2]
                    == ' '),
        decreases last - i,
    {
        if text[i] == ' ' && text[i + 1] == '|' && text[i + 2] == ' ' {
            assert(text@[i as int] == ' ');
            return true;
        }
        i = i + 1;
    }
    false
}

/// `text` without one pair of angle brackets around it.
pub open spec fn unbracketed(text: Seq<char>) -> Seq<char> {
    if text.len() >= 2 && text[0] == '<' && text.last() == '>' {
        text.subrange(1, text.len() - 1)
    } else {
        text
    }
}

/// Whether `text` is a web address and nothing else, in angle brackets or not.
pub open spec fn url_only(text: Seq<char>) -> bool {
    let address = unbracketed(text);
    ("http://"@.is_prefix_of(address) || "https://"@.is_prefix_of(address)) && no_white(address)
}

/// Whether `trimmed` is a web address and nothing else.
pub fn is_url_only(trimmed: &str) -> (r: bool)
    ensures
        r == url_only(trimmed@),
{
    let text = chars_of(trimmed);
    let bracketed = text.len() >= 2 && text[0] == '<' && text[text.len() - 1] == '>';
    let address = if bracketed {
        slice_subrange(text.as_slice(), 1, text.len() - 1)
    } else {
        text.as_slice()
    };
    assert(address@ == unbracketed(trimmed@));
    if !(starts_with(address, "http://") || starts_with(address, "https://")) {
        return false;
    }
    let mut i: usize = 0;
    while i < address.len()
        invariant
            i <= address@.len(),
            address@ == unbracketed(trimmed@),
            forall|j: int| 0 <= j < i ==> !is_white(#[trigger] address@[j]),
        decreases address@.len() - i,
    {
        if is_whitespace(address[i]) {
            assert(is_white(address@[i as int]));
            return false;
        }
        i = i + 1;
    }
    true
}

/// Whether `text` looks like the definition of a link, `[name]: address`.
pub open spec fn link_reference(text: Seq<char>) -> bool {
    text.len() > 0 && text[0] == '[' && has_pair(text, ']', ':')
}

/// Whether `trimmed` looks like the definition of a link.
pub fn is_link_reference(trimmed: &str) -> (r: bool)
    ensures
        r == link_reference(trimmed@),
{
    let text = chars_of(trimmed);
    text.len() > 0 && text[0] == '[' && contains_pair(&text, ']', ':')
}

/// Whether `text` opens or closes a fenced code block.
pub open spec fn opens_fence(text: Seq<char>) -> bool {
    "```"@.is_prefix_of(text) || "~~~"@.is_prefix_of(text)
}

/// Whether `text` is a structure of Markdown that changes its meaning when lines are merged.
pub open spec fn markdown_sensitive(text: Seq<char>) -> bool {
    ||| opens_fence(text)
    ||| text.len() > 0 && (text[0] == '#' || text[0] == '>')
    ||| list_item(text)
    ||| table_row(text)
    ||| url_only(text)
    ||| link_reference(text)
}

/// Whether `trimmed` is a structure of Markdown that changes its meaning when lines are merged.
pub fn is_markdown_sensitive(trimmed: &str) -> (r: bool)
    ensures
        r == markdown_sensitive(trimmed@),
{
    let text = chars_of(trimmed);
    starts_with(&text, "```") || starts_with(&text, "~~~") || (text.len() > 0 && (text[0] == '#'
        || text[0] == '>')) || is_list_item(trimmed) || is_table_row(trimmed) || is_url_only(
        trimmed,
    ) || is_link_reference(trimmed)
}

/// Whether `c` is a punctuation character of ASCII.
pub open spec fn is_punctuation(c: char) -> bool {
    '!' <= c <= '/' || ':' <= c <= '@' || '[' <= c <= '`' || '{' <= c <= '~'
}

/// Whether `text` is one punctuation character three times or more, as a section divider is.
pub open spec fn repeated_separator(text: Seq<char>) -> bool {
    text.len() >= 3 && is_punctuation(text[0]) && (forall|i: int|
        0 <= i < text.len() ==> #[trigger] text[i] == text[0])
}

/// Whether `trimmed` is one punctuation character three times or more.
pub fn is_repeated_separator(trimmed: &str) -> (r: bool)
    ensures
        r == repeated_separator(trimmed@),
{
    let text = chars_of(trimmed);
    if text.len() < 3 {
        return false;
    }
    let separator: char = text[0];
    let punctuation = ('!' <= separator && separator <= '/') || (':' <= separator && separator
        <= '@') || ('[' <= separator && separator <= '`') || ('{' <= separator && separator <= '~');
    if !punctuation {
        return false;
    }
    let mut i: usize = 1;
    while i < text.len()
        invariant
            1 <= i <= text@.len(),
            text@ == trimmed@,
            separator == text@[0],
            forall|j: int| 0 <= j < i ==> #[trigger] text@[j] == text@[0],
        decreases text@.len() - i,
    {
        if text[i] != separator {
            assert(text@[i as int] != text@[0]);
            return false;
        }
        i = i + 1;
    }
    true
}

/// `content` without the one space that separates it from its marker, and without trailing space.
pub open spec fn line_text(content: Seq<char>) -> Seq<char> {
    if content.len() > 0 && content[0] == ' ' {
        trim_end(content.skip(1))
    } else {
        trim_end(content)
    }
}

/// Whether `text` is plain prose: not empty, not indented, without spacing that was meant, and
/// neither a structure of Markdown nor a divider.
pub open spec fn is_prose(text: Seq<char>) -> bool {
    &&& text.len() > 0
    &&& !is_white(text[0])
    &&& !spaced(text)
    &&& !markdown_sensitive(text)
    &&& !repeated_separator(text)
}

/// The text of a comment line where it is plain prose, and nothing otherwise.
pub open spec fn prose(content: Seq<char>) -> Option<Seq<char>> {
    if is_prose(line_text(content)) {
        Some(line_text(content))
    } else {
        None
    }
}

/// The text of the comment line `content` where it is plain prose.
pub fn safe_comment_text(content: &str) -> (r: Option<&str>)
    ensures
        match r {
            Some(text) => prose(content@) == Some(text@),
            None => prose(content@) is None,
        },
{
    let chars = chars_of(content);
    let stripped = if chars.len() > 0 && chars[0] == ' ' {
        assert(content@.subrange(1, content@.len() as int) =~= content@.skip(1));
        content.substring_char(1, chars.len())
    } else {
        content
    };
    let text = str_trim_end(stripped);
    let text_chars = chars_of(text);
    if text_chars.len() == 0 || is_whitespace(text_chars[0]) || has_intentional_spacing(text) {
        return None;
    }
    if is_markdown_sensitive(text) || is_repeated_separator(text) {
        return None;
    }
    Some(text)
}

/// Two characters as a text.
pub open spec fn two(first: char, second: char) -> Seq<char> {
    seq![first, second]
}

/// Three characters as a text.
pub open spec fn three(first: char, second: char, third: char) -> Seq<char> {
    seq![first, second, third]
}

/// Two spaces in a row, or a tab, are spacing, and nothing else is.
pub proof fn lemma_spacing(text: Seq<char>)
    ensures
        spaced(text) <==> text.contains('\t') || exists|a: Seq<char>, b: Seq<char>|
            text == #[trigger] (a + two(' ', ' ') + b),
{
    lemma_pair(text, ' ', ' ');
}

/// Two characters follow each other in a text exactly where it is made of something, the two, and
/// something.
proof fn lemma_pair(text: Seq<char>, x: char, y: char)
    ensures
        has_pair(text, x, y) <==> exists|a: Seq<char>, b: Seq<char>|
            text == #[trigger] (a + two(x, y) + b),
{
    if has_pair(text, x, y) {
        let i = choose|i: int|
            0 <= i && i + 1 < text.len() && #[trigger] text[i] == x && text[i + 1] == y;
        assert(text =~= text.take(i) + two(x, y) + text.skip(i + 2));
    }
    if exists|a: Seq<char>, b: Seq<char>| text == #[trigger] (a + two(x, y) + b) {
        let (a, b): (Seq<char>, Seq<char>) = choose|a: Seq<char>, b: Seq<char>|
            text == #[trigger] (a + two(x, y) + b);
        let i = a.len() as int;
        assert(text[i] == x && text[i + 1] == y);
    }
}

/// An item of a list is a bullet and a space, or a number of however many digits, a dot or a closing
/// parenthesis, and white space, with anything behind.
pub proof fn lemma_list_items(text: Seq<char>)
    ensures
        list_item(text) <==> (exists|bullet: char, rest: Seq<char>|
            (bullet == '-' || bullet == '*' || bullet == '+') && text == #[trigger] (two(bullet, ' ') + rest)) || exists|digits: Seq<char>, mark: char, gap: char, rest: Seq<char>|
            digits.len() > 0 && (forall|i: int|
                0 <= i < digits.len() ==> '0' <= #[trigger] digits[i] && digits[i] <= '9') && (mark
                == '.' || mark == ')') && is_white(gap) && text == #[trigger] (digits + two(mark, gap) + rest),
{
    if text.len() >= 2 && (text[0] == '-' || text[0] == '*' || text[0] == '+') && text[1] == ' ' {
        assert(text =~= two(text[0], ' ') + text.skip(2));
    }
    if exists|n: int|
        0 < n && n + 1 < text.len() && (#[trigger] text[n] == '.' || text[n] == ')') && is_white(
            text[n + 1],
        ) && (forall|i: int| 0 <= i < n ==> is_digit(#[trigger] text[i])) {
        let n = choose|n: int|
            0 < n && n + 1 < text.len() && (#[trigger] text[n] == '.' || text[n] == ')')
                && is_white(text[n + 1]) && (forall|i: int|
                0 <= i < n ==> is_digit(#[trigger] text[i]));
        let digits = text.take(n);
        assert forall|i: int| 0 <= i < digits.len() implies '0' <= #[trigger] digits[i] && digits[i]
            <= '9' by {
            assert(is_digit(text[i]));
        }
        assert(text =~= digits + two(text[n], text[n + 1]) + text.skip(n + 2));
    }
    if exists|bullet: char, rest: Seq<char>|
        (bullet == '-' || bullet == '*' || bullet == '+') && text == #[trigger] (two(bullet, ' ')
            + rest) {
        let (bullet, rest): (char, Seq<char>) = choose|bullet: char, rest: Seq<char>|
            (bullet == '-' || bullet == '*' || bullet == '+') && text == #[trigger] (two(bullet, ' ') + rest);
        assert(text[0] == bullet && text[1] == ' ');
    }
    if exists|digits: Seq<char>, mark: char, gap: char, rest: Seq<char>|
        digits.len() > 0 && (forall|i: int|
            0 <= i < digits.len() ==> '0' <= #[trigger] digits[i] && digits[i] <= '9') && (mark
            == '.' || mark == ')') && is_white(gap) && text == #[trigger] (digits + two(mark, gap)
            + rest) {
        let (digits, mark, gap, rest): (Seq<char>, char, char, Seq<char>) = choose|
            digits: Seq<char>,
            mark: char,
            gap: char,
            rest: Seq<char>,
        |
            digits.len() > 0 && (forall|i: int|
                0 <= i < digits.len() ==> '0' <= #[trigger] digits[i] && digits[i] <= '9') && (mark
                == '.' || mark == ')') && is_white(gap) && text == #[trigger] (digits + two(mark, gap) + rest);
        let n = digits.len() as int;
        assert(text[n] == mark && text[n + 1] == gap);
        assert forall|i: int| 0 <= i < n implies is_digit(#[trigger] text[i]) by {
            assert(text[i] == digits[i]);
        }
    }
}

/// A row of a table begins or ends with a bar, or has one between spaces somewhere.
pub proof fn lemma_table_rows(text: Seq<char>)
    ensures
        table_row(text) <==> (exists|rest: Seq<char>| text == #[trigger] (seq!['|'] + rest)) || (
        exists|front: Seq<char>| text == #[trigger] (front + seq!['|'])) || exists|
            a: Seq<char>,
            b: Seq<char>,
        |
            text == #[trigger] (a + three(' ', '|', ' ') + b),
{
    if text.len() > 0 && text[0] == '|' {
        assert(text =~= seq!['|'] + text.skip(1));
    }
    if text.len() > 0 && text.last() == '|' {
        assert(text =~= text.drop_last() + seq!['|']);
    }
    if has_cell_border(text) {
        let i = choose|i: int|
            0 <= i && i + 2 < text.len() && #[trigger] text[i] == ' ' && text[i + 1] == '|' && text[i
                + 2] == ' ';
        assert(text =~= text.take(i) + three(' ', '|', ' ') + text.skip(i + 3));
    }
    if exists|a: Seq<char>, b: Seq<char>| text == #[trigger] (a + three(' ', '|', ' ') + b) {
        let (a, b): (Seq<char>, Seq<char>) = choose|a: Seq<char>, b: Seq<char>|
            text == #[trigger] (a + three(' ', '|', ' ') + b);
        let i = a.len() as int;
        assert(text[i] == ' ' && text[i + 1] == '|' && text[i + 2] == ' ');
    }
}

/// A link that stands alone is `http://` or `https://` and anything without white space behind it,
/// with or without angle brackets around it.
pub proof fn lemma_urls(text: Seq<char>)
    ensures
        url_only(text) <==> exists|rest: Seq<char>|
            no_white(rest) && (text == #[trigger] ("http://"@ + rest)
                || text == "https://"@ + rest || text == seq!['<']
                + ("http://"@ + rest) + seq!['>'] || text == seq!['<']
                + ("https://"@ + rest) + seq!['>']),
{
    reveal_strlit("http://");
    reveal_strlit("https://");
    let plain = "http://"@;
    let safe = "https://"@;
    assert("http://"@ =~= plain);
    assert("https://"@ =~= safe);
    assert forall|c: char| plain.contains(c) || safe.contains(c) implies !is_white(c) by {}
    if url_only(text) {
        let address = unbracketed(text);
        let head = if plain.is_prefix_of(address) {
            plain
        } else {
            safe
        };
        let rest = address.skip(head.len() as int);
        assert(address =~= head + rest) by {
            assert(address.subrange(0, head.len() as int) == head);
        }
        assert(no_white(rest)) by {
            assert forall|i: int| 0 <= i < rest.len() implies !is_white(#[trigger] rest[i]) by {
                assert(rest[i] == address[head.len() + i]);
            }
        }
        assert(text == head + rest || text == seq!['<'] + (head + rest) + seq!['>']) by {
            if text.len() >= 2 && text[0] == '<' && text.last() == '>' {
                assert(text =~= seq!['<'] + address + seq!['>']);
            }
        }
        assert(plain + rest == plain + rest);
    }
    if exists|rest: Seq<char>|
        no_white(rest) && (text == #[trigger] (plain + rest) || text == safe + rest || text
            == seq!['<'] + (plain + rest) + seq!['>'] || text == seq!['<'] + (safe + rest)
            + seq!['>']) {
        let rest = choose|rest: Seq<char>|
            no_white(rest) && (text == #[trigger] (plain + rest) || text == safe + rest || text
                == seq!['<'] + (plain + rest) + seq!['>'] || text == seq!['<'] + (safe + rest)
                + seq!['>']);
        let head = if text == plain + rest || text == seq!['<'] + (plain + rest) + seq!['>'] {
            plain
        } else {
            safe
        };
        let address = head + rest;
        assert(unbracketed(text) =~= address);
        assert(head.is_prefix_of(address)) by {
            assert(address.subrange(0, head.len() as int) =~= head);
        }
        assert(no_white(address)) by {
            assert forall|i: int| 0 <= i < address.len() implies !is_white(
                #[trigger] address[i],
            ) by {
                if i < head.len() {
                    assert(head.contains(head[i]));
                } else {
                    assert(address[i] == rest[i - head.len()]);
                }
            }
        }
    }
}

/// The definition of a link begins with a bracket, and a closing one with a colon follows somewhere.
pub proof fn lemma_link_definitions(text: Seq<char>)
    ensures
        link_reference(text) <==> (exists|rest: Seq<char>| text == #[trigger] (seq!['['] + rest))
            && exists|a: Seq<char>, b: Seq<char>| text == #[trigger] (a + two(']', ':') + b),
{
    lemma_pair(text, ']', ':');
    if text.len() > 0 && text[0] == '[' {
        assert(text =~= seq!['['] + text.skip(1));
    }
}

/// A fence is three backticks or three tildes, with anything behind.
pub proof fn lemma_fences(text: Seq<char>)
    ensures
        opens_fence(text) <==> exists|rest: Seq<char>|
            text == #[trigger] (three('`', '`', '`') + rest) || text == three('~', '~', '~') + rest,
{
    reveal_strlit("```");
    reveal_strlit("~~~");
    let ticks = three('`', '`', '`');
    let tildes = three('~', '~', '~');
    assert("```"@ =~= ticks);
    assert("~~~"@ =~= tildes);
    if ticks.is_prefix_of(text) {
        assert(text.subrange(0, 3) == ticks);
        assert(text =~= ticks + text.skip(3));
    }
    if tildes.is_prefix_of(text) {
        assert(text.subrange(0, 3) == tildes);
        assert(text =~= tildes + text.skip(3));
        assert(ticks + text.skip(3) == ticks + text.skip(3));
    }
    if exists|rest: Seq<char>| text == #[trigger] (ticks + rest) || text == tildes + rest {
        let rest = choose|rest: Seq<char>| text == #[trigger] (ticks + rest) || text == tildes
            + rest;
        if text == ticks + rest {
            assert(text.subrange(0, 3) =~= ticks);
        } else {
            assert(text.subrange(0, 3) =~= tildes);
        }
    }
}

/// A divider is three or more times the same printable character of ASCII that is neither a letter
/// nor a digit.
pub proof fn lemma_dividers(text: Seq<char>)
    ensures
        repeated_separator(text) <==> text.len() >= 3 && (forall|i: int, j: int|
            0 <= i < j < text.len() ==> text[i] == text[j]) && '!' <= text[1] && text[1] <= '~' && !(
        '0' <= text[1] && text[1] <= '9') && !('A' <= text[1] && text[1] <= 'Z') && !('a' <= text[1]
            && text[1] <= 'z'),
{
    if text.len() >= 3 && (forall|i: int, j: int| 0 <= i < j < text.len() ==> text[i] == text[j]) {
        assert(text[0] == text[1]);
        assert forall|i: int| 0 <= i < text.len() implies #[trigger] text[i] == text[0] by {
            if i > 0 {
                assert(text[0] == text[i]);
            }
        }
    }
    if repeated_separator(text) {
        assert(text[1] == text[0]);
    }
}

/// What stands behind the marker is taken without one space in front and without the white space
/// behind: `text` is the text of a line that holds it behind a space, or right behind the marker.
pub proof fn lemma_text_of_a_line(text: Seq<char>, trail: Seq<char>)
    requires
        text.len() > 0 ==> !is_white(text.last()),
        all_white(trail),
    ensures
        line_text(seq![' '] + text + trail) == text,
        text.len() > 0 && text[0] != ' ' ==> line_text(text + trail) == text,
{
    let body = text + trail;
    let n = text.len() as int;
    assert((seq![' '] + text + trail).skip(1) =~= body);
    assert(body.take(n) =~= text);
    assert(all_white(body.skip(n))) by {
        assert(body.skip(n) =~= trail);
    }
    if n > 0 {
        assert(body[n - 1] == text.last());
    }
    lemma_trim_end_take(body, n);
}

/// A line is prose exactly where its text begins with something other than white space and has none
/// of these: spacing that was meant, a fence, a heading, a quotation, an item of a list, a row of a
/// table, a link that stands alone, the definition of a link, a divider. How long it is does not
/// matter. What is taken of it is its text.
pub proof fn lemma_prose_is_what_has_no_layout(content: Seq<char>)
    ensures
        ({
            let text = line_text(content);
            prose(content) is Some <==> text.len() > 0 && !is_white(text[0]) && text[0] != '#'
                && text[0] != '>' && !spaced(text) && !opens_fence(text) && !list_item(text)
                && !table_row(text) && !url_only(text) && !link_reference(text)
                && !repeated_separator(text)
        }),
        prose(content) is Some ==> prose(content) == Some(line_text(content)),
{
}

/// A sentence is prose: a text of letters, digits and points with single spaces between its words,
/// which begins and ends with a letter and is more than a link.
pub proof fn lemma_sentences_are_prose(text: Seq<char>)
    requires
        text.len() > 0,
        'A' <= text[0] && text[0] <= 'Z',
        'a' <= text.last() && text.last() <= 'z',
        forall|i: int|
            0 <= i < text.len() ==> (#[trigger] text[i] == ' ' || ('a' <= text[i] && text[i]
                <= 'z') || ('A' <= text[i] && text[i] <= 'Z') || ('0' <= text[i] && text[i] <= '9')
                || text[i] == '.' || text[i] == ','),
        !has_pair(text, ' ', ' '),
    ensures
        prose(seq![' '] + text) == Some(text),
{
    reveal_strlit("```");
    reveal_strlit("~~~");
    reveal_strlit("http://");
    reveal_strlit("https://");
    assert(text[text.len() - 1] == text.last());
    lemma_text_of_a_line(text, Seq::empty());
    assert(seq![' '] + text + Seq::<char>::empty() =~= seq![' '] + text);
    assert(!text.contains('\t'));
    assert(!opens_fence(text)) by {
        if "```"@.is_prefix_of(text) {
            assert(text.subrange(0, 3)[0] == "```"@[0]);
        }
        if "~~~"@.is_prefix_of(text) {
            assert(text.subrange(0, 3)[0] == "~~~"@[0]);
        }
    }
    assert(!list_item(text)) by {
        if list_item(text) {
            let n = choose|n: int|
                0 < n && n + 1 < text.len() && (#[trigger] text[n] == '.' || text[n] == ')')
                    && is_white(text[n + 1]) && (forall|i: int|
                    0 <= i < n ==> is_digit(#[trigger] text[i]));
            assert(is_digit(text[0]));
        }
    }
    assert(!table_row(text)) by {
        if has_cell_border(text) {
            let i = choose|i: int|
                0 <= i && i + 2 < text.len() && #[trigger] text[i] == ' ' && text[i + 1] == '|'
                    && text[i + 2] == ' ';
            assert(text[i + 1] == '|');
        }
    }
    assert(!url_only(text)) by {
        if "http://"@.is_prefix_of(text) {
            assert(text.subrange(0, 7)[0] == "http://"@[0]);
        }
        if "https://"@.is_prefix_of(text) {
            assert(text.subrange(0, 8)[0] == "https://"@[0]);
        }
    }
}

} // verus!
