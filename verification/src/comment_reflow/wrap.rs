//! Filling words into comment lines of a given width.

use vstd::prelude::*;

use crate::text::{
    are_words, is_white, join, join_strings, lemma_words_are_words, lemma_words_concat,
    lemma_words_of_word, no_white, strings, texts, words,
};

verus! {

/// The lines that come from filling `words` behind the started line `current`: a word joins the
/// line after a single space while the line stays within `width`, and opens a new line otherwise.
pub open spec fn fill(current: Seq<char>, words: Seq<Seq<char>>, width: nat) -> Seq<Seq<char>>
    decreases words.len(),
{
    if words.len() == 0 {
        if current.len() == 0 {
            Seq::empty()
        } else {
            seq![current]
        }
    } else {
        let word = words[0];
        let rest = words.drop_first();
        if current.len() == 0 {
            fill(word, rest, width)
        } else if current.len() + 1 + word.len() <= width {
            fill(current + seq![' '] + word, rest, width)
        } else {
            seq![current] + fill(word, rest, width)
        }
    }
}

/// The lines that `words` fill at `width`, without any prefix.
pub open spec fn wrap(words: Seq<Seq<char>>, width: nat) -> Seq<Seq<char>> {
    fill(Seq::empty(), words, width)
}

/// Each line behind `line_prefix` and one space.
pub open spec fn prefixed(line_prefix: Seq<char>, lines: Seq<Seq<char>>) -> Seq<Seq<char>> {
    lines.map_values(|line: Seq<char>| line_prefix + seq![' '] + line)
}

/// The text of `words` wrapped at `width`, every line behind `line_prefix`.
pub open spec fn wrapped_text(
    line_prefix: Seq<char>,
    words: Seq<Seq<char>>,
    width: nat,
) -> Seq<char> {
    join(prefixed(line_prefix, wrap(words, width)), seq!['\n'])
}

/// One output line: the prefix, a space and the words of the line.
fn output_line(line_prefix: &str, current: &str) -> (r: String)
    ensures
        r@ == line_prefix@ + seq![' '] + current@,
{
    proof {
        reveal_strlit(" ");
    }
    let mut line = String::from_str(line_prefix);
    line.append(" ");
    line.append(current);
    assert(line@ =~= line_prefix@ + seq![' '] + current@);
    line
}

/// Wraps `words` into lines of at most `text_width` characters behind `line_prefix`.
pub fn wrap_words(line_prefix: &str, words: &[&str], text_width: usize) -> (r: String)
    ensures
        r@ == wrapped_text(line_prefix@, texts(words@), text_width as nat),
{
    let mut lines: Vec<String> = Vec::new();
    let mut current = String::new();
    let ghost all = texts(words@);
    let ghost mut done: Seq<Seq<char>> = Seq::empty();
    let mut i: usize = 0;
    assert(all.skip(0) =~= all);
    assert(done + wrap(all, text_width as nat) =~= wrap(all, text_width as nat));
    while i < words.len()
        invariant
            i <= words@.len(),
            all == texts(words@),
            strings(lines@) == prefixed(line_prefix@, done),
            done + fill(current@, all.skip(i as int), text_width as nat) == wrap(
                all,
                text_width as nat,
            ),
        decreases words@.len() - i,
    {
        let word: &str = words[i];
        let ghost rest = all.skip(i as int);
        assert(rest[0] == word@);
        assert(rest.drop_first() =~= all.skip(i as int + 1));
        let word_len: usize = word.unicode_len();
        let current_len: usize = current.as_str().unicode_len();
        if current_len == 0 {
            current = String::from_str(word);
        } else if current_len < text_width && word_len <= text_width - current_len - 1 {
            proof {
                reveal_strlit(" ");
            }
            let ghost before = current@;
            current.append(" ");
            current.append(word);
            assert(current@ =~= before + seq![' '] + word@);
        } else {
            let ghost before = strings(lines@);
            lines.push(output_line(line_prefix, current.as_str()));
            proof {
                let line = current@;
                let shown = line_prefix@ + seq![' '] + line;
                assert(strings(lines@) =~= before.push(shown));
                assert(prefixed(line_prefix@, done.push(line)) =~= before.push(shown));
                assert(done.push(line) + fill(word@, rest.drop_first(), text_width as nat) =~= done + (
                seq![line] + fill(word@, rest.drop_first(), text_width as nat)));
                done = done.push(line);
            }
            current = String::from_str(word);
        }
        i = i + 1;
    }
    assert(all.skip(i as int).len() == 0);
    if current.as_str().unicode_len() > 0 {
        let ghost before = strings(lines@);
        lines.push(output_line(line_prefix, current.as_str()));
        proof {
            let shown = line_prefix@ + seq![' '] + current@;
            assert(strings(lines@) =~= before.push(shown));
            assert(prefixed(line_prefix@, done.push(current@)) =~= before.push(shown));
            assert(done.push(current@) =~= done + seq![current@]);
        }
    } else {
        assert(done + Seq::<Seq<char>>::empty() =~= done);
    }
    proof {
        reveal_strlit("\n");
        assert("\n"@ =~= seq!['\n']);
    }
    join_strings(&lines, "\n")
}

/// The words of several lines, line by line.
pub open spec fn words_of_lines(lines: Seq<Seq<char>>) -> Seq<Seq<char>>
    decreases lines.len(),
{
    if lines.len() == 0 {
        Seq::empty()
    } else {
        words(lines[0]) + words_of_lines(lines.drop_first())
    }
}

/// Whether `line` is one or more words with single spaces between them, and at most `width`
/// characters long unless it is a single word.
pub open spec fn is_filled(line: Seq<char>, width: nat) -> bool {
    &&& words(line).len() > 0
    &&& join(words(line), seq![' ']) == line
    &&& words(line).len() > 1 ==> line.len() <= width
}

/// Whether the lines are as full as they can be: every line is filled, and the first word of the
/// next line has no room on it.
pub open spec fn are_full(lines: Seq<Seq<char>>, width: nat) -> bool {
    &&& forall|i: int| 0 <= i < lines.len() ==> is_filled(#[trigger] lines[i], width)
    &&& forall|i: int, j: int|
        #![trigger lines[i], lines[j]]
        0 <= i < lines.len() && j == i + 1 && j < lines.len() ==> lines[i].len() + 1 + words(
            lines[j],
        )[0].len() > width
}

proof fn lemma_first_line_is_filled(word: Seq<char>, width: nat)
    requires
        word.len() > 0,
        are_words(seq![word]),
    ensures
        is_filled(word, width),
        words(word) == seq![word],
{
    assert(seq![word][0] == word);
    lemma_words_of_word(word);
}

proof fn lemma_longer_line_is_filled(line: Seq<char>, word: Seq<char>, width: nat)
    requires
        is_filled(line, width),
        are_words(seq![word]),
        line.len() + 1 + word.len() <= width,
    ensures
        is_filled(line + seq![' '] + word, width),
        words(line + seq![' '] + word) == words(line).push(word),
{
    assert(seq![word][0] == word);
    lemma_words_of_word(word);
    lemma_words_concat(line, ' ', word);
    assert(words(line) + seq![word] =~= words(line).push(word));
    let all = words(line).push(word);
    assert(all.drop_last() =~= words(line));
}

/// What filling gives: full lines that hold the words of the started line and then the others.
proof fn lemma_fill(current: Seq<char>, list: Seq<Seq<char>>, width: nat)
    requires
        current.len() == 0 || is_filled(current, width),
        are_words(list),
    ensures
        are_full(fill(current, list, width), width),
        words_of_lines(fill(current, list, width)) == words(current) + list,
        current.len() > 0 ==> fill(current, list, width).len() > 0 && words(current).is_prefix_of(
            words(fill(current, list, width)[0]),
        ),
    decreases list.len(),
{
    let lines = fill(current, list, width);
    if list.len() == 0 {
        if current.len() == 0 {
            assert(words(current) =~= Seq::<Seq<char>>::empty());
            assert(words_of_lines(lines) =~= words(current) + list);
        } else {
            assert(words_of_lines(lines.drop_first()) =~= Seq::<Seq<char>>::empty());
            assert(words_of_lines(lines) =~= words(current) + list);
        }
    } else {
        let word = list[0];
        let rest = list.drop_first();
        assert(are_words(seq![word])) by {
            assert(seq![word][0] == list[0]);
        }
        assert(are_words(rest)) by {
            assert forall|i: int| 0 <= i < rest.len() implies (#[trigger] rest[i]).len() > 0
                && no_white(rest[i]) by {
                assert(rest[i] == list[i + 1]);
            }
        }
        assert(list =~= seq![word] + rest);
        if current.len() == 0 {
            lemma_first_line_is_filled(word, width);
            lemma_fill(word, rest, width);
            assert(words(current) =~= Seq::<Seq<char>>::empty());
            assert(words_of_lines(lines) =~= words(current) + list);
        } else if current.len() + 1 + word.len() <= width {
            let longer = current + seq![' '] + word;
            lemma_longer_line_is_filled(current, word, width);
            lemma_fill(longer, rest, width);
            assert(words(longer) + rest =~= words(current) + list);
            assert(words(current).is_prefix_of(words(longer)));
        } else {
            lemma_first_line_is_filled(word, width);
            lemma_fill(word, rest, width);
            let others = fill(word, rest, width);
            assert(lines.drop_first() =~= others);
            assert(words_of_lines(lines) =~= words(current) + list);
            assert(words(others[0])[0] == word);
            assert forall|i: int, j: int|
                #![trigger lines[i], lines[j]]
                0 <= i < lines.len() && j == i + 1 && j < lines.len() implies lines[i].len() + 1
                + words(lines[j])[0].len() > width by {
                if i > 0 {
                    assert(lines[i] == others[i - 1]);
                    assert(lines[j] == others[j - 1]);
                } else {
                    assert(lines[j] == others[0]);
                }
            }
        }
    }
}

/// What wrapping gives: full lines that hold the words in order.
pub proof fn lemma_wrap_fills_lines(list: Seq<Seq<char>>, width: nat)
    requires
        are_words(list),
    ensures
        are_full(wrap(list, width), width),
        words_of_lines(wrap(list, width)) == list,
{
    lemma_fill(Seq::empty(), list, width);
    assert(words(Seq::<char>::empty()) + list =~= list);
}

/// The last words of a line are no longer than the line.
proof fn lemma_join_skip(list: Seq<Seq<char>>, k: int)
    requires
        0 <= k < list.len(),
    ensures
        join(list.skip(k), seq![' ']).len() <= join(list, seq![' ']).len(),
    decreases list.len(),
{
    if k == list.len() - 1 {
        assert(list.skip(k) =~= seq![list.last()]);
        assert(list.len() == 1 ==> list =~= seq![list.last()]);
    } else {
        lemma_join_skip(list.drop_last(), k);
        assert(list.skip(k).drop_last() =~= list.drop_last().skip(k));
        assert(list.skip(k).last() == list.last());
    }
}

/// Where the words that full lines hold are the last words of other lines of the same width, there
/// are no more full lines than others.
proof fn lemma_full_lines_are_fewest(
    full: Seq<Seq<char>>,
    other: Seq<Seq<char>>,
    width: nat,
    k: int,
)
    requires
        are_full(full, width),
        forall|i: int| 0 <= i < other.len() ==> is_filled(#[trigger] other[i], width),
        0 <= k <= words_of_lines(other).len(),
        words_of_lines(full) == words_of_lines(other).skip(k),
    ensures
        full.len() <= other.len(),
    decreases full.len(),
{
    if full.len() > 0 {
        assert(is_filled(full[0], width));
        let own = words(full[0]);
        let rest = full.drop_first();
        let theirs = words(other[0]);
        let others = other.drop_first();
        assert(words_of_lines(full) == own + words_of_lines(rest));
        assert(words_of_lines(other).len() > 0);
        assert(other.len() > 0);
        assert(is_filled(other[0], width));
        let all = words_of_lines(other);
        assert(all == theirs + words_of_lines(others));
        let next = k + own.len();
        if next < theirs.len() {
            let more = words_of_lines(rest);
            assert(more.len() > 0);
            assert(rest.len() > 0);
            assert(rest[0] == full[1]);
            assert(is_filled(full[1], width));
            let word = more[0];
            assert(word == words(full[1])[0]);
            assert(words_of_lines(full)[own.len() as int] == word);
            assert(word == theirs[next]);
            let part = theirs.subrange(k, next + 1);
            assert(part.drop_last() =~= own) by {
                assert forall|i: int| 0 <= i < own.len() implies part.drop_last()[i] == own[i] by {
                    assert(words_of_lines(full)[i] == own[i]);
                    assert(all[k + i] == theirs[k + i]);
                }
            }
            assert(part.last() == word);
            assert(join(part, seq![' ']) == full[0] + seq![' '] + word);
            let tail = theirs.skip(k);
            let n = own.len() as int;
            assert(tail.take(n + 1) =~= part);
            lemma_join_take(tail, n + 1);
            lemma_join_skip(theirs, k);
        }
        let left = next - theirs.len();
        assert(words_of_lines(rest) =~= words_of_lines(others).skip(left)) by {
            assert(words_of_lines(full).skip(own.len() as int) =~= words_of_lines(rest));
            assert(all.skip(k).skip(own.len() as int) =~= words_of_lines(others).skip(left));
        }
        assert(are_full(rest, width)) by {
            assert forall|i: int| 0 <= i < rest.len() implies is_filled(
                #[trigger] rest[i],
                width,
            ) by {
                assert(rest[i] == full[i + 1]);
            }
            assert forall|i: int, j: int|
                #![trigger rest[i], rest[j]]
                0 <= i < rest.len() && j == i + 1 && j < rest.len() implies rest[i].len() + 1
                + words(rest[j])[0].len() > width by {
                assert(rest[i] == full[i + 1]);
                assert(rest[j] == full[j + 1]);
            }
        }
        assert forall|i: int| 0 <= i < others.len() implies is_filled(
            #[trigger] others[i],
            width,
        ) by {
            assert(others[i] == other[i + 1]);
        }
        lemma_full_lines_are_fewest(rest, others, width, left);
    }
}

/// No other cut of the words into lines of the width has fewer lines.
pub proof fn lemma_wrap_has_fewest_lines(
    list: Seq<Seq<char>>,
    width: nat,
    other: Seq<Seq<char>>,
)
    requires
        are_words(list),
        forall|i: int| 0 <= i < other.len() ==> is_filled(#[trigger] other[i], width),
        words_of_lines(other) == list,
    ensures
        wrap(list, width).len() <= other.len(),
{
    lemma_wrap_fills_lines(list, width);
    assert(list.skip(0) =~= list);
    lemma_full_lines_are_fewest(wrap(list, width), other, width, 0);
}

/// A line that holds more than one word is no wider than asked for, and one that holds a single
/// word is that word; so where every word fits, every line does.
pub proof fn lemma_wrap_width(list: Seq<Seq<char>>, width: nat)
    requires
        are_words(list),
        forall|i: int| 0 <= i < list.len() ==> (#[trigger] list[i]).len() <= width,
    ensures
        forall|i: int|
            0 <= i < wrap(list, width).len() ==> 0 < (#[trigger] wrap(list, width)[i]).len()
                <= width,
{
    lemma_wrap_fills_lines(list, width);
    let lines = wrap(list, width);
    assert forall|i: int| 0 <= i < lines.len() implies 0 < (#[trigger] lines[i]).len()
        <= width by {
        let line = lines[i];
        assert(is_filled(line, width));
        lemma_words_are_words(line);
        assert(words(line)[0].len() > 0);
        lemma_join_len(words(line));
        if words(line).len() == 1 {
            lemma_words_of_line_in(lines, i);
            let at = choose|at: int| 0 <= at < list.len() && list[at] == words(line)[0];
            assert(list[at].len() <= width);
        }
    }
}

proof fn lemma_join_len(list: Seq<Seq<char>>)
    requires
        list.len() > 0,
    ensures
        join(list, seq![' ']).len() >= list[0].len(),
        list.len() == 1 ==> join(list, seq![' ']) == list[0],
    decreases list.len(),
{
    if list.len() > 1 {
        lemma_join_len(list.drop_last());
    }
}

proof fn lemma_words_of_line_in(lines: Seq<Seq<char>>, i: int)
    requires
        0 <= i < lines.len(),
        words(lines[i]).len() > 0,
    ensures
        exists|at: int|
            0 <= at < words_of_lines(lines).len() && words_of_lines(lines)[at] == words(
                lines[i],
            )[0],
    decreases lines.len(),
{
    if i == 0 {
        assert(words_of_lines(lines)[0] == words(lines[0])[0]);
    } else {
        let rest = lines.drop_first();
        lemma_words_of_line_in(rest, i - 1);
        let at = choose|at: int|
            0 <= at < words_of_lines(rest).len() && words_of_lines(rest)[at] == words(
                rest[i - 1],
            )[0];
        assert(words_of_lines(lines)[words(lines[0]).len() + at] == words_of_lines(rest)[at]);
    }
}

/// Filling the words of a filled line brings the line back.
proof fn lemma_refill(line: Seq<char>, rest: Seq<Seq<char>>, width: nat, n: int)
    requires
        is_filled(line, width),
        1 <= n <= words(line).len(),
    ensures
        fill(Seq::empty(), words(line) + rest, width) == fill(
            join(words(line).take(n), seq![' ']),
            words(line).skip(n) + rest,
            width,
        ),
    decreases n,
{
    let list = words(line);
    let all = list + rest;
    lemma_words_are_words(line);
    if n == 1 {
        assert(list.take(1) =~= seq![list[0]]);
        assert(all.drop_first() =~= list.skip(1) + rest);
    } else {
        lemma_refill(line, rest, width, n - 1);
        let before = join(list.take(n - 1), seq![' ']);
        lemma_join_len(list.take(n - 1));
        assert(before.len() > 0) by {
            assert(list.take(n - 1)[0] == list[0]);
        }
        assert(list.take(n).drop_last() =~= list.take(n - 1));
        assert((list.skip(n - 1) + rest).drop_first() =~= list.skip(n) + rest);
        assert((list.skip(n - 1) + rest)[0] == list[n - 1]);
        lemma_join_take(list, n);
        assert(before.len() + 1 + list[n - 1].len() <= width);
    }
}

proof fn lemma_join_take(list: Seq<Seq<char>>, n: int)
    requires
        1 <= n <= list.len(),
    ensures
        join(list.take(n), seq![' ']).len() <= join(list, seq![' ']).len(),
    decreases list.len() - n,
{
    if n < list.len() {
        lemma_join_take(list, n + 1);
        assert(list.take(n + 1).drop_last() =~= list.take(n));
    } else {
        assert(list.take(n) =~= list);
    }
}

/// Wrapping the words of full lines gives those lines.
proof fn lemma_wrap_full(lines: Seq<Seq<char>>, width: nat)
    requires
        are_full(lines, width),
    ensures
        wrap(words_of_lines(lines), width) == lines,
    decreases lines.len(),
{
    if lines.len() > 0 {
        let line = lines[0];
        let rest = lines.drop_first();
        let others = words_of_lines(rest);
        let n = words(line).len() as int;
        lemma_refill(line, others, width, n);
        assert(words(line).take(n) =~= words(line));
        assert(words(line).skip(n) + others =~= others);
        lemma_words_are_words(line);
        lemma_join_len(words(line));
        assert(words(line)[0].len() > 0);
        assert(are_full(rest, width)) by {
            assert forall|i: int| 0 <= i < rest.len() implies is_filled(
                #[trigger] rest[i],
                width,
            ) by {
                assert(rest[i] == lines[i + 1]);
            }
            assert forall|i: int, j: int|
                #![trigger rest[i], rest[j]]
                0 <= i < rest.len() && j == i + 1 && j < rest.len() implies rest[i].len() + 1
                + words(rest[j])[0].len() > width by {
                assert(rest[i] == lines[i + 1]);
                assert(rest[j] == lines[j + 1]);
            }
        }
        lemma_wrap_full(rest, width);
        if rest.len() > 0 {
            assert(lines[1] == rest[0]);
            assert(is_filled(rest[0], width));
            assert(others[0] == words(rest[0])[0]);
            assert(line.len() + 1 + words(lines[1])[0].len() > width);
            assert(lines =~= seq![line] + rest);
        } else {
            assert(lines =~= seq![line]);
        }
    }
}

/// Wrapping is stable: any run of neighbouring lines that come from wrapping is, wrapped again,
/// the same lines.
pub proof fn lemma_wrap_again(list: Seq<Seq<char>>, width: nat, from: int, to: int)
    requires
        are_words(list),
        0 <= from <= to <= wrap(list, width).len(),
    ensures
        wrap(words_of_lines(wrap(list, width).subrange(from, to)), width) == wrap(
            list,
            width,
        ).subrange(from, to),
{
    lemma_fill(Seq::empty(), list, width);
    let lines = wrap(list, width);
    let part = lines.subrange(from, to);
    assert forall|i: int| 0 <= i < part.len() implies is_filled(#[trigger] part[i], width) by {
        assert(part[i] == lines[from + i]);
    }
    assert forall|i: int, j: int|
        #![trigger part[i], part[j]]
        0 <= i < part.len() && j == i + 1 && j < part.len() implies part[i].len() + 1 + words(
        part[j],
    )[0].len() > width by {
        assert(part[i] == lines[from + i]);
        assert(part[j] == lines[from + j]);
    }
    lemma_wrap_full(part, width);
}

/// A line that comes from wrapping neither begins nor ends with white space.
pub proof fn lemma_wrapped_line_is_trimmed(list: Seq<Seq<char>>, width: nat, i: int)
    requires
        are_words(list),
        0 <= i < wrap(list, width).len(),
    ensures
        wrap(list, width)[i].len() > 0,
        !is_white(wrap(list, width)[i][0]),
        !is_white(wrap(list, width)[i].last()),
{
    lemma_fill(Seq::empty(), list, width);
    let line = wrap(list, width)[i];
    assert(is_filled(line, width));
    lemma_words_are_words(line);
    lemma_join_ends(words(line));
}

proof fn lemma_join_ends(list: Seq<Seq<char>>)
    requires
        list.len() > 0,
        are_words(list),
    ensures
        join(list, seq![' ']).len() > 0,
        !is_white(join(list, seq![' '])[0]),
        !is_white(join(list, seq![' ']).last()),
    decreases list.len(),
{
    assert(list[0].len() > 0);
    assert(list.last().len() > 0);
    if list.len() > 1 {
        let front = list.drop_last();
        assert(are_words(front)) by {
            assert forall|i: int| 0 <= i < front.len() implies (#[trigger] front[i]).len() > 0
                && no_white(front[i]) by {
                assert(front[i] == list[i]);
            }
        }
        lemma_join_ends(front);
    }
}

/// The first word that is wrapped opens the first line.
pub proof fn lemma_wrap_begins(list: Seq<Seq<char>>, width: nat)
    requires
        are_words(list),
        list.len() > 0,
    ensures
        wrap(list, width).len() > 0,
        list[0].is_prefix_of(wrap(list, width)[0]),
{
    lemma_fill(Seq::empty(), list, width);
    let lines = wrap(list, width);
    assert(words(Seq::<char>::empty()) + list =~= list);
    if lines.len() == 0 {
        assert(words_of_lines(lines) =~= Seq::<Seq<char>>::empty());
    }
    assert(is_filled(lines[0], width));
    assert(list[0] == words(lines[0])[0]);
    lemma_join_begins(words(lines[0]));
}

proof fn lemma_join_begins(list: Seq<Seq<char>>)
    requires
        list.len() > 0,
    ensures
        list[0].is_prefix_of(join(list, seq![' '])),
    decreases list.len(),
{
    if list.len() > 1 {
        lemma_join_begins(list.drop_last());
    }
}

/// A line that comes from wrapping holds no line feed.
pub proof fn lemma_wrapped_line_has_no_feed(list: Seq<Seq<char>>, width: nat, i: int)
    requires
        are_words(list),
        0 <= i < wrap(list, width).len(),
    ensures
        !wrap(list, width)[i].contains('\n'),
{
    lemma_fill(Seq::empty(), list, width);
    let line = wrap(list, width)[i];
    assert(is_filled(line, width));
    lemma_words_are_words(line);
    lemma_join_has_no_feed(words(line));
}

proof fn lemma_join_has_no_feed(list: Seq<Seq<char>>)
    requires
        are_words(list),
    ensures
        !join(list, seq![' ']).contains('\n'),
    decreases list.len(),
{
    if list.len() > 0 {
        let last = list.last();
        assert(list[list.len() - 1] == last);
        assert(is_white('\n'));
        assert(!last.contains('\n'));
        let front = list.drop_last();
        assert(are_words(front)) by {
            assert forall|i: int| 0 <= i < front.len() implies (#[trigger] front[i]).len() > 0
                && no_white(front[i]) by {
                assert(front[i] == list[i]);
            }
        }
        lemma_join_has_no_feed(front);
        let head = join(front, seq![' ']);
        let all = join(list, seq![' ']);
        if list.len() > 1 && all.contains('\n') {
            let k = choose|k: int| 0 <= k < all.len() && all[k] == '\n';
            if k < head.len() {
                assert(head[k] == '\n');
            } else if k > head.len() {
                assert(last[k - head.len() - 1] == '\n');
            }
        }
    }
}

/// The first word of every line that comes from wrapping is one of the words that were wrapped.
pub proof fn lemma_wrapped_line_begins(list: Seq<Seq<char>>, width: nat, i: int)
    requires
        are_words(list),
        0 <= i < wrap(list, width).len(),
    ensures
        words(wrap(list, width)[i]).len() > 0,
        words(wrap(list, width)[i])[0].is_prefix_of(wrap(list, width)[i]),
        exists|at: int|
            0 <= at < list.len() && list[at] == words(wrap(list, width)[i])[0],
{
    lemma_fill(Seq::empty(), list, width);
    let lines = wrap(list, width);
    assert(words(Seq::<char>::empty()) + list =~= list);
    assert(is_filled(lines[i], width));
    lemma_join_begins(words(lines[i]));
    lemma_words_of_line_in(lines, i);
}

} // verus!
