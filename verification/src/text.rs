//! Text on the level of characters.
//!
//! A string is read as the sequence of its characters; every function here says what it does over
//! those sequences.

use vstd::prelude::*;
use vstd::slice::slice_subrange;

verus! {

/// The characters with the Unicode property `White_Space`.
pub open spec fn is_white(c: char) -> bool {
    ||| '\u{9}' <= c <= '\u{d}'
    ||| c == ' '
    ||| c == '\u{85}'
    ||| c == '\u{a0}'
    ||| c == '\u{1680}'
    ||| '\u{2000}' <= c <= '\u{200a}'
    ||| c == '\u{2028}'
    ||| c == '\u{2029}'
    ||| c == '\u{202f}'
    ||| c == '\u{205f}'
    ||| c == '\u{3000}'
}

/// Whether `c` is Unicode white space.
pub fn is_whitespace(c: char) -> (r: bool)
    ensures
        r == is_white(c),
{
    ('\u{9}' <= c && c <= '\u{d}') || c == ' ' || c == '\u{85}' || c == '\u{a0}' || c == '\u{1680}'
        || ('\u{2000}' <= c && c <= '\u{200a}') || c == '\u{2028}' || c == '\u{2029}'
        || c == '\u{202f}' || c == '\u{205f}' || c == '\u{3000}'
}

/// The characters of `s`, one after the other.
pub fn chars_of(s: &str) -> (r: Vec<char>)
    ensures
        r@ == s@,
{
    let mut chars: Vec<char> = Vec::new();
    for c in it: s.chars()
        invariant
            it.seq() == s@,
            chars@ == s@.take(it.index()),
    {
        chars.push(c);
    }
    chars
}

/// `s` without its leading white space.
pub open spec fn trim_start(s: Seq<char>) -> Seq<char>
    decreases s.len(),
{
    if s.len() > 0 && is_white(s[0]) {
        trim_start(s.drop_first())
    } else {
        s
    }
}

/// `s` without its trailing white space.
pub open spec fn trim_end(s: Seq<char>) -> Seq<char>
    decreases s.len(),
{
    if s.len() > 0 && is_white(s.last()) {
        trim_end(s.drop_last())
    } else {
        s
    }
}

/// `s` without white space on either side.
pub open spec fn trim(s: Seq<char>) -> Seq<char> {
    trim_end(trim_start(s))
}

/// Whether every character of `s` is white space.
pub open spec fn all_white(s: Seq<char>) -> bool {
    forall|i: int| 0 <= i < s.len() ==> is_white(#[trigger] s[i])
}

/// Whether no character of `s` is white space.
pub open spec fn no_white(s: Seq<char>) -> bool {
    forall|i: int| 0 <= i < s.len() ==> !is_white(#[trigger] s[i])
}

/// How many characters stand before the first white space of `s`.
pub open spec fn word_len(s: Seq<char>) -> nat
    decreases s.len(),
{
    if s.len() > 0 && !is_white(s[0]) {
        1 + word_len(s.drop_first())
    } else {
        0
    }
}

/// The maximal runs of characters of `s` that are not white space, in order.
pub open spec fn words(s: Seq<char>) -> Seq<Seq<char>>
    decreases s.len(),
{
    let t = trim_start(s);
    if t.len() == 0 {
        Seq::empty()
    } else {
        proof {
            lemma_trim_start(s);
            lemma_word_len(t);
        }
        seq![t.take(word_len(t) as int)] + words(t.skip(word_len(t) as int))
    }
}

/// What `trim_start` leaves is a tail of `s` that does not begin with white space.
pub proof fn lemma_trim_start(s: Seq<char>)
    ensures
        trim_start(s).len() <= s.len(),
        trim_start(s) == s.skip(s.len() - trim_start(s).len()),
        all_white(s.take(s.len() - trim_start(s).len())),
        trim_start(s).len() > 0 ==> !is_white(trim_start(s)[0]),
    decreases s.len(),
{
    if s.len() > 0 && is_white(s[0]) {
        let rest = s.drop_first();
        lemma_trim_start(rest);
        let cut = s.len() - trim_start(s).len();
        assert(s.skip(cut) =~= rest.skip(cut - 1));
        assert forall|i: int| 0 <= i < cut implies is_white(#[trigger] s.take(cut)[i]) by {
            if i > 0 {
                assert(s.take(cut)[i] == rest.take(cut - 1)[i - 1]);
            }
        }
    } else {
        assert(s.skip(0) =~= s);
    }
}

/// What `trim_end` leaves is a head of `s` that does not end in white space.
pub proof fn lemma_trim_end(s: Seq<char>)
    ensures
        trim_end(s).len() <= s.len(),
        trim_end(s) == s.take(trim_end(s).len() as int),
        all_white(s.skip(trim_end(s).len() as int)),
        trim_end(s).len() > 0 ==> !is_white(trim_end(s).last()),
    decreases s.len(),
{
    if s.len() > 0 && is_white(s.last()) {
        let rest = s.drop_last();
        lemma_trim_end(rest);
        let kept = trim_end(s).len() as int;
        assert(s.take(kept) =~= rest.take(kept));
        assert forall|i: int| 0 <= i < s.len() - kept implies is_white(
            #[trigger] s.skip(kept)[i],
        ) by {
            if i < rest.len() - kept {
                assert(s.skip(kept)[i] == rest.skip(kept)[i]);
            }
        }
    } else {
        assert(s.take(s.len() as int) =~= s);
    }
}

/// The first `word_len(s)` characters of `s` are the longest head without white space.
pub proof fn lemma_word_len(s: Seq<char>)
    ensures
        word_len(s) <= s.len(),
        no_white(s.take(word_len(s) as int)),
        word_len(s) < s.len() ==> is_white(s[word_len(s) as int]),
        s.len() > 0 && !is_white(s[0]) ==> word_len(s) > 0,
    decreases s.len(),
{
    if s.len() > 0 && !is_white(s[0]) {
        let rest = s.drop_first();
        lemma_word_len(rest);
        let n = word_len(s) as int;
        assert forall|i: int| 0 <= i < n implies !is_white(#[trigger] s.take(n)[i]) by {
            if i > 0 {
                assert(s.take(n)[i] == rest.take(n - 1)[i - 1]);
            }
        }
    }
}

/// A head of white space does not change what `trim_start` leaves.
pub proof fn lemma_trim_start_skip(s: Seq<char>, n: int)
    requires
        0 <= n <= s.len(),
        all_white(s.take(n)),
    ensures
        trim_start(s) == trim_start(s.skip(n)),
    decreases n,
{
    if n == 0 {
        assert(s.skip(0) =~= s);
    } else {
        assert(s[0] == s.take(n)[0]);
        let rest = s.drop_first();
        assert forall|i: int| 0 <= i < n - 1 implies is_white(#[trigger] rest.take(n - 1)[i]) by {
            assert(rest.take(n - 1)[i] == s.take(n)[i + 1]);
        }
        lemma_trim_start_skip(rest, n - 1);
        assert(rest.skip(n - 1) =~= s.skip(n));
    }
}

/// A tail of white space does not change what `trim_end` leaves.
pub proof fn lemma_trim_end_take(s: Seq<char>, n: int)
    requires
        0 <= n <= s.len(),
        all_white(s.skip(n)),
    ensures
        trim_end(s) == trim_end(s.take(n)),
    decreases s.len() - n,
{
    if n == s.len() {
        assert(s.take(n) =~= s);
    } else {
        assert(s.last() == s.skip(n)[s.len() - n - 1]);
        let rest = s.drop_last();
        assert forall|i: int| 0 <= i < rest.len() - n implies is_white(
            #[trigger] rest.skip(n)[i],
        ) by {
            assert(rest.skip(n)[i] == s.skip(n)[i]);
        }
        lemma_trim_end_take(rest, n);
        assert(rest.take(n) =~= s.take(n));
    }
}

/// A head without white space that white space or the end follows is the first word.
pub proof fn lemma_word_len_is(s: Seq<char>, n: int)
    requires
        0 <= n <= s.len(),
        no_white(s.take(n)),
        n < s.len() ==> is_white(s[n]),
    ensures
        word_len(s) == n,
    decreases n,
{
    if n > 0 {
        assert(s[0] == s.take(n)[0]);
        let rest = s.drop_first();
        assert forall|i: int| 0 <= i < n - 1 implies !is_white(#[trigger] rest.take(n - 1)[i]) by {
            assert(rest.take(n - 1)[i] == s.take(n)[i + 1]);
        }
        lemma_word_len_is(rest, n - 1);
    }
}

/// The number of leading white-space characters.
fn leading_white(chars: &[char]) -> (n: usize)
    ensures
        n <= chars@.len(),
        all_white(chars@.take(n as int)),
        n < chars@.len() ==> !is_white(chars@[n as int]),
{
    let mut n: usize = 0;
    while n < chars.len() && is_whitespace(chars[n])
        invariant
            n <= chars@.len(),
            all_white(chars@.take(n as int)),
        decreases chars@.len() - n,
    {
        assert(chars@.take(n as int + 1) =~= chars@.take(n as int).push(chars@[n as int]));
        n = n + 1;
    }
    n
}

/// The number of characters up to the last one that is not white space.
fn trimmed_len(chars: &[char]) -> (n: usize)
    ensures
        n <= chars@.len(),
        all_white(chars@.skip(n as int)),
        n > 0 ==> !is_white(chars@[n - 1]),
{
    let mut n: usize = chars.len();
    while n > 0 && is_whitespace(chars[n - 1])
        invariant
            n <= chars@.len(),
            all_white(chars@.skip(n as int)),
        decreases n,
    {
        assert(chars@.skip(n - 1) =~= seq![chars@[n - 1]] + chars@.skip(n as int));
        n = n - 1;
    }
    n
}

/// `s` without its leading white space.
pub fn str_trim_start(s: &str) -> (r: &str)
    ensures
        r@ == trim_start(s@),
{
    let chars = chars_of(s);
    let n: usize = leading_white(&chars);
    proof {
        lemma_trim_start_skip(s@, n as int);
        assert(s@.subrange(n as int, s@.len() as int) =~= s@.skip(n as int));
    }
    s.substring_char(n, chars.len())
}

/// `s` without its trailing white space.
pub fn str_trim_end(s: &str) -> (r: &str)
    ensures
        r@ == trim_end(s@),
{
    let chars = chars_of(s);
    let n: usize = trimmed_len(&chars);
    proof {
        lemma_trim_end_take(s@, n as int);
        assert(s@.subrange(0, n as int) =~= s@.take(n as int));
        if n > 0 {
            assert(s@.take(n as int).last() == s@[n - 1]);
        }
    }
    s.substring_char(0, n)
}

/// `s` without white space on either side.
pub fn str_trim(s: &str) -> (r: &str)
    ensures
        r@ == trim(s@),
{
    str_trim_end(str_trim_start(s))
}

/// The number of characters before the first white space.
fn leading_word(chars: &[char]) -> (n: usize)
    ensures
        n == word_len(chars@),
{
    let mut n: usize = 0;
    while n < chars.len() && !is_whitespace(chars[n])
        invariant
            n <= chars@.len(),
            no_white(chars@.take(n as int)),
        decreases chars@.len() - n,
    {
        assert(chars@.take(n as int + 1) =~= chars@.take(n as int).push(chars@[n as int]));
        n = n + 1;
    }
    proof {
        lemma_word_len_is(chars@, n as int);
    }
    n
}

/// The characters of each text in `list`.
pub open spec fn texts(list: Seq<&str>) -> Seq<Seq<char>> {
    list.map_values(|s: &str| s@)
}

/// The words of `text`: its maximal runs of characters that are not white space.
pub fn str_words(text: &str) -> (r: Vec<&str>)
    ensures
        texts(r@) == words(text@),
{
    let chars = chars_of(text);
    let mut list: Vec<&str> = Vec::new();
    let mut at: usize = 0;
    assert(text@.skip(0) =~= text@);
    while at < chars.len()
        invariant
            chars@ == text@,
            at <= chars@.len(),
            texts(list@) + words(text@.skip(at as int)) == words(text@),
        decreases chars@.len() - at,
    {
        let rest = slice_subrange(chars.as_slice(), at, chars.len());
        let ghost tail = text@.skip(at as int);
        assert(rest@ =~= tail);
        let white: usize = leading_white(rest);
        proof {
            lemma_trim_start_skip(tail, white as int);
        }
        if white == rest.len() {
            at = chars.len();
            assert(tail.skip(white as int).len() == 0);
            assert(text@.skip(at as int) =~= Seq::<char>::empty());
        } else {
            let word_text = slice_subrange(rest, white, rest.len());
            let ghost t = tail.skip(white as int);
            assert(word_text@ =~= t);
            assert(t[0] == tail[white as int]);
            assert(trim_start(tail) == t);
            let n: usize = leading_word(word_text);
            proof {
                lemma_word_len(t);
            }
            let word = text.substring_char(at + white, at + white + n);
            let ghost before = texts(list@);
            list.push(word);
            assert(word@ =~= t.take(n as int));
            assert(texts(list@) =~= before.push(word@));
            at = at + white + n;
            assert(text@.skip(at as int) =~= t.skip(n as int));
            assert(texts(list@) + words(t.skip(n as int)) =~= before + (seq![word@] + words(
                t.skip(n as int),
            )));
        }
    }
    assert(texts(list@) + words(text@.skip(at as int)) =~= texts(list@)) by {
        assert(text@.skip(at as int).len() == 0);
    }
    list
}

/// Whether two strings hold the same characters.
pub fn same_text(a: &str, b: &str) -> (r: bool)
    ensures
        r == (a@ == b@),
{
    let left = chars_of(a);
    let right = chars_of(b);
    same_chars(&left, &right)
}

/// Whether two character lists are equal.
pub fn same_chars(a: &[char], b: &[char]) -> (r: bool)
    ensures
        r == (a@ == b@),
{
    if a.len() != b.len() {
        return false;
    }
    let mut i: usize = 0;
    while i < a.len()
        invariant
            i <= a@.len() == b@.len(),
            forall|j: int| 0 <= j < i ==> a@[j] == b@[j],
        decreases a@.len() - i,
    {
        if a[i] != b[i] {
            assert(a@[i as int] != b@[i as int]);
            return false;
        }
        i = i + 1;
    }
    assert(a@ =~= b@);
    true
}

/// Whether `chars` begins with the characters of `head`.
pub fn starts_with(chars: &[char], head: &str) -> (r: bool)
    ensures
        r == head@.is_prefix_of(chars@),
{
    let wanted = chars_of(head);
    if wanted.len() > chars.len() {
        return false;
    }
    let front = slice_subrange(chars, 0, wanted.len());
    same_chars(front, &wanted)
}

/// Whether `a` is directly followed by `b` somewhere in `s`.
pub open spec fn has_pair(s: Seq<char>, a: char, b: char) -> bool {
    exists|i: int| 0 <= i && i + 1 < s.len() && #[trigger] s[i] == a && s[i + 1] == b
}

/// Whether `a` is directly followed by `b` somewhere in `chars`.
pub fn contains_pair(chars: &[char], a: char, b: char) -> (r: bool)
    ensures
        r == has_pair(chars@, a, b),
{
    if chars.len() < 2 {
        return false;
    }
    let last: usize = chars.len() - 1;
    let mut i: usize = 0;
    while i < last
        invariant
            i <= last,
            last + 1 == chars@.len(),
            forall|j: int| 0 <= j < i ==> !(#[trigger] chars@[j] == a && chars@[j + 1] == b),
        decreases last - i,
    {
        if chars[i] == a && chars[i + 1] == b {
            assert(chars@[i as int] == a);
            return true;
        }
        i = i + 1;
    }
    false
}

/// Whether `c` occurs in `chars`.
pub fn contains_char(chars: &[char], c: char) -> (r: bool)
    ensures
        r == chars@.contains(c),
{
    let mut i: usize = 0;
    while i < chars.len()
        invariant
            i <= chars@.len(),
            forall|j: int| 0 <= j < i ==> chars@[j] != c,
        decreases chars@.len() - i,
    {
        if chars[i] == c {
            assert(chars@[i as int] == c);
            return true;
        }
        i = i + 1;
    }
    false
}

/// The characters of each string in `list`.
pub open spec fn strings(list: Seq<String>) -> Seq<Seq<char>> {
    list.map_values(|s: String| s@)
}

/// The parts one after the other, with `separator` between any two neighbours.
pub open spec fn join(parts: Seq<Seq<char>>, separator: Seq<char>) -> Seq<char>
    decreases parts.len(),
{
    if parts.len() == 0 {
        Seq::empty()
    } else if parts.len() == 1 {
        parts[0]
    } else {
        join(parts.drop_last(), separator) + separator + parts.last()
    }
}

/// Joins `parts` with `separator` between any two neighbours.
pub fn join_strings(parts: &[String], separator: &str) -> (r: String)
    ensures
        r@ == join(strings(parts@), separator@),
{
    let mut joined = String::new();
    let mut i: usize = 0;
    while i < parts.len()
        invariant
            i <= parts@.len(),
            joined@ == join(strings(parts@).take(i as int), separator@),
        decreases parts@.len() - i,
    {
        let ghost done = strings(parts@).take(i as int + 1);
        assert(done.drop_last() =~= strings(parts@).take(i as int));
        assert(done.last() == parts@[i as int]@);
        if i > 0 {
            joined.append(separator);
        }
        joined.append(parts[i].as_str());
        i = i + 1;
        assert(joined@ =~= join(done, separator@));
    }
    assert(strings(parts@).take(i as int) =~= strings(parts@));
    joined
}

/// Trimming looks at the white space in front only.
proof fn lemma_trim_start_concat(a: Seq<char>, b: Seq<char>)
    ensures
        all_white(a) ==> trim_start(a + b) == trim_start(b),
        !all_white(a) ==> trim_start(a + b) == trim_start(a) + b,
    decreases a.len(),
{
    if a.len() == 0 {
        assert(a + b =~= b);
    } else if is_white(a[0]) {
        let rest = a.drop_first();
        lemma_trim_start_concat(rest, b);
        assert((a + b).drop_first() =~= rest + b);
        if all_white(rest) {
            assert forall|i: int| 0 <= i < a.len() implies is_white(#[trigger] a[i]) by {
                if i > 0 {
                    assert(a[i] == rest[i - 1]);
                }
            }
        } else {
            let i = choose|i: int| 0 <= i < rest.len() && !is_white(#[trigger] rest[i]);
            assert(a[i + 1] == rest[i]);
        }
    } else {
        assert(trim_start(a) =~= a);
        assert(trim_start(a + b) =~= a + b);
    }
}

/// The words of two texts with white space between them are the words of the one and then those of
/// the other.
pub proof fn lemma_words_concat(a: Seq<char>, gap: char, b: Seq<char>)
    requires
        is_white(gap),
    ensures
        words(a + seq![gap] + b) == words(a) + words(b),
    decreases a.len(),
{
    let tail = seq![gap] + b;
    let all = a + seq![gap] + b;
    assert(all =~= a + tail);
    lemma_trim_start_concat(a, tail);
    lemma_trim_start(a);
    let t = trim_start(a);
    assert(tail.drop_first() =~= b);
    if t.len() == 0 {
        assert(a.take(a.len() as int) =~= a);
        assert(words(all) =~= words(b));
        assert(words(a) + words(b) =~= words(b));
    } else {
        lemma_word_len(t);
        let n = word_len(t) as int;
        assert(!all_white(a)) by {
            if all_white(a) {
                assert(t[0] == a[a.len() - t.len()]);
            }
        }
        let whole = t + tail;
        assert(whole.take(n) =~= t.take(n));
        lemma_word_len_is(whole, n);
        let rest = t.skip(n);
        lemma_words_concat(rest, gap, b);
        assert(whole.skip(n) =~= rest + seq![gap] + b);
        assert(words(all) =~= words(a) + words(b));
    }
}

/// A word on its own is a text of one word.
pub proof fn lemma_words_of_word(word: Seq<char>)
    requires
        word.len() > 0,
        no_white(word),
    ensures
        words(word) == seq![word],
{
    assert(!is_white(word[0]));
    assert(trim_start(word) =~= word);
    lemma_word_len_is(word, word.len() as int);
    assert(word.take(word.len() as int) =~= word);
    assert(word.skip(word.len() as int) =~= Seq::<char>::empty());
    assert(trim_start(Seq::<char>::empty()) =~= Seq::<char>::empty());
    assert(words(Seq::<char>::empty()) =~= Seq::<Seq<char>>::empty());
    assert(words(word) =~= seq![word]);
}

/// Whether `list` is made of words: none is empty, none holds white space.
pub open spec fn are_words(list: Seq<Seq<char>>) -> bool {
    forall|i: int| 0 <= i < list.len() ==> (#[trigger] list[i]).len() > 0 && no_white(list[i])
}

/// The words of a text are words.
pub proof fn lemma_words_are_words(s: Seq<char>)
    ensures
        are_words(words(s)),
    decreases s.len(),
{
    let t = trim_start(s);
    lemma_trim_start(s);
    if t.len() > 0 {
        lemma_word_len(t);
        lemma_words_are_words(t.skip(word_len(t) as int));
        let first = t.take(word_len(t) as int);
        assert(no_white(first));
    }
}

/// White space is what Unicode takes for it: twenty-five characters, of which six are in ASCII.
pub proof fn lemma_white_space(c: char)
    ensures
        is_white(c) <==> (c as u32 >= 9 && c as u32 <= 13) || c as u32 == 32 || c as u32 == 0x85 || c
            as u32 == 0xa0 || c as u32 == 0x1680 || (c as u32 >= 0x2000 && c as u32 <= 0x200a) || c
            as u32 == 0x2028 || c as u32 == 0x2029 || c as u32 == 0x202f || c as u32 == 0x205f || c
            as u32 == 0x3000,
{
}

/// Joining takes every part: two lists that are joined one behind the other, with the separator
/// between them, are one list joined.
pub proof fn lemma_join_concat(a: Seq<Seq<char>>, b: Seq<Seq<char>>, separator: Seq<char>)
    requires
        a.len() > 0,
        b.len() > 0,
    ensures
        join(a + b, separator) == join(a, separator) + separator + join(b, separator),
        b.len() == 1 ==> join(b, separator) == b[0],
    decreases b.len(),
{
    let all = a + b;
    if b.len() == 1 {
        assert(all.drop_last() =~= a);
    } else {
        lemma_join_concat(a, b.drop_last(), separator);
        assert(all.drop_last() =~= a + b.drop_last());
        assert(join(all, separator) =~= join(a, separator) + separator + join(b, separator));
    }
}

/// The words of a text are all that it holds besides white space: words with single spaces between
/// them are the words of the text that they make, however many there are.
pub proof fn lemma_joined_words_are_read_back(list: Seq<Seq<char>>)
    requires
        forall|i: int| 0 <= i < list.len() ==> (#[trigger] list[i]).len() > 0 && no_white(list[i]),
    ensures
        words(join(list, seq![' '])) == list,
    decreases list.len(),
{
    if list.len() == 0 {
        assert(trim_start(Seq::<char>::empty()) =~= Seq::<char>::empty());
        assert(words(Seq::<char>::empty()) =~= list);
    } else if list.len() == 1 {
        lemma_words_of_word(list[0]);
        assert(list =~= seq![list[0]]);
    } else {
        let front = list.drop_last();
        assert forall|i: int| 0 <= i < front.len() implies (#[trigger] front[i]).len() > 0
            && no_white(front[i]) by {
            assert(front[i] == list[i]);
        }
        lemma_joined_words_are_read_back(front);
        lemma_words_of_word(list.last());
        lemma_words_concat(join(front, seq![' ']), ' ', list.last());
        assert(front + seq![list.last()] =~= list);
    }
}

/// Trimming takes white space and nothing else: what is left of a text with white space around
/// something that begins and ends otherwise is that thing.
pub proof fn lemma_trimming(lead: Seq<char>, text: Seq<char>, trail: Seq<char>)
    requires
        all_white(lead),
        all_white(trail),
        text.len() > 0 ==> !is_white(text[0]) && !is_white(text.last()),
    ensures
        trim_end(text + trail) == text,
        text.len() > 0 ==> trim_start(lead + text) == text,
        trim(lead + text + trail) == text,
{
    let body = text + trail;
    let n = text.len() as int;
    assert(body.take(n) =~= text);
    assert(body.skip(n) =~= trail);
    lemma_trim_end_take(body, n);
    assert(trim_end(text) =~= text);
    let all = lead + text + trail;
    let m = lead.len() as int;
    assert(all.take(m) =~= lead);
    assert(all.skip(m) =~= body);
    lemma_trim_start_skip(all, m);
    if n > 0 {
        assert((lead + text).take(m) =~= lead);
        assert((lead + text).skip(m) =~= text);
        lemma_trim_start_skip(lead + text, m);
        assert(trim_start(text) =~= text);
        assert(body[0] == text[0]);
        assert(trim_start(body) =~= body);
    } else {
        assert(body =~= trail);
        lemma_trim_start(trail);
        if trim_start(trail).len() > 0 {
            let cut = trail.len() - trim_start(trail).len();
            assert(trim_start(trail)[0] == trail[cut]);
        }
        assert(trim_end(Seq::<char>::empty()) =~= Seq::<char>::empty());
    }
}

/// Strings and their texts have the same places.
pub proof fn lemma_texts_keep_their_places(owned: Seq<String>, lent: Seq<&str>, i: int)
    ensures
        strings(owned).len() == owned.len(),
        texts(lent).len() == lent.len(),
        0 <= i < owned.len() ==> strings(owned)[i] == owned[i]@,
        0 <= i < lent.len() ==> texts(lent)[i] == lent[i]@,
{
}

} // verus!
