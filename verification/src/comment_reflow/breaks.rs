//! A text as the list of its lines, each with its line break.

use vstd::prelude::*;
use vstd::utf8::{
    decode_utf8, decode_utf8_encode_utf8, decode_utf8_split, encode_scalar, encode_utf8,
    encode_utf8_decode_utf8, encode_utf8_valid_utf8, is_char_boundary, valid_utf8, valid_utf8_split,
};

use crate::comment_reflow::lines::{
    back_over, lemma_boundary_before, lemma_boundary_behind, lemma_boundary_in_tail, next_start,
    starts, text_at, text_end,
};
use crate::text::join;

verus! {

/// Whether `line` holds no line feed.
pub open spec fn no_feed(line: Seq<u8>) -> bool {
    forall|i: int| 0 <= i < line.len() ==> #[trigger] line[i] != 10
}

/// Whether `line` holds a line feed at its end and nowhere else.
pub open spec fn has_break(line: Seq<u8>) -> bool {
    line.len() > 0 && line.last() == 10 && no_feed(line.drop_last())
}

/// Whether `list` is the lines of a text: every line but the last has a line break.
pub open spec fn are_lines(list: Seq<Seq<u8>>) -> bool {
    &&& list.len() > 0
    &&& forall|i: int| 0 <= i < list.len() - 1 ==> has_break(#[trigger] list[i])
    &&& no_feed(list.last())
}

/// The lines one after the other.
pub open spec fn glued(list: Seq<Seq<u8>>) -> Seq<u8>
    decreases list.len(),
{
    if list.len() == 0 {
        Seq::empty()
    } else {
        glued(list.drop_last()) + list.last()
    }
}

/// The lines of `bytes`.
pub open spec fn byte_lines(bytes: Seq<u8>) -> Seq<Seq<u8>>
    decreases bytes.len(),
{
    if bytes.len() == 0 {
        seq![Seq::empty()]
    } else {
        let front = byte_lines(bytes.drop_last());
        let grown = front.drop_last().push(front.last().push(bytes.last()));
        if bytes.last() == 10 {
            grown.push(Seq::empty())
        } else {
            grown
        }
    }
}

/// How many bytes of a line are its text: all but its line feed and a carriage return before that.
pub open spec fn body_len(line: Seq<u8>) -> int {
    back_over(line, 0, back_over(line, 0, line.len() as int, 10), 13)
}

/// What of a line is not its text.
pub open spec fn line_tail(line: Seq<u8>) -> Seq<u8> {
    line.skip(body_len(line))
}

/// The lines of a text are lines, and make up the text.
pub proof fn lemma_byte_lines(bytes: Seq<u8>)
    ensures
        are_lines(byte_lines(bytes)),
        glued(byte_lines(bytes)) == bytes,
    decreases bytes.len(),
{
    if bytes.len() == 0 {
        let list = byte_lines(bytes);
        assert(list.drop_last() =~= Seq::<Seq<u8>>::empty());
        assert(glued(list.drop_last()) =~= Seq::<u8>::empty());
        assert(glued(list) =~= bytes);
    } else {
        let rest = bytes.drop_last();
        lemma_byte_lines(rest);
        let front = byte_lines(rest);
        let last = front.last().push(bytes.last());
        let grown = front.drop_last().push(last);
        assert(grown.drop_last() =~= front.drop_last());
        assert(glued(grown) =~= glued(front).push(bytes.last()));
        assert(bytes =~= rest.push(bytes.last()));
        if bytes.last() == 10 {
            let list = grown.push(Seq::empty());
            assert(last.drop_last() =~= front.last());
            assert(list.drop_last() =~= grown);
            assert(glued(list) =~= bytes);
            assert forall|i: int| 0 <= i < list.len() - 1 implies has_break(#[trigger] list[i]) by {
                if i < front.len() - 1 {
                    assert(list[i] == front[i]);
                }
            }
        } else {
            assert forall|i: int| 0 <= i < grown.len() - 1 implies has_break(
                #[trigger] grown[i],
            ) by {
                assert(grown[i] == front[i]);
            }
            assert forall|i: int| 0 <= i < last.len() implies #[trigger] last[i] != 10 by {
                if i < front.last().len() {
                    assert(last[i] == front.last()[i]);
                }
            }
        }
    }
}

/// The lines of two lists, one list after the other.
pub proof fn lemma_glued_concat(a: Seq<Seq<u8>>, b: Seq<Seq<u8>>)
    ensures
        glued(a + b) == glued(a) + glued(b),
    decreases b.len(),
{
    if b.len() == 0 {
        assert(a + b =~= a);
        assert(glued(a) + glued(b) =~= glued(a));
    } else {
        let c = b.drop_last();
        lemma_glued_concat(a, c);
        assert((a + b).drop_last() =~= a + c);
        assert((a + b).last() == b.last());
        assert(glued(a + b) =~= glued(a) + glued(b));
    }
}

proof fn lemma_starts_concat(a: Seq<u8>, b: Seq<u8>)
    requires
        no_feed(b),
    ensures
        starts(a + b) == starts(a),
    decreases b.len(),
{
    if b.len() == 0 {
        assert(a + b =~= a);
    } else {
        let c = b.drop_last();
        assert(no_feed(c)) by {
            assert forall|i: int| 0 <= i < c.len() implies #[trigger] c[i] != 10 by {
                assert(c[i] == b[i]);
            }
        }
        lemma_starts_concat(a, c);
        assert((a + b).drop_last() =~= a + c);
        assert((a + b).last() == b.last());
        assert(b[b.len() - 1] != 10);
    }
}

/// Where the lines start that have line breaks, and where what follows them starts.
proof fn lemma_starts_of_broken(list: Seq<Seq<u8>>)
    requires
        forall|i: int| 0 <= i < list.len() ==> has_break(#[trigger] list[i]),
    ensures
        starts(glued(list)).len() == list.len() + 1,
        forall|i: int|
            0 <= i <= list.len() ==> #[trigger] starts(glued(list))[i] == glued(list.take(i)).len(),
    decreases list.len(),
{
    if list.len() == 0 {
        assert(list.take(0) =~= list);
    } else {
        let front = list.drop_last();
        let line = list.last();
        assert(has_break(list[list.len() - 1]));
        assert forall|i: int| 0 <= i < front.len() implies has_break(#[trigger] front[i]) by {
            assert(front[i] == list[i]);
        }
        lemma_starts_of_broken(front);
        let all = glued(list);
        lemma_starts_concat(glued(front), line.drop_last());
        assert(all.drop_last() =~= glued(front) + line.drop_last());
        assert(all.last() == 10);
        assert(starts(all) == starts(glued(front)).push(all.len() as int));
        assert forall|i: int| 0 <= i <= list.len() implies #[trigger] starts(all)[i] == glued(
            list.take(i),
        ).len() by {
            if i < list.len() {
                assert(list.take(i) =~= front.take(i));
                assert(starts(glued(front))[i] == glued(front.take(i)).len());
            } else {
                assert(list.take(i) =~= list);
            }
        }
    }
}

/// Where the lines of a text start and where their text ends.
pub proof fn lemma_places(list: Seq<Seq<u8>>, i: int)
    requires
        are_lines(list),
        0 <= i < list.len(),
    ensures
        starts(glued(list)).len() == list.len(),
        starts(glued(list))[i] == glued(list.take(i)).len(),
        next_start(glued(list), i) == glued(list.take(i + 1)).len(),
        text_end(glued(list), i) == glued(list.take(i)).len() + body_len(list[i]),
        glued(list.take(i + 1)) == glued(list.take(i)) + list[i],
        glued(list.take(i + 1)).is_prefix_of(glued(list)),
{
    let bytes = glued(list);
    let front = list.drop_last();
    assert forall|k: int| 0 <= k < front.len() implies has_break(#[trigger] front[k]) by {
        assert(front[k] == list[k]);
    }
    lemma_starts_of_broken(front);
    lemma_starts_concat(glued(front), list.last());
    assert forall|k: int| 0 <= k < list.len() implies #[trigger] starts(bytes)[k] == glued(
        list.take(k),
    ).len() by {
        assert(list.take(k) =~= front.take(k));
        assert(starts(glued(front))[k] == glued(front.take(k)).len());
    }
    assert(list.take(i + 1).drop_last() =~= list.take(i));
    if i + 1 < list.len() {
        assert(starts(bytes)[i + 1] == glued(list.take(i + 1)).len());
    } else {
        assert(list.take(i + 1) =~= list);
    }
    lemma_glued_concat(list.take(i + 1), list.skip(i + 1));
    assert(list.take(i + 1) + list.skip(i + 1) =~= list);
    let head = glued(list.take(i));
    let line = list[i];
    let start = starts(bytes)[i];
    let end = next_start(bytes, i);
    assert forall|k: int| 0 <= k < line.len() implies bytes[start + k] == line[k] by {
        assert(glued(list.take(i + 1))[head.len() + k] == line[k]);
        assert(bytes[head.len() + k] == glued(list.take(i + 1))[head.len() + k]);
    }
    assert(starts(bytes)[i] == head.len());
}

/// The texts of two lists of characters one after the other.
pub proof fn lemma_encode_concat(a: Seq<char>, b: Seq<char>)
    ensures
        encode_utf8(a + b) == encode_utf8(a) + encode_utf8(b),
    decreases a.len(),
{
    if a.len() == 0 {
        assert(a + b =~= b);
        assert(encode_utf8(a) + encode_utf8(b) =~= encode_utf8(b));
    } else {
        let c = a.drop_first();
        lemma_encode_concat(c, b);
        assert((a + b).drop_first() =~= c + b);
        assert((a + b)[0] == a[0]);
        assert(encode_utf8(a + b) =~= encode_utf8(a) + encode_utf8(b));
    }
}

/// The line feed as bytes.
pub proof fn lemma_encode_feed()
    ensures
        encode_utf8(seq!['\n']) == seq![10u8],
        decode_utf8(seq![10u8]) == seq!['\n'],
{
    let text = seq!['\n'];
    assert(text.drop_first() =~= Seq::<char>::empty());
    assert(encode_utf8(text.drop_first()) =~= Seq::<u8>::empty());
    assert('\n' as u32 == 10);
    assert(vstd::utf8::leading_byte_width_1(10u32) == 10u8) by {
        assert((10u32 & 0x7F) as u8 == 10u8) by (bit_vector);
    }
    assert(encode_scalar(10u32) =~= seq![10u8]);
    assert(encode_utf8(text) =~= seq![10u8]);
    encode_utf8_decode_utf8(text);
}

/// The carriage return as bytes.
proof fn lemma_encode_return()
    ensures
        encode_utf8(seq!['\r']) == seq![13u8],
        decode_utf8(seq![13u8]) == seq!['\r'],
{
    let text = seq!['\r'];
    assert(text.drop_first() =~= Seq::<char>::empty());
    assert(encode_utf8(text.drop_first()) =~= Seq::<u8>::empty());
    assert('\r' as u32 == 13);
    assert(vstd::utf8::leading_byte_width_1(13u32) == 13u8) by {
        assert((13u32 & 0x7F) as u8 == 13u8) by (bit_vector);
    }
    assert(encode_scalar(13u32) =~= seq![13u8]);
    assert(encode_utf8(text) =~= seq![13u8]);
    encode_utf8_decode_utf8(text);
}

/// A text that does not end in a carriage return is bytes that do not.
pub proof fn lemma_last_byte(text: Seq<char>)
    requires
        text.len() > 0,
        text.last() != '\r',
    ensures
        encode_utf8(text).len() > 0,
        encode_utf8(text).last() != 13,
{
    let bytes = encode_utf8(text);
    encode_utf8_valid_utf8(text);
    encode_utf8_decode_utf8(text);
    if bytes.len() == 0 {
        assert(decode_utf8(bytes) =~= Seq::<char>::empty());
    } else if bytes.last() == 13 {
        let at = bytes.len() - 1;
        lemma_boundary_before(bytes, at);
        decode_utf8_split(bytes, at);
        assert(bytes.subrange(at, bytes.len() as int) =~= seq![13u8]);
        lemma_encode_return();
    }
}

/// What of a line is not its text is a line feed, a carriage return, both or nothing.
pub proof fn lemma_tail_forms(line: Seq<u8>)
    ensures
        line_tail(line) == Seq::<u8>::empty() || line_tail(line) == seq![10u8] || line_tail(line)
            == seq![13u8] || line_tail(line) == seq![13u8, 10u8],
{
    let n = line.len() as int;
    let tail = line_tail(line);
    if n > 0 && line[n - 1] == 10 {
        if n > 1 && line[n - 2] == 13 {
            assert(tail =~= seq![13u8, 10u8]);
        } else {
            assert(tail =~= seq![10u8]);
        }
    } else if n > 0 && line[n - 1] == 13 {
        assert(tail =~= seq![13u8]);
    } else {
        assert(tail =~= Seq::<u8>::empty());
    }
}

/// The text of a line is what stands before its line break.
pub proof fn lemma_body_len(text: Seq<u8>, line: Seq<u8>)
    requires
        text.len() > 0,
        text.last() != 10,
        text.last() != 13,
    ensures
        body_len(text + line_tail(line)) == text.len(),
        body_len(text + seq![10u8]) == text.len(),
{
    lemma_tail_forms(line);
    let a = text + line_tail(line);
    let b = text + seq![10u8];
    let n = text.len() as int;
    assert(a[n - 1] == text.last());
    assert(b[n - 1] == text.last());
}

/// Bytes that hold a line feed are a text that holds one.
pub proof fn lemma_feed_in_text(bytes: Seq<u8>, k: int)
    requires
        valid_utf8(bytes),
        0 <= k < bytes.len(),
        bytes[k] == 10,
    ensures
        decode_utf8(bytes).contains('\n'),
{
    lemma_boundary_before(bytes, k);
    lemma_boundary_behind(bytes, k + 1);
    lemma_boundary_in_tail(bytes, k, k + 1);
    let tail = bytes.subrange(k, bytes.len() as int);
    decode_utf8_split(bytes, k);
    decode_utf8_split(tail, 1);
    assert(tail.subrange(0, 1) =~= seq![10u8]);
    lemma_encode_feed();
    let text = decode_utf8(bytes);
    let at = decode_utf8(bytes.subrange(0, k)).len() as int;
    assert(decode_utf8(tail)[0] == '\n');
    assert(text[at] == '\n');
}

/// A text without a line feed is bytes without one.
pub proof fn lemma_no_feed_in_bytes(text: Seq<char>)
    requires
        !text.contains('\n'),
    ensures
        no_feed(encode_utf8(text)),
{
    let bytes = encode_utf8(text);
    encode_utf8_valid_utf8(text);
    encode_utf8_decode_utf8(text);
    assert forall|i: int| 0 <= i < bytes.len() implies #[trigger] bytes[i] != 10 by {
        if bytes[i] == 10 {
            lemma_feed_in_text(bytes, i);
        }
    }
}

/// Bytes without a line feed are a text without one.
pub proof fn lemma_no_feed_in_text(bytes: Seq<u8>)
    requires
        valid_utf8(bytes),
        no_feed(bytes),
    ensures
        !decode_utf8(bytes).contains('\n'),
{
    let text = decode_utf8(bytes);
    decode_utf8_encode_utf8(bytes);
    if text.contains('\n') {
        let i = choose|i: int| 0 <= i < text.len() && text[i] == '\n';
        let a = text.take(i);
        let b = seq!['\n'];
        let c = text.skip(i + 1);
        lemma_encode_concat(a, b + c);
        lemma_encode_concat(b, c);
        lemma_encode_feed();
        assert(text =~= a + (b + c));
        let at = encode_utf8(a).len() as int;
        assert(bytes[at] == 10);
    }
}

/// The bytes of a piece of text are the bytes that it was read from.
pub proof fn lemma_encode_text_at(bytes: Seq<u8>, from: int, to: int)
    requires
        valid_utf8(bytes),
        0 <= from <= to <= bytes.len(),
        is_char_boundary(bytes, from),
        is_char_boundary(bytes, to),
    ensures
        encode_utf8(text_at(bytes, from, to)) == bytes.subrange(from, to),
        valid_utf8(bytes.subrange(from, to)),
{
    let tail = bytes.subrange(from, bytes.len() as int);
    lemma_boundary_in_tail(bytes, from, to);
    valid_utf8_split(tail, to - from);
    assert(tail.subrange(0, to - from) =~= bytes.subrange(from, to));
    decode_utf8_encode_utf8(bytes.subrange(from, to));
}

/// Lines of text as lines of bytes: each with a line feed, but for the last, which is followed by
/// `tail`.
pub open spec fn broken_lines(texts: Seq<Seq<char>>, tail: Seq<u8>) -> Seq<Seq<u8>> {
    Seq::new(
        texts.len(),
        |j: int|
            encode_utf8(texts[j]) + if j + 1 < texts.len() {
                seq![10u8]
            } else {
                tail
            },
    )
}

/// Lines that are joined are the lines of bytes one after the other.
pub proof fn lemma_joined_lines(texts: Seq<Seq<char>>, tail: Seq<u8>)
    requires
        texts.len() > 0,
    ensures
        glued(broken_lines(texts, tail)) == encode_utf8(join(texts, seq!['\n'])) + tail,
    decreases texts.len(),
{
    let list = broken_lines(texts, tail);
    let front = texts.drop_last();
    lemma_encode_feed();
    if texts.len() == 1 {
        assert(list.drop_last() =~= Seq::<Seq<u8>>::empty());
        assert(glued(list.drop_last()) =~= Seq::<u8>::empty());
        assert(glued(list) =~= encode_utf8(join(texts, seq!['\n'])) + tail);
    } else {
        lemma_joined_lines(front, seq![10u8]);
        assert(list.drop_last() =~= broken_lines(front, seq![10u8]));
        let head = join(front, seq!['\n']);
        lemma_encode_concat(head, seq!['\n']);
        lemma_encode_concat(head + seq!['\n'], texts.last());
        assert(glued(list) =~= encode_utf8(join(texts, seq!['\n'])) + tail);
    }
}

} // verus!
