//! Numbers in base sixteen.

use vstd::prelude::*;

verus! {

/// The digit for `d`, in lower case.
pub open spec fn hex_char(d: nat) -> char {
    if d < 10 {
        (48 + d) as u8 as char
    } else {
        (87 + d) as u8 as char
    }
}

/// The value of a digit of either case.
pub open spec fn hex_digit(c: char) -> Option<nat> {
    if '0' <= c && c <= '9' {
        Some((c as u32 - 48) as nat)
    } else if 'a' <= c && c <= 'f' {
        Some((c as u32 - 87) as nat)
    } else if 'A' <= c && c <= 'F' {
        Some((c as u32 - 55) as nat)
    } else {
        None
    }
}

/// `n` in `width` digits, the most significant one first; what does not fit is cut off in front.
pub open spec fn hex_digits(n: nat, width: nat) -> Seq<char>
    decreases width,
{
    if width == 0 {
        Seq::empty()
    } else {
        hex_digits(n / 16, (width - 1) as nat).push(hex_char(n % 16))
    }
}

/// The number that a text of digits writes, and nothing where a character is not a digit.
pub open spec fn hex_value(text: Seq<char>) -> Option<nat>
    decreases text.len(),
{
    if text.len() == 0 {
        Some(0)
    } else {
        match (hex_value(text.drop_last()), hex_digit(text.last())) {
            (Some(front), Some(digit)) => Some(front * 16 + digit),
            _ => None,
        }
    }
}

/// A digit in lower case.
pub open spec fn lower_digit(c: char) -> char {
    match hex_digit(c) {
        Some(digit) => hex_char(digit),
        None => c,
    }
}

/// `text` with its digits in lower case.
pub open spec fn lower_digits(text: Seq<char>) -> Seq<char> {
    text.map_values(|c: char| lower_digit(c))
}

/// Sixteen to the power of `n`.
pub open spec fn pow16(n: nat) -> nat
    decreases n,
{
    if n == 0 {
        1
    } else {
        16 * pow16((n - 1) as nat)
    }
}

/// A number that is written in enough digits is read back.
pub proof fn lemma_hex_reads_back(n: nat, width: nat)
    requires
        n < pow16(width),
    ensures
        hex_value(hex_digits(n, width)) == Some(n),
        hex_digits(n, width).len() == width,
    decreases width,
{
    if width > 0 {
        assert(n / 16 < pow16((width - 1) as nat));
        lemma_hex_reads_back(n / 16, (width - 1) as nat);
        let text = hex_digits(n, width);
        assert(text.drop_last() =~= hex_digits(n / 16, (width - 1) as nat));
        assert(hex_digit(hex_char(n % 16)) == Some(n % 16));
    }
}

/// Digits that are read and written again come out in lower case.
pub proof fn lemma_hex_writes_back(text: Seq<char>)
    requires
        hex_value(text) is Some,
    ensures
        hex_digits(hex_value(text)->Some_0, text.len()) == lower_digits(text),
        hex_value(text)->Some_0 < pow16(text.len()),
    decreases text.len(),
{
    if text.len() > 0 {
        let front = text.drop_last();
        lemma_hex_writes_back(front);
        let value = hex_value(text)->Some_0;
        let digit = hex_digit(text.last())->Some_0;
        assert(digit < 16);
        assert(value / 16 == hex_value(front)->Some_0);
        assert(value % 16 == digit);
        assert(lower_digits(text) =~= lower_digits(front).push(lower_digit(text.last())));
    } else {
        assert(lower_digits(text) =~= Seq::<char>::empty());
    }
}

/// A digit of either case has the same value, and only the six letters change in lower case.
pub proof fn lemma_digits_of_either_case(c: char)
    ensures
        'A' <= c && c <= 'F' ==> lower_digit(c) as u32 == c as u32 + 32 && hex_digit(c) == hex_digit(
            lower_digit(c),
        ),
        !('A' <= c && c <= 'F') ==> lower_digit(c) == c,
        hex_digit(c) is Some <==> ('0' <= c && c <= '9') || ('a' <= c && c <= 'f') || ('A' <= c && c
            <= 'F'),
{
}

/// The digits of a number in lower case are its digits, each with its weight: the first has the
/// rest of them behind it, and none is left out.
pub proof fn lemma_hex_digits_are_counted(n: nat, width: nat)
    ensures
        hex_digits(n, width).len() == width,
        hex_digits(n, width + 1) == hex_digits(n / 16, width) + hex_digits(n % 16, 1),
{
    lemma_hex_digits_len(n, width);
    reveal_with_fuel(hex_digits, 3);
    assert(hex_digits(n, width + 1) =~= hex_digits(n / 16, width) + hex_digits(n % 16, 1));
}

proof fn lemma_hex_digits_len(n: nat, width: nat)
    ensures
        hex_digits(n, width).len() == width,
    decreases width,
{
    if width > 0 {
        lemma_hex_digits_len(n / 16, (width - 1) as nat);
    }
}

} // verus!
