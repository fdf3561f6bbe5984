//! Whole numbers as text.

use vstd::prelude::*;

use crate::text::chars_of;

verus! {

/// The digit for `d` in base ten.
pub open spec fn digit_char(d: nat) -> char {
    if d == 0 {
        '0'
    } else if d == 1 {
        '1'
    } else if d == 2 {
        '2'
    } else if d == 3 {
        '3'
    } else if d == 4 {
        '4'
    } else if d == 5 {
        '5'
    } else if d == 6 {
        '6'
    } else if d == 7 {
        '7'
    } else if d == 8 {
        '8'
    } else {
        '9'
    }
}

/// `n` in base ten, without leading zeros.
pub open spec fn decimal(n: nat) -> Seq<char>
    decreases n,
{
    if n < 10 {
        seq![digit_char(n)]
    } else {
        decimal(n / 10).push(digit_char(n % 10))
    }
}

/// The digit for `d`, as text.
fn digit_text(d: u64) -> (r: &'static str)
    requires
        d < 10,
    ensures
        r@ == seq![digit_char(d as nat)],
{
    proof {
        reveal_strlit("0");
        reveal_strlit("1");
        reveal_strlit("2");
        reveal_strlit("3");
        reveal_strlit("4");
        reveal_strlit("5");
        reveal_strlit("6");
        reveal_strlit("7");
        reveal_strlit("8");
        reveal_strlit("9");
    }
    let text = match d {
        0 => "0",
        1 => "1",
        2 => "2",
        3 => "3",
        4 => "4",
        5 => "5",
        6 => "6",
        7 => "7",
        8 => "8",
        _ => "9",
    };
    assert(text@ =~= seq![digit_char(d as nat)]);
    text
}

/// Writes `n` in base ten behind `out`.
pub fn append_decimal(out: &mut String, n: u64)
    ensures
        final(out)@ == old(out)@ + decimal(n as nat),
    decreases n,
{
    let ghost before = out@;
    if n >= 10 {
        append_decimal(out, n / 10);
    }
    let ghost front = out@;
    out.append(digit_text(n % 10));
    assert(out@ =~= before + decimal(n as nat));
}

/// `n` in base ten.
pub fn decimal_text(n: u64) -> (r: String)
    ensures
        r@ == decimal(n as nat),
{
    let mut out = String::new();
    append_decimal(&mut out, n);
    assert(out@ =~= decimal(n as nat));
    out
}

/// Why a text is not a number.
#[derive(Clone, Copy, Debug, PartialEq, Eq, Structural)]
pub enum NumberError {
    /// There is no text.
    Empty,
    /// A character is not a digit, or a sign stands alone.
    InvalidDigit,
    /// The number does not fit.
    TooLarge,
}

impl NumberError {
    /// What is wrong, in words.
    pub open spec fn words(self) -> Seq<char> {
        match self {
            NumberError::Empty => "cannot parse integer from empty string"@,
            NumberError::InvalidDigit => "invalid digit found in string"@,
            NumberError::TooLarge => "number too large to fit in target type"@,
        }
    }

    /// What is wrong, in words.
    pub fn message(&self) -> (r: &'static str)
        ensures
            r@ == self.words(),
    {
        match self {
            NumberError::Empty => "cannot parse integer from empty string",
            NumberError::InvalidDigit => "invalid digit found in string",
            NumberError::TooLarge => "number too large to fit in target type",
        }
    }
}

/// The value of a character as a digit in base ten.
pub open spec fn digit_value(c: char) -> Option<nat> {
    if '0' <= c && c <= '9' {
        Some((c as u32 - '0' as u32) as nat)
    } else {
        None
    }
}

/// The number that `digits` write in base ten, read from the left up to the first character that
/// is not a digit or takes the number beyond 64 bits.
pub open spec fn digits_value(digits: Seq<char>) -> Result<nat, NumberError>
    decreases digits.len(),
{
    if digits.len() == 0 {
        Ok(0)
    } else {
        match digits_value(digits.drop_last()) {
            Err(error) => Err(error),
            Ok(front) => match digit_value(digits.last()) {
                None => Err(NumberError::InvalidDigit),
                Some(digit) => if front * 10 + digit > u64::MAX {
                    Err(NumberError::TooLarge)
                } else {
                    Ok(front * 10 + digit)
                },
            },
        }
    }
}

/// The number that `text` writes: digits in base ten, with or without a plus sign before them.
pub open spec fn number(text: Seq<char>) -> Result<nat, NumberError> {
    if text.len() == 0 {
        Err(NumberError::Empty)
    } else if text[0] == '+' && text.len() > 1 {
        digits_value(text.skip(1))
    } else {
        digits_value(text)
    }
}

/// Reading stops at the first error.
proof fn lemma_error_stays(digits: Seq<char>, n: int)
    requires
        0 <= n <= digits.len(),
        digits_value(digits.take(n)) is Err,
    ensures
        digits_value(digits) == digits_value(digits.take(n)),
    decreases digits.len() - n,
{
    if n < digits.len() {
        assert(digits.take(n + 1).drop_last() =~= digits.take(n));
        lemma_error_stays(digits, n + 1);
    } else {
        assert(digits.take(n) =~= digits);
    }
}

/// The number that `text` writes in base ten.
pub fn parse_u64(text: &str) -> (r: Result<u64, NumberError>)
    ensures
        match r {
            Ok(value) => number(text@) == Ok::<nat, NumberError>(value as nat),
            Err(error) => number(text@) == Err::<nat, NumberError>(error),
        },
{
    let chars = chars_of(text);
    if chars.len() == 0 {
        return Err(NumberError::Empty);
    }
    let from: usize = if chars[0] == '+' && chars.len() > 1 {
        1
    } else {
        0
    };
    let ghost digits = text@.skip(from as int);
    assert(text@.skip(0) =~= text@);
    let mut value: u64 = 0;
    let mut i: usize = from;
    assert(digits.take(0) =~= Seq::<char>::empty());
    while i < chars.len()
        invariant
            from <= i <= chars@.len(),
            chars@ == text@,
            digits == text@.skip(from as int),
            number(text@) == digits_value(digits),
            digits_value(digits.take(i - from)) == Ok::<nat, NumberError>(value as nat),
        decreases chars@.len() - i,
    {
        let c: char = chars[i];
        proof {
            let done = digits.take(i - from + 1);
            assert(done.drop_last() =~= digits.take(i - from));
            assert(done.last() == c);
            if digits_value(done) is Err {
                lemma_error_stays(digits, i - from + 1);
            }
        }
        if !('0' <= c && c <= '9') {
            return Err(NumberError::InvalidDigit);
        }
        let digit: u64 = (c as u32 - '0' as u32) as u64;
        if value > u64::MAX / 10 || value * 10 > u64::MAX - digit {
            return Err(NumberError::TooLarge);
        }
        value = value * 10 + digit;
        i = i + 1;
    }
    assert(digits.take(i - from) =~= digits);
    Ok(value)
}

/// A number that is written and read again is the same number.
pub proof fn lemma_decimal_reads_back(n: nat)
    requires
        n <= u64::MAX,
    ensures
        number(decimal(n)) == Ok::<nat, NumberError>(n),
        digits_value(decimal(n)) == Ok::<nat, NumberError>(n),
        decimal(n).len() > 0,
        '0' <= decimal(n)[0] && decimal(n)[0] <= '9',
    decreases n,
{
    if n < 10 {
        assert(decimal(n).drop_last() =~= Seq::<char>::empty());
        assert(digits_value(Seq::<char>::empty()) == Ok::<nat, NumberError>(0));
        assert(digit_value(digit_char(n)) == Some(n));
    } else {
        lemma_decimal_reads_back(n / 10);
        assert(decimal(n).drop_last() =~= decimal(n / 10));
        assert(digit_value(digit_char(n % 10)) == Some(n % 10));
    }
}

/// No number but zero is written with a zero in front.
pub proof fn lemma_no_zero_in_front(n: nat)
    ensures
        decimal(n).len() > 0,
        n > 0 ==> decimal(n)[0] != '0',
        n == 0 ==> decimal(n) == seq!['0'],
    decreases n,
{
    if n >= 10 {
        lemma_no_zero_in_front(n / 10);
    }
}

/// `zeros` zeros, and `n` in base ten.
pub open spec fn padded(zeros: nat, n: nat) -> Seq<char> {
    Seq::new(zeros, |i: int| '0') + decimal(n)
}

/// A number is read whatever zeros or plus sign stand before it, up to the largest of 64 bits. A
/// larger one is too large, and any character but a digit behind what has been read is no digit.
pub proof fn lemma_numbers_are_read(zeros: nat, n: nat, c: char, rest: Seq<char>)
    ensures
        n <= u64::MAX ==> number(padded(zeros, n)) == Ok::<nat, NumberError>(n),
        n <= u64::MAX ==> number(seq!['+'] + padded(zeros, n)) == Ok::<nat, NumberError>(n),
        n > u64::MAX ==> number(padded(zeros, n)) == Err::<nat, NumberError>(NumberError::TooLarge),
        n > u64::MAX ==> number(seq!['+'] + padded(zeros, n)) == Err::<nat, NumberError>(
            NumberError::TooLarge,
        ),
        n <= u64::MAX && !('0' <= c && c <= '9') ==> number(padded(zeros, n) + seq![c] + rest)
            == Err::<nat, NumberError>(NumberError::InvalidDigit),
        !('0' <= c && c <= '9') && (c != '+' || rest.len() == 0) ==> number(seq![c] + rest) == Err::<
            nat,
            NumberError,
        >(NumberError::InvalidDigit),
        !('0' <= c && c <= '9') ==> number(seq!['+', c] + rest) == Err::<nat, NumberError>(
            NumberError::InvalidDigit,
        ),
        number(Seq::empty()) == Err::<nat, NumberError>(NumberError::Empty),
{
    let digits = padded(zeros, n);
    lemma_padded_is_read(zeros, n);
    assert(digits[0] == '0' || digits[0] == decimal(n)[0]);
    assert((seq!['+'] + digits).skip(1) =~= digits);
    if !('0' <= c && c <= '9') {
        if n <= u64::MAX {
            let more = digits + seq![c] + rest;
            let k = digits.len() as int;
            assert(more.take(k + 1).drop_last() =~= digits);
            lemma_error_stays(more, k + 1);
        }
        let alone = seq![c] + rest;
        assert(alone.take(1).drop_last() =~= Seq::<char>::empty());
        lemma_error_stays(alone, 1);
        assert((seq!['+', c] + rest).skip(1) =~= alone);
    }
}

proof fn lemma_padded_is_read(zeros: nat, n: nat)
    ensures
        digits_value(padded(zeros, n)) == if n <= u64::MAX {
            Ok::<nat, NumberError>(n)
        } else {
            Err::<nat, NumberError>(NumberError::TooLarge)
        },
        decimal(n).len() > 0,
        '0' <= decimal(n)[0] && decimal(n)[0] <= '9',
    decreases n,
{
    let digits = padded(zeros, n);
    if n < 10 {
        lemma_zeros_are_read(zeros);
        assert(digits.drop_last() =~= Seq::new(zeros, |i: int| '0'));
        assert(digit_value(digit_char(n)) == Some(n));
    } else {
        lemma_padded_is_read(zeros, n / 10);
        assert(digits.drop_last() =~= padded(zeros, n / 10));
        assert(digit_value(digit_char(n % 10)) == Some(n % 10));
    }
}

proof fn lemma_zeros_are_read(zeros: nat)
    ensures
        digits_value(Seq::new(zeros, |i: int| '0')) == Ok::<nat, NumberError>(0),
    decreases zeros,
{
    let digits = Seq::new(zeros, |i: int| '0');
    if zeros > 0 {
        lemma_zeros_are_read((zeros - 1) as nat);
        assert(digits.drop_last() =~= Seq::new((zeros - 1) as nat, |i: int| '0'));
    }
}

/// Every text of digits is some number with some zeros before it, so that the law on reading such
/// texts speaks of all of them.
pub proof fn lemma_digits_write_a_number(digits: Seq<char>)
    requires
        digits.len() > 0,
        forall|i: int| 0 <= i < digits.len() ==> '0' <= #[trigger] digits[i] && digits[i] <= '9',
    ensures
        exists|zeros: nat, n: nat| digits == #[trigger] padded(zeros, n),
    decreases digits.len(),
{
    let last = digits.last();
    assert('0' <= last && last <= '9');
    let d = (last as u32 - '0' as u32) as nat;
    assert(digit_char(d) == last);
    if digits.len() == 1 {
        assert(digits =~= padded(0, d));
    } else {
        let front = digits.drop_last();
        assert forall|i: int| 0 <= i < front.len() implies '0' <= #[trigger] front[i] && front[i]
            <= '9' by {
            assert(front[i] == digits[i]);
        }
        lemma_digits_write_a_number(front);
        let (zeros, n): (nat, nat) = choose|zeros: nat, n: nat|
            front == #[trigger] padded(zeros, n);
        if n == 0 {
            assert(decimal(0) == seq!['0']);
            assert(decimal(d) == seq![last]);
            assert(digits =~= front.push(last));
            assert(digits =~= padded(zeros + 1, d));
        } else {
            assert((n * 10 + d) / 10 == n && (n * 10 + d) % 10 == d);
            assert(decimal(n * 10 + d) == decimal(n).push(last));
            assert(digits =~= front.push(last));
            assert(digits =~= padded(zeros, n * 10 + d));
        }
    }
}

} // verus!
