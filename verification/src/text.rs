//! Small readings of text.

use vstd::prelude::*;

verus! {

/// The characters of a text.
pub fn chars_of(text: &str) -> (chars: Vec<char>)
    ensures
        chars@ == text@,
{
    let mut chars: Vec<char> = Vec::new();
    for c in it: text.chars()
        invariant
            it.seq() == text@,
            chars@ == text@.take(it.index() as int),
    {
        chars.push(c);
        assert(text@.take(it.index() + 1) =~= text@.take(it.index() as int).push(c));
    }
    assert(text@.take(text@.len() as int) =~= text@);
    chars
}

/// Whether two texts are the same.
pub fn same_text(a: &str, b: &str) -> (same: bool)
    ensures
        same == (a@ == b@),
{
    let (a, b) = (a.to_owned(), b.to_owned());
    a.eq(&b)
}

/// The value of a decimal digit, if the character is one.
pub open spec fn digit(c: char) -> Option<nat> {
    if '0' <= c && c <= '9' {
        Some((c as u32 - '0' as u32) as nat)
    } else {
        None
    }
}

/// The number that a sequence of decimal digits writes, if all of them are digits.
pub open spec fn decimal(digits: Seq<char>) -> Option<nat>
    decreases digits.len(),
{
    if digits.len() == 0 {
        Some(0)
    } else {
        match (decimal(digits.drop_last()), digit(digits.last())) {
            (Some(front), Some(last)) => Some(10 * front + last),
            _ => None,
        }
    }
}

/// The word that a text writes: an optional plus sign and at least one decimal digit, where the
/// number fits a word.
pub open spec fn usize_of(text: Seq<char>) -> Option<usize> {
    let digits = if text.len() > 0 && text[0] == '+' {
        text.skip(1)
    } else {
        text
    };
    match decimal(digits) {
        Some(value) if digits.len() > 0 && value <= usize::MAX => Some(value as usize),
        _ => None,
    }
}

/// The number of a longer run of digits is no smaller, and there is none where a shorter run has
/// none.
proof fn lemma_decimal_prefix(digits: Seq<char>, n: int)
    requires
        0 <= n <= digits.len(),
    ensures
        decimal(digits.take(n)) is None ==> decimal(digits) is None,
        decimal(digits) is Some ==> decimal(digits.take(n)) is Some && decimal(digits.take(n))->Some_0
            <= decimal(digits)->Some_0,
    decreases digits.len(),
{
    if n < digits.len() {
        assert(digits.drop_last().take(n) =~= digits.take(n));
        lemma_decimal_prefix(digits.drop_last(), n);
    } else {
        assert(digits.take(n) =~= digits);
    }
}

/// Read a word from a text.
pub fn parse_usize(text: &str) -> (value: Option<usize>)
    ensures
        value == usize_of(text@),
{
    let chars: Vec<char> = chars_of(text);
    let start: usize = if chars.len() > 0 && chars[0] == '+' {
        1
    } else {
        0
    };
    let ghost digits = if start == 1 {
        text@.skip(1)
    } else {
        text@
    };
    if chars.len() == start {
        return None;
    }
    let mut value: usize = 0;
    let mut i: usize = start;
    while i < chars.len()
        invariant
            start <= i <= chars@.len(),
            chars@ == text@,
            start == (if text@.len() > 0 && text@[0] == '+' {
                1int
            } else {
                0
            }),
            digits == (if start == 1 {
                text@.skip(1)
            } else {
                text@
            }),
            digits.len() == chars@.len() - start,
            digits.len() > 0,
            decimal(digits.take(i - start)) == Some(value as nat),
        decreases chars@.len() - i,
    {
        let c: char = chars[i];
        assert(digits.take(i + 1 - start).drop_last() =~= digits.take(i - start));
        assert(digits.take(i + 1 - start).last() == c);
        proof {
            lemma_decimal_prefix(digits, i + 1 - start);
        }
        if !('0' <= c && c <= '9') {
            return None;
        }
        let last: usize = (c as u32 - 48) as usize;
        match value.checked_mul(10) {
            Some(shifted) => match shifted.checked_add(last) {
                Some(next) => {
                    value = next;
                },
                None => return None,
            },
            None => return None,
        }
        i = i + 1;
    }
    assert(digits.take(i - start) =~= digits);
    Some(value)
}

/// The characters that decimal digits are written as.
pub open spec fn digit_chars() -> Seq<char> {
    seq!['0', '1', '2', '3', '4', '5', '6', '7', '8', '9']
}

/// The decimal digits of a number, without leading zeros.
pub open spec fn digits_of(n: nat) -> Seq<char>
    decreases n,
{
    if n < 10 {
        seq![digit_chars()[n as int]]
    } else {
        digits_of(n / 10).push(digit_chars()[(n % 10) as int])
    }
}

/// A number is read as what was written, with leading zeros and with a plus sign or without.
pub proof fn law_number_round_trip(n: usize, zeros: nat)
    ensures
        usize_of(Seq::new(zeros, |i: int| '0') + digits_of(n as nat)) == Some(n),
        usize_of(seq!['+'] + (Seq::new(zeros, |i: int| '0') + digits_of(n as nat))) == Some(n),
{
    let digits = Seq::new(zeros, |i: int| '0') + digits_of(n as nat);
    let signed = seq!['+'] + digits;
    lemma_written_digits(n as nat, zeros);
    assert(signed.skip(1) =~= digits);
    if digits[0] == '+' {
        lemma_decimal_digits(digits, 0);
    }
}

/// The digits of a number, with zeros before them, write it.
proof fn lemma_written_digits(n: nat, zeros: nat)
    ensures
        decimal(Seq::new(zeros, |i: int| '0') + digits_of(n)) == Some(n),
        digits_of(n).len() > 0,
    decreases n,
{
    let front = Seq::new(zeros, |i: int| '0');
    let whole = front + digits_of(n);
    if n < 10 {
        lemma_zeros(zeros);
        assert(whole.drop_last() =~= front);
        assert(whole.last() == digit_chars()[n as int]);
    } else {
        lemma_written_digits(n / 10, zeros);
        assert(whole.drop_last() =~= front + digits_of(n / 10));
        assert(whole.last() == digit_chars()[(n % 10) as int]);
    }
}

proof fn lemma_zeros(zeros: nat)
    ensures
        decimal(Seq::new(zeros, |i: int| '0')) == Some(0nat),
    decreases zeros,
{
    if zeros > 0 {
        lemma_zeros((zeros - 1) as nat);
        assert(Seq::new(zeros, |i: int| '0').drop_last() =~= Seq::new(
            (zeros - 1) as nat,
            |i: int| '0',
        ));
    }
}

/// Only digits write a number.
proof fn lemma_decimal_digits(digits: Seq<char>, i: int)
    requires
        decimal(digits) is Some,
        0 <= i < digits.len(),
    ensures
        digit_chars().contains(digits[i]),
    decreases digits.len(),
{
    if i < digits.len() - 1 {
        lemma_decimal_digits(digits.drop_last(), i);
    } else {
        let c = digits.last();
        let value = digit(c)->Some_0;
        assert(digit_chars()[value as int] == c);
    }
}

/// Only a text of digits, after a plus sign or without one, is a number.
pub proof fn law_numbers_are_digits(text: Seq<char>, i: int)
    requires
        usize_of(text) is Some,
        0 <= i < text.len(),
    ensures
        i == 0 && text[i] == '+' && text.len() > 1 || digit_chars().contains(text[i]),
{
    if text[0] == '+' {
        if i > 0 {
            lemma_decimal_digits(text.skip(1), i - 1);
        }
    } else {
        lemma_decimal_digits(text, i);
    }
}

} // verus!
