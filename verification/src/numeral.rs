//! Decimal numerals: how line numbers are printed and offsets are read.

use vstd::prelude::*;

verus! {

/// The character for a digit below ten.
pub open spec fn digit_char(digit: nat) -> char {
    ('0' as u32 + digit) as char
}

/// The decimal numeral of a natural number, without leading zeros.
pub open spec fn decimal_text(n: nat) -> Seq<char>
    decreases n,
{
    if n < 10 {
        seq![digit_char(n)]
    } else {
        decimal_text(n / 10).push(digit_char(n % 10))
    }
}

/// The decimal numeral of an integer, with a leading `-` below zero.
pub open spec fn signed_text(n: int) -> Seq<char> {
    if n < 0 {
        "-"@ + decimal_text((-n) as nat)
    } else {
        decimal_text(n as nat)
    }
}

/// The one-character text of a digit.
fn digit_text(digit: u64) -> (text: &'static str)
    requires
        digit < 10,
    ensures
        text@ == seq![digit_char(digit as nat)],
{
    proof {
        reveal_strlit("0");
        reveal_strlit("1");
        reveal_strlit("2");
        reveal_strlit("3");
        reveal_strlit("4");
        reveal_strlit("5");
        reveal_strlit("6");
        reveal_strlit("7");
        reveal_strlit("8");
        reveal_strlit("9");
    }
    match digit {
        0 => "0",
        1 => "1",
        2 => "2",
        3 => "3",
        4 => "4",
        5 => "5",
        6 => "6",
        7 => "7",
        8 => "8",
        _ => "9",
    }
}

/// The decimal numeral of `n`.
pub fn decimal(n: u64) -> (text: String)
    ensures
        text@ == decimal_text(n as nat),
    decreases n,
{
    if n < 10 {
        digit_text(n).to_owned()
    } else {
        let mut text = decimal(n / 10);
        text.append(digit_text(n % 10));
        text
    }
}

/// The decimal numeral of `n`, signed.
pub fn signed_decimal(n: i64) -> (text: String)
    ensures
        text@ == signed_text(n as int),
{
    if n < 0 {
        let mut text = "-".to_owned();
        let size: u64 = (-(n as i128)) as u64;
        text.append(decimal(size).as_str());
        text
    } else {
        decimal(n as u64)
    }
}

/// `c` is one of the ten ASCII digits.
pub open spec fn is_digit(c: char) -> bool {
    '0' <= c <= '9'
}

/// Every character is a digit.
pub open spec fn all_digits(text: Seq<char>) -> bool {
    forall|i: int| 0 <= i < text.len() ==> is_digit(#[trigger] text[i])
}

/// The number that a sequence of digits stands for.
pub open spec fn digits_value(digits: Seq<char>) -> nat
    decreases digits.len(),
{
    if digits.len() == 0 {
        0
    } else {
        10 * digits_value(digits.drop_last()) + (digits.last() as u32 - '0' as u32) as nat
    }
}

/// The integer that `text` denotes: an optional sign and one or more digits,
/// and nothing else.
pub open spec fn integer_value(text: Seq<char>) -> Option<int> {
    let signed = text.len() > 0 && (text[0] == '-' || text[0] == '+');
    let digits = if signed { text.skip(1) } else { text };
    if digits.len() > 0 && all_digits(digits) {
        if signed && text[0] == '-' {
            Some(-(digits_value(digits) as int))
        } else {
            Some(digits_value(digits) as int)
        }
    } else {
        None
    }
}

/// The signed 64-bit number that `text` denotes, if it denotes one.
pub open spec fn offset_value(text: Seq<char>) -> Option<i64> {
    match integer_value(text) {
        Some(value) => if i64::MIN <= value <= i64::MAX {
            Some(value as i64)
        } else {
            None
        },
        None => None,
    }
}

/// The characters of a text.
pub(crate) fn chars_of(text: &str) -> (chars: Vec<char>)
    ensures
        chars@ == text@,
{
    let mut chars: Vec<char> = Vec::new();
    for c in it: text.chars()
        invariant
            it.seq() == text@,
            chars@ == text@.take(it.index() as int),
    {
        chars.push(c);
    }
    assert(text@.take(text@.len() as int) == text@);
    chars
}

/// Reads a signed 64-bit number in decimal, as the offset of a neighbor
/// anchor is written.
pub fn parse_offset(text: &str) -> (offset: Option<i64>)
    ensures
        offset == offset_value(text@),
{
    let chars = chars_of(text);
    let signed = chars.len() > 0 && (chars[0] == '-' || chars[0] == '+');
    let start: usize = if signed { 1 } else { 0 };
    let ghost digits = if signed { text@.skip(1) } else { text@ };
    if start == chars.len() {
        return None;
    }
    let mut size: u64 = 0;
    let mut fits: bool = true;
    let mut i: usize = start;
    while i < chars.len()
        invariant
            chars@ == text@,
            start <= i <= chars@.len(),
            digits == text@.skip(start as int),
            digits == if signed { text@.skip(1) } else { text@ },
            signed == (text@.len() > 0 && (text@[0] == '-' || text@[0] == '+')),
            forall|j: int| 0 <= j < i - start ==> is_digit(#[trigger] digits[j]),
            fits ==> size == digits_value(digits.take(i - start)) && size <= 0x8000_0000_0000_0000,
            !fits ==> digits_value(digits.take(i - start)) > 0x8000_0000_0000_0000,
        decreases chars@.len() - i,
    {
        let c = chars[i];
        assert(c == digits[i - start]);
        if c < '0' || c > '9' {
            assert(!is_digit(digits[i - start]));
            return None;
        }
        proof {
            let longer = digits.take(i + 1 - start);
            assert(longer.drop_last() == digits.take(i - start));
            assert(longer.last() == c);
        }
        if fits {
            let next: u128 = size as u128 * 10 + (c as u32 - '0' as u32) as u128;
            if next <= 0x8000_0000_0000_0000 {
                size = next as u64;
            } else {
                fits = false;
            }
        }
        i += 1;
    }
    assert(digits.take(i - start) == digits);
    if !fits {
        None
    } else if signed && chars[0] == '-' {
        Some((-(size as i128)) as i64)
    } else if size < 0x8000_0000_0000_0000 {
        Some(size as i64)
    } else {
        None
    }
}

} // verus!
