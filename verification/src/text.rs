//! Numbers and strings in decimal text.

use vstd::prelude::*;
use vstd::string::*;

verus! {

/// The character of a decimal digit.
pub open spec fn digit_char(digit: nat) -> char {
    (48 + digit) as char
}

/// Whether a character is a decimal digit.
pub open spec fn is_digit(c: char) -> bool {
    '0' <= c <= '9'
}

/// The value of a decimal digit.
pub open spec fn digit_value(c: char) -> nat {
    (c as int - 48) as nat
}

/// A number in decimal.
pub open spec fn decimal(number: nat) -> Seq<char>
    decreases number,
{
    if number < 10 {
        seq![digit_char(number)]
    } else {
        decimal(number / 10).push(digit_char(number % 10))
    }
}

/// The given number of zeros.
pub open spec fn zeros(count: nat) -> Seq<char> {
    Seq::new(count, |i: int| '0')
}

/// A number in decimal, with zeros in front up to six digits.
pub open spec fn decimal_6(number: nat) -> Seq<char> {
    let digits = decimal(number);
    if digits.len() < 6 {
        zeros((6 - digits.len()) as nat) + digits
    } else {
        digits
    }
}

/// Whether all characters are decimal digits.
pub open spec fn all_digits(text: Seq<char>) -> bool {
    forall|i: int| 0 <= i < text.len() ==> is_digit(#[trigger] text[i])
}

/// The number that some digits stand for.
pub open spec fn digits_value(text: Seq<char>) -> nat
    decreases text.len(),
{
    if text.len() == 0 {
        0
    } else {
        10 * digits_value(text.drop_last()) + digit_value(text.last())
    }
}

/// The 64-bit number that a text stands for: digits, after a plus sign if there
/// is one.
pub open spec fn parsed_number(text: Seq<char>) -> Option<u64> {
    let digits = if text.len() > 0 && text[0] == '+' {
        text.skip(1)
    } else {
        text
    };
    if digits.len() > 0 && all_digits(digits) && digits_value(digits) <= u64::MAX {
        Some(digits_value(digits) as u64)
    } else {
        None
    }
}

/// A decimal has digits only, and stands for its number.
pub proof fn law_decimal_round_trip(number: nat)
    ensures
        decimal(number).len() >= 1,
        all_digits(decimal(number)),
        digits_value(decimal(number)) == number,
    decreases number,
{
    if number < 10 {
        let text = seq![digit_char(number)];
        assert(text.drop_last() =~= Seq::<char>::empty());
        assert(digits_value(text) == 10 * digits_value(text.drop_last()) + digit_value(
            text.last(),
        ));
    } else {
        law_decimal_round_trip(number / 10);
        let head = decimal(number / 10);
        let text = head.push(digit_char(number % 10));
        assert(text.drop_last() =~= head);
        assert forall|i: int| 0 <= i < text.len() implies is_digit(#[trigger] text[i]) by {
            if i < head.len() {
                assert(is_digit(head[i]));
            }
        }
    }
}

/// Zeros in front do not change what digits stand for.
pub proof fn lemma_leading_zeros(count: nat, text: Seq<char>)
    ensures
        digits_value(zeros(count) + text) == digits_value(text),
        all_digits(text) ==> all_digits(zeros(count) + text),
    decreases text.len(), count,
{
    let padded = zeros(count) + text;
    if all_digits(text) {
        assert forall|i: int| 0 <= i < padded.len() implies is_digit(#[trigger] padded[i]) by {
            if i >= count {
                assert(padded[i] == text[i - count]);
            }
        }
    }
    if text.len() > 0 {
        assert(padded.drop_last() =~= zeros(count) + text.drop_last());
        lemma_leading_zeros(count, text.drop_last());
    } else if count > 0 {
        lemma_leading_zeros((count - 1) as nat, text);
        assert(padded.drop_last() =~= zeros((count - 1) as nat) + text);
        assert(padded.last() == '0');
    } else {
        assert(padded =~= text);
    }
}

/// A number with zeros in front can be read back.
pub proof fn law_number_round_trip(number: u64)
    ensures
        parsed_number(decimal_6(number as nat)) == Some(number),
        all_digits(decimal_6(number as nat)),
        decimal_6(number as nat).len() >= 6,
{
    let digits = decimal(number as nat);
    law_decimal_round_trip(number as nat);
    if digits.len() < 6 {
        lemma_leading_zeros((6 - digits.len()) as nat, digits);
    }
    let text = decimal_6(number as nat);
    assert(is_digit(text[0]));
}

/// The text of one digit.
fn digit_text(digit: u64) -> (text: &'static str)
    requires
        digit < 10,
    ensures
        text@ == seq![digit_char(digit as nat)],
{
    proof {
        reveal_strlit("0");
        reveal_strlit("1");
        reveal_strlit("2");
        reveal_strlit("3");
        reveal_strlit("4");
        reveal_strlit("5");
        reveal_strlit("6");
        reveal_strlit("7");
        reveal_strlit("8");
        reveal_strlit("9");
    }
    let text = match digit {
        0 => "0",
        1 => "1",
        2 => "2",
        3 => "3",
        4 => "4",
        5 => "5",
        6 => "6",
        7 => "7",
        8 => "8",
        _ => "9",
    };
    assert(text@ =~= seq![digit_char(digit as nat)]);
    text
}

/// Appends a number in decimal.
pub fn push_decimal(text: &mut String, number: u64)
    ensures
        final(text)@ == old(text)@ + decimal(number as nat),
    decreases number,
{
    if number >= 10 {
        push_decimal(text, number / 10);
    }
    text.append(digit_text(number % 10));
    assert(text@ =~= old(text)@ + decimal(number as nat));
}

/// A number in decimal.
pub fn decimal_text(number: u64) -> (text: String)
    ensures
        text@ == decimal(number as nat),
{
    let mut text = String::new();
    push_decimal(&mut text, number);
    assert(text@ =~= decimal(number as nat));
    text
}

/// Appends a number in decimal, with zeros in front up to six digits.
pub fn push_decimal_6(text: &mut String, number: u64)
    ensures
        final(text)@ == old(text)@ + decimal_6(number as nat),
{
    let ghost before = text@;
    let digits = decimal_text(number);
    let mut count: usize = digits.as_str().unicode_len();
    proof {
        reveal_strlit("0");
        assert(before + zeros(0) =~= before);
    }
    let ghost missing = 6 - digits@.len();
    let ghost length = digits@.len();
    while count < 6
        invariant
            length == digits@.len(),
            count >= length,
            length < 6 ==> count <= 6,
            length >= 6 ==> count == length,
            "0"@.len() == 1,
            "0"@[0] == '0',
            text@ == before + zeros((count - length) as nat),
        decreases 6 - count,
    {
        text.append("0");
        count = count + 1;
        assert(text@ =~= before + zeros((count - length) as nat));
    }
    text.append(digits.as_str());
    assert(text@ =~= before + decimal_6(number as nat));
}

/// The value of a decimal digit.
fn read_digit(c: char) -> (digit: Option<u64>)
    ensures
        is_digit(c) ==> digit == Some(digit_value(c) as u64),
        !is_digit(c) ==> digit is None,
{
    match c {
        '0' => Some(0),
        '1' => Some(1),
        '2' => Some(2),
        '3' => Some(3),
        '4' => Some(4),
        '5' => Some(5),
        '6' => Some(6),
        '7' => Some(7),
        '8' => Some(8),
        '9' => Some(9),
        _ => None,
    }
}

/// The value of digits does not shrink when more follow.
proof fn lemma_digits_grow(text: Seq<char>, count: int)
    requires
        0 <= count <= text.len(),
    ensures
        digits_value(text.take(count)) <= digits_value(text),
    decreases text.len() - count,
{
    if count < text.len() {
        lemma_digits_grow(text, count + 1);
        assert(text.take(count + 1).drop_last() =~= text.take(count));
    } else {
        assert(text.take(count) =~= text);
    }
}

/// Reads the characters from `start` on as a number.
fn parse_digits(text: &str, start: usize) -> (number: Option<u64>)
    requires
        start <= text@.len(),
    ensures
        ({
            let digits = text@.skip(start as int);
            number == if digits.len() > 0 && all_digits(digits) && digits_value(digits)
                <= u64::MAX {
                Some(digits_value(digits) as u64)
            } else {
                None::<u64>
            }
        }),
{
    let length = text.unicode_len();
    let ghost digits = text@.skip(start as int);
    if start >= length {
        return None;
    }
    let mut index: usize = start;
    let mut number: u64 = 0;
    assert(digits.take(0) =~= Seq::<char>::empty());
    while index < length
        invariant
            start <= index <= length,
            length == text@.len(),
            digits == text@.skip(start as int),
            forall|i: int| 0 <= i < index - start ==> is_digit(#[trigger] digits[i]),
            number == digits_value(digits.take(index - start)),
        decreases length - index,
    {
        proof {
            assert(digits[index - start] == text@[index as int]);
            let more = digits.take(index - start + 1);
            assert(more.drop_last() =~= digits.take(index - start));
            assert(more.last() == digits[index - start]);
            lemma_digits_grow(digits, index - start + 1);
        }
        match read_digit(text.get_char(index)) {
            None => {
                return None;
            },
            Some(digit) => {
                match number.checked_mul(10) {
                    None => {
                        return None;
                    },
                    Some(scaled) => match scaled.checked_add(digit) {
                        None => {
                            return None;
                        },
                        Some(sum) => {
                            number = sum;
                        },
                    },
                }
            },
        }
        index = index + 1;
    }
    assert(digits.take(index - start) =~= digits);
    Some(number)
}

/// Reads a 64-bit number.
pub fn parse_number(text: &str) -> (number: Option<u64>)
    ensures
        number == parsed_number(text@),
{
    let length = text.unicode_len();
    if length > 0 && text.get_char(0) == '+' {
        parse_digits(text, 1)
    } else {
        assert(text@.skip(0) =~= text@);
        parse_digits(text, 0)
    }
}

/// Whether two texts are the same.
pub fn same_text(a: &str, b: &str) -> (answer: bool)
    ensures
        answer == (a@ == b@),
{
    let length = a.unicode_len();
    if length != b.unicode_len() {
        return false;
    }
    let mut index: usize = 0;
    while index < length
        invariant
            index <= length,
            length == a@.len(),
            length == b@.len(),
            forall|i: int| 0 <= i < index ==> a@[i] == b@[i],
        decreases length - index,
    {
        if a.get_char(index) != b.get_char(index) {
            return false;
        }
        index = index + 1;
    }
    assert(a@ =~= b@);
    true
}

/// Whether `text` starts with `prefix`.
pub fn has_prefix(text: &str, prefix: &str) -> (answer: bool)
    ensures
        answer == prefix@.is_prefix_of(text@),
{
    let length = prefix.unicode_len();
    if text.unicode_len() < length {
        return false;
    }
    let mut index: usize = 0;
    while index < length
        invariant
            index <= length,
            length == prefix@.len(),
            length <= text@.len(),
            forall|i: int| 0 <= i < index ==> text@[i] == prefix@[i],
        decreases length - index,
    {
        if text.get_char(index) != prefix.get_char(index) {
            assert(text@.take(length as int)[index as int] != prefix@[index as int]);
            return false;
        }
        index = index + 1;
    }
    assert(prefix@ =~= text@.take(length as int));
    true
}

/// Joins two texts.
pub fn joined(first: &str, second: &str) -> (text: String)
    ensures
        text@ == first@ + second@,
{
    let mut text = String::new();
    text.append(first);
    text.append(second);
    assert(text@ =~= first@ + second@);
    text
}

} // verus!
