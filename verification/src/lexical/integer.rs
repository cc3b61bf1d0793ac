//! Integers as text.

use crate::lexical::Serializable;
use crate::text::chars_of;
use vstd::prelude::*;

verus! {

/// Whether `c` is one of the digits `0` to `9`.
pub open spec fn is_digit(c: char) -> bool {
    '0' <= c <= '9'
}

/// The number that the digit `c` stands for.
pub open spec fn digit_value(c: char) -> int {
    c as int - '0' as int
}

/// The digit that stands for `d`.
pub open spec fn digit_char(d: int) -> char {
    (d + '0' as int) as char
}

/// Whether `text` holds digits only.
pub open spec fn all_digits(text: Seq<char>) -> bool {
    forall|i: int| 0 <= i < text.len() ==> is_digit(#[trigger] text[i])
}

/// The number that a row of digits stands for in base 10.
pub open spec fn digits_value(digits: Seq<char>) -> nat
    decreases digits.len(),
{
    if digits.len() == 0 {
        0
    } else {
        (digits_value(digits.drop_last()) * 10 + digit_value(digits.last())) as nat
    }
}

/// The digits of `n` in base 10, without leading zeros.
pub open spec fn decimal_digits(n: nat) -> Seq<char>
    decreases n,
{
    if n < 10 {
        seq![digit_char(n as int)]
    } else {
        decimal_digits(n / 10).push(digit_char((n % 10) as int))
    }
}

/// The text of an integer: its digits, behind a `-` if it is negative.
pub open spec fn decimal(v: int) -> Seq<char> {
    if v < 0 {
        seq!['-'] + decimal_digits((-v) as nat)
    } else {
        decimal_digits(v as nat)
    }
}

/// Whether `text` starts with a sign.
pub open spec fn has_sign(text: Seq<char>) -> bool {
    text.len() > 0 && (text[0] == '-' || text[0] == '+')
}

/// Whether `text` starts with `-`.
pub open spec fn is_negative(text: Seq<char>) -> bool {
    text.len() > 0 && text[0] == '-'
}

/// `text` without the sign that it starts with, if it starts with one.
pub open spec fn unsigned(text: Seq<char>) -> Seq<char> {
    if has_sign(text) {
        text.skip(1)
    } else {
        text
    }
}

/// `magnitude` with the sign of `text`.
pub open spec fn signed(text: Seq<char>, magnitude: int) -> int {
    if is_negative(text) {
        -magnitude
    } else {
        magnitude
    }
}

/// The 32-bit integer that `text` denotes: `text` is a row of one or more
/// digits, behind a `+` or a `-` or neither, and its value is in range.
pub open spec fn strict_integer(text: Seq<char>) -> Option<int> {
    let digits = unsigned(text);
    let value = signed(text, digits_value(digits) as int);
    if digits.len() > 0 && all_digits(digits) && i32::MIN <= value <= i32::MAX {
        Some(value)
    } else {
        None
    }
}

/// Whether `c` is a decimal point: a period, or a comma in its place.
pub open spec fn is_point(c: char) -> bool {
    c == '.' || c == ','
}

/// The position of the first decimal point in `text`: the length of `text`
/// where there is none.
pub open spec fn point_index(text: Seq<char>) -> int
    decreases text.len(),
{
    if text.len() == 0 {
        0
    } else if is_point(text[0]) {
        0
    } else {
        1 + point_index(text.skip(1))
    }
}

/// Whether `c` marks the start of an exponent: the letter `e`, in either
/// case.
pub open spec fn is_mark(c: char) -> bool {
    c == 'e' || c == 'E'
}

/// The position of the first exponent mark in `text`: the length of `text`
/// where there is none.
pub open spec fn mark_index(text: Seq<char>) -> int
    decreases text.len(),
{
    if text.len() == 0 {
        0
    } else if is_mark(text[0]) {
        0
    } else {
        1 + mark_index(text.skip(1))
    }
}

/// The power of ten with exponent `n`.
pub open spec fn pow10(n: nat) -> nat
    decreases n,
{
    if n == 0 {
        1
    } else {
        10 * pow10((n - 1) as nat)
    }
}

/// The whole part of `number` times ten to the power of `shift`: `number`
/// with `shift` zeros behind it, or without its last digits where `shift`
/// is negative.
pub open spec fn scaled(number: nat, shift: int) -> nat {
    if shift >= 0 {
        number * pow10(shift as nat)
    } else {
        number / pow10((-shift) as nat)
    }
}

/// The exponent that `tail`, the text behind an exponent mark, denotes:
/// `tail` is a row of one or more digits, behind a `+` or a `-` or neither.
pub open spec fn exponent_of(tail: Seq<char>) -> Option<int> {
    let digits = unsigned(tail);
    if digits.len() > 0 && all_digits(digits) {
        Some(signed(tail, digits_value(digits) as int))
    } else {
        None
    }
}

/// The digits of `mantissa` before its decimal point.
pub open spec fn whole_part(mantissa: Seq<char>) -> Seq<char> {
    mantissa.take(point_index(mantissa))
}

/// The digits of `mantissa` behind its decimal point.
pub open spec fn fraction_part(mantissa: Seq<char>) -> Seq<char> {
    if point_index(mantissa) < mantissa.len() {
        mantissa.skip(point_index(mantissa) + 1)
    } else {
        Seq::empty()
    }
}

/// The whole part of the decimal number that `body` denotes. `body` is a
/// row of digits with at most one decimal point in it, before it or behind
/// it, and with one digit at least; an exponent mark and an exponent may
/// follow. The number is that of the digits, with the decimal point moved
/// to the right by as many places as the exponent says, or to the left
/// where the exponent is negative.
pub open spec fn decimal_value(body: Seq<char>) -> Option<nat> {
    let mark = mark_index(body);
    let whole = whole_part(body.take(mark));
    let fraction = fraction_part(body.take(mark));
    let exponent = if mark < body.len() {
        exponent_of(body.skip(mark + 1))
    } else {
        Some(0int)
    };
    if all_digits(whole) && all_digits(fraction) && whole.len() + fraction.len() > 0
        && exponent is Some {
        Some(scaled(digits_value(whole + fraction), exponent->0 - fraction.len()))
    } else {
        None
    }
}

/// `v`, or the bound of the 32-bit integers that it is beyond.
pub open spec fn clamped(v: int) -> int {
    if v < i32::MIN {
        i32::MIN as int
    } else if v > i32::MAX {
        i32::MAX as int
    } else {
        v
    }
}

/// The decimal number that `text` denotes, truncated toward zero and held
/// to the range of the 32-bit integers: `text` is a decimal number, with or
/// without an exponent, behind a `+` or a `-` or neither.
pub open spec fn truncated_decimal(text: Seq<char>) -> Option<int> {
    match decimal_value(unsigned(text)) {
        Some(v) => Some(clamped(signed(text, v as int))),
        None => None,
    }
}

/// `c` in lower case, if `c` is one of the letters `A` to `Z`; else `c`.
pub open spec fn lowered(c: char) -> char {
    if 'A' <= c <= 'Z' {
        (c as int + 32) as char
    } else {
        c
    }
}

/// The word for a number beyond all numbers.
pub open spec fn infinity_word() -> Seq<char> {
    seq!['i', 'n', 'f', 'i', 'n', 'i', 't', 'y']
}

/// Whether `body` is the word `inf` or the word `infinity`, in letters of
/// either case.
pub open spec fn is_infinity(body: Seq<char>) -> bool {
    &&& body.len() == 3 || body.len() == 8
    &&& forall|i: int| 0 <= i < body.len() ==> lowered(#[trigger] body[i]) == infinity_word()[i]
}

/// The integer that `text` is read as: the integer that it denotes; else
/// the decimal number that it denotes, truncated toward zero; else the
/// bound of the 32-bit integers on its side, if it is the word for infinity
/// behind a `+` or a `-` or neither; else 0.
pub open spec fn integer_of(text: Seq<char>) -> int {
    match strict_integer(text) {
        Some(v) => v,
        None => match truncated_decimal(text) {
            Some(v) => v,
            None => if is_infinity(unsigned(text)) {
                clamped(signed(text, i32::MAX + 1))
            } else {
                0
            },
        },
    }
}

/// No decimal point stands before the first one.
pub proof fn lemma_point_index(text: Seq<char>, k: int)
    requires
        0 <= k <= text.len(),
        forall|i: int| 0 <= i < k ==> !is_point(#[trigger] text[i]),
        k < text.len() ==> is_point(text[k]),
    ensures
        point_index(text) == k,
    decreases k,
{
    if k > 0 {
        let rest = text.skip(1);
        assert(!is_point(text[0]));
        assert forall|i: int| 0 <= i < k - 1 implies !is_point(#[trigger] rest[i]) by {
            assert(rest[i] == text[i + 1]);
        }
        lemma_point_index(rest, k - 1);
    }
}

/// No exponent mark stands before the first one.
pub proof fn lemma_mark_index(text: Seq<char>, k: int)
    requires
        0 <= k <= text.len(),
        forall|i: int| 0 <= i < k ==> !is_mark(#[trigger] text[i]),
        k < text.len() ==> is_mark(text[k]),
    ensures
        mark_index(text) == k,
    decreases k,
{
    if k > 0 {
        let rest = text.skip(1);
        assert(!is_mark(text[0]));
        assert forall|i: int| 0 <= i < k - 1 implies !is_mark(#[trigger] rest[i]) by {
            assert(rest[i] == text[i + 1]);
        }
        lemma_mark_index(rest, k - 1);
    }
}

/// A power of ten is at least 1, and grows with its exponent.
pub proof fn lemma_pow10_grows(low: nat, high: nat)
    requires
        low <= high,
    ensures
        1 <= pow10(low) <= pow10(high),
    decreases high,
{
    if low < high {
        lemma_pow10_grows(low, (high - 1) as nat);
    } else if low > 0 {
        lemma_pow10_grows((low - 1) as nat, (low - 1) as nat);
    }
}

/// Ten to the power of ten or more is beyond the 32-bit integers.
pub proof fn lemma_pow10_large(n: nat)
    requires
        n >= 10,
    ensures
        pow10(n) >= 10_000_000_000,
{
    assert(pow10(10) == 10_000_000_000) by {
        reveal_with_fuel(pow10, 11);
    }
    lemma_pow10_grows(10, n);
}

/// A row of digits stands for a number below ten to the power of its
/// length.
pub proof fn lemma_digits_bound(digits: Seq<char>)
    requires
        all_digits(digits),
    ensures
        digits_value(digits) < pow10(digits.len()),
    decreases digits.len(),
{
    if digits.len() > 0 {
        let front = digits.drop_last();
        assert forall|i: int| 0 <= i < front.len() implies is_digit(#[trigger] front[i]) by {
            assert(front[i] == digits[i]);
        }
        lemma_digits_bound(front);
        assert(is_digit(digits.last()));
    }
}

/// The first digits of a row stand for the whole part of its number
/// divided by the power of ten of the digits left out.
pub proof fn lemma_digits_prefix(digits: Seq<char>, n: int)
    requires
        all_digits(digits),
        0 <= n <= digits.len(),
    ensures
        digits_value(digits.take(n)) == digits_value(digits) / pow10((digits.len() - n) as nat),
    decreases digits.len() - n,
{
    let number = digits_value(digits) as int;
    if n == digits.len() {
        assert(digits.take(n) =~= digits);
        assert(pow10(0) == 1);
        assert(number / 1 == number);
    } else {
        let longer = digits.take(n + 1);
        let left = (digits.len() - n - 1) as nat;
        let low = pow10(left) as int;
        lemma_digits_prefix(digits, n + 1);
        assert(longer.drop_last() =~= digits.take(n));
        assert(longer.last() == digits[n]);
        assert(is_digit(digits[n]));
        let shorter = digits_value(digits.take(n)) as int;
        let d = digit_value(digits[n]);
        assert(digits_value(longer) == shorter * 10 + d);
        assert((shorter * 10 + d) / 10 == shorter);
        lemma_pow10_grows(left, left);
        vstd::arithmetic::div_mod::lemma_div_denominator(number, low, 10);
        assert(pow10((left + 1) as nat) == 10 * pow10(left));
        assert(low * 10 == 10 * low);
        assert(shorter == (number / low) / 10);
        assert(shorter == number / (low * 10));
    }
}

/// What denotes an integer denotes the same number as a decimal.
pub proof fn lemma_strict_is_decimal(text: Seq<char>)
    requires
        strict_integer(text) is Some,
    ensures
        truncated_decimal(text) == strict_integer(text),
{
    let digits = unsigned(text);
    let length = digits.len() as int;
    assert forall|i: int| 0 <= i < length implies !is_mark(#[trigger] digits[i]) && !is_point(
        digits[i],
    ) by {
        assert(is_digit(digits[i]));
    }
    lemma_mark_index(digits, length);
    let mantissa = digits.take(length);
    assert(mantissa =~= digits);
    lemma_point_index(mantissa, length);
    assert(whole_part(mantissa) =~= digits);
    assert(fraction_part(mantissa) =~= Seq::<char>::empty());
    assert(digits + Seq::<char>::empty() =~= digits);
    assert(pow10(0) == 1);
    assert(scaled(digits_value(digits), 0) == digits_value(digits)) by (nonlinear_arith)
        requires
            scaled(digits_value(digits), 0) == digits_value(digits) * 1,
    ;
}

/// A decimal number without an exponent is read as its whole part: the
/// digits behind the decimal point are cut off, whatever they are.
pub proof fn lemma_plain_decimal(whole: Seq<char>, point: char, fraction: Seq<char>)
    requires
        all_digits(whole),
        all_digits(fraction),
        is_point(point),
        whole.len() + fraction.len() > 0,
    ensures
        decimal_value(whole + seq![point] + fraction) == Some(digits_value(whole)),
{
    let body = whole + seq![point] + fraction;
    let row = whole + fraction;
    let at = whole.len() as int;
    assert forall|i: int| 0 <= i < body.len() implies !is_mark(#[trigger] body[i]) by {
        if i < at {
            assert(is_digit(whole[i]));
        } else if i > at {
            assert(is_digit(fraction[i - at - 1]));
        }
    }
    lemma_mark_index(body, body.len() as int);
    assert(body.take(body.len() as int) =~= body);
    assert forall|i: int| 0 <= i < at implies !is_point(#[trigger] body[i]) by {
        assert(is_digit(whole[i]));
    }
    assert(body[at] == point);
    lemma_point_index(body, at);
    assert(whole_part(body) =~= whole);
    assert(fraction_part(body) =~= fraction);
    assert forall|i: int| 0 <= i < row.len() implies is_digit(#[trigger] row[i]) by {
        if i < at {
            assert(row[i] == whole[i]);
        } else {
            assert(row[i] == fraction[i - at]);
        }
    }
    lemma_digits_prefix(row, at);
    assert(row.take(at) =~= whole);
    if fraction.len() == 0 {
        assert(pow10(0) == 1);
        assert(digits_value(row) * pow10(0) == digits_value(row)) by (nonlinear_arith)
            requires
                pow10(0) == 1,
        ;
        assert(digits_value(row) / 1 == digits_value(row));
    }
}

/// A row of digits with an exponent behind it is read as the number of the
/// digits times ten to the power of the exponent.
pub proof fn lemma_exponent(whole: Seq<char>, mark: char, exponent: Seq<char>)
    requires
        all_digits(whole),
        all_digits(exponent),
        is_mark(mark),
        whole.len() > 0,
        exponent.len() > 0,
    ensures
        decimal_value(whole + seq![mark] + exponent) == Some(
            digits_value(whole) * pow10(digits_value(exponent)),
        ),
{
    let body = whole + seq![mark] + exponent;
    let at = whole.len() as int;
    assert forall|i: int| 0 <= i < at implies !is_mark(#[trigger] body[i]) by {
        assert(is_digit(whole[i]));
    }
    assert(body[at] == mark);
    lemma_mark_index(body, at);
    let mantissa = body.take(at);
    assert(mantissa =~= whole);
    assert forall|i: int| 0 <= i < at implies !is_point(#[trigger] whole[i]) by {
        assert(is_digit(whole[i]));
    }
    lemma_point_index(whole, at);
    assert(whole_part(whole) =~= whole);
    assert(whole + Seq::<char>::empty() =~= whole);
    assert(body.skip(at + 1) =~= exponent);
    assert(is_digit(exponent[0]));
}

/// The digits of a number are digits, and they stand for the number.
pub proof fn lemma_decimal_digits(n: nat)
    ensures
        decimal_digits(n).len() > 0,
        all_digits(decimal_digits(n)),
        digits_value(decimal_digits(n)) == n,
    decreases n,
{
    if n < 10 {
        let digits = decimal_digits(n);
        assert(digits.drop_last() =~= Seq::<char>::empty());
        assert(digits_value(digits.drop_last()) == 0);
        assert(digits.last() == digit_char(n as int));
    } else {
        lemma_decimal_digits(n / 10);
        let digits = decimal_digits(n);
        assert(digits.drop_last() =~= decimal_digits(n / 10));
        assert(digits.last() == digit_char((n % 10) as int));
    }
}

/// An integer is read back as it was written: the text of a 32-bit integer
/// denotes that integer.
pub proof fn lemma_integer_round_trip(v: i32)
    ensures
        strict_integer(decimal(v as int)) == Some(v as int),
        integer_of(decimal(v as int)) == v,
{
    let text = decimal(v as int);
    if v < 0 {
        let n = (-(v as int)) as nat;
        lemma_decimal_digits(n);
        assert(text[0] == '-');
        assert(text.skip(1) =~= decimal_digits(n));
    } else {
        let n = v as nat;
        lemma_decimal_digits(n);
        assert(is_digit(text[0]));
    }
}

/// The largest magnitude that reading keeps apart from larger ones.
pub const MAGNITUDE_LIMIT: u64 = 2147483648;

/// Returns the number that `c` stands for, if `c` is a digit.
pub fn digit_of(c: char) -> (digit: Option<u64>)
    ensures
        match digit {
            Some(d) => is_digit(c) && d == digit_value(c),
            None => !is_digit(c),
        },
{
    let code: u32 = c as u32;
    if 48 <= code && code <= 57 {
        Some((code - 48) as u64)
    } else {
        None
    }
}

/// Checks if `c` is, in either case, the letter at `index` of the word for
/// infinity.
pub fn is_infinity_letter(c: char, index: usize) -> (same: bool)
    ensures
        same == (index < 8 && lowered(c) == infinity_word()[index as int]),
{
    let code: u32 = c as u32;
    let low: u32 = if 65 <= code && code <= 90 {
        code + 32
    } else {
        code
    };
    assert(lowered(c) as u32 == low);
    let letter: u32 = match index {
        0 => 105,
        1 => 110,
        2 => 102,
        3 => 105,
        4 => 110,
        5 => 105,
        6 => 116,
        7 => 121,
        _ => 0,
    };
    assert(index < 8 ==> infinity_word()[index as int] as u32 == letter);
    index < 8 && low == letter
}

/// Appends the digits of `n` in base 10 to `text`.
pub fn push_digits(text: &mut String, n: u64)
    ensures
        final(text)@ == old(text)@ + decimal_digits(n as nat),
    decreases n,
{
    if n >= 10 {
        push_digits(text, n / 10);
    }
    let digit: u8 = (n % 10) as u8;
    let c = (48u8 + digit) as char;
    assert(c == digit_char((n % 10) as int));
    text.push(c);
    proof {
        if n >= 10 {
            assert(text@ =~= old(text)@ + decimal_digits(n as nat));
        } else {
            assert(text@ =~= old(text)@ + decimal_digits(n as nat));
        }
    }
}

/// The largest exponent that reading keeps apart from larger ones.
pub const EXPONENT_LIMIT: u128 = 1180591620717411303424;

/// Returns the number that the digits of `chars` from `from` to `to` stand
/// for, or `limit` if that is less, if they are digits.
fn saturated_value(chars: &Vec<char>, from: usize, to: usize, limit: u128) -> (value: Option<u128>)
    requires
        from <= to <= chars.len(),
        limit <= EXPONENT_LIMIT,
    ensures
        match value {
            Some(v) => all_digits(chars@.subrange(from as int, to as int)) && v == vstd::math::min(
                digits_value(chars@.subrange(from as int, to as int)) as int,
                limit as int,
            ),
            None => !all_digits(chars@.subrange(from as int, to as int)),
        },
{
    let mut value: u128 = 0;
    let mut i = from;
    proof {
        assert(chars@.subrange(from as int, from as int) =~= Seq::<char>::empty());
    }
    while i < to
        invariant
            from <= i <= to <= chars.len(),
            limit <= EXPONENT_LIMIT,
            all_digits(chars@.subrange(from as int, i as int)),
            value == vstd::math::min(
                digits_value(chars@.subrange(from as int, i as int)) as int,
                limit as int,
            ),
        decreases to - i,
    {
        let ghost before = chars@.subrange(from as int, i as int);
        let ghost after = chars@.subrange(from as int, i + 1);
        proof {
            assert(after.drop_last() =~= before);
            assert(after.last() == chars@[i as int]);
        }
        match digit_of(chars[i]) {
            None => {
                proof {
                    let all = chars@.subrange(from as int, to as int);
                    assert(all[i - from] == chars@[i as int]);
                }
                return None;
            },
            Some(digit) => {
                value = value * 10 + digit as u128;
                if value > limit {
                    value = limit;
                }
                proof {
                    assert forall|k: int| 0 <= k < after.len() implies is_digit(
                        #[trigger] after[k],
                    ) by {
                        if k < before.len() {
                            assert(after[k] == before[k]);
                        }
                    }
                }
            },
        }
        i = i + 1;
    }
    Some(value)
}

/// Appends the characters of `chars` from `from` to `to` to `row`.
fn append_range(chars: &Vec<char>, from: usize, to: usize, row: &mut Vec<char>)
    requires
        from <= to <= chars.len(),
    ensures
        final(row)@ == old(row)@ + chars@.subrange(from as int, to as int),
{
    let mut i = from;
    proof {
        assert(row@ + chars@.subrange(from as int, from as int) =~= row@);
    }
    while i < to
        invariant
            from <= i <= to <= chars.len(),
            row@ == old(row)@ + chars@.subrange(from as int, i as int),
        decreases to - i,
    {
        row.push(chars[i]);
        proof {
            assert(row@ =~= old(row)@ + chars@.subrange(from as int, i + 1));
        }
        i = i + 1;
    }
}

/// Returns the size of the exponent that stands in `chars` from `from` on,
/// or the limit of exponents if that is less, and whether the exponent is
/// behind a `-`.
fn exponent_parts(chars: &Vec<char>, from: usize) -> (parts: Option<(bool, u128)>)
    requires
        from <= chars.len(),
    ensures
        match parts {
            Some((negative, size)) => {
                let tail = chars@.skip(from as int);
                &&& exponent_of(tail) is Some
                &&& negative == is_negative(tail)
                &&& size == vstd::math::min(
                    digits_value(unsigned(tail)) as int,
                    EXPONENT_LIMIT as int,
                )
            },
            None => exponent_of(chars@.skip(from as int)) is None,
        },
{
    let ghost tail = chars@.skip(from as int);
    let length = chars.len();
    let negative = from < length && chars[from] == '-';
    let start = if from < length && (chars[from] == '-' || chars[from] == '+') {
        from + 1
    } else {
        from
    };
    proof {
        if from < length {
            assert(tail[0] == chars@[from as int]);
        }
        assert(unsigned(tail) =~= chars@.subrange(start as int, length as int));
    }
    if start == length {
        return None;
    }
    match saturated_value(chars, start, length, EXPONENT_LIMIT) {
        Some(size) => Some((negative, size)),
        None => None,
    }
}

/// Returns the position of the first exponent mark in `chars` from
/// `first` on: the length of `chars` where there is none.
fn find_mark(chars: &Vec<char>, first: usize) -> (mark: usize)
    requires
        first <= chars.len(),
    ensures
        first <= mark <= chars.len(),
        mark - first == mark_index(chars@.skip(first as int)),
{
    let ghost body = chars@.skip(first as int);
    let length = chars.len();
    let mut mark = first;
    while mark < length && chars[mark] != 'e' && chars[mark] != 'E'
        invariant
            first <= mark <= length,
            length == chars.len(),
            forall|i: int| first <= i < mark ==> !is_mark(#[trigger] chars@[i]),
        decreases length - mark,
    {
        mark = mark + 1;
    }
    proof {
        assert forall|i: int| 0 <= i < mark - first implies !is_mark(#[trigger] body[i]) by {
            assert(body[i] == chars@[first + i]);
        }
        if mark < length {
            assert(body[mark - first] == chars@[mark as int]);
        }
        lemma_mark_index(body, mark - first);
    }
    mark
}

/// Returns the digits of the mantissa that stands in `chars` from `first`
/// to `mark`, without its decimal point, and how many of them stand before
/// the point; nothing if something other than a digit is among them.
fn mantissa_digits(chars: &Vec<char>, first: usize, mark: usize) -> (found: Option<
    (Vec<char>, usize),
>)
    requires
        first <= mark <= chars.len(),
    ensures
        match found {
            Some((row, before)) => {
                let mantissa = chars@.subrange(first as int, mark as int);
                &&& all_digits(whole_part(mantissa))
                &&& all_digits(fraction_part(mantissa))
                &&& all_digits(row@)
                &&& row@ == whole_part(mantissa) + fraction_part(mantissa)
                &&& before == whole_part(mantissa).len()
            },
            None => {
                let mantissa = chars@.subrange(first as int, mark as int);
                !(all_digits(whole_part(mantissa)) && all_digits(fraction_part(mantissa)))
            },
        },
{
    let ghost mantissa = chars@.subrange(first as int, mark as int);
    let mut point = first;
    while point < mark && chars[point] != '.' && chars[point] != ','
        invariant
            first <= point <= mark <= chars.len(),
            forall|i: int| first <= i < point ==> !is_point(#[trigger] chars@[i]),
        decreases mark - point,
    {
        point = point + 1;
    }
    let ghost whole = chars@.subrange(first as int, point as int);
    let ghost fraction = if point < mark {
        chars@.subrange(point + 1, mark as int)
    } else {
        Seq::<char>::empty()
    };
    proof {
        assert forall|i: int| 0 <= i < point - first implies !is_point(#[trigger] mantissa[i]) by {
            assert(mantissa[i] == chars@[first + i]);
        }
        if point < mark {
            assert(mantissa[point - first] == chars@[point as int]);
        }
        lemma_point_index(mantissa, point - first);
        assert(whole_part(mantissa) =~= whole);
        assert(fraction_part(mantissa) =~= fraction);
    }
    let mut row: Vec<char> = Vec::new();
    append_range(chars, first, point, &mut row);
    if point < mark {
        append_range(chars, point + 1, mark, &mut row);
    }
    let count = row.len();
    proof {
        assert(row@ =~= whole + fraction);
        assert(row@.subrange(0, count as int) =~= row@);
        if all_digits(row@) {
            assert forall|i: int| 0 <= i < whole.len() implies is_digit(#[trigger] whole[i]) by {
                assert(row@[i] == whole[i]);
            }
            assert forall|i: int| 0 <= i < fraction.len() implies is_digit(
                #[trigger] fraction[i],
            ) by {
                assert(row@[whole.len() + i] == fraction[i]);
            }
        }
        if all_digits(whole) && all_digits(fraction) {
            assert forall|i: int| 0 <= i < row@.len() implies is_digit(#[trigger] row@[i]) by {
                if i < whole.len() {
                    assert(row@[i] == whole[i]);
                } else {
                    assert(row@[i] == fraction[i - whole.len()]);
                }
            }
        }
    }
    // With the limit 0 only the question is left whether all are digits.
    match saturated_value(&row, 0, count, 0) {
        Some(_) => Some((row, point - first)),
        None => None,
    }
}

/// Returns the whole part of the number of the digits `row` times ten to
/// the power of `shift`, or the limit of magnitudes if that is less, where
/// `shift` is not negative.
fn scaled_up(row: &Vec<char>, shift: i128) -> (magnitude: u64)
    requires
        all_digits(row@),
        shift >= 0,
    ensures
        magnitude == vstd::math::min(
            scaled(digits_value(row@), shift as int) as int,
            MAGNITUDE_LIMIT as int,
        ),
{
    let ghost number = digits_value(row@);
    let count = row.len();
    proof {
        assert(row@.subrange(0, count as int) =~= row@);
    }
    let mut magnitude: u64 = match saturated_value(row, 0, count, MAGNITUDE_LIMIT as u128) {
        Some(total) => total as u64,
        None => unreached(),
    };
    let mut done: i128 = 0;
    proof {
        assert(pow10(0) == 1);
        assert(number * pow10(0) == number) by (nonlinear_arith)
            requires
                pow10(0) == 1,
        ;
    }
    while done < shift && magnitude != 0 && magnitude < MAGNITUDE_LIMIT
        invariant
            0 <= done <= shift,
            magnitude == vstd::math::min(
                (number * pow10(done as nat)) as int,
                MAGNITUDE_LIMIT as int,
            ),
        decreases shift - done,
    {
        proof {
            let before = pow10(done as nat);
            assert(pow10((done + 1) as nat) == 10 * before);
            assert(number * (10 * before) == (number * before) * 10) by (nonlinear_arith);
        }
        magnitude = magnitude * 10;
        if magnitude > MAGNITUDE_LIMIT {
            magnitude = MAGNITUDE_LIMIT;
        }
        done = done + 1;
    }
    proof {
        let reached = pow10(done as nat);
        let full = pow10(shift as nat);
        lemma_pow10_grows(done as nat, shift as nat);
        if magnitude == 0 {
            assert(number == 0) by (nonlinear_arith)
                requires
                    number * reached == 0,
                    reached >= 1,
            ;
            assert(number * full == 0) by (nonlinear_arith)
                requires
                    number == 0,
            ;
        } else if done < shift {
            assert(number * full >= number * reached) by (nonlinear_arith)
                requires
                    full >= reached,
            ;
        }
    }
    magnitude
}

/// Returns the whole part of the number of the digits `row` divided by ten
/// to the power of `shift`, or the limit of magnitudes if that is less,
/// where `shift` is positive.
fn scaled_down(row: &Vec<char>, shift: i128) -> (magnitude: u64)
    requires
        all_digits(row@),
        shift > 0,
    ensures
        magnitude == vstd::math::min(
            scaled(digits_value(row@), -shift as int) as int,
            MAGNITUDE_LIMIT as int,
        ),
{
    let ghost number = digits_value(row@);
    let count = row.len();
    proof {
        lemma_digits_bound(row@);
    }
    if shift >= count as i128 {
        proof {
            lemma_pow10_grows(count as nat, shift as nat);
            vstd::arithmetic::div_mod::lemma_basic_div(number as int, pow10(shift as nat) as int);
        }
        return 0;
    }
    let taken: usize = count - shift as usize;
    proof {
        lemma_digits_prefix(row@, taken as int);
        assert(row@.subrange(0, taken as int) =~= row@.take(taken as int));
    }
    match saturated_value(row, 0, taken, MAGNITUDE_LIMIT as u128) {
        Some(part) => part as u64,
        None => unreached(),
    }
}

/// Returns the whole part of the decimal number that stands in `chars`
/// from `first` on, or the limit of magnitudes if that is less.
fn decimal_magnitude(chars: &Vec<char>, first: usize) -> (magnitude: Option<u64>)
    requires
        first <= chars.len(),
    ensures
        match magnitude {
            Some(m) => decimal_value(chars@.skip(first as int)) is Some && m == vstd::math::min(
                decimal_value(chars@.skip(first as int))->0 as int,
                MAGNITUDE_LIMIT as int,
            ),
            None => decimal_value(chars@.skip(first as int)) is None,
        },
{
    let ghost body = chars@.skip(first as int);
    let length = chars.len();
    let mark = find_mark(chars, first);
    proof {
        assert(body.take(mark - first) =~= chars@.subrange(first as int, mark as int));
        if mark < length {
            assert(body.skip(mark - first + 1) =~= chars@.skip(mark + 1));
        }
    }
    let (row, before) = match mantissa_digits(chars, first, mark) {
        Some(found) => found,
        None => {
            return None;
        },
    };
    let count = row.len();
    if count == 0 {
        return None;
    }
    let mut negative = false;
    let mut size: u128 = 0;
    if mark < length {
        match exponent_parts(chars, mark + 1) {
            Some((sign, found)) => {
                negative = sign;
                size = found;
            },
            None => {
                return None;
            },
        }
    }
    let ghost number = digits_value(row@);
    let ghost exponent: int = if mark < length {
        exponent_of(chars@.skip(mark + 1))->0
    } else {
        0
    };
    let ghost shift = exponent - (count - before);
    assert(decimal_value(body) == Some(scaled(number, shift)));
    if size >= EXPONENT_LIMIT {
        // The exponent is beyond every length: all digits are on one side
        // of the decimal point.
        if negative {
            proof {
                lemma_digits_bound(row@);
                lemma_pow10_grows(count as nat, (-shift) as nat);
                vstd::arithmetic::div_mod::lemma_basic_div(
                    number as int,
                    pow10((-shift) as nat) as int,
                );
            }
            return Some(0);
        }
        proof {
            lemma_pow10_large(shift as nat);
            if number > 0 {
                assert(number * pow10(shift as nat) >= 10_000_000_000) by (nonlinear_arith)
                    requires
                        number >= 1,
                        pow10(shift as nat) >= 10_000_000_000,
                ;
            } else {
                assert(number * pow10(shift as nat) == 0) by (nonlinear_arith)
                    requires
                        number == 0,
                ;
            }
        }
        let total = scaled_up(&row, 0);
        proof {
            assert(pow10(0) == 1);
            assert(number * pow10(0) == number) by (nonlinear_arith)
                requires
                    pow10(0) == 1,
            ;
        }
        return Some(if total == 0 {
            0
        } else {
            MAGNITUDE_LIMIT
        });
    }
    let behind: i128 = (count - before) as i128;
    let moved: i128 = if negative {
        -(size as i128) - behind
    } else {
        size as i128 - behind
    };
    assert(moved == shift);
    if moved >= 0 {
        Some(scaled_up(&row, moved))
    } else {
        Some(scaled_down(&row, -moved))
    }
}

/// Checks if `chars`, from `first` on, is the word for infinity.
fn is_infinity_text(chars: &Vec<char>, first: usize) -> (same: bool)
    requires
        first <= chars.len(),
    ensures
        same == is_infinity(chars@.skip(first as int)),
{
    let ghost body = chars@.skip(first as int);
    let count = chars.len() - first;
    if count != 3 && count != 8 {
        return false;
    }
    let mut i: usize = 0;
    while i < count
        invariant
            i <= count,
            count == chars.len() - first,
            body == chars@.skip(first as int),
            forall|k: int| 0 <= k < i ==> lowered(#[trigger] body[k]) == infinity_word()[k],
        decreases count - i,
    {
        assert(body[i as int] == chars@[first + i]);
        if !is_infinity_letter(chars[first + i], i) {
            return false;
        }
        i = i + 1;
    }
    true
}

impl Serializable<'_> for i32 {
    open spec fn text(&self) -> Seq<char> {
        decimal(*self as int)
    }

    open spec fn reads_as(data: Seq<char>, value: &Self) -> bool {
        *value == integer_of(data)
    }

    proof fn lemma_round_trip(&self, read: &Self) {
        lemma_integer_round_trip(*self);
    }

    fn serialize(&self) -> (text: String) {
        let mut text = String::new();
        let wide: i64 = *self as i64;
        if wide < 0 {
            text.push('-');
            push_digits(&mut text, (-wide) as u64);
        } else {
            push_digits(&mut text, wide as u64);
        }
        assert(text@ =~= decimal(*self as int));
        text
    }

    fn deserialize(data: &str) -> (value: Self) {
        let chars = chars_of(data);
        let length = chars.len();
        let negative = length > 0 && chars[0] == '-';
        let first: usize = if length > 0 && (chars[0] == '-' || chars[0] == '+') {
            1
        } else {
            0
        };
        proof {
            assert(unsigned(data@) =~= chars@.skip(first as int));
            if strict_integer(data@) is Some {
                lemma_strict_is_decimal(data@);
            }
        }
        match decimal_magnitude(&chars, first) {
            Some(magnitude) => {
                if negative {
                    (-(magnitude as i64)) as i32
                } else if magnitude > 2147483647 {
                    2147483647
                } else {
                    magnitude as i32
                }
            },
            None => {
                if !is_infinity_text(&chars, first) {
                    0
                } else if negative {
                    -2147483648
                } else {
                    2147483647
                }
            },
        }
    }
}

} // verus!
