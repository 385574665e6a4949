//! Integers written in decimal.
use vstd::prelude::*;

verus! {

/// `String::push` of the standard library, which appends one character.
pub assume_specification[ String::push ](text: &mut String, c: char)
    ensures
        final(text)@ == old(text)@.push(c),
;

/// The character of a decimal digit.
pub open spec fn digit(d: nat) -> char
    recommends
        d < 10,
{
    ('0' as nat + d) as char
}

/// A natural number in decimal, without leading zeros.
pub open spec fn digits(n: nat) -> Seq<char>
    decreases n,
{
    if n < 10 {
        seq![digit(n)]
    } else {
        digits(n / 10).push(digit(n % 10))
    }
}

/// An integer in decimal, with a minus sign before a negative one.
pub open spec fn decimal(n: int) -> Seq<char> {
    if n < 0 {
        seq!['-'] + digits((-n) as nat)
    } else {
        digits(n as nat)
    }
}

/// Appends a natural number in decimal.
fn push_digits(text: &mut String, n: u64)
    ensures
        final(text)@ == old(text)@ + digits(n as nat),
    decreases n,
{
    if n >= 10 {
        push_digits(text, n / 10);
    }
    text.push((48u8 + (n % 10) as u8) as char);
}

/// Appends an integer in decimal.
pub fn push_decimal(text: &mut String, n: i32)
    ensures
        final(text)@ == old(text)@ + decimal(n as int),
{
    if n < 0 {
        text.push('-');
        push_digits(text, (-(n as i64)) as u64);
    } else {
        push_digits(text, n as u64);
    }
}

/// Numbers below ten have different digits.
proof fn lemma_digit_injective(a: nat, b: nat)
    requires
        a < 10,
        b < 10,
        digit(a) == digit(b),
    ensures
        a == b,
{
}

/// Every digit is one of the ten decimal digits, and there is at least one.
proof fn lemma_digits_range(n: nat)
    ensures
        digits(n).len() > 0,
        forall|i: int| 0 <= i < digits(n).len() ==> '0' <= #[trigger] digits(n)[i] <= '9',
    decreases n,
{
    if n >= 10 {
        lemma_digits_range(n / 10);
    }
}

/// Different natural numbers are written differently.
proof fn lemma_digits_injective(a: nat, b: nat)
    requires
        digits(a) == digits(b),
    ensures
        a == b,
    decreases a,
{
    lemma_digits_range(a / 10);
    lemma_digits_range(b / 10);
    assert(digits(a).last() == digit(a % 10));
    assert(digits(b).last() == digit(b % 10));
    lemma_digit_injective(a % 10, b % 10);
    if a >= 10 && b >= 10 {
        assert(digits(a).drop_last() =~= digits(a / 10));
        assert(digits(b).drop_last() =~= digits(b / 10));
        lemma_digits_injective(a / 10, b / 10);
    }
}

/// Different integers are written differently.
pub proof fn decimal_injective(a: int, b: int)
    requires
        decimal(a) == decimal(b),
    ensures
        a == b,
{
    let x = if a < 0 { (-a) as nat } else { a as nat };
    let y = if b < 0 { (-b) as nat } else { b as nat };
    lemma_digits_range(x);
    lemma_digits_range(y);
    if a < 0 {
        assert(decimal(a)[0] == '-');
        assert(decimal(a).skip(1) =~= digits(x));
    } else {
        assert('0' <= decimal(a)[0]);
    }
    if b < 0 {
        assert(decimal(b)[0] == '-');
        assert(decimal(b).skip(1) =~= digits(y));
    } else {
        assert('0' <= decimal(b)[0]);
    }
    lemma_digits_injective(x, y);
}

/// Numbers below ten are written with one digit, each with its own.
pub proof fn decimal_of_a_digit(n: int)
    requires
        0 <= n < 10,
    ensures
        decimal(n) == seq![
            seq!['0', '1', '2', '3', '4', '5', '6', '7', '8', '9'][n],
        ],
{
    assert(digit(n as nat) == seq!['0', '1', '2', '3', '4', '5', '6', '7', '8', '9'][n]);
}

/// Ten times a number and a digit is written as the number with the digit behind it.
pub proof fn decimal_shifts(n: int, d: int)
    requires
        n > 0,
        0 <= d < 10,
    ensures
        decimal(10 * n + d) == decimal(n) + decimal(d),
{
    let m = (10 * n + d) as nat;
    assert(m / 10 == n && m % 10 == d);
    assert(decimal(10 * n + d) =~= decimal(n) + decimal(d));
}

/// A negative number is written as its opposite behind a minus sign.
pub proof fn decimal_of_a_negative(n: int)
    requires
        n > 0,
    ensures
        decimal(-n) == seq!['-'] + decimal(n),
{
}

} // verus!
