//! Decimal numbers as text.

use crate::text::chars_of;
use vstd::prelude::*;

verus! {

/// The character of a decimal digit.
pub open spec fn digit(d: nat) -> char {
    ('0' as int + d) as char
}

/// `n` in decimal, without leading zeros.
pub open spec fn decimal(n: nat) -> Seq<char>
    decreases n,
{
    if n < 10 {
        seq![digit(n)]
    } else {
        decimal(n / 10).push(digit(n % 10))
    }
}

pub open spec fn is_digit(c: char) -> bool {
    '0' <= c <= '9'
}

pub open spec fn all_digits(s: Seq<char>) -> bool {
    forall|i: int| 0 <= i < s.len() ==> is_digit(#[trigger] s[i])
}

/// The number that the digits `s` are written for.
pub open spec fn digits_value(s: Seq<char>) -> nat
    decreases s.len(),
{
    if s.len() == 0 {
        0
    } else {
        10 * digits_value(s.drop_last()) + (s.last() as int - '0' as int) as nat
    }
}

/// The number up to `max` that `s` is written for: digits, with an optional `+`
/// in front.
pub open spec fn parsed_number(s: Seq<char>, max: nat) -> Option<nat> {
    let digits = if s.len() > 0 && s[0] == '+' {
        s.skip(1)
    } else {
        s
    };
    if digits.len() > 0 && all_digits(digits) && digits_value(digits) <= max {
        Some(digits_value(digits))
    } else {
        None
    }
}

/// The number that `s` is written for, between `-limit - 1` and `limit`: digits,
/// with an optional sign in front.
pub open spec fn parsed_signed(s: Seq<char>, limit: nat) -> Option<int> {
    if s.len() > 0 && s[0] == '-' {
        let digits = s.skip(1);
        if digits.len() > 0 && all_digits(digits) && digits_value(digits) <= limit + 1 {
            Some(-digits_value(digits))
        } else {
            None
        }
    } else {
        match parsed_number(s, limit) {
            Some(n) => Some(n as int),
            None => None,
        }
    }
}

fn digit_char(d: u8) -> (c: char)
    requires
        d < 10,
    ensures
        c == digit(d as nat),
{
    (48u8 + d) as char
}

/// `n` in decimal.
pub fn decimal_text(n: u64) -> (out: String)
    ensures
        out@ == decimal(n as nat),
    decreases n,
{
    let mut out = if n < 10 {
        String::new()
    } else {
        decimal_text(n / 10)
    };
    out.push(digit_char((n % 10) as u8));
    assert(n < 10 ==> out@ =~= seq![digit(n as nat)]);
    out
}

/// `n` in decimal, with a `-` in front of a negative number.
pub open spec fn signed_decimal(n: int) -> Seq<char> {
    if n < 0 {
        seq!['-'] + decimal((-n) as nat)
    } else {
        decimal(n as nat)
    }
}

pub fn signed_text(n: i64) -> (out: String)
    ensures
        out@ == signed_decimal(n as int),
{
    if n >= 0 {
        return decimal_text(n as u64);
    }
    let mut out = String::new();
    out.push('-');
    let magnitude: u64 = (-(n as i128)) as u64;
    let digits = decimal_text(magnitude);
    out.append(digits.as_str());
    assert(out@ =~= seq!['-'] + digits@);
    out
}

pub proof fn lemma_value_monotone(s: Seq<char>, i: int)
    requires
        0 <= i <= s.len(),
        all_digits(s),
    ensures
        digits_value(s.take(i)) <= digits_value(s),
    decreases s.len(),
{
    if i < s.len() {
        assert(s.take(i) =~= s.drop_last().take(i));
        lemma_value_monotone(s.drop_last(), i);
    } else {
        assert(s.take(i) =~= s);
    }
}

/// The number up to `max` that the digits from `from` on are written for.
fn parse_digits(chars: &Vec<char>, from: usize, max: u64) -> (res: Option<u64>)
    requires
        from <= chars.len(),
    ensures
        ({
            let digits = chars@.skip(from as int);
            if digits.len() > 0 && all_digits(digits) && digits_value(digits) <= max {
                res == Some(digits_value(digits) as u64)
            } else {
                res is None
            }
        }),
{
    let ghost digits = chars@.skip(from as int);
    if chars.len() == from {
        return None;
    }
    let mut value: u64 = 0;
    let mut i: usize = from;
    while i < chars.len()
        invariant
            digits == chars@.skip(from as int),
            from <= i <= chars.len(),
            all_digits(digits.take(i - from)),
            value == digits_value(digits.take(i - from)),
            value <= max,
        decreases chars.len() - i,
    {
        let c = chars[i];
        assert(digits[i - from] == c);
        if c < '0' || c > '9' {
            assert(!is_digit(digits[i - from]));
            return None;
        }
        let d: u64 = (c as u32 - '0' as u32) as u64;
        let ghost next = digits.take(i - from + 1);
        assert(next.drop_last() =~= digits.take(i - from));
        if d > max || value > (max - d) / 10 {
            proof {
                if all_digits(digits) {
                    lemma_value_monotone(digits, i - from + 1);
                }
            }
            return None;
        }
        value = value * 10 + d;
        i = i + 1;
    }
    assert(digits.take(chars.len() - from) =~= digits);
    Some(value)
}

/// Parses a decimal number up to `max`, with an optional `+` in front.
pub fn parse_number(s: &str, max: u64) -> (res: Option<u64>)
    ensures
        match parsed_number(s@, max as nat) {
            Some(n) => res == Some(n as u64) && n <= max,
            None => res is None,
        },
{
    let chars = chars_of(s);
    if chars.len() > 0 && chars[0] == '+' {
        parse_digits(&chars, 1, max)
    } else {
        assert(chars@.skip(0) =~= chars@);
        parse_digits(&chars, 0, max)
    }
}

pub fn parse_u16(s: &str) -> (res: Option<u16>)
    ensures
        match parsed_number(s@, u16::MAX as nat) {
            Some(n) => res == Some(n as u16) && n <= u16::MAX,
            None => res is None,
        },
{
    match parse_number(s, 65535) {
        Some(n) => Some(n as u16),
        None => None,
    }
}

pub fn parse_u32(s: &str) -> (res: Option<u32>)
    ensures
        match parsed_number(s@, u32::MAX as nat) {
            Some(n) => res == Some(n as u32) && n <= u32::MAX,
            None => res is None,
        },
{
    match parse_number(s, 4294967295) {
        Some(n) => Some(n as u32),
        None => None,
    }
}

pub fn parse_i64(s: &str) -> (res: Option<i64>)
    ensures
        match parsed_signed(s@, i64::MAX as nat) {
            Some(n) => res == Some(n as i64) && i64::MIN <= n <= i64::MAX,
            None => res is None,
        },
{
    let chars = chars_of(s);
    if chars.len() > 0 && chars[0] == '-' {
        match parse_digits(&chars, 1, 9223372036854775808) {
            Some(n) => Some((-(n as i128)) as i64),
            None => None,
        }
    } else {
        match parse_number(s, 9223372036854775807) {
            Some(n) => Some(n as i64),
            None => None,
        }
    }
}

proof fn lemma_decimal_digits(n: nat)
    ensures
        decimal(n).len() > 0,
        all_digits(decimal(n)),
        digits_value(decimal(n)) == n,
    decreases n,
{
    if n < 10 {
        reveal_with_fuel(digits_value, 2);
        assert(decimal(n).drop_last() =~= Seq::<char>::empty());
    } else {
        lemma_decimal_digits(n / 10);
        assert(decimal(n).drop_last() =~= decimal(n / 10));
    }
}

/// A number written in decimal is read back as itself.
pub proof fn decimal_round_trip(n: nat, max: nat)
    requires
        n <= max,
    ensures
        parsed_number(decimal(n), max) == Some(n),
{
    lemma_decimal_digits(n);
    assert(is_digit(decimal(n)[0]));
}

/// Different numbers are written differently.
pub proof fn decimal_injective(a: nat, b: nat)
    ensures
        decimal(a) == decimal(b) <==> a == b,
{
    lemma_decimal_digits(a);
    lemma_decimal_digits(b);
}

/// A decimal number has no zero in front.
pub proof fn decimal_is_short(n: nat)
    ensures
        decimal(n).len() > 1 ==> decimal(n)[0] != '0',
        n > 0 ==> decimal(n)[0] != '0',
    decreases n,
{
    if n >= 10 {
        decimal_is_short(n / 10);
        decimal_is_digits(n / 10);
        assert(decimal(n)[0] == decimal(n / 10)[0]);
    }
}

/// A decimal number holds digits only.
pub proof fn decimal_is_digits(n: nat)
    ensures
        decimal(n).len() > 0,
        all_digits(decimal(n)),
        digits_value(decimal(n)) == n,
{
    lemma_decimal_digits(n);
}

/// A number with a sign, written in decimal, is read back as itself; and nothing is read
/// that is out of the limits.
pub proof fn signed_round_trip(n: int, limit: nat, text: Seq<char>)
    requires
        -limit - 1 <= n <= limit,
    ensures
        parsed_signed(signed_decimal(n), limit) == Some(n),
        parsed_signed(text, limit) matches Some(m) ==> -limit - 1 <= m <= limit,
{
    let size = (if n < 0 {
        -n
    } else {
        n
    }) as nat;
    decimal_is_digits(size);
    assert(is_digit(decimal(size)[0]));
    if n < 0 {
        assert(signed_decimal(n).skip(1) =~= decimal(size));
    } else {
        decimal_round_trip(size, limit);
    }
}


} // verus!
