//! Numbers in decimal, written and read.

use vstd::prelude::*;

verus! {

/// `String::push` appends the given character to the end of the string.
pub assume_specification[ String::push ](s: &mut String, c: char)
    ensures
        final(s)@ == old(s)@.push(c),
;

pub open spec fn digit_char(d: int) -> char {
    (48 + d) as char
}

pub open spec fn is_digit(c: char) -> bool {
    48 <= c as int <= 57
}

/// `n` in decimal, without leading zeros.
pub open spec fn decimal(n: nat) -> Seq<char>
    decreases n,
{
    if n < 10 {
        seq![digit_char(n as int)]
    } else {
        decimal(n / 10).push(digit_char(n as int % 10))
    }
}

/// The last `width` decimal digits of `n`, with leading zeros.
pub open spec fn padded(n: nat, width: nat) -> Seq<char>
    decreases width,
{
    if width == 0 {
        seq![]
    } else {
        padded(n / 10, (width - 1) as nat).push(digit_char(n as int % 10))
    }
}

pub open spec fn all_digits(s: Seq<char>) -> bool {
    forall|i: int| 0 <= i < s.len() ==> is_digit(#[trigger] s[i])
}

/// The number that a run of decimal digits stands for.
pub open spec fn decimal_value(s: Seq<char>) -> nat
    decreases s.len(),
{
    if s.len() == 0 {
        0
    } else {
        10 * decimal_value(s.drop_last()) + (s.last() as int - 48) as nat
    }
}

/// How many numbers `n` decimal digits can hold.
pub open spec fn pow10(n: nat) -> nat
    decreases n,
{
    if n == 0 {
        1
    } else {
        10 * pow10((n - 1) as nat)
    }
}

/// A padded number is read back, and takes exactly the width.
pub proof fn padded_round_trip(n: nat, width: nat)
    requires
        n < pow10(width),
    ensures
        padded(n, width).len() == width,
        all_digits(padded(n, width)),
        decimal_value(padded(n, width)) == n,
    decreases width,
{
    if width > 0 {
        padded_round_trip(n / 10, (width - 1) as nat);
        assert(padded(n, width).drop_last() =~= padded(n / 10, (width - 1) as nat));
    }
}

/// A longer run of digits never stands for a smaller number.
pub proof fn lemma_decimal_value_monotonic(s: Seq<char>, k: int)
    requires
        0 <= k <= s.len(),
    ensures
        decimal_value(s.take(k)) <= decimal_value(s),
    decreases s.len() - k,
{
    if k == s.len() {
        assert(s.take(k) =~= s);
    } else {
        lemma_decimal_value_monotonic(s, k + 1);
        assert(s.take(k + 1).drop_last() =~= s.take(k));
    }
}

/// Appends `n` in decimal.
pub fn push_decimal(s: &mut String, n: u64)
    ensures
        final(s)@ == old(s)@ + decimal(n as nat),
    decreases n,
{
    if n >= 10 {
        push_decimal(s, n / 10);
    }
    let c: char = (48 + (n % 10) as u8) as char;
    s.push(c);
    assert(s@ =~= old(s)@ + decimal(n as nat));
}

/// Appends the last `width` digits of `n`, with leading zeros.
pub fn push_padded(s: &mut String, n: u64, width: usize)
    ensures
        final(s)@ == old(s)@ + padded(n as nat, width as nat),
    decreases width,
{
    if width > 0 {
        push_padded(s, n / 10, width - 1);
        let c: char = (48 + (n % 10) as u8) as char;
        s.push(c);
    }
    assert(s@ =~= old(s)@ + padded(n as nat, width as nat));
}

/// What the characters of `s` stand for as a `u64`: digits, at least one, after an
/// optional plus sign. None if they are anything else, or too large.
pub open spec fn u64_text(s: Seq<char>) -> Option<u64> {
    let digits = if s.len() > 0 && s[0] == '+' {
        s.skip(1)
    } else {
        s
    };
    if digits.len() > 0 && all_digits(digits) && decimal_value(digits) <= u64::MAX {
        Some(decimal_value(digits) as u64)
    } else {
        None
    }
}

/// Reads the first `end` characters of `s` as a `u64`.
pub fn parse_u64(s: &str, end: usize) -> (r: Option<u64>)
    requires
        end <= s@.len(),
    ensures
        r == u64_text(s@.take(end as int)),
{
    let ghost text = s@.take(end as int);
    let start: usize = if end > 0 && s.get_char(0) == '+' {
        1
    } else {
        0
    };
    let ghost digits = if start == 1 {
        text.skip(1)
    } else {
        text
    };
    if start == end {
        return None;
    }
    let mut value: u64 = 0;
    let mut i: usize = start;
    assert(digits.take(0) =~= Seq::<char>::empty());
    while i < end
        invariant
            start <= i <= end,
            end <= s@.len(),
            text == s@.take(end as int),
            digits.len() == end - start,
            forall|j: int| 0 <= j < digits.len() ==> #[trigger] digits[j] == s@[start + j],
            all_digits(digits.take(i - start)),
            value == decimal_value(digits.take(i - start)),
            digits.len() > 0,
            u64_text(text) == (if all_digits(digits) && decimal_value(digits) <= u64::MAX {
                Some(decimal_value(digits) as u64)
            } else {
                None::<u64>
            }),
        decreases end - i,
    {
        let c = s.get_char(i);
        assert(digits[i - start] == c);
        let code: u32 = c as u32;
        if code < 48 || code > 57 {
            assert(!is_digit(digits[i - start]));
            return None;
        }
        let ghost next = digits.take(i - start + 1);
        assert(next.drop_last() =~= digits.take(i - start));
        assert(next.last() == c);
        proof {
            lemma_decimal_value_monotonic(digits, i - start + 1);
        }
        let d: u64 = (code - 48) as u64;
        if value > (u64::MAX - d) / 10 {
            return None;
        }
        value = value * 10 + d;
        i = i + 1;
        assert(all_digits(next));
    }
    assert(digits.take(i - start) =~= digits);
    Some(value)
}

} // verus!
