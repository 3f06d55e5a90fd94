//! Decimal numerals: strings of digits and the numbers they denote, and the canonical
//! numeral of a number, which has no leading zero.

use vstd::prelude::*;

verus! {

/// The ASCII code of the digit zero.
pub const ZERO: u8 = 48;

/// The canonical decimal numeral of `n`.
pub open spec fn decimal_digits(n: nat) -> Seq<u8>
    decreases n,
{
    if n < 10 {
        seq![(48 + n) as u8]
    } else {
        decimal_digits(n / 10).push((48 + n % 10) as u8)
    }
}

/// Whether `c` is an ASCII decimal digit.
pub open spec fn is_digit(c: u8) -> bool {
    48 <= c <= 57
}

/// Whether `s` is a decimal numeral: one digit or more, and nothing else. Leading zeros
/// are allowed.
pub open spec fn is_digits(s: Seq<u8>) -> bool {
    &&& s.len() > 0
    &&& forall|i: int| 0 <= i < s.len() ==> is_digit(#[trigger] s[i])
}

/// Whether `s` is a canonical decimal numeral: a decimal numeral without a leading zero,
/// but for the numeral of zero itself.
pub open spec fn is_decimal(s: Seq<u8>) -> bool {
    &&& is_digits(s)
    &&& s.len() > 1 ==> s[0] != 48
}

/// The number that a string of digits denotes.
pub open spec fn decimal_value(s: Seq<u8>) -> nat
    decreases s.len(),
{
    if s.len() == 0 {
        0
    } else {
        10 * decimal_value(s.drop_last()) + (s.last() - 48) as nat
    }
}

/// A single digit denotes its own value.
proof fn lemma_value_single(s: Seq<u8>)
    requires
        s.len() == 1,
    ensures
        decimal_value(s) == (s[0] - 48) as nat,
{
    reveal_with_fuel(decimal_value, 2);
}

/// A numeral of two digits or more without a leading zero denotes ten or more.
proof fn lemma_value_at_least_ten(s: Seq<u8>)
    requires
        is_decimal(s),
        s.len() > 1,
    ensures
        decimal_value(s) >= 10,
    decreases s.len(),
{
    let front = s.drop_last();
    assert(front[0] == s[0]);
    if front.len() > 1 {
        assert forall|i: int| 0 <= i < front.len() implies is_digit(#[trigger] front[i]) by {
            assert(front[i] == s[i]);
        }
        lemma_value_at_least_ten(front);
    } else {
        lemma_value_single(front);
    }
}

/// The numeral of `n` is canonical and denotes `n`.
pub proof fn lemma_decimal_digits_value(n: nat)
    ensures
        is_decimal(decimal_digits(n)),
        decimal_value(decimal_digits(n)) == n,
    decreases n,
{
    let s = decimal_digits(n);
    if n < 10 {
        lemma_value_single(s);
    } else {
        lemma_decimal_digits_value(n / 10);
        let front = decimal_digits(n / 10);
        assert(s.drop_last() == front);
        assert(s[0] == front[0]);
        if front.len() == 1 {
            lemma_value_single(front);
        }
    }
}

/// A canonical numeral is the numeral of the number it denotes.
pub proof fn lemma_decimal_value_digits(s: Seq<u8>)
    requires
        is_decimal(s),
    ensures
        decimal_digits(decimal_value(s)) == s,
    decreases s.len(),
{
    let front = s.drop_last();
    if s.len() == 1 {
        lemma_value_single(s);
        assert(decimal_digits(decimal_value(s)) == s);
    } else {
        assert(front[0] == s[0]);
        assert forall|i: int| 0 <= i < front.len() implies is_digit(#[trigger] front[i]) by {
            assert(front[i] == s[i]);
        }
        lemma_decimal_value_digits(front);
        if front.len() > 1 {
            lemma_value_at_least_ten(front);
        } else {
            lemma_value_single(front);
        }
        let v = decimal_value(s);
        let d = (s.last() - 48) as nat;
        assert(v == 10 * decimal_value(front) + d);
        assert(v / 10 == decimal_value(front) && v % 10 == d);
        assert(decimal_digits(v) == s);
    }
}

/// Two canonical numerals that denote the same number are the same string.
pub proof fn lemma_decimal_unique(s: Seq<u8>, n: nat)
    requires
        is_decimal(s),
    ensures
        (decimal_value(s) == n) == (s == decimal_digits(n)),
{
    lemma_decimal_digits_value(n);
    lemma_decimal_value_digits(s);
}

/// Appends the canonical decimal numeral of `n` to `out`.
pub fn push_decimal(out: &mut Vec<u8>, n: usize)
    ensures
        final(out)@ == old(out)@ + decimal_digits(n as nat),
    decreases n,
{
    if n >= 10 {
        push_decimal(out, n / 10);
    }
    let digit: u8 = (n % 10) as u8;
    out.push(ZERO + digit);
}

/// What a string amounts to as a decimal numeral.
#[derive(Clone, Copy, Debug, PartialEq, Eq)]
pub enum Numeral {
    /// The string is empty or holds a byte that is no digit.
    Invalid,
    /// The string is a numeral of a number greater than `usize::MAX`.
    Overflow,
    /// The string is a numeral of this number.
    Value(usize),
}

/// The number that the first digits of a numeral denote is no greater than the number
/// that all of it denotes.
pub proof fn lemma_value_prefix(s: Seq<u8>, k: int)
    requires
        0 <= k <= s.len(),
        forall|i: int| 0 <= i < s.len() ==> is_digit(#[trigger] s[i]),
    ensures
        decimal_value(s.take(k)) <= decimal_value(s),
    decreases s.len(),
{
    if k == s.len() {
        assert(s.take(k) =~= s);
    } else {
        let front = s.drop_last();
        assert forall|i: int| 0 <= i < front.len() implies is_digit(#[trigger] front[i]) by {
            assert(front[i] == s[i]);
        }
        lemma_value_prefix(front, k);
        assert(front.take(k) =~= s.take(k));
        assert(is_digit(s[s.len() - 1]));
    }
}

/// Reads `s[from..end]` as a decimal numeral, leading zeros allowed.
pub fn read_numeral(s: &[u8], from: usize, end: usize) -> (r: Numeral)
    requires
        from <= end <= s.len(),
    ensures
        match r {
            Numeral::Invalid => !is_digits(s@.subrange(from as int, end as int)),
            Numeral::Overflow => is_digits(s@.subrange(from as int, end as int))
                && decimal_value(s@.subrange(from as int, end as int)) > usize::MAX,
            Numeral::Value(v) => is_digits(s@.subrange(from as int, end as int))
                && decimal_value(s@.subrange(from as int, end as int)) == v,
        },
{
    let ghost digits = s@.subrange(from as int, end as int);
    if from == end {
        return Numeral::Invalid;
    }
    let mut i: usize = from;
    while i < end
        invariant
            from <= i <= end <= s.len(),
            digits == s@.subrange(from as int, end as int),
            forall|j: int| 0 <= j < i - from ==> is_digit(#[trigger] digits[j]),
        decreases end - i,
    {
        if s[i] < ZERO || s[i] > 57 {
            assert(!is_digit(digits[i - from]));
            return Numeral::Invalid;
        }
        i += 1;
    }
    let mut value: usize = 0;
    let mut k: usize = from;
    assert(digits.take(0).len() == 0);
    while k < end
        invariant
            from <= k <= end <= s.len(),
            digits == s@.subrange(from as int, end as int),
            is_digits(digits),
            value == decimal_value(digits.take(k - from)),
        decreases end - k,
    {
        let ghost read = digits.take(k + 1 - from);
        assert(read.drop_last() =~= digits.take(k - from));
        assert(read.last() == s@[k as int] && is_digit(digits[k - from]));
        let digit: usize = (s[k] - ZERO) as usize;
        if value > (usize::MAX - digit) / 10 {
            proof {
                assert(decimal_value(read) == 10 * value + digit);
                lemma_value_prefix(digits, k + 1 - from);
            }
            return Numeral::Overflow;
        }
        value = 10 * value + digit;
        k += 1;
    }
    assert(digits.take(end - from) =~= digits);
    Numeral::Value(value)
}

} // verus!
