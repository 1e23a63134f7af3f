//! Numbers read from texts.
use vstd::prelude::*;

use crate::text::to_chars;
use crate::types::{digit, int_text, nat_text};

verus! {

/// Why a text is no number.
#[derive(Debug, Clone, Copy, PartialEq, Eq, Structural)]
pub enum IntError {
    Empty,
    InvalidDigit,
    TooLarge,
    TooSmall,
}

pub open spec fn int_error_text(e: IntError) -> Seq<char> {
    match e {
        IntError::Empty => "cannot parse integer from empty string"@,
        IntError::InvalidDigit => "invalid digit found in string"@,
        IntError::TooLarge => "number too large to fit in target type"@,
        IntError::TooSmall => "number too small to fit in target type"@,
    }
}

impl IntError {
    pub fn message(&self) -> (r: &'static str)
        ensures
            r@ == int_error_text(*self),
    {
        match self {
            IntError::Empty => "cannot parse integer from empty string",
            IntError::InvalidDigit => "invalid digit found in string",
            IntError::TooLarge => "number too large to fit in target type",
            IntError::TooSmall => "number too small to fit in target type",
        }
    }
}

/// The value of a decimal digit.
pub open spec fn digit_value(c: char) -> Option<int> {
    if '0' <= c && c <= '9' {
        Some(c as int - '0' as int)
    } else {
        None
    }
}

/// The number whose digits are read one after the other, negated or not. The
/// first character that is no digit, or the first digit with which the number
/// leaves its range, ends the reading.
pub open spec fn digits_of(s: Seq<char>, negative: bool, low: int, high: int) -> Result<
    int,
    IntError,
>
    decreases s.len(),
{
    if s.len() == 0 {
        Ok(0)
    } else {
        match digits_of(s.drop_last(), negative, low, high) {
            Err(e) => Err(e),
            Ok(n) => match digit_value(s.last()) {
                None => Err(IntError::InvalidDigit),
                Some(d) => if negative {
                    if 10 * n - d < low {
                        Err(IntError::TooSmall)
                    } else {
                        Ok(10 * n - d)
                    }
                } else {
                    if 10 * n + d > high {
                        Err(IntError::TooLarge)
                    } else {
                        Ok(10 * n + d)
                    }
                },
            },
        }
    }
}

/// The number between two bounds that a text stands for: digits, after an
/// optional sign. There is no minus sign where no number is negative.
pub open spec fn int_between(s: Seq<char>, low: int, high: int) -> Result<int, IntError> {
    if s.len() == 0 {
        Err(IntError::Empty)
    } else if s.len() == 1 && (s[0] == '+' || s[0] == '-') {
        Err(IntError::InvalidDigit)
    } else if s[0] == '+' {
        digits_of(s.skip(1), false, low, high)
    } else if s[0] == '-' && low < 0 {
        digits_of(s.skip(1), true, low, high)
    } else {
        digits_of(s, false, low, high)
    }
}

/// The 32-bit number that a text stands for.
pub open spec fn int_of(s: Seq<char>) -> Result<int, IntError> {
    int_between(s, i32::MIN as int, i32::MAX as int)
}

proof fn lemma_digits_fail_early(s: Seq<char>, negative: bool, low: int, high: int, n: int)
    requires
        0 <= n <= s.len(),
        digits_of(s.take(n), negative, low, high) is Err,
    ensures
        digits_of(s, negative, low, high) == digits_of(s.take(n), negative, low, high),
    decreases s.len() - n,
{
    if n < s.len() {
        assert(s.take(n + 1).drop_last() =~= s.take(n));
        lemma_digits_fail_early(s, negative, low, high, n + 1);
    } else {
        assert(s.take(n) =~= s);
    }
}

fn char_digit(c: char) -> (r: Option<i128>)
    ensures
        match r {
            Some(d) => digit_value(c) == Some(d as int) && 0 <= d <= 9,
            None => digit_value(c) is None,
        },
{
    if '0' <= c && c <= '9' {
        let u: u32 = c as u32;
        let d: i128 = u as i128 - 48;
        Some(d)
    } else {
        None
    }
}

/// Reads a number between two bounds of at most 64 bits.
fn parse_between(s: &str, low: i128, high: i128) -> (r: Result<i128, IntError>)
    requires
        -0x1_0000_0000_0000_0000 <= low <= 0 <= high <= 0x1_0000_0000_0000_0000,
    ensures
        match r {
            Ok(n) => int_between(s@, low as int, high as int) == Ok::<int, IntError>(n as int)
                && low <= n <= high,
            Err(e) => int_between(s@, low as int, high as int) == Err::<int, IntError>(e),
        },
{
    let v = to_chars(s);
    if v.len() == 0 {
        return Err(IntError::Empty);
    }
    if v.len() == 1 && (v[0] == '+' || v[0] == '-') {
        return Err(IntError::InvalidDigit);
    }
    let negative = v[0] == '-' && low < 0;
    let start: usize = if v[0] == '+' || negative {
        1
    } else {
        0
    };
    let ghost digits = s@.skip(start as int);
    let mut n: i128 = 0;
    let mut i: usize = start;
    proof {
        assert(s@.skip(0) =~= s@);
        assert(digits.take(0) =~= Seq::empty());
    }
    while i < v.len()
        invariant
            start <= i <= v.len(),
            v@ == s@,
            digits == s@.skip(start as int),
            int_between(s@, low as int, high as int) == digits_of(
                digits,
                negative,
                low as int,
                high as int,
            ),
            -0x1_0000_0000_0000_0000 <= low <= 0 <= high <= 0x1_0000_0000_0000_0000,
            low <= n <= high,
            negative ==> n <= 0,
            !negative ==> n >= 0,
            digits_of(digits.take(i - start), negative, low as int, high as int) == Ok::<
                int,
                IntError,
            >(n as int),
        decreases v.len() - i,
    {
        proof {
            assert(digits.take(i - start + 1).drop_last() =~= digits.take(i - start));
            assert(digits.take(i - start + 1).last() == v@[i as int]);
        }
        let ghost k = i - start + 1;
        match char_digit(v[i]) {
            None => {
                proof {
                    lemma_digits_fail_early(digits, negative, low as int, high as int, k);
                }
                return Err(IntError::InvalidDigit);
            },
            Some(d) => {
                if negative {
                    let m: i128 = 10 * n - d;
                    if m < low {
                        proof {
                            lemma_digits_fail_early(digits, negative, low as int, high as int, k);
                        }
                        return Err(IntError::TooSmall);
                    }
                    n = m;
                } else {
                    let m: i128 = 10 * n + d;
                    if m > high {
                        proof {
                            lemma_digits_fail_early(digits, negative, low as int, high as int, k);
                        }
                        return Err(IntError::TooLarge);
                    }
                    n = m;
                }
            },
        }
        i += 1;
    }
    assert(digits.take(digits.len() as int) =~= digits);
    Ok(n)
}

/// Reads a 32-bit number.
pub fn parse_i32(s: &str) -> (r: Result<i32, IntError>)
    ensures
        match r {
            Ok(n) => int_of(s@) == Ok::<int, IntError>(n as int),
            Err(e) => int_of(s@) == Err::<int, IntError>(e),
        },
{
    match parse_between(s, i32::MIN as i128, i32::MAX as i128) {
        Ok(n) => Ok(n as i32),
        Err(e) => Err(e),
    }
}

/// Reads a 64-bit number.
pub fn parse_i64(s: &str) -> (r: Result<i64, IntError>)
    ensures
        match r {
            Ok(n) => int_between(s@, i64::MIN as int, i64::MAX as int) == Ok::<int, IntError>(
                n as int,
            ),
            Err(e) => int_between(s@, i64::MIN as int, i64::MAX as int) == Err::<int, IntError>(e),
        },
{
    match parse_between(s, i64::MIN as i128, i64::MAX as i128) {
        Ok(n) => Ok(n as i64),
        Err(e) => Err(e),
    }
}

/// Reads a number that counts something.
pub fn parse_usize(s: &str) -> (r: Result<usize, IntError>)
    ensures
        match r {
            Ok(n) => int_between(s@, 0, usize::MAX as int) == Ok::<int, IntError>(n as int),
            Err(e) => int_between(s@, 0, usize::MAX as int) == Err::<int, IntError>(e),
        },
{
    match parse_between(s, 0, usize::MAX as i128) {
        Ok(n) => Ok(n as usize),
        Err(e) => Err(e),
    }
}

proof fn lemma_read_digits(n: nat, negative: bool, low: int, high: int)
    requires
        !negative ==> n <= high,
        negative ==> -n >= low,
    ensures
        digits_of(nat_text(n), negative, low, high) == Ok::<int, IntError>(
            if negative {
                -n
            } else {
                n as int
            },
        ),
        nat_text(n).len() > 0,
        nat_text(n)[0] != '-',
        nat_text(n)[0] != '+',
    decreases n,
{
    let s = nat_text(n);
    if n < 10 {
        assert(s.drop_last() =~= Seq::empty());
        assert(digits_of(s.drop_last(), negative, low, high) == Ok::<int, IntError>(0));
        assert(digit_value(digit(n)) == Some(n as int));
    } else {
        let q = n / 10;
        lemma_read_digits(q, negative, low, high);
        assert(s.drop_last() =~= nat_text(q));
        assert(digit_value(digit(n % 10)) == Some((n % 10) as int));
        assert(n == 10 * q + n % 10);
        assert(s[0] == nat_text(q)[0]);
    }
}

/// Reading a number that was written gives it back, where it is in the range
/// that is read.
pub proof fn reading_what_was_written(n: int, low: int, high: int)
    requires
        low <= n <= high,
    ensures
        int_between(int_text(n), low, high) == Ok::<int, IntError>(n),
{
    if n < 0 {
        lemma_read_digits((-n) as nat, true, low, high);
        assert(int_text(n).skip(1) =~= nat_text((-n) as nat));
    } else {
        lemma_read_digits(n as nat, false, low, high);
    }
}

proof fn lemma_refused(s: Seq<char>, negative: bool, low: int, high: int, i: int)
    requires
        0 <= i < s.len(),
        !('0' <= s[i] <= '9'),
    ensures
        digits_of(s, negative, low, high) is Err,
    decreases s.len(),
{
    if i < s.len() - 1 {
        assert(s.drop_last()[i] == s[i]);
        lemma_refused(s.drop_last(), negative, low, high, i);
    }
}

/// A text is refused where it is empty, a sign alone, or holds a character behind its sign that
/// is no digit; a minus is no sign where no negative number is wanted. A plus changes nothing.
pub proof fn what_is_no_number_is_refused(s: Seq<char>, low: int, high: int, i: int)
    ensures
        s.len() == 0 ==> int_between(s, low, high) is Err,
        s == seq!['+'] || s == seq!['-'] ==> int_between(s, low, high) is Err,
        0 < i < s.len() && !('0' <= s[i] <= '9') ==> int_between(s, low, high) is Err,
        s.len() > 0 && !('0' <= s[0] <= '9') && s[0] != '+' && s[0] != '-' ==> int_between(
            s,
            low,
            high,
        ) is Err,
        s.len() > 0 && s[0] == '-' && low >= 0 ==> int_between(s, low, high) is Err,
        s.len() > 0 && '0' <= s[0] <= '9' ==> int_between(seq!['+'] + s, low, high)
            == int_between(s, low, high),
{
    if 0 < i < s.len() && !('0' <= s[i] <= '9') {
        lemma_refused(s, false, low, high, i);
        assert(s.skip(1)[i - 1] == s[i]);
        lemma_refused(s.skip(1), false, low, high, i - 1);
        lemma_refused(s.skip(1), true, low, high, i - 1);
    }
    if s.len() > 0 && !('0' <= s[0] <= '9') {
        lemma_refused(s, false, low, high, 0);
    }
    assert((seq!['+'] + s).skip(1) =~= s);
    assert((seq!['+'] + s)[0] == '+');
}

} // verus!
