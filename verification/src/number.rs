//! Decimal integers as text: what a run of digits is worth, and the integers
//! that a piece of text stands for in each of the machine types.
use vstd::prelude::*;

verus! {

pub open spec fn is_digit(c: char) -> bool {
    '0' <= c && c <= '9'
}

pub open spec fn digit_value(c: char) -> int {
    c as int - 48
}

pub open spec fn all_digits(s: Seq<char>) -> bool {
    forall|i: int| 0 <= i < s.len() ==> is_digit(#[trigger] s[i])
}

/// The number that the digits of `s` write in base ten.
pub open spec fn decimal(s: Seq<char>) -> int
    decreases s.len(),
{
    if s.len() == 0 {
        0
    } else {
        10 * decimal(s.drop_last()) + digit_value(s.last())
    }
}

/// The worth of a non-empty run of digits, where it is at most `max`.
pub open spec fn magnitude(s: Seq<char>, max: int) -> Option<int> {
    if s.len() > 0 && all_digits(s) && decimal(s) <= max {
        Some(decimal(s))
    } else {
        None
    }
}

/// The unsigned integer up to `max` that `s` stands for: digits, with `+`
/// allowed in front.
pub open spec fn unsigned(s: Seq<char>, max: int) -> Option<int> {
    if s.len() > 0 && s[0] == '+' {
        magnitude(s.skip(1), max)
    } else {
        magnitude(s, max)
    }
}

/// The integer between `min` and `max` that `s` stands for: digits, with `+`
/// or `-` allowed in front.
pub open spec fn signed(s: Seq<char>, min: int, max: int) -> Option<int> {
    if s.len() > 0 && s[0] == '-' {
        match magnitude(s.skip(1), -min) {
            Some(v) => Some(-v),
            None => None,
        }
    } else {
        unsigned(s, max)
    }
}

pub open spec fn i32_of(s: Seq<char>) -> Option<i32> {
    match signed(s, i32::MIN as int, i32::MAX as int) {
        Some(v) => Some(v as i32),
        None => None,
    }
}

pub open spec fn i64_of(s: Seq<char>) -> Option<i64> {
    match signed(s, i64::MIN as int, i64::MAX as int) {
        Some(v) => Some(v as i64),
        None => None,
    }
}

pub open spec fn isize_of(s: Seq<char>) -> Option<isize> {
    match signed(s, isize::MIN as int, isize::MAX as int) {
        Some(v) => Some(v as isize),
        None => None,
    }
}

pub open spec fn u32_of(s: Seq<char>) -> Option<u32> {
    match unsigned(s, u32::MAX as int) {
        Some(v) => Some(v as u32),
        None => None,
    }
}

pub open spec fn usize_of(s: Seq<char>) -> Option<usize> {
    match unsigned(s, usize::MAX as int) {
        Some(v) => Some(v as usize),
        None => None,
    }
}

pub proof fn lemma_decimal_nonnegative(s: Seq<char>)
    requires
        all_digits(s),
    ensures
        decimal(s) >= 0,
    decreases s.len(),
{
    if s.len() > 0 {
        lemma_decimal_nonnegative(s.drop_last());
    }
}

/// A run of digits is worth at least as much as each of its prefixes.
pub proof fn lemma_decimal_prefix(s: Seq<char>, k: int)
    requires
        all_digits(s),
        0 <= k <= s.len(),
    ensures
        decimal(s.take(k)) <= decimal(s),
    decreases s.len(),
{
    if k == s.len() {
        assert(s.take(k) =~= s);
    } else {
        lemma_decimal_prefix(s.drop_last(), k);
        lemma_decimal_nonnegative(s.drop_last());
        assert(s.drop_last().take(k) =~= s.take(k));
    }
}

pub fn is_digit_char(c: char) -> (r: bool)
    ensures
        r == is_digit(c),
{
    '0' <= c && c <= '9'
}

/// Reads the digits of `s` from index `from` to its end.
pub fn read_magnitude(s: &Vec<char>, from: usize, max: u64) -> (r: Option<u64>)
    requires
        from <= s.len(),
    ensures
        match r {
            Some(v) => magnitude(s@.skip(from as int), max as int) == Some(v as int),
            None => magnitude(s@.skip(from as int), max as int) is None,
        },
{
    let ghost digits = s@.skip(from as int);
    if from >= s.len() {
        return None;
    }
    let mut acc: u64 = 0;
    let mut i: usize = from;
    while i < s.len()
        invariant
            from <= i <= s.len(),
            digits == s@.skip(from as int),
            all_digits(digits.take(i - from)),
            acc == decimal(digits.take(i - from)),
            acc <= max,
        decreases s.len() - i,
    {
        let c = s[i];
        assert(digits[i - from] == c);
        if !is_digit_char(c) {
            return None;
        }
        let d: u64 = (c as u64) - 48;
        let next: u128 = (acc as u128) * 10 + (d as u128);
        assert(digits.take(i + 1 - from).drop_last() =~= digits.take(i - from));
        assert(decimal(digits.take(i + 1 - from)) == next);
        if next > max as u128 {
            proof {
                if all_digits(digits) {
                    lemma_decimal_prefix(digits, i + 1 - from);
                }
            }
            return None;
        }
        acc = next as u64;
        i += 1;
    }
    assert(digits.take(i - from) =~= digits);
    Some(acc)
}

pub fn read_unsigned(s: &Vec<char>, max: u64) -> (r: Option<u64>)
    ensures
        match r {
            Some(v) => unsigned(s@, max as int) == Some(v as int),
            None => unsigned(s@, max as int) is None,
        },
{
    if s.len() > 0 && s[0] == '+' {
        read_magnitude(s, 1, max)
    } else {
        assert(s@.skip(0) =~= s@);
        read_magnitude(s, 0, max)
    }
}

pub fn read_signed(s: &Vec<char>, min: i64, max: i64) -> (r: Option<i64>)
    requires
        min < 0 <= max,
    ensures
        match r {
            Some(v) => signed(s@, min as int, max as int) == Some(v as int),
            None => signed(s@, min as int, max as int) is None,
        },
{
    if s.len() > 0 && s[0] == '-' {
        let bound: u64 = ((-(min + 1)) as u64) + 1;
        match read_magnitude(s, 1, bound) {
            Some(v) => if v == 0 {
                Some(0)
            } else {
                Some(-((v - 1) as i64) - 1)
            },
            None => None,
        }
    } else {
        match read_unsigned(s, max as u64) {
            Some(v) => Some(v as i64),
            None => None,
        }
    }
}

pub fn parse_i32(s: &Vec<char>) -> (r: Option<i32>)
    ensures
        r == i32_of(s@),
{
    match read_signed(s, i32::MIN as i64, i32::MAX as i64) {
        Some(v) => Some(v as i32),
        None => None,
    }
}

pub fn parse_i64(s: &Vec<char>) -> (r: Option<i64>)
    ensures
        r == i64_of(s@),
{
    read_signed(s, i64::MIN, i64::MAX)
}

pub fn parse_isize(s: &Vec<char>) -> (r: Option<isize>)
    ensures
        r == isize_of(s@),
{
    match read_signed(s, isize::MIN as i64, isize::MAX as i64) {
        Some(v) => Some(v as isize),
        None => None,
    }
}

pub fn parse_u32(s: &Vec<char>) -> (r: Option<u32>)
    ensures
        r == u32_of(s@),
{
    match read_unsigned(s, u32::MAX as u64) {
        Some(v) => Some(v as u32),
        None => None,
    }
}

pub fn parse_usize(s: &Vec<char>) -> (r: Option<usize>)
    ensures
        r == usize_of(s@),
{
    match read_unsigned(s, usize::MAX as u64) {
        Some(v) => Some(v as usize),
        None => None,
    }
}

} // verus!
