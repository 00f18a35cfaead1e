//! Reading integers from text.

use crate::text::{all_in, every_in, Class};
use vstd::prelude::*;
use vstd::slice::slice_subrange;

verus! {

/// The value of a decimal digit.
pub open spec fn digit_value(c: char) -> nat {
    (c as int - '0' as int) as nat
}

/// The number that decimal digits stand for.
pub open spec fn digits_value(s: Seq<char>) -> nat
    decreases s.len(),
{
    if s.len() == 0 {
        0
    } else {
        digits_value(s.drop_last()) * 10 + digit_value(s.last())
    }
}

/// A text of decimal digits, at least one, with a value of at most `max`.
pub open spec fn digits_of(s: Seq<char>, max: nat) -> Option<nat> {
    if s.len() > 0 && all_in(s, Class::Digit) && digits_value(s) <= max {
        Some(digits_value(s))
    } else {
        None
    }
}

/// An unsigned number: digits, with or without a `+` before them.
pub open spec fn unsigned_of(s: Seq<char>, max: nat) -> Option<nat> {
    if s.len() > 0 && s[0] == '+' {
        digits_of(s.skip(1), max)
    } else {
        digits_of(s, max)
    }
}

/// A signed number: digits, with or without a `+` or `-` before them, from
/// `-max - 1` up to `max`.
pub open spec fn signed_of(s: Seq<char>, max: nat) -> Option<int> {
    if s.len() > 0 && s[0] == '-' {
        match digits_of(s.skip(1), max + 1) {
            Some(n) => Some(-(n as int)),
            None => None,
        }
    } else {
        match unsigned_of(s, max) {
            Some(n) => Some(n as int),
            None => None,
        }
    }
}

/// More digits never make a smaller number.
pub proof fn lemma_digits_grow(s: Seq<char>, i: int)
    requires
        0 <= i <= s.len(),
    ensures
        digits_value(s.take(i)) <= digits_value(s),
    decreases s.len() - i,
{
    if i < s.len() {
        lemma_digits_grow(s, i + 1);
        assert(s.take(i + 1).drop_last() =~= s.take(i));
    } else {
        assert(s.take(i) =~= s);
    }
}

pub fn digit_number(c: char) -> (d: u64)
    requires
        Class::Digit.holds(c),
    ensures
        d == digit_value(c),
        d < 10,
{
    (c as u64) - 48
}

fn read_digits(s: &[char], max: u64) -> (r: Option<u64>)
    ensures
        match r {
            Some(n) => digits_of(s@, max as nat) == Some(n as nat),
            None => digits_of(s@, max as nat) is None,
        },
{
    if s.len() == 0 || !every_in(s, Class::Digit) {
        return None;
    }
    let mut n: u128 = 0;
    let mut i: usize = 0;
    while i < s.len()
        invariant
            i <= s.len(),
            all_in(s@, Class::Digit),
            s@.len() > 0,
            n == digits_value(s@.take(i as int)),
            n <= max,
        decreases s.len() - i,
    {
        assert(s@.take(i + 1).drop_last() =~= s@.take(i as int));
        n = n * 10 + digit_number(s[i]) as u128;
        i += 1;
        if n > max as u128 {
            proof {
                lemma_digits_grow(s@, i as int);
            }
            return None;
        }
    }
    assert(s@.take(s@.len() as int) =~= s@);
    Some(n as u64)
}

/// Reads an unsigned number of at most `max`.
pub fn read_unsigned(s: &[char], max: u64) -> (r: Option<u64>)
    ensures
        match r {
            Some(n) => unsigned_of(s@, max as nat) == Some(n as nat) && n <= max,
            None => unsigned_of(s@, max as nat) is None,
        },
{
    if s.len() > 0 && s[0] == '+' {
        read_digits(slice_subrange(s, 1, s.len()), max)
    } else {
        read_digits(s, max)
    }
}

pub fn read_u16(s: &[char]) -> (r: Option<u16>)
    ensures
        match r {
            Some(n) => unsigned_of(s@, u16::MAX as nat) == Some(n as nat),
            None => unsigned_of(s@, u16::MAX as nat) is None,
        },
{
    match read_unsigned(s, 0xffff) {
        Some(n) => Some(n as u16),
        None => None,
    }
}

pub fn read_u32(s: &[char]) -> (r: Option<u32>)
    ensures
        match r {
            Some(n) => unsigned_of(s@, u32::MAX as nat) == Some(n as nat),
            None => unsigned_of(s@, u32::MAX as nat) is None,
        },
{
    match read_unsigned(s, 0xffff_ffff) {
        Some(n) => Some(n as u32),
        None => None,
    }
}

pub fn read_u64(s: &[char]) -> (r: Option<u64>)
    ensures
        match r {
            Some(n) => unsigned_of(s@, u64::MAX as nat) == Some(n as nat),
            None => unsigned_of(s@, u64::MAX as nat) is None,
        },
{
    read_unsigned(s, 0xffff_ffff_ffff_ffff)
}

pub fn read_i32(s: &[char]) -> (r: Option<i32>)
    ensures
        match r {
            Some(n) => signed_of(s@, i32::MAX as nat) == Some(n as int),
            None => signed_of(s@, i32::MAX as nat) is None,
        },
{
    if s.len() > 0 && s[0] == '-' {
        match read_digits(slice_subrange(s, 1, s.len()), 0x8000_0000) {
            Some(n) => Some((-(n as i64)) as i32),
            None => None,
        }
    } else {
        match read_unsigned(s, 0x7fff_ffff) {
            Some(n) => Some(n as i32),
            None => None,
        }
    }
}

} // verus!
