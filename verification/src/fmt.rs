//! Building text: concatenation, padding and numbers in decimal and
//! hexadecimal.

use crate::text::{chars_of, string_of};
use vstd::prelude::*;

verus! {

// --------------------------------------------------------- concatenation ----
//
// `catN` puts N texts one behind the other.

pub fn cat2(a: &str, b: &str) -> (r: String)
    ensures
        r@ == a@ + b@,
{
    let r = a.to_owned();
    r.concat(b)
}

pub fn cat3(a: &str, b: &str, c: &str) -> (r: String)
    ensures
        r@ == a@ + b@ + c@,
{
    let r = cat2(a, b);
    r.concat(c)
}

pub fn cat4(a: &str, b: &str, c: &str, d: &str) -> (r: String)
    ensures
        r@ == a@ + b@ + c@ + d@,
{
    let r = cat3(a, b, c);
    r.concat(d)
}

pub fn cat5(a: &str, b: &str, c: &str, d: &str, e: &str) -> (r: String)
    ensures
        r@ == a@ + b@ + c@ + d@ + e@,
{
    let r = cat4(a, b, c, d);
    r.concat(e)
}

pub fn cat6(a: &str, b: &str, c: &str, d: &str, e: &str, f: &str) -> (r: String)
    ensures
        r@ == a@ + b@ + c@ + d@ + e@ + f@,
{
    let r = cat5(a, b, c, d, e);
    r.concat(f)
}

pub fn cat7(a: &str, b: &str, c: &str, d: &str, e: &str, f: &str, g: &str) -> (r: String)
    ensures
        r@ == a@ + b@ + c@ + d@ + e@ + f@ + g@,
{
    let r = cat6(a, b, c, d, e, f);
    r.concat(g)
}

pub fn cat8(a: &str, b: &str, c: &str, d: &str, e: &str, f: &str, g: &str, h: &str) -> (r: String)
    ensures
        r@ == a@ + b@ + c@ + d@ + e@ + f@ + g@ + h@,
{
    let r = cat7(a, b, c, d, e, f, g);
    r.concat(h)
}

pub fn cat9(
    a: &str,
    b: &str,
    c: &str,
    d: &str,
    e: &str,
    f: &str,
    g: &str,
    h: &str,
    i: &str,
) -> (r: String)
    ensures
        r@ == a@ + b@ + c@ + d@ + e@ + f@ + g@ + h@ + i@,
{
    let r = cat8(a, b, c, d, e, f, g, h);
    r.concat(i)
}

pub fn cat10(
    a: &str,
    b: &str,
    c: &str,
    d: &str,
    e: &str,
    f: &str,
    g: &str,
    h: &str,
    i: &str,
    j: &str,
) -> (r: String)
    ensures
        r@ == a@ + b@ + c@ + d@ + e@ + f@ + g@ + h@ + i@ + j@,
{
    let r = cat9(a, b, c, d, e, f, g, h, i);
    r.concat(j)
}

pub fn cat11(
    a: &str,
    b: &str,
    c: &str,
    d: &str,
    e: &str,
    f: &str,
    g: &str,
    h: &str,
    i: &str,
    j: &str,
    k: &str,
) -> (r: String)
    ensures
        r@ == a@ + b@ + c@ + d@ + e@ + f@ + g@ + h@ + i@ + j@ + k@,
{
    let r = cat10(a, b, c, d, e, f, g, h, i, j);
    r.concat(k)
}

pub fn cat12(
    a: &str,
    b: &str,
    c: &str,
    d: &str,
    e: &str,
    f: &str,
    g: &str,
    h: &str,
    i: &str,
    j: &str,
    k: &str,
    l: &str,
) -> (r: String)
    ensures
        r@ == a@ + b@ + c@ + d@ + e@ + f@ + g@ + h@ + i@ + j@ + k@ + l@,
{
    let r = cat11(a, b, c, d, e, f, g, h, i, j, k);
    r.concat(l)
}

/// `n` copies of a character.
pub open spec fn repeated(c: char, n: int) -> Seq<char> {
    Seq::new(if n > 0 { n as nat } else { 0 }, |i: int| c)
}

pub fn repeat(c: char, n: usize) -> (r: String)
    ensures
        r@ == repeated(c, n as int),
{
    let mut r = String::new();
    let mut i: usize = 0;
    while i < n
        invariant
            i <= n,
            r@ =~= repeated(c, i as int),
        decreases n - i,
    {
        r.push(c);
        i += 1;
    }
    r
}

/// `s` followed by as many spaces as bring it to `width` characters.
pub open spec fn padded_right(s: Seq<char>, width: int) -> Seq<char> {
    s + repeated(' ', width - s.len())
}

/// `s` preceded by as many spaces as bring it to `width` characters.
pub open spec fn padded_left(s: Seq<char>, width: int) -> Seq<char> {
    repeated(' ', width - s.len()) + s
}

pub fn pad_right(s: &str, width: usize) -> (r: String)
    ensures
        r@ == padded_right(s@, width as int),
{
    let n = chars_of(s).len();
    let fill = repeat(' ', if n < width { width - n } else { 0 });
    assert(fill@ =~= repeated(' ', width - n));
    cat2(s, fill.as_str())
}

pub fn pad_left(s: &str, width: usize) -> (r: String)
    ensures
        r@ == padded_left(s@, width as int),
{
    let n = chars_of(s).len();
    let fill = repeat(' ', if n < width { width - n } else { 0 });
    assert(fill@ =~= repeated(' ', width - n));
    cat2(fill.as_str(), s)
}

// --------------------------------------------------------------- numbers ----

/// The digit with a value below ten.
pub open spec fn digit_char(d: int) -> char {
    ('0' as int + d) as char
}

/// A natural number in decimal.
pub open spec fn dec(n: nat) -> Seq<char>
    decreases n,
{
    if n < 10 {
        seq![digit_char(n as int)]
    } else {
        dec(n / 10).push(digit_char((n % 10) as int))
    }
}

/// An integer in decimal.
pub open spec fn dec_int(n: int) -> Seq<char> {
    if n < 0 {
        "-"@ + dec((-n) as nat)
    } else {
        dec(n as nat)
    }
}

pub fn digit(d: u64) -> (c: char)
    requires
        d < 10,
    ensures
        c == digit_char(d as int),
{
    (48u8 + d as u8) as char
}

/// The characters of `s` in reverse order.
pub fn reversed(s: &Vec<char>) -> (r: Vec<char>)
    ensures
        r@ == s@.reverse(),
{
    let mut r: Vec<char> = Vec::new();
    let mut n: usize = s.len();
    while n > 0
        invariant
            n <= s.len(),
            r@.len() == s.len() - n,
            forall|i: int| 0 <= i < r@.len() ==> r@[i] == s@[s.len() - 1 - i],
        decreases n,
    {
        n -= 1;
        r.push(s[n]);
    }
    assert(r@ =~= s@.reverse());
    r
}

pub fn decimal(n: u64) -> (r: String)
    ensures
        r@ == dec(n as nat),
{
    let mut back: Vec<char> = Vec::new();
    let mut rest: u64 = n;
    assert(back@.reverse() =~= Seq::<char>::empty());
    while rest >= 10
        invariant
            dec(n as nat) == dec(rest as nat) + back@.reverse(),
        decreases rest,
    {
        let ghost before = back@;
        back.push(digit(rest % 10));
        assert(dec(rest as nat) + before.reverse() =~= dec((rest / 10) as nat)
            + back@.reverse());
        rest = rest / 10;
    }
    back.push(digit(rest));
    assert(back@.reverse() =~= dec(n as nat));
    string_of(reversed(&back).as_slice())
}

pub fn decimal_int(n: i64) -> (r: String)
    ensures
        r@ == dec_int(n as int),
{
    if n < 0 {
        let m: u64 = (-(n as i128)) as u64;
        let d = decimal(m);
        cat2("-", d.as_str())
    } else {
        decimal(n as u64)
    }
}

/// The lower-case hexadecimal digit with a value below sixteen.
pub open spec fn hex_char(d: int) -> char {
    if d < 10 {
        digit_char(d)
    } else {
        ('a' as int + (d - 10)) as char
    }
}

/// A natural number in lower-case hexadecimal.
pub open spec fn hex(n: nat) -> Seq<char>
    decreases n,
{
    if n < 16 {
        seq![hex_char(n as int)]
    } else {
        hex(n / 16).push(hex_char((n % 16) as int))
    }
}

fn hex_digit(d: u128) -> (c: char)
    requires
        d < 16,
    ensures
        c == hex_char(d as int),
{
    if d < 10 {
        (48u8 + d as u8) as char
    } else {
        (97u8 + (d as u8 - 10u8)) as char
    }
}

pub fn hexadecimal(n: u128) -> (r: String)
    ensures
        r@ == hex(n as nat),
{
    let mut back: Vec<char> = Vec::new();
    let mut rest: u128 = n;
    assert(back@.reverse() =~= Seq::<char>::empty());
    while rest >= 16
        invariant
            hex(n as nat) == hex(rest as nat) + back@.reverse(),
        decreases rest,
    {
        let ghost before = back@;
        back.push(hex_digit(rest % 16));
        assert(hex(rest as nat) + before.reverse() =~= hex((rest / 16) as nat) + back@.reverse());
        rest = rest / 16;
    }
    back.push(hex_digit(rest));
    assert(back@.reverse() =~= hex(n as nat));
    string_of(reversed(&back).as_slice())
}

} // verus!
