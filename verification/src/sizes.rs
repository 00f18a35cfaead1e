//! A size written for people reads back as the size it was, where the writing loses
//! nothing.

use crate::float::{lemma_exact, lemma_whole_numbers, Format};
use crate::fmt::dec;
use crate::lines::{lemma_dec_digits, lemma_first_in_is, lemma_trimmed_already};
use crate::number::digits_value;
use crate::parse::{bytes_of, bytes_text, multiplier, reduced, unit_name};
use crate::reading::{
    alike, double_of, magnitude_of, mantissa_of, numeral_of, pow10, unsigned_part, Numeral,
};
use crate::text::{is_alpha, is_digit, is_space, Class};
use vstd::arithmetic::power2::{
    lemma2_to64, lemma2_to64_rest, lemma_pow2_adds, lemma_pow2_pos, lemma_pow2_strictly_increases,
    pow2,
};
use vstd::prelude::*;

verus! {

/// 1024 to the power of `unit`.
pub open spec fn power_of_1024(unit: nat) -> nat {
    pow2(10 * unit)
}

/// Whether a magnitude in double precision is the integer `n`.
spec fn is_integer(b: nat, n: nat) -> bool {
    b < Format::Double.infinity() && Format::Double.scaled(b) == n * pow2(1074)
}

proof fn lemma_is_nearest(b: nat, n: nat)
    requires
        is_integer(b, n),
    ensures
        Format::Double.nearest(n, 1) == b,
{
    let x = Format::Double.scaled(b);
    assert(x * 1 == x) by (nonlinear_arith);
    lemma_exact(Format::Double, b, n, 1);
}

/// The magnitude of `k` times a power of 1024.
proof fn lemma_integer(k: nat, unit: nat) -> (b: nat)
    requires
        k <= 1024,
        unit <= 5,
    ensures
        is_integer(b, k * power_of_1024(unit)),
{
    lemma2_to64();
    lemma2_to64_rest();
    lemma_pow2_strictly_increases(10, 53);
    lemma_whole_numbers(k, 10 * unit)
}

proof fn lemma_reaches(b: nat, n: nat, m: nat)
    requires
        is_integer(b, n),
    ensures
        Format::Double.reaches(b, m) <==> n >= m,
{
    let u = pow2(1074);
    lemma_pow2_pos(1074);
    assert(n * u >= m * u <==> n >= m) by (nonlinear_arith)
        requires
            u > 0,
    ;
}

proof fn lemma_quotient(a: nat, b: nat, c: nat, n: nat)
    requires
        is_integer(a, n * 1024),
        is_integer(b, n),
        is_integer(c, 1024),
    ensures
        Format::Double.quotient(a, c) == b,
{
    let u = pow2(1074);
    lemma_pow2_pos(1074);
    assert((n * u) * (1024 * u) == (n * 1024 * u) * u) by (nonlinear_arith);
    assert(1024 * u > 0) by (nonlinear_arith)
        requires
            u > 0,
    ;
    lemma_exact(Format::Double, b, Format::Double.scaled(a), Format::Double.scaled(c));
}

/// Dividing by 1024 takes a power of 1024 away, one unit at a time.
proof fn lemma_reduced(k: nat, m: nat, unit: nat, a: nat, b: nat)
    requires
        1 <= k < 1024,
        m + unit <= 5,
        is_integer(a, k * power_of_1024(m)),
        is_integer(b, k),
    ensures
        reduced(a, unit) == (b, unit + m),
    decreases m,
{
    lemma2_to64();
    let n = k * power_of_1024(m);
    if m == 0 {
        assert(n == k) by (nonlinear_arith)
            requires
                n == k * power_of_1024(0),
                power_of_1024(0) == 1,
        ;
        lemma_is_nearest(a, k);
        lemma_is_nearest(b, k);
        lemma_reaches(a, k, 1024);
    } else {
        let less = (m - 1) as nat;
        let q = k * power_of_1024(less);
        lemma_pow2_adds(10 * less, 10);
        lemma_pow2_pos(10 * less);
        assert(n == q * 1024) by (nonlinear_arith)
            requires
                n == k * power_of_1024(m),
                q == k * power_of_1024(less),
                power_of_1024(m) == power_of_1024(less) * 1024,
        ;
        assert(q >= 1) by (nonlinear_arith)
            requires
                q == k * power_of_1024(less),
                k >= 1,
                power_of_1024(less) >= 1,
        ;
        lemma_reaches(a, n, 1024);
        let c = lemma_integer(1024, 0);
        assert(1024 * power_of_1024(0) == 1024);
        lemma_is_nearest(c, 1024);
        let d = lemma_integer(k, less);
        lemma_quotient(a, d, c, q);
        lemma_reduced(k, less, unit + 1, d, b);
    }
}

proof fn lemma_printed(b: nat, k: nat)
    requires
        is_integer(b, k),
    ensures
        Format::Double.printed(b, 0) == dec(k),
        Format::Double.printed(b, 1) == dec(k) + "."@ + dec(0),
{
    let u = pow2(1074);
    lemma_pow2_pos(1074);
    assert(k * u * 1 == u * k + 0) by (nonlinear_arith);
    vstd::arithmetic::div_mod::lemma_fundamental_div_mod_converse(
        (k * u * 1) as int,
        u as int,
        k as int,
        0,
    );
    assert(k * u * 10 == (k * 10) * u + 0) by (nonlinear_arith);
    vstd::arithmetic::div_mod::lemma_fundamental_div_mod_converse(
        (k * u * 10) as int,
        u as int,
        (k * 10) as int,
        0,
    );
}

/// What such a number is written as, but for its unit.
spec fn figure(k: nat, unit: nat) -> Seq<char> {
    if unit > 0 && k < 10 {
        dec(k) + "."@ + dec(0)
    } else {
        dec(k)
    }
}

proof fn lemma_written(k: nat, unit: nat)
    requires
        k < 1024,
        unit <= 5,
        unit > 0 ==> k >= 1,
    ensures
        bytes_text(k * power_of_1024(unit)) == figure(k, unit) + unit_name(unit),
{
    lemma2_to64();
    let a = lemma_integer(k, unit);
    let b = lemma_integer(k, 0);
    assert(k * power_of_1024(0) == k) by (nonlinear_arith)
        requires
            power_of_1024(0) == 1,
    ;
    lemma_is_nearest(a, k * power_of_1024(unit));
    lemma_reaches(b, k, 1024);
    lemma_reaches(b, k, 10);
    if unit == 0 {
        lemma_is_nearest(b, k);
    } else {
        lemma_reduced(k, unit, 0, a, b);
        lemma_printed(b, k);
    }
}

/// Reading such a figure gives the number.
proof fn lemma_figure_read(k: nat, unit: nat, b: nat)
    requires
        is_integer(b, k),
    ensures
        double_of(figure(k, unit)) matches Some(x) && !x.is_nan() && !x.negative() && x.magnitude()
            == b,
        forall|i: int|
            0 <= i < figure(k, unit).len() ==> !is_alpha(#[trigger] figure(k, unit)[i]),
        figure(k, unit).len() > 0,
        is_digit(figure(k, unit)[0]),
{
    reveal_strlit(".");
    reveal_strlit("nan");
    reveal_strlit("inf");
    reveal_strlit("infinity");
    lemma2_to64();
    lemma2_to64_rest();
    let f = Format::Double;
    let s = figure(k, unit);
    let d = dec(k);
    lemma_dec_digits(k);
    lemma_dec_digits(0);
    assert(dec(0) =~= seq!['0']);
    assert(s[0] == d[0]);
    assert forall|i: int| 0 <= i < s.len() implies !is_alpha(#[trigger] s[i]) by {
        if i < d.len() {
            assert(s[i] == d[i]);
        }
    }
    assert(unsigned_part(s) == s);
    assert(!alike(s, "nan"@) && !alike(s, "inf"@) && !alike(s, "infinity"@));
    assert forall|i: int| 0 <= i < s.len() implies !Class::Exponent.holds(#[trigger] s[i]) by {
        assert(!is_alpha(s[i]));
    }
    lemma_first_in_is(s, Class::Exponent, s.len() as int);
    assert(s.take(s.len() as int) =~= s);
    if unit > 0 && k < 10 {
        lemma_first_in_is(s, Class::Only('.'), d.len() as int);
        assert(s.take(d.len() as int) =~= d);
        assert(s.skip((d.len() + 1) as int) =~= seq!['0']);
        let digits = d + seq!['0'];
        assert(digits.drop_last() =~= d);
        assert(digits_value(digits) == k * 10);
        assert(mantissa_of(s) == Some((digits, 1int)));
        assert(pow10(0) == 1);
        assert(pow10(1) == 10);
        assert(f.scaled(b) * 10 == k * 10 * pow2(1074)) by (nonlinear_arith)
            requires
                f.scaled(b) == k * pow2(1074),
        ;
        lemma_exact(f, b, k * 10, 10);
        assert(numeral_of(s) == Some(Numeral::Decimal { digits: k * 10, exp: -1 }));
    } else {
        lemma_first_in_is(s, Class::Only('.'), s.len() as int);
        assert(d + Seq::<char>::empty() =~= d);
        assert(mantissa_of(s) == Some((d, 0int)));
        assert(pow10(0) == 1);
        assert(k * pow10(0) == k) by (nonlinear_arith)
            requires
                pow10(0) == 1,
        ;
        lemma_is_nearest(b, k);
        assert(numeral_of(s) == Some(Numeral::Decimal { digits: k, exp: 0 }));
    }
    assert(magnitude_of(f, s) == Some(b));
}

proof fn lemma_product(a: nat, b: nat, k: nat, m: nat)
    requires
        is_integer(b, k),
        is_integer(a, k * m),
    ensures
        Format::Double.product(b, m) == a,
        Format::Double.truncated(a) == k * m,
{
    let u = pow2(1074);
    lemma_pow2_pos(1074);
    assert((k * m * u) * u == ((k * u) * m) * u) by (nonlinear_arith);
    lemma_exact(Format::Double, a, Format::Double.scaled(b) * m, u);
    assert(k * m * u == u * (k * m) + 0) by (nonlinear_arith);
    vstd::arithmetic::div_mod::lemma_fundamental_div_mod_converse(
        (k * m * u) as int,
        u as int,
        (k * m) as int,
        0,
    );
}

/// A number of bytes below 1024, and one that is a whole number of its unit, from
/// kilobytes to petabytes, reads back as it was after it has been written.
pub proof fn law_whole_sizes_read_back(k: nat, unit: nat)
    requires
        k < 1024,
        unit <= 5,
        unit > 0 ==> k >= 1,
    ensures
        k * power_of_1024(unit) <= u64::MAX,
        bytes_of(bytes_text(k * power_of_1024(unit))) == Some((k * power_of_1024(unit)) as u64),
{
    reveal_strlit("B");
    reveal_strlit("K");
    reveal_strlit("M");
    reveal_strlit("G");
    reveal_strlit("T");
    reveal_strlit("P");
    lemma2_to64();
    lemma2_to64_rest();
    let m = power_of_1024(unit);
    assert(m <= 1024 * 1024 * 1024 * 1024 * 1024);
    assert(k * m <= 1024 * (1024 * 1024 * 1024 * 1024 * 1024)) by (nonlinear_arith)
        requires
            k <= 1024,
            m <= 1024 * 1024 * 1024 * 1024 * 1024,
    ;
    let a = lemma_integer(k, unit);
    let b = lemma_integer(k, 0);
    assert(k * power_of_1024(0) == k) by (nonlinear_arith)
        requires
            power_of_1024(0) == 1,
    ;
    lemma_written(k, unit);
    lemma_figure_read(k, unit, b);
    lemma_product(a, b, k, m);
    let num = figure(k, unit);
    let name = unit_name(unit);
    let s = num + name;
    assert(name.len() == 1 && is_alpha(name[0]));
    assert(s[0] == num[0]);
    assert(s.last() == name[0]);
    lemma_trimmed_already(s);
    assert forall|i: int| 0 <= i < num.len() implies !Class::Alpha.holds(#[trigger] s[i]) by {
        assert(s[i] == num[i]);
    }
    assert(s[num.len() as int] == name[0]);
    lemma_first_in_is(s, Class::Alpha, num.len() as int);
    assert(s.take(num.len() as int) =~= num);
    assert(s.skip(num.len() as int) =~= name);
    assert(multiplier(name) == Some(m));
}

/// Such a size is one word, without a tab in it.
pub proof fn lemma_size_word(k: nat, unit: nat)
    requires
        k < 1024,
        unit <= 5,
        unit > 0 ==> k >= 1,
    ensures
        ({
            let s = bytes_text(k * power_of_1024(unit));
            &&& s.len() > 0
            &&& forall|i: int| 0 <= i < s.len() ==> !is_space(#[trigger] s[i])
        }),
{
    reveal_strlit("B");
    reveal_strlit("K");
    reveal_strlit("M");
    reveal_strlit("G");
    reveal_strlit("T");
    reveal_strlit("P");
    reveal_strlit(".");
    lemma_written(k, unit);
    lemma_dec_digits(k);
    lemma_dec_digits(0);
    let d = dec(k);
    let z = dec(0);
    let f = figure(k, unit);
    let s = f + unit_name(unit);
    assert forall|i: int| 0 <= i < f.len() implies !is_space(#[trigger] f[i]) by {
        if i < d.len() {
            assert(f[i] == d[i]);
        } else if i > d.len() {
            assert(f[i] == z[i - d.len() - 1]);
        }
    }
    assert forall|i: int| 0 <= i < s.len() implies !is_space(#[trigger] s[i]) by {
        if i < f.len() {
            assert(s[i] == f[i]);
        } else {
            assert(s[i] == unit_name(unit)[i - f.len()]);
        }
    }
}

} // verus!
