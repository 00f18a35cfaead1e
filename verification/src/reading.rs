//! Reading floating-point numbers from text.

use crate::float::{
    lemma_nearest_unique, lemma_pow2_values, lemma_scaled_grows, Double, Format, Single,
};
use crate::natural::Natural;
use crate::number::{digit_number, digits_value};
use crate::text::{
    all_in, ascii_lower, chars_of, cut_first, every_in, find_in, first_in, lower_char, split_once,
    Class,
};
use vstd::arithmetic::power2::{lemma_pow2_adds, lemma_pow2_pos, pow2};
use vstd::prelude::*;
use vstd::slice::slice_subrange;

verus! {

// --------------------------------------------------------------- grammar ----

/// Whether `s` spells `t`, ASCII capitals and small letters alike.
pub open spec fn alike(s: Seq<char>, t: Seq<char>) -> bool {
    &&& s.len() == t.len()
    &&& forall|i: int| 0 <= i < s.len() ==> ascii_lower(#[trigger] s[i]) == ascii_lower(t[i])
}

/// What a text means as a floating-point number, but for its sign.
pub enum Numeral {
    Nan,
    Infinite,
    /// `digits * 10^exp`.
    Decimal { digits: nat, exp: int },
}

/// A text without the `+` or `-` that it starts with.
pub open spec fn unsigned_part(s: Seq<char>) -> Seq<char> {
    if s.len() > 0 && (s[0] == '+' || s[0] == '-') {
        s.skip(1)
    } else {
        s
    }
}

pub open spec fn has_minus(s: Seq<char>) -> bool {
    s.len() > 0 && s[0] == '-'
}

/// The digits of a mantissa without its point, and how many followed the point.
pub open spec fn mantissa_of(s: Seq<char>) -> Option<(Seq<char>, int)> {
    let (whole, part) = match cut_first(s, '.') {
        Some((a, b)) => (a, b),
        None => (s, seq![]),
    };
    let digits = whole + part;
    if digits.len() > 0 && all_in(digits, Class::Digit) {
        Some((digits, part.len() as int))
    } else {
        None
    }
}

/// The value of an exponent: a sign or none, then digits.
pub open spec fn exponent_of(s: Seq<char>) -> Option<int> {
    let d = unsigned_part(s);
    if d.len() > 0 && all_in(d, Class::Digit) {
        Some(
            if has_minus(s) {
                -(digits_value(d) as int)
            } else {
                digits_value(d) as int
            },
        )
    } else {
        None
    }
}

/// A decimal number without a sign: a mantissa, and an exponent after `e` or
/// `E` if there is one.
pub open spec fn decimal_of(s: Seq<char>) -> Option<Numeral> {
    let i = first_in(s, Class::Exponent);
    let exp = if i < s.len() {
        exponent_of(s.skip(i + 1))
    } else {
        Some(0int)
    };
    match (mantissa_of(s.take(i)), exp) {
        (Some((digits, shift)), Some(e)) => Some(
            Numeral::Decimal { digits: digits_value(digits), exp: e - shift },
        ),
        _ => None,
    }
}

/// What a text without a sign means.
pub open spec fn numeral_of(s: Seq<char>) -> Option<Numeral> {
    if alike(s, "nan"@) {
        Some(Numeral::Nan)
    } else if alike(s, "inf"@) || alike(s, "infinity"@) {
        Some(Numeral::Infinite)
    } else {
        decimal_of(s)
    }
}

pub open spec fn pow10(n: nat) -> nat
    decreases n,
{
    if n == 0 {
        1
    } else {
        10 * pow10((n - 1) as nat)
    }
}

/// The magnitude nearest to `n * 10^e`.
pub open spec fn nearest_decimal(f: Format, n: nat, e: int) -> nat {
    if e >= 0 {
        f.nearest(n * pow10(e as nat), 1)
    } else {
        f.nearest(n, pow10((-e) as nat))
    }
}

/// The magnitude that a text without a sign stands for.
pub open spec fn magnitude_of(f: Format, s: Seq<char>) -> Option<nat> {
    match numeral_of(s) {
        Some(Numeral::Nan) => Some(f.infinity() + pow2((f.fraction() - 1) as nat)),
        Some(Numeral::Infinite) => Some(f.infinity()),
        Some(Numeral::Decimal { digits, exp }) => Some(nearest_decimal(f, digits, exp)),
        None => None,
    }
}

/// The single-precision number that a text stands for.
pub open spec fn single_of(s: Seq<char>) -> Option<Single> {
    match magnitude_of(Format::Single, unsigned_part(s)) {
        Some(b) => Some(
            Single {
                bits: (if has_minus(s) {
                    b + 0x8000_0000
                } else {
                    b
                }) as u32,
            },
        ),
        None => None,
    }
}

/// The double-precision number that a text stands for.
pub open spec fn double_of(s: Seq<char>) -> Option<Double> {
    match magnitude_of(Format::Double, unsigned_part(s)) {
        Some(b) => Some(
            Double {
                bits: (if has_minus(s) {
                    b + 0x8000_0000_0000_0000
                } else {
                    b
                }) as u64,
            },
        ),
        None => None,
    }
}

// ---------------------------------------------------------------- lemmas ----

pub proof fn lemma_pow10_pos(n: nat)
    ensures
        pow10(n) > 0,
    decreases n,
{
    if n > 0 {
        lemma_pow10_pos((n - 1) as nat);
    }
}

proof fn lemma_pow10_adds(a: nat, b: nat)
    ensures
        pow10(a + b) == pow10(a) * pow10(b),
    decreases a,
{
    if a > 0 {
        lemma_pow10_adds((a - 1) as nat, b);
        assert(10 * (pow10((a - 1) as nat) * pow10(b)) == (10 * pow10((a - 1) as nat)) * pow10(b))
            by (nonlinear_arith);
    } else {
        assert(1 * pow10(b) == pow10(b)) by (nonlinear_arith);
    }
}

/// A power of ten exceeds the same power of eight.
proof fn lemma_pow10_large(n: nat)
    ensures
        pow10(n) >= pow2(3 * n),
    decreases n,
{
    lemma_pow2_values();
    if n > 0 {
        lemma_pow10_large((n - 1) as nat);
        vstd::arithmetic::power2::lemma2_to64();
        lemma_pow2_adds((3 * (n - 1)) as nat, 3);
        assert((3 * (n - 1)) as nat + 3 == 3 * n);
        assert(pow2(3 * n) == pow2((3 * (n - 1)) as nat) * 8);
    }
}

proof fn lemma_digits_bound(s: Seq<char>)
    requires
        all_in(s, Class::Digit),
    ensures
        digits_value(s) < pow10(s.len()),
    decreases s.len(),
{
    if s.len() > 0 {
        assert forall|i: int| 0 <= i < s.drop_last().len() implies Class::Digit.holds(
            #[trigger] s.drop_last()[i],
        ) by {
            assert(s.drop_last()[i] == s[i]);
        }
        lemma_digits_bound(s.drop_last());
        assert(Class::Digit.holds(s[s.len() - 1]));
    }
}

/// Nothing is nearest to zero but zero.
proof fn lemma_nearest_zero(f: Format, d: nat)
    requires
        d > 0,
    ensures
        f.nearest(0, d) == 0,
{
    lemma_scaled_grows(f, 0, 1);
    let m = f.scaled(0) + f.scaled(1);
    assert(m * d > 0) by (nonlinear_arith)
        requires
            m > 0,
            d > 0,
    ;
    assert(2 * 0 * pow2(f.unit()) == 0) by (nonlinear_arith);
    lemma_infinity_pos(f);
    lemma_nearest_unique(f, 0, 0, d);
}

proof fn lemma_infinity_pos(f: Format)
    ensures
        f.infinity() > 0,
        f.infinity() == (match f {
            Format::Single => 0x7f80_0000nat,
            Format::Double => 0x7ff0_0000_0000_0000nat,
        }),
{
    lemma_pow2_values();
}

/// A large number rounds to infinity.
proof fn lemma_nearest_huge(f: Format, n: nat)
    requires
        n >= pow2(1025),
    ensures
        f.nearest(n, 1) == f.infinity(),
{
    lemma_infinity_pos(f);
    lemma_pow2_values();
    let inf = f.infinity();
    let p = pow2(f.fraction());
    let t = f.top();
    vstd::arithmetic::div_mod::lemma_fundamental_div_mod_converse(
        inf as int,
        p as int,
        t as int,
        0,
    );
    assert(f.scaled(inf) == p * pow2((t - 1) as nat));
    lemma_pow2_adds(f.fraction(), (t - 1) as nat);
    lemma_scaled_grows(f, (inf - 1) as nat, inf);
    let k = (f.fraction() + t - 1) as nat;
    lemma_pow2_adds(1025, f.unit());
    assert(k <= 1025 + f.unit());
    lemma_pow2_adds(k, (1025 + f.unit() - k) as nat);
    lemma_pow2_pos((1025 + f.unit() - k) as nat);
    let w = pow2((1025 + f.unit() - k) as nat);
    assert(pow2(k) * w >= pow2(k)) by (nonlinear_arith)
        requires
            w > 0,
            pow2(k) >= 0,
    ;
    lemma_pow2_pos(f.unit());
    let u = pow2(f.unit());
    assert(2 * n * u >= 2 * (pow2(1025) * u)) by (nonlinear_arith)
        requires
            n >= pow2(1025),
            u > 0,
    ;
    let a = f.scaled((inf - 1) as nat);
    let b = f.scaled(inf);
    assert((a + b) * 1 == a + b) by (nonlinear_arith);
    lemma_nearest_unique(f, inf, n, 1);
}

/// A tiny number rounds to zero.
proof fn lemma_nearest_tiny(f: Format, n: nat, d: nat)
    requires
        d > 0,
        d >= n * pow2(1075),
    ensures
        f.nearest(n, d) == 0,
{
    lemma_infinity_pos(f);
    lemma_pow2_values();
    let p = pow2(f.fraction());
    vstd::arithmetic::div_mod::lemma_fundamental_div_mod_converse(0, p as int, 0, 0);
    vstd::arithmetic::div_mod::lemma_fundamental_div_mod_converse(1, p as int, 0, 1);
    assert(f.scaled(0) == 0) by (nonlinear_arith)
        requires
            f.scaled(0) == 0 * pow2(0),
    ;
    assert(f.scaled(1) == 1) by (nonlinear_arith)
        requires
            f.scaled(1) == 1 * pow2(0),
            pow2(0) == 1,
    ;
    let u = pow2(f.unit());
    lemma_pow2_adds(f.unit(), (1075 - f.unit()) as nat);
    let v = pow2((1075 - f.unit()) as nat);
    assert(v >= 2) by {
        lemma_pow2_adds(1, (1075 - f.unit() - 1) as nat);
        lemma_pow2_pos((1075 - f.unit() - 1) as nat);
    }
    assert(2 * n * u <= n * (u * v)) by (nonlinear_arith)
        requires
            v >= 2,
            u >= 0,
            n >= 0,
    ;
    assert((0 + 1) * d == d) by (nonlinear_arith);
    lemma_nearest_unique(f, 0, n, d);
}

// --------------------------------------------------------------- reading ----

fn same_ignoring_case(s: &[char], t: &str) -> (yes: bool)
    ensures
        yes == alike(s@, t@),
{
    let u = chars_of(t);
    if s.len() != u.len() {
        return false;
    }
    let mut i: usize = 0;
    while i < s.len()
        invariant
            i <= s.len(),
            u@ == t@,
            s@.len() == t@.len(),
            forall|j: int| 0 <= j < i ==> ascii_lower(#[trigger] s@[j]) == ascii_lower(t@[j]),
        decreases s.len() - i,
    {
        if lower_char(s[i]) != lower_char(u[i]) {
            assert(ascii_lower(s@[i as int]) != ascii_lower(t@[i as int]));
            return false;
        }
        i += 1;
    }
    true
}

/// Whether two strings are equal but for the case of ASCII letters.
pub fn eq_ignoring_case(s: &str, t: &str) -> (yes: bool)
    ensures
        yes == alike(s@, t@),
{
    let s = chars_of(s);
    same_ignoring_case(s.as_slice(), t)
}

fn natural_of(s: &[char]) -> (r: Natural)
    requires
        all_in(s@, Class::Digit),
    ensures
        r@ == digits_value(s@),
{
    let mut r = Natural::zero();
    let mut i: usize = 0;
    while i < s.len()
        invariant
            i <= s.len(),
            all_in(s@, Class::Digit),
            r@ == digits_value(s@.take(i as int)),
        decreases s.len() - i,
    {
        assert(s@.take(i + 1).drop_last() =~= s@.take(i as int));
        r = r.mul_add(10, digit_number(s[i]));
        i += 1;
    }
    assert(s@.take(s@.len() as int) =~= s@);
    r
}

/// The value of some digits, or `10^30` when it is larger.
fn capped(s: &[char]) -> (r: i128)
    requires
        all_in(s@, Class::Digit),
    ensures
        0 <= r <= 1_000_000_000_000_000_000_000_000_000_000,
        r < 1_000_000_000_000_000_000_000_000_000_000 ==> r == digits_value(s@),
        r == 1_000_000_000_000_000_000_000_000_000_000 ==> digits_value(s@) >= r,
{
    let mut r: i128 = 0;
    let mut i: usize = 0;
    while i < s.len()
        invariant
            i <= s.len(),
            all_in(s@, Class::Digit),
            r == digits_value(s@.take(i as int)),
            0 <= r < 1_000_000_000_000_000_000_000_000_000_000,
        decreases s.len() - i,
    {
        assert(s@.take(i + 1).drop_last() =~= s@.take(i as int));
        r = r * 10 + digit_number(s[i]) as i128;
        i += 1;
        if r >= 1_000_000_000_000_000_000_000_000_000_000 {
            proof {
                crate::number::lemma_digits_grow(s@, i as int);
            }
            return 1_000_000_000_000_000_000_000_000_000_000;
        }
    }
    assert(s@.take(s@.len() as int) =~= s@);
    r
}

fn power_of_ten(n: &Natural, k: i128) -> (r: Natural)
    requires
        0 <= k,
    ensures
        r@ == n@ * pow10(k as nat),
{
    let mut r = n.mul_add(1, 0);
    let mut i: i128 = 0;
    assert(n@ * 1 == n@) by (nonlinear_arith);
    while i < k
        invariant
            0 <= i <= k,
            r@ == n@ * pow10(i as nat),
        decreases k - i,
    {
        r = r.mul_add(10, 0);
        assert(n@ * pow10(i as nat) * 10 == n@ * (10 * pow10(i as nat))) by (nonlinear_arith);
        i += 1;
    }
    r
}

/// Rounds `digits * 10^exp`, where `exp` may stand for anything beyond `10^29`
/// in either direction.
fn round_decimal(f: Format, digits: &[char], exp: i128, Ghost(e): Ghost<int>) -> (b: u64)
    requires
        all_in(digits@, Class::Digit),
        exp == e || (exp >= 100_000_000_000_000_000_000_000_000_000 && e >= exp) || (exp
            <= -100_000_000_000_000_000_000_000_000_000 && e <= exp),
        -2_000_000_000_000_000_000_000_000_000_000 <= exp
            <= 2_000_000_000_000_000_000_000_000_000_000,
    ensures
        b == nearest_decimal(f, digits_value(digits@), e),
        b <= f.infinity(),
{
    let n = natural_of(digits);
    proof {
        lemma_digits_bound(digits@);
        lemma_infinity_pos(f);
    }
    if n.is_zero() {
        proof {
            if e >= 0 {
                assert(0 * pow10(e as nat) == 0) by (nonlinear_arith);
                lemma_nearest_zero(f, 1);
            } else {
                lemma_pow10_pos((-e) as nat);
                lemma_nearest_zero(f, pow10((-e) as nat));
            }
        }
        return 0;
    }
    if exp > 400 {
        proof {
            lemma_pow10_large(e as nat);
            assert(3 * e as nat >= 1025);
            lemma_pow2_adds(1025, (3 * e - 1025) as nat);
            lemma_pow2_pos((3 * e - 1025) as nat);
            let w = pow2((3 * e - 1025) as nat);
            assert(pow2(1025) * w >= pow2(1025)) by (nonlinear_arith)
                requires
                    w > 0,
            ;
            assert(n@ * pow10(e as nat) >= pow10(e as nat)) by (nonlinear_arith)
                requires
                    n@ > 0,
            ;
            lemma_nearest_huge(f, n@ * pow10(e as nat));
        }
        return f.infinite();
    }
    if exp >= 0 {
        let m = power_of_ten(&n, exp);
        return f.round(&m, &Natural::from_u64(1));
    }
    let len: i128 = digits.len() as i128;
    if len + exp < -400 {
        proof {
            let k = (-e) as nat;
            let l = digits@.len();
            lemma_pow10_adds(l, (k - l) as nat);
            lemma_pow10_large((k - l) as nat);
            assert(3 * (k - l) >= 1075);
            lemma_pow2_adds(1075, (3 * (k - l) - 1075) as nat);
            lemma_pow2_pos((3 * (k - l) - 1075) as nat);
            let w = pow2((3 * (k - l) - 1075) as nat);
            assert(pow2(1075) * w >= pow2(1075)) by (nonlinear_arith)
                requires
                    w > 0,
            ;
            let x = pow10(l);
            let y = pow10((k - l) as nat);
            assert(x * y >= n@ * pow2(1075)) by (nonlinear_arith)
                requires
                    x > n@,
                    y >= pow2(1075),
                    pow2(1075) >= 0,
            ;
            lemma_pow10_pos(k);
            lemma_nearest_tiny(f, n@, pow10(k));
        }
        return 0;
    }
    let d = power_of_ten(&Natural::from_u64(1), -exp);
    proof {
        lemma_pow10_pos((-e) as nat);
        assert(1 * pow10((-e) as nat) == pow10((-e) as nat)) by (nonlinear_arith);
    }
    f.round(&n, &d)
}

/// The digits of `a` and `b` together.
fn together(a: &[char], b: &[char]) -> (r: Vec<char>)
    ensures
        r@ == a@ + b@,
{
    let mut r: Vec<char> = Vec::new();
    let mut i: usize = 0;
    while i < a.len()
        invariant
            i <= a.len(),
            r@ =~= a@.take(i as int),
        decreases a.len() - i,
    {
        r.push(a[i]);
        i += 1;
    }
    i = 0;
    while i < b.len()
        invariant
            i <= b.len(),
            r@ =~= a@ + b@.take(i as int),
        decreases b.len() - i,
    {
        r.push(b[i]);
        i += 1;
    }
    assert(b@.take(b@.len() as int) =~= b@);
    r
}

fn read_mantissa(s: &[char]) -> (r: Option<(Vec<char>, usize)>)
    ensures
        match r {
            Some((d, n)) => mantissa_of(s@) == Some((d@, n as int)) && all_in(d@, Class::Digit),
            None => mantissa_of(s@) is None,
        },
{
    let (whole, part) = match split_once(s, '.') {
        Some((a, b)) => (a, b),
        None => (s, slice_subrange(s, 0, 0)),
    };
    assert(cut_first(s@, '.') is None ==> part@ =~= seq![]);
    let digits = together(whole, part);
    if digits.len() > 0 && every_in(digits.as_slice(), Class::Digit) {
        Some((digits, part.len()))
    } else {
        None
    }
}

fn read_magnitude(f: Format, s: &[char]) -> (r: Option<u64>)
    ensures
        match r {
            Some(b) => magnitude_of(f, s@) == Some(b as nat) && b <= f.infinity() + pow2(
                (f.fraction() - 1) as nat,
            ),
            None => magnitude_of(f, s@) is None,
        },
{
    proof {
        lemma_pow2_values();
        lemma_infinity_pos(f);
    }
    if same_ignoring_case(s, "nan") {
        return Some(
            match f {
                Format::Single => 0x7fc0_0000,
                Format::Double => 0x7ff8_0000_0000_0000,
            },
        );
    }
    if same_ignoring_case(s, "inf") || same_ignoring_case(s, "infinity") {
        return Some(f.infinite());
    }
    let i = find_in(s, Class::Exponent);
    let mut exp: i128 = 0;
    let ghost mut e: int = 0;
    if i < s.len() {
        let t = slice_subrange(s, i + 1, s.len());
        assert(t@ =~= s@.skip(i + 1));
        let minus = t.len() > 0 && t[0] == '-';
        let d = if t.len() > 0 && (t[0] == '+' || t[0] == '-') {
            slice_subrange(t, 1, t.len())
        } else {
            t
        };
        assert(d@ =~= unsigned_part(t@));
        if d.len() == 0 || !every_in(d, Class::Digit) {
            return None;
        }
        let c = capped(d);
        exp = if minus {
            -c
        } else {
            c
        };
        proof {
            e = exponent_of(t@)->0;
        }
    }
    let m = slice_subrange(s, 0, i);
    assert(m@ =~= s@.take(i as int));
    match read_mantissa(m) {
        Some((digits, shift)) => {
            let b = round_decimal(f, digits.as_slice(), exp - shift as i128, Ghost(e - shift));
            Some(b)
        },
        None => None,
    }
}

fn read_sign<'a>(s: &'a [char]) -> (r: (bool, &'a [char]))
    ensures
        r.0 == has_minus(s@),
        r.1@ == unsigned_part(s@),
{
    if s.len() > 0 && (s[0] == '+' || s[0] == '-') {
        let t = slice_subrange(s, 1, s.len());
        assert(t@ =~= s@.skip(1));
        (s[0] == '-', t)
    } else {
        (false, s)
    }
}

pub fn read_single(s: &[char]) -> (r: Option<Single>)
    ensures
        r == single_of(s@),
{
    let (minus, t) = read_sign(s);
    proof {
        lemma_pow2_values();
        lemma_infinity_pos(Format::Single);
    }
    match read_magnitude(Format::Single, t) {
        Some(b) => Some(
            Single {
                bits: if minus {
                    b as u32 + 0x8000_0000
                } else {
                    b as u32
                },
            },
        ),
        None => None,
    }
}

pub fn read_double(s: &[char]) -> (r: Option<Double>)
    ensures
        r == double_of(s@),
{
    let (minus, t) = read_sign(s);
    proof {
        lemma_pow2_values();
        lemma_infinity_pos(Format::Double);
    }
    match read_magnitude(Format::Double, t) {
        Some(b) => Some(
            Double {
                bits: if minus {
                    b + 0x8000_0000_0000_0000
                } else {
                    b
                },
            },
        ),
        None => None,
    }
}

} // verus!
