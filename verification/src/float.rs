//! Binary floating-point numbers held as their bit patterns, with exact
//! statements of what reading, rounding and printing give.
//!
//! A magnitude is the bit pattern of a non-negative number: read as an integer
//! it grows with the number it stands for. The largest magnitude is infinity;
//! the patterns above it are not numbers.

use crate::fmt::{cat2, cat3, cat4, dec, decimal};
use crate::natural::Natural;
use crate::text::Order;
use vstd::arithmetic::power2::{
    lemma2_to64, lemma2_to64_rest, lemma_pow2_adds, lemma_pow2_pos, lemma_pow2_strictly_increases,
    pow2,
};
use vstd::prelude::*;

verus! {

/// A number in single precision, by its bits.
#[derive(Clone, Copy, PartialEq, Eq, Debug, Structural)]
pub struct Single {
    pub bits: u32,
}

/// A number in double precision, by its bits.
#[derive(Clone, Copy, PartialEq, Eq, Debug, Structural)]
pub struct Double {
    pub bits: u64,
}

/// The two precisions.
#[derive(Clone, Copy, PartialEq, Eq, Structural)]
pub enum Format {
    Single,
    Double,
}

impl Format {
    /// The number of bits of the fraction.
    pub open spec fn fraction(self) -> nat {
        match self {
            Format::Single => 23,
            Format::Double => 52,
        }
    }

    /// The exponent field of infinity.
    pub open spec fn top(self) -> nat {
        match self {
            Format::Single => 255,
            Format::Double => 2047,
        }
    }

    /// The smallest positive number is two to the power of minus this.
    pub open spec fn unit(self) -> nat {
        match self {
            Format::Single => 149,
            Format::Double => 1074,
        }
    }

    /// The magnitude of infinity.
    pub open spec fn infinity(self) -> nat {
        self.top() * pow2(self.fraction())
    }

    /// The significand of a magnitude, as an integer.
    pub open spec fn significand(self, b: nat) -> nat {
        let r = b % pow2(self.fraction());
        if b / pow2(self.fraction()) == 0 {
            r
        } else {
            pow2(self.fraction()) + r
        }
    }

    /// The power of two that the significand is multiplied by.
    pub open spec fn exponent(self, b: nat) -> nat {
        let e = b / pow2(self.fraction());
        if e == 0 {
            0
        } else {
            (e - 1) as nat
        }
    }

    /// The number a magnitude stands for, in units of the smallest positive
    /// number. For infinity this is the next power of two.
    pub open spec fn scaled(self, b: nat) -> nat {
        self.significand(b) * pow2(self.exponent(b))
    }

    /// Whether `n / d` rounds to more than the magnitude `b`: it lies above the
    /// middle between `b` and its successor, or on it where the successor is the
    /// even one.
    pub open spec fn rounds_past(self, b: nat, n: nat, d: nat) -> bool {
        let twice = 2 * n * pow2(self.unit());
        let middle = (self.scaled(b) + self.scaled(b + 1)) * d;
        twice > middle || (twice == middle && b % 2 == 1)
    }

    /// Whether `b` is the magnitude nearest to `n / d`, ties to even.
    pub open spec fn is_nearest(self, b: nat, n: nat, d: nat) -> bool {
        &&& b <= self.infinity()
        &&& b > 0 ==> self.rounds_past((b - 1) as nat, n, d)
        &&& b < self.infinity() ==> !self.rounds_past(b, n, d)
    }

    /// The magnitude nearest to `n / d`.
    pub open spec fn nearest(self, n: nat, d: nat) -> nat {
        choose|b: nat| self.is_nearest(b, n, d)
    }
}

// ---------------------------------------------------------------- lemmas ----

pub proof fn lemma_pow2_values()
    ensures
        pow2(0) == 1,
        pow2(1) == 2,
        pow2(22) == 0x40_0000,
        pow2(23) == 0x80_0000,
        pow2(51) == 0x8_0000_0000_0000,
        pow2(52) == 0x10_0000_0000_0000,
        pow2(31) == 0x8000_0000,
        pow2(63) == 0x8000_0000_0000_0000,
{
    lemma2_to64();
    lemma2_to64_rest();
}

/// The successor of a magnitude is one unit in the last place further.
proof fn lemma_step(f: Format, b: nat)
    ensures
        f.scaled(b + 1) == f.scaled(b) + pow2(f.exponent(b)),
{
    lemma_pow2_values();
    let p = pow2(f.fraction());
    let e = b / p;
    let r = b % p;
    assert(b == e * p + r) by (nonlinear_arith)
        requires
            e == b / p,
            r == b % p,
            p > 0,
    ;
    if r + 1 < p {
        vstd::arithmetic::div_mod::lemma_fundamental_div_mod_converse(
            (b + 1) as int,
            p as int,
            e as int,
            (r + 1) as int,
        );
        let s = f.significand(b);
        let w = pow2(f.exponent(b));
        assert((s + 1) * w == s * w + w) by (nonlinear_arith);
    } else {
        assert((e + 1) * p == e * p + p) by (nonlinear_arith);
        vstd::arithmetic::div_mod::lemma_fundamental_div_mod_converse(
            (b + 1) as int,
            p as int,
            (e + 1) as int,
            0,
        );
        assert(f.significand(b + 1) == p);
        assert(f.exponent(b + 1) == e);
        if e == 0 {
            assert(p * 1 == p) by (nonlinear_arith);
            assert((p - 1) * 1 == p - 1) by (nonlinear_arith);
        } else {
            lemma_pow2_adds((e - 1) as nat, 1);
            let w = pow2((e - 1) as nat);
            assert(p * (w * 2) == (p + (p - 1)) * w + w) by (nonlinear_arith);
        }
    }
}

/// Magnitudes grow with the numbers they stand for.
pub proof fn lemma_scaled_grows(f: Format, a: nat, b: nat)
    requires
        a < b,
    ensures
        f.scaled(a) < f.scaled(b),
    decreases b - a,
{
    lemma_step(f, (b - 1) as nat);
    lemma_pow2_pos(f.exponent((b - 1) as nat));
    if a < b - 1 {
        lemma_scaled_grows(f, a, (b - 1) as nat);
    }
}

/// What rounds past a magnitude rounds past the smaller ones.
proof fn lemma_rounds_past_down(f: Format, a: nat, b: nat, n: nat, d: nat)
    requires
        a <= b,
        d > 0,
        f.rounds_past(b, n, d),
    ensures
        f.rounds_past(a, n, d),
{
    if a < b {
        lemma_scaled_grows(f, a, b);
        lemma_scaled_grows(f, a + 1, b + 1);
        let x = f.scaled(a) + f.scaled(a + 1);
        let y = f.scaled(b) + f.scaled(b + 1);
        assert(x * d < y * d) by (nonlinear_arith)
            requires
                x < y,
                d > 0,
        ;
    }
}

/// Only one magnitude is nearest.
pub proof fn lemma_nearest_unique(f: Format, b: nat, n: nat, d: nat)
    requires
        d > 0,
        f.is_nearest(b, n, d),
    ensures
        f.nearest(n, d) == b,
{
    let c = f.nearest(n, d);
    assert(f.is_nearest(c, n, d));
    if b < c {
        lemma_rounds_past_down(f, b, (c - 1) as nat, n, d);
    } else if c < b {
        lemma_rounds_past_down(f, c, (b - 1) as nat, n, d);
    }
}

// ------------------------------------------------------------ arithmetic ----

impl Format {
    fn fraction_weight(self) -> (p: u64)
        ensures
            p == pow2(self.fraction()),
            p > 0,
    {
        proof {
            lemma_pow2_values();
        }
        match self {
            Format::Single => 0x80_0000,
            Format::Double => 0x10_0000_0000_0000,
        }
    }

    pub fn infinite(self) -> (b: u64)
        ensures
            b == self.infinity(),
            b < 0x7fff_ffff_ffff_ffff,
    {
        proof {
            lemma_pow2_values();
        }
        match self {
            Format::Single => 0x7f80_0000,
            Format::Double => 0x7ff0_0000_0000_0000,
        }
    }

    fn unit_power(self) -> (u: u64)
        ensures
            u == self.unit(),
    {
        match self {
            Format::Single => 149,
            Format::Double => 1074,
        }
    }

    /// The significand and the exponent of a magnitude.
    fn parts(self, b: u64) -> (r: (u64, u64))
        requires
            b <= self.infinity(),
        ensures
            r.0 == self.significand(b as nat),
            r.1 == self.exponent(b as nat),
            r.0 < 0x20_0000_0000_0000,
            r.1 < 2047,
    {
        let p = self.fraction_weight();
        let e = b / p;
        let m = b % p;
        proof {
            lemma_pow2_values();
            assert(e <= self.top()) by (nonlinear_arith)
                requires
                    b <= self.top() * p,
                    e == b / p,
                    p > 0,
            ;
        }
        if e == 0 {
            (m, 0)
        } else {
            (p + m, e - 1)
        }
    }

    /// The number a magnitude stands for, in units of the smallest one.
    pub fn units(self, b: u64) -> (r: Natural)
        requires
            b <= self.infinity(),
        ensures
            r@ == self.scaled(b as nat),
    {
        let (s, e) = self.parts(b);
        Natural::from_u64(s).shl(e)
    }

    /// Whether `n / d` rounds to more than `b`.
    fn is_past(self, b: u64, n: &Natural, d: &Natural) -> (yes: bool)
        requires
            b < self.infinity(),
        ensures
            yes == self.rounds_past(b as nat, n@, d@),
    {
        let (s, e) = self.parts(b);
        let u = self.unit_power();
        proof {
            lemma_step(self, b as nat);
            let w = pow2(e as nat);
            assert((s * w + (s * w + w)) * d@ == d@ * (2 * s + 1) * w) by (nonlinear_arith);
        }
        let right = d.mul_add(2 * s + 1, 0);
        let order = if e <= u + 1 {
            let left = n.shl(u + 1 - e);
            proof {
                let w = pow2(e as nat);
                let v = pow2((u + 1 - e) as nat);
                lemma_pow2_adds((u + 1 - e) as nat, e as nat);
                lemma_pow2_adds(u as nat, 1);
                lemma_pow2_values();
                lemma_pow2_pos(e as nat);
                assert(2 * n@ * pow2(u as nat) == (n@ * v) * w) by (nonlinear_arith)
                    requires
                        v * w == pow2(u as nat) * 2,
                ;
                lemma_order_scale(left@, right@, w);
            }
            left.order(&right)
        } else {
            let more = right.shl(e - u - 1);
            proof {
                let w = pow2((e - u - 1) as nat);
                let v = pow2((u + 1) as nat);
                lemma_pow2_adds((u + 1) as nat, (e - u - 1) as nat);
                lemma_pow2_adds(u as nat, 1);
                lemma_pow2_values();
                lemma_pow2_pos((u + 1) as nat);
                assert(2 * n@ * pow2(u as nat) == n@ * v) by (nonlinear_arith)
                    requires
                        v == pow2(u as nat) * 2,
                ;
                assert(right@ * (v * w) == (right@ * w) * v) by (nonlinear_arith);
                lemma_order_scale(n@, more@, v);
            }
            n.order(&more)
        };
        match order {
            Order::Greater => true,
            Order::Less => false,
            Order::Equal => b % 2 == 1,
        }
    }

    /// Rounds `n / d` to the nearest magnitude.
    pub fn round(self, n: &Natural, d: &Natural) -> (b: u64)
        requires
            d@ > 0,
        ensures
            b == self.nearest(n@, d@),
            b <= self.infinity(),
            self.is_nearest(b as nat, n@, d@),
    {
        let mut lo: u64 = 0;
        let mut hi: u64 = self.infinite();
        while lo < hi
            invariant
                lo <= hi <= self.infinity(),
                self.infinity() < 0x7fff_ffff_ffff_ffff,
                lo > 0 ==> self.rounds_past((lo - 1) as nat, n@, d@),
                hi < self.infinity() ==> !self.rounds_past(hi as nat, n@, d@),
            decreases hi - lo,
        {
            let mid = lo + (hi - lo) / 2;
            if self.is_past(mid, n, d) {
                lo = mid + 1;
            } else {
                hi = mid;
            }
        }
        proof {
            lemma_nearest_unique(self, lo as nat, n@, d@);
        }
        lo
    }
}

/// Multiplying both sides by a positive number keeps their order.
proof fn lemma_order_scale(a: nat, b: nat, w: nat)
    requires
        w > 0,
    ensures
        a * w > b * w <==> a > b,
        a * w == b * w <==> a == b,
{
    assert(a > b ==> a * w > b * w) by (nonlinear_arith)
        requires
            w > 0,
    ;
    assert(a < b ==> a * w < b * w) by (nonlinear_arith)
        requires
            w > 0,
    ;
}

// -------------------------------------------------------------- printing ----

/// `a / b` rounded to the nearest integer, ties to even.
pub open spec fn round_even(a: nat, b: nat) -> nat {
    let q = a / b;
    let r = a % b;
    if 2 * r > b || (2 * r == b && q % 2 == 1) {
        q + 1
    } else {
        q
    }
}

/// A number of hundredths, tenths or units with `places` decimals.
pub open spec fn fixed_point(t: nat, places: nat) -> Seq<char> {
    if places == 0 {
        dec(t)
    } else if places == 1 {
        dec(t / 10) + "."@ + dec(t % 10)
    } else {
        dec(t / 100) + "."@ + dec(t % 100 / 10) + dec(t % 10)
    }
}

/// Ten to the power of a number of decimals.
pub open spec fn ten_to(places: nat) -> nat {
    if places == 0 {
        1
    } else if places == 1 {
        10
    } else {
        100
    }
}

impl Format {
    /// A magnitude printed with `places` decimals.
    pub open spec fn printed(self, b: nat, places: nat) -> Seq<char> {
        if b > self.infinity() {
            "NaN"@
        } else if b == self.infinity() {
            "inf"@
        } else {
            fixed_point(round_even(self.scaled(b) * ten_to(places), pow2(self.unit())), places)
        }
    }

    pub fn print(self, b: u64, places: u64) -> (r: String)
        requires
            places <= 2,
        ensures
            r@ == self.printed(b as nat, places as nat),
    {
        let inf = self.infinite();
        if b > inf {
            return "NaN".to_owned();
        }
        if b == inf {
            return "inf".to_owned();
        }
        let u = self.unit_power();
        let tens: u64 = if places == 0 {
            1
        } else if places == 1 {
            10
        } else {
            100
        };
        let a = self.units(b).mul_add(tens, 0);
        let t = round_shift(&a, u);
        if places == 0 {
            t.decimal()
        } else if places == 1 {
            let (q, r) = t.div_rem(10);
            let q = q.decimal();
            let r = decimal(r);
            cat3(q.as_str(), ".", r.as_str())
        } else {
            let (q, r) = t.div_rem(100);
            let q = q.decimal();
            let r1 = decimal(r / 10);
            let r0 = decimal(r % 10);
            assert(t@ % 100 % 10 == t@ % 10);
            cat4(q.as_str(), ".", r1.as_str(), r0.as_str())
        }
    }
}

/// `a / 2^u` rounded to the nearest integer, ties to even.
pub fn round_shift(a: &Natural, u: u64) -> (r: Natural)
    ensures
        r@ == round_even(a@, pow2(u as nat)),
{
    let q = a.shr(u);
    let twice = a.mul_add(2, 0);
    let middle = q.mul_add(2, 1).shl(u);
    let (_, low) = q.div_rem(2);
    let order = twice.order(&middle);
    proof {
        let b = pow2(u as nat);
        lemma_pow2_pos(u as nat);
        let r = a@ % b;
        assert(a@ == q@ * b + r) by (nonlinear_arith)
            requires
                q@ == a@ / b,
                r == a@ % b,
                b > 0,
        ;
        assert((q@ * 2 + 1) * b == 2 * (q@ * b) + b) by (nonlinear_arith);
    }
    match order {
        Order::Greater => q.mul_add(1, 1),
        Order::Less => q,
        Order::Equal => if low == 1 {
            q.mul_add(1, 1)
        } else {
            q
        },
    }
}

// ------------------------------------------------------ single precision ----

impl Single {
    pub open spec fn negative(self) -> bool {
        self.bits >= 0x8000_0000
    }

    pub open spec fn magnitude(self) -> nat {
        if self.negative() {
            (self.bits - 0x8000_0000) as nat
        } else {
            self.bits as nat
        }
    }

    pub open spec fn is_nan(self) -> bool {
        self.magnitude() > Format::Single.infinity()
    }

    /// Whether the number is at least the integer `n`.
    pub open spec fn at_least(self, n: nat) -> bool {
        &&& !self.is_nan()
        &&& self.negative() ==> self.magnitude() == 0
        &&& Format::Single.scaled(self.magnitude()) >= n * pow2(149)
    }

    /// The number without decimals.
    pub open spec fn shown(self) -> Seq<char> {
        if self.negative() && !self.is_nan() {
            "-"@ + Format::Single.printed(self.magnitude(), 0)
        } else {
            Format::Single.printed(self.magnitude(), 0)
        }
    }

    /// The place of the number in the total order of all bit patterns.
    pub open spec fn rank(self) -> int {
        if self.negative() {
            -1 - self.magnitude()
        } else {
            self.magnitude() as int
        }
    }

    pub fn split(self) -> (r: (bool, u64))
        ensures
            r.0 == self.negative(),
            r.1 == self.magnitude(),
            r.1 < 0x8000_0000,
    {
        if self.bits >= 0x8000_0000 {
            (true, (self.bits - 0x8000_0000) as u64)
        } else {
            (false, self.bits as u64)
        }
    }

    pub fn reaches(self, n: u64) -> (yes: bool)
        ensures
            yes == self.at_least(n as nat),
    {
        let (neg, b) = self.split();
        if (neg && b > 0) || b > Format::Single.infinite() {
            return false;
        }
        let x = Format::Single.units(b);
        let y = Natural::from_u64(n).shl(149);
        match x.order(&y) {
            Order::Less => false,
            _ => true,
        }
    }

    pub fn show(self) -> (r: String)
        ensures
            r@ == self.shown(),
    {
        let (neg, b) = self.split();
        let s = Format::Single.print(b, 0);
        if neg && b <= Format::Single.infinite() {
            cat2("-", s.as_str())
        } else {
            s
        }
    }

    /// The single-precision number nearest to an integer.
    pub fn from_u64(n: u64) -> (r: Single)
        ensures
            r.bits == Format::Single.nearest(n as nat, 1),
            r.bits <= Format::Single.infinity(),
    {
        let b = Format::Single.round(&Natural::from_u64(n), &Natural::from_u64(1));
        let top = Format::Single.infinite();
        assert(top == 0x7f80_0000) by {
            lemma_pow2_values();
        }
        Single { bits: b as u32 }
    }

    /// The place in the total order, as an integer.
    pub fn position(self) -> (r: i64)
        ensures
            r == self.rank(),
    {
        let (neg, b) = self.split();
        if neg {
            -1 - (b as i64)
        } else {
            b as i64
        }
    }
}

// ------------------------------------------------------ double precision ----

impl Double {
    pub open spec fn negative(self) -> bool {
        self.bits >= 0x8000_0000_0000_0000
    }

    pub open spec fn magnitude(self) -> nat {
        if self.negative() {
            (self.bits - 0x8000_0000_0000_0000) as nat
        } else {
            self.bits as nat
        }
    }

    pub open spec fn is_nan(self) -> bool {
        self.magnitude() > Format::Double.infinity()
    }

    /// The number with `places` decimals.
    pub open spec fn shown(self, places: nat) -> Seq<char> {
        if self.negative() && !self.is_nan() {
            "-"@ + Format::Double.printed(self.magnitude(), places)
        } else {
            Format::Double.printed(self.magnitude(), places)
        }
    }

    pub fn split(self) -> (r: (bool, u64))
        ensures
            r.0 == self.negative(),
            r.1 == self.magnitude(),
            r.1 < 0x8000_0000_0000_0000,
    {
        if self.bits >= 0x8000_0000_0000_0000 {
            (true, self.bits - 0x8000_0000_0000_0000)
        } else {
            (false, self.bits)
        }
    }

    pub fn show(self, places: u64) -> (r: String)
        requires
            places <= 2,
        ensures
            r@ == self.shown(places as nat),
    {
        let (neg, b) = self.split();
        let s = Format::Double.print(b, places);
        if neg && b <= Format::Double.infinite() {
            cat2("-", s.as_str())
        } else {
            s
        }
    }
}

// ------------------------------------------------------------ arithmetic ----

impl Format {
    /// The quotient of two finite magnitudes, the second not zero.
    pub open spec fn quotient(self, a: nat, b: nat) -> nat {
        self.nearest(self.scaled(a), self.scaled(b))
    }

    /// A finite magnitude times an integer.
    pub open spec fn product(self, a: nat, k: nat) -> nat {
        self.nearest(self.scaled(a) * k, pow2(self.unit()))
    }

    /// Whether a magnitude is at least the integer `n`.
    pub open spec fn reaches(self, b: nat, n: nat) -> bool {
        self.scaled(b) >= n * pow2(self.unit())
    }

    /// The integral part of a magnitude.
    pub open spec fn truncated(self, b: nat) -> nat {
        self.scaled(b) / pow2(self.unit())
    }

    pub fn from_integer(self, n: u64) -> (b: u64)
        ensures
            b == self.nearest(n as nat, 1),
            b <= self.infinity(),
            n > 0 ==> self.scaled(b as nat) > 0,
    {
        let b = self.round(&Natural::from_u64(n), &Natural::from_u64(1));
        proof {
            if n > 0 {
                lemma_integer_positive(self, n as nat);
            }
        }
        b
    }

    pub fn divide(self, a: u64, b: u64) -> (r: u64)
        requires
            a <= self.infinity(),
            b <= self.infinity(),
            self.scaled(b as nat) > 0,
        ensures
            r == self.quotient(a as nat, b as nat),
            r <= self.infinity(),
    {
        self.round(&self.units(a), &self.units(b))
    }

    pub fn multiply(self, a: u64, k: u64) -> (r: u64)
        requires
            a <= self.infinity(),
        ensures
            r == self.product(a as nat, k as nat),
            r <= self.infinity(),
    {
        let u = self.unit_power();
        let one = Natural::from_u64(1).shl(u);
        proof {
            lemma_pow2_pos(u as nat);
            assert(one@ == pow2(u as nat));
        }
        self.round(&self.units(a).mul_add(k, 0), &one)
    }

    pub fn is_at_least(self, b: u64, n: u64) -> (yes: bool)
        requires
            b <= self.infinity(),
        ensures
            yes == self.reaches(b as nat, n as nat),
    {
        let x = self.units(b);
        let y = Natural::from_u64(n).shl(self.unit_power());
        match x.order(&y) {
            Order::Less => false,
            _ => true,
        }
    }

    /// The integral part, or the largest `u64` where it is more.
    pub fn truncate(self, b: u64) -> (r: u64)
        requires
            b <= self.infinity(),
        ensures
            r == (if self.truncated(b as nat) <= u64::MAX {
                self.truncated(b as nat)
            } else {
                u64::MAX as nat
            }),
    {
        self.units(b).shr(self.unit_power()).saturate()
    }
}

/// The number nearest to a positive integer is positive.
proof fn lemma_integer_positive(f: Format, n: nat)
    requires
        n > 0,
        f.is_nearest(f.nearest(n, 1), n, 1),
    ensures
        f.scaled(f.nearest(n, 1)) > 0,
{
    let b = f.nearest(n, 1);
    lemma_pow2_values();
    lemma_pow2_pos(f.unit());
    if b == 0 {
        assert(f.scaled(0) == 0) by (nonlinear_arith)
            requires
                f.scaled(0) == 0 * pow2(f.exponent(0)),
        ;
        assert(f.scaled(1) == 1) by {
            match f {
                Format::Single => {
                    assert(1nat / pow2(23) == 0);
                    assert(1nat % pow2(23) == 1);
                },
                Format::Double => {
                    assert(1nat / pow2(52) == 0);
                    assert(1nat % pow2(52) == 1);
                },
            }
            assert(f.significand(1) == 1);
            assert(f.exponent(1) == 0);
            assert(f.significand(1) * pow2(f.exponent(1)) == 1) by (nonlinear_arith)
                requires
                    f.significand(1) == 1,
                    pow2(f.exponent(1)) == 1,
            ;
        }
        assert(2 * n * pow2(f.unit()) >= 2) by (nonlinear_arith)
            requires
                n >= 1,
                pow2(f.unit()) >= 1,
        ;
        assert(f.rounds_past(0, n, 1));
    } else {
        lemma_scaled_grows(f, 0, b);
    }
}

impl Format {
    /// The product of two finite magnitudes.
    pub open spec fn multiplied(self, a: nat, b: nat) -> nat {
        self.nearest(self.scaled(a) * self.scaled(b), pow2(self.unit()) * pow2(self.unit()))
    }

    /// A magnitude rounded to the nearest integer, halves up.
    pub open spec fn rounded(self, b: nat) -> nat {
        (2 * self.scaled(b) + pow2(self.unit())) / (2 * pow2(self.unit()))
    }

    pub fn times(self, a: u64, b: u64) -> (r: u64)
        requires
            a <= self.infinity(),
            b <= self.infinity(),
        ensures
            r == self.multiplied(a as nat, b as nat),
            r <= self.infinity(),
    {
        let (s, e) = self.parts(b);
        let u = self.unit_power();
        let n = self.units(a).mul_add(s, 0).shl(e);
        let one = Natural::from_u64(1).shl(u).shl(u);
        proof {
            let x = self.scaled(a as nat);
            lemma_pow2_pos(u as nat);
            assert(n@ == x * s * pow2(e as nat));
            assert(x * s * pow2(e as nat) == x * (s * pow2(e as nat))) by (nonlinear_arith);
            assert(one@ == pow2(u as nat) * pow2(u as nat));
            assert(one@ > 0) by (nonlinear_arith)
                requires
                    one@ == pow2(u as nat) * pow2(u as nat),
                    pow2(u as nat) > 0,
            ;
        }
        self.round(&n, &one)
    }

    /// The nearest integer, or the largest `u64` where it is more.
    pub fn round_off(self, b: u64) -> (r: u64)
        requires
            b <= self.infinity(),
        ensures
            r == (if self.rounded(b as nat) <= u64::MAX {
                self.rounded(b as nat)
            } else {
                u64::MAX as nat
            }),
    {
        let u = self.unit_power();
        let x = self.units(b);
        let q = x.shr(u);
        let half = q.mul_add(2, 1).shl(u);
        let twice = x.mul_add(2, 0);
        let r = match twice.order(&half) {
            Order::Less => q,
            _ => q.mul_add(1, 1),
        };
        proof {
            let p = pow2(u as nat);
            lemma_pow2_pos(u as nat);
            let n = x@;
            assert(half@ == (q@ * 2 + 1) * p);
            assert(r@ == (2 * n + p) / (2 * p)) by (nonlinear_arith)
                requires
                    p > 0,
                    q@ == n / p,
                    r@ == (if 2 * n < (q@ * 2 + 1) * p {
                        q@
                    } else {
                        q@ + 1
                    }),
            ;
        }
        r.saturate()
    }
}

impl Single {
    /// The number divided by a positive integer.
    pub open spec fn over(self, k: nat) -> Single {
        if self.magnitude() >= Format::Single.infinity() {
            self
        } else {
            let q = Format::Single.quotient(self.magnitude(), Format::Single.nearest(k, 1));
            Single {
                bits: if self.negative() {
                    (0x8000_0000 + q) as u32
                } else {
                    q as u32
                },
            }
        }
    }

    pub fn divided_by(self, k: u64) -> (r: Single)
        requires
            k > 0,
        ensures
            r == self.over(k as nat),
    {
        let f = Format::Single;
        let (neg, b) = self.split();
        let top = f.infinite();
        if b >= top {
            return self;
        }
        assert(top == 0x7f80_0000) by {
            lemma_pow2_values();
        }
        let d = f.from_integer(k);
        let q = f.divide(b, d);
        if neg {
            Single { bits: (0x8000_0000 + q) as u32 }
        } else {
            Single { bits: q as u32 }
        }
    }
}

// ------------------------------------------------------- exact numbers ----

/// A quotient that is a number of the format is rounded to itself.
pub proof fn lemma_exact(f: Format, b: nat, n: nat, d: nat)
    requires
        d > 0,
        b < f.infinity(),
        f.scaled(b) * d == n * pow2(f.unit()),
    ensures
        f.nearest(n, d) == b,
{
    let x = f.scaled(b);
    let u = pow2(f.unit());
    assert(2 * n * u == 2 * (x * d)) by (nonlinear_arith)
        requires
            x * d == n * u,
    ;
    assert(2 * (x * d) == (x + x) * d) by (nonlinear_arith);
    let y = f.scaled(b + 1);
    lemma_scaled_grows(f, b, b + 1);
    assert((x + y) * d > (x + x) * d) by (nonlinear_arith)
        requires
            y > x,
            d > 0,
    ;
    if b > 0 {
        let w = f.scaled((b - 1) as nat);
        lemma_scaled_grows(f, (b - 1) as nat, b);
        assert((w + x) * d < (x + x) * d) by (nonlinear_arith)
            requires
                w < x,
                d > 0,
        ;
    }
    lemma_nearest_unique(f, b, n, d);
}

/// The position of the leading bit of a number.
pub proof fn lemma_leading_bit(n: nat) -> (t: nat)
    requires
        n > 0,
    ensures
        pow2(t) <= n < pow2(t + 1),
    decreases n,
{
    lemma_pow2_values();
    if n == 1 {
        0
    } else {
        let t = lemma_leading_bit(n / 2);
        lemma_pow2_adds(t, 1);
        lemma_pow2_adds(t + 1, 1);
        t + 1
    }
}

/// Integers below two to the power of 53 are numbers in double precision, and so is
/// such an integer times a power of two.
pub proof fn lemma_whole_numbers(n: nat, e: nat) -> (b: nat)
    requires
        n < pow2(53),
        e <= 900,
    ensures
        b < Format::Double.infinity(),
        Format::Double.scaled(b) == n * pow2(e) * pow2(1074),
{
    let f = Format::Double;
    let p = pow2(52);
    lemma_pow2_values();
    if n == 0 {
        assert(f.scaled(0) == 0) by (nonlinear_arith)
            requires
                f.scaled(0) == 0 * pow2(f.exponent(0)),
        ;
        assert(n * pow2(e) * pow2(1074) == 0) by (nonlinear_arith)
            requires
                n == 0,
        ;
        0
    } else {
        let t = lemma_leading_bit(n);
        if t > 53 {
            lemma_pow2_strictly_increases(53, t);
        }
        assert(t <= 52);
        let m = pow2((52 - t) as nat);
        lemma_pow2_pos((52 - t) as nat);
        lemma_pow2_adds(t, (52 - t) as nat);
        lemma_pow2_adds(t + 1, (52 - t) as nat);
        lemma_pow2_adds(52, 1);
        let sig = n * m;
        assert(p <= sig < 2 * p) by (nonlinear_arith)
            requires
                pow2(t) <= n < pow2(t + 1),
                m > 0,
                pow2(t) * m == p,
                pow2(t + 1) * m == 2 * p,
                sig == n * m,
        ;
        let x = (1022 + e + t) as nat;
        let r = (sig - p) as nat;
        let b = (x + 1) * p + r;
        vstd::arithmetic::div_mod::lemma_fundamental_div_mod_converse(
            b as int,
            p as int,
            (x + 1) as int,
            r as int,
        );
        assert(f.significand(b) == sig);
        assert(f.exponent(b) == x);
        lemma_pow2_adds((52 - t) as nat, x);
        lemma_pow2_adds(e, 1074);
        assert(sig * pow2(x) == n * (m * pow2(x))) by (nonlinear_arith)
            requires
                sig == n * m,
        ;
        assert(n * (pow2(e) * pow2(1074)) == n * pow2(e) * pow2(1074)) by (nonlinear_arith);
        assert(b < 2047 * p) by (nonlinear_arith)
            requires
                b == (x + 1) * p + r,
                r < p,
                x + 2 <= 2047,
        ;
        b
    }
}

// ------------------------------------------------------------- rounding ----

proof fn lemma_search(f: Format, b: nat, n: nat, d: nat)
    requires
        b <= f.infinity(),
        b > 0 ==> f.rounds_past((b - 1) as nat, n, d),
    ensures
        exists|c: nat| f.is_nearest(c, n, d),
    decreases f.infinity() - b,
{
    if b == f.infinity() || !f.rounds_past(b, n, d) {
        assert(f.is_nearest(b, n, d));
    } else {
        lemma_search(f, b + 1, n, d);
    }
}

/// There is a nearest magnitude.
pub proof fn lemma_nearest_is(f: Format, n: nat, d: nat)
    ensures
        f.is_nearest(f.nearest(n, d), n, d),
{
    lemma_search(f, 0, n, d);
}

/// What lies above a bound still does when it grows, by cross multiplication.
proof fn lemma_cross(n: int, d: int, m: int, e: int, s: int, u: int)
    requires
        n >= 0 && m >= 0 && s >= 0 && u >= 0,
        d > 0,
        e > 0,
        n * e <= m * d,
        2 * n * u >= s * d,
    ensures
        2 * m * u >= s * e,
        2 * n * u > s * d ==> 2 * m * u > s * e,
{
    let x = 2 * n * u;
    let y = 2 * m * u;
    let v = 2 * u;
    assert(x * e == v * (n * e)) by (nonlinear_arith)
        requires
            x == 2 * n * u,
            v == 2 * u,
    ;
    assert(y * d == v * (m * d)) by (nonlinear_arith)
        requires
            y == 2 * m * u,
            v == 2 * u,
    ;
    vstd::arithmetic::mul::lemma_mul_inequality(n * e, m * d, v);
    assert(v * (n * e) == (n * e) * v) by (nonlinear_arith);
    assert(v * (m * d) == (m * d) * v) by (nonlinear_arith);
    assert(x * e <= y * d);
    vstd::arithmetic::mul::lemma_mul_inequality(s * d, x, e);
    assert((s * d) * e == (s * e) * d) by (nonlinear_arith);
    assert((s * e) * d <= y * d);
    if y < s * e {
        vstd::arithmetic::mul::lemma_mul_strict_inequality(y, s * e, d);
    }
    if x > s * d && y <= s * e {
        vstd::arithmetic::mul::lemma_mul_strict_inequality(s * d, x, e);
        vstd::arithmetic::mul::lemma_mul_inequality(y, s * e, d);
    }
}

/// Rounding keeps the order of quotients.
pub proof fn lemma_nearest_grows(f: Format, n: nat, d: nat, m: nat, e: nat)
    requires
        d > 0,
        e > 0,
        n * e <= m * d,
    ensures
        f.nearest(n, d) <= f.nearest(m, e),
{
    let b = f.nearest(n, d);
    let c = f.nearest(m, e);
    lemma_nearest_is(f, n, d);
    lemma_nearest_is(f, m, e);
    if c < b {
        lemma_rounds_past_down(f, c, (b - 1) as nat, n, d);
        let u = pow2(f.unit());
        let s = f.scaled(c) + f.scaled(c + 1);
        lemma_cross(n as int, d as int, m as int, e as int, s as int, u as int);
        assert(f.rounds_past(c, m, e));
    }
}

/// A multiple of a power of two that is not too small is a number in double precision.
pub proof fn lemma_dyadic(n: nat, j: nat) -> (b: nat)
    requires
        n < pow2(53),
        j <= 1000,
    ensures
        b < Format::Double.infinity(),
        Format::Double.scaled(b) == n * pow2((1074 - j) as nat),
        Format::Double.nearest(n, pow2(j)) == b,
{
    let f = Format::Double;
    let p = pow2(52);
    lemma_pow2_values();
    let w = pow2((1074 - j) as nat);
    let b = if n == 0 {
        assert(f.scaled(0) == 0) by (nonlinear_arith)
            requires
                f.scaled(0) == 0 * pow2(f.exponent(0)),
        ;
        assert(n * w == 0) by (nonlinear_arith)
            requires
                n == 0,
        ;
        0nat
    } else {
        let t = lemma_leading_bit(n);
        if t > 53 {
            lemma_pow2_strictly_increases(53, t);
        }
        assert(t <= 52);
        let m = pow2((52 - t) as nat);
        lemma_pow2_pos((52 - t) as nat);
        lemma_pow2_adds(t, (52 - t) as nat);
        lemma_pow2_adds(t + 1, (52 - t) as nat);
        lemma_pow2_adds(52, 1);
        let sig = n * m;
        assert(p <= sig < 2 * p) by (nonlinear_arith)
            requires
                pow2(t) <= n < pow2(t + 1),
                m > 0,
                pow2(t) * m == p,
                pow2(t + 1) * m == 2 * p,
                sig == n * m,
        ;
        let x = (1022 - j + t) as nat;
        let r = (sig - p) as nat;
        let b = (x + 1) * p + r;
        vstd::arithmetic::div_mod::lemma_fundamental_div_mod_converse(
            b as int,
            p as int,
            (x + 1) as int,
            r as int,
        );
        assert(f.significand(b) == sig);
        assert(f.exponent(b) == x);
        lemma_pow2_adds((52 - t) as nat, x);
        assert(sig * pow2(x) == n * (m * pow2(x))) by (nonlinear_arith)
            requires
                sig == n * m,
        ;
        assert(b < 2047 * p) by (nonlinear_arith)
            requires
                b == (x + 1) * p + r,
                r < p,
                x + 2 <= 2047,
        ;
        b
    };
    let q = pow2(j);
    lemma_pow2_pos(j);
    lemma_pow2_adds((1074 - j) as nat, j);
    assert(f.scaled(b) * q == n * (w * q)) by (nonlinear_arith)
        requires
            f.scaled(b) == n * w,
    ;
    lemma_exact(f, b, n, q);
    b
}

} // verus!
