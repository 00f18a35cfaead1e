//! Natural numbers of any size, for exact decimal and binary conversions.

use crate::fmt::{dec, digit, reversed};
use crate::text::{string_of, Order};
use vstd::arithmetic::div_mod::{lemma_div_denominator, lemma_fundamental_div_mod_converse};
use vstd::arithmetic::power2::{lemma_pow2_adds, lemma_pow2_pos, pow2};
use vstd::prelude::*;

verus! {

/// One more than the largest limb.
pub const BASE: u64 = 0x1_0000_0000;

/// The weight of the limb at a position.
pub open spec fn weight(i: nat) -> nat
    decreases i,
{
    if i == 0 {
        1
    } else {
        BASE as nat * weight((i - 1) as nat)
    }
}

/// The limb at a position, zero beyond the last.
pub open spec fn limb(s: Seq<u32>, i: int) -> nat {
    if 0 <= i < s.len() {
        s[i] as nat
    } else {
        0
    }
}

/// The number that the lowest `n` limbs stand for.
pub open spec fn low(s: Seq<u32>, n: nat) -> nat
    decreases n,
{
    if n == 0 {
        0
    } else {
        low(s, (n - 1) as nat) + limb(s, n - 1) * weight((n - 1) as nat)
    }
}

/// A natural number, least significant limb first.
pub struct Natural {
    limbs: Vec<u32>,
}

impl View for Natural {
    type V = nat;

    closed spec fn view(&self) -> nat {
        low(self.limbs@, self.limbs@.len())
    }
}

proof fn lemma_weight_pos(i: nat)
    ensures
        weight(i) > 0,
    decreases i,
{
    if i > 0 {
        lemma_weight_pos((i - 1) as nat);
        assert(BASE as nat * weight((i - 1) as nat) > 0) by (nonlinear_arith)
            requires
                weight((i - 1) as nat) > 0,
                BASE as nat > 0,
        ;
    }
}

proof fn lemma_low_agree(a: Seq<u32>, b: Seq<u32>, n: nat)
    requires
        forall|i: int| 0 <= i < n ==> limb(a, i) == limb(b, i),
    ensures
        low(a, n) == low(b, n),
    decreases n,
{
    if n > 0 {
        lemma_low_agree(a, b, (n - 1) as nat);
        assert(limb(a, n - 1) == limb(b, n - 1));
    }
}

proof fn lemma_low_push(a: Seq<u32>, x: u32)
    ensures
        low(a.push(x), a.len() + 1) == low(a, a.len()) + x as nat * weight(a.len()),
{
    lemma_low_agree(a, a.push(x), a.len());
}

proof fn lemma_low_beyond(a: Seq<u32>, n: nat)
    requires
        n >= a.len(),
    ensures
        low(a, n) == low(a, a.len()),
    decreases n,
{
    if n > a.len() {
        lemma_low_beyond(a, (n - 1) as nat);
        assert(0 * weight((n - 1) as nat) == 0) by (nonlinear_arith);
    }
}

proof fn lemma_low_bound(a: Seq<u32>, n: nat)
    ensures
        low(a, n) < weight(n),
    decreases n,
{
    if n > 0 {
        lemma_low_bound(a, (n - 1) as nat);
        let w = weight((n - 1) as nat);
        let d = limb(a, n - 1);
        assert(d <= BASE - 1);
        assert(low(a, (n - 1) as nat) + d * w < BASE as nat * w) by (nonlinear_arith)
            requires
                low(a, (n - 1) as nat) < w,
                d <= BASE - 1,
        ;
    }
}

/// Where the limbs from `n` on agree, the numbers differ as their low parts.
proof fn lemma_low_diff(a: Seq<u32>, b: Seq<u32>, n: nat, m: nat)
    requires
        n <= m,
        forall|i: int| n <= i < m ==> limb(a, i) == limb(b, i),
    ensures
        low(a, m) - low(a, n) == low(b, m) - low(b, n),
    decreases m,
{
    if n < m {
        lemma_low_diff(a, b, n, (m - 1) as nat);
        assert(limb(a, m - 1) == limb(b, m - 1));
    }
}

impl Natural {
    pub fn zero() -> (r: Natural)
        ensures
            r@ == 0,
    {
        Natural { limbs: Vec::new() }
    }

    pub fn from_u64(n: u64) -> (r: Natural)
        ensures
            r@ == n,
    {
        Natural::zero().mul_add(0, n)
    }

    /// `self * k + a`.
    pub fn mul_add(&self, k: u64, a: u64) -> (r: Natural)
        ensures
            r@ == self@ * k + a,
    {
        let mut out: Vec<u32> = Vec::new();
        let mut carry: u64 = a;
        let mut i: usize = 0;
        let n = self.limbs.len();
        assert(low(self.limbs@, 0) * k == 0) by (nonlinear_arith)
            requires
                low(self.limbs@, 0) == 0,
        ;
        assert(carry * weight(0) == carry) by (nonlinear_arith)
            requires
                weight(0) == 1,
        ;
        while i < n
            invariant
                i <= n,
                n == self.limbs.len(),
                out.len() == i,
                low(out@, i as nat) + carry * weight(i as nat) == low(self.limbs@, i as nat) * k
                    + a,
            decreases n - i,
        {
            let x: u32 = self.limbs[i];
            assert(x as u128 * k as u128 + carry as u128 <= 0xffff_ffff * 0xffff_ffff_ffff_ffff
                + 0xffff_ffff_ffff_ffff) by (nonlinear_arith)
                requires
                    x <= 0xffff_ffff,
                    k <= 0xffff_ffff_ffff_ffff,
                    carry <= 0xffff_ffff_ffff_ffff,
            ;
            let t: u128 = x as u128 * k as u128 + carry as u128;
            let lo: u128 = t % 0x1_0000_0000;
            let hi: u128 = t / 0x1_0000_0000;
            let ghost before = out@;
            out.push(lo as u32);
            proof {
                let w = weight(i as nat);
                lemma_low_push(before, lo as u32);
                assert(weight((i + 1) as nat) == BASE as nat * w);
                assert(limb(self.limbs@, i as int) == x);
                assert(low(before, i as nat) + lo * w + hi * (BASE as nat * w) == (low(
                    self.limbs@,
                    i as nat,
                ) + x * w) * k + a) by (nonlinear_arith)
                    requires
                        low(before, i as nat) + carry * w == low(self.limbs@, i as nat) * k + a,
                        lo + hi * BASE == x * k + carry,
                ;
            }
            carry = hi as u64;
            i += 1;
        }
        let c0: u32 = (carry % 0x1_0000_0000) as u32;
        let c1: u32 = (carry / 0x1_0000_0000) as u32;
        let ghost before = out@;
        out.push(c0);
        let ghost middle = out@;
        out.push(c1);
        proof {
            let w = weight(n as nat);
            lemma_low_push(before, c0);
            lemma_low_push(middle, c1);
            assert(weight((n + 1) as nat) == BASE as nat * w);
            assert(c0 * w + c1 * (BASE as nat * w) == carry * w) by (nonlinear_arith)
                requires
                    c0 + c1 * BASE == carry,
            ;
        }
        Natural { limbs: out }
    }

    /// `self * 2^k`.
    pub fn shl(&self, k: u64) -> (r: Natural)
        ensures
            r@ == self@ * pow2(k as nat),
    {
        let mut r = self.mul_add(1, 0);
        let mut left: u64 = k;
        proof {
            lemma_pow2_zero();
            assert(self@ * 1 == self@) by (nonlinear_arith);
        }
        while left >= 32
            invariant
                left <= k,
                r@ == self@ * pow2((k - left) as nat),
            decreases left,
        {
            let ghost before = r@;
            r = r.mul_add(0x1_0000_0000, 0);
            proof {
                lemma_pow2_adds((k - left) as nat, 32);
                lemma_pow2_32();
                assert(self@ * pow2((k - left) as nat) * 0x1_0000_0000 == self@ * (pow2(
                    (k - left) as nat,
                ) * 0x1_0000_0000)) by (nonlinear_arith);
            }
            left -= 32;
        }
        while left > 0
            invariant
                left <= k,
                r@ == self@ * pow2((k - left) as nat),
            decreases left,
        {
            r = r.mul_add(2, 0);
            proof {
                lemma_pow2_adds((k - left) as nat, 1);
                lemma_pow2_one();
                assert(self@ * pow2((k - left) as nat) * 2 == self@ * (pow2((k - left) as nat)
                    * 2)) by (nonlinear_arith);
            }
            left -= 1;
        }
        r
    }

    /// Compares two numbers.
    pub fn order(&self, other: &Natural) -> (r: Order)
        ensures
            r == (if self@ < other@ {
                Order::Less
            } else if self@ == other@ {
                Order::Equal
            } else {
                Order::Greater
            }),
    {
        let mut n: usize = if self.limbs.len() > other.limbs.len() {
            self.limbs.len()
        } else {
            other.limbs.len()
        };
        let ghost top = n as nat;
        let ghost a = self.limbs@;
        let ghost b = other.limbs@;
        proof {
            lemma_low_beyond(a, top);
            lemma_low_beyond(b, top);
        }
        while n > 0
            invariant
                n <= top,
                a == self.limbs@,
                b == other.limbs@,
                self@ == low(a, top),
                other@ == low(b, top),
                forall|i: int| n <= i < top ==> limb(a, i) == limb(b, i),
            decreases n,
        {
            let x: u32 = if n <= self.limbs.len() {
                self.limbs[n - 1]
            } else {
                0
            };
            let y: u32 = if n <= other.limbs.len() {
                other.limbs[n - 1]
            } else {
                0
            };
            if x != y {
                proof {
                    let w = weight((n - 1) as nat);
                    lemma_low_diff(a, b, n as nat, top);
                    lemma_low_bound(a, (n - 1) as nat);
                    lemma_low_bound(b, (n - 1) as nat);
                    assert(limb(a, n - 1) == x && limb(b, n - 1) == y);
                    if x < y {
                        assert(low(a, (n - 1) as nat) + x * w < low(b, (n - 1) as nat) + y * w)
                            by (nonlinear_arith)
                            requires
                                low(a, (n - 1) as nat) < w,
                                x + 1 <= y,
                                low(b, (n - 1) as nat) >= 0,
                        ;
                    } else {
                        assert(low(b, (n - 1) as nat) + y * w < low(a, (n - 1) as nat) + x * w)
                            by (nonlinear_arith)
                            requires
                                low(b, (n - 1) as nat) < w,
                                y + 1 <= x,
                                low(a, (n - 1) as nat) >= 0,
                        ;
                    }
                }
                return if x < y {
                    Order::Less
                } else {
                    Order::Greater
                };
            }
            n -= 1;
        }
        proof {
            lemma_low_diff(a, b, 0, top);
        }
        Order::Equal
    }
}

proof fn lemma_pow2_zero()
    ensures
        pow2(0) == 1,
{
    vstd::arithmetic::power2::lemma2_to64();
}

proof fn lemma_pow2_one()
    ensures
        pow2(1) == 2,
{
    vstd::arithmetic::power2::lemma2_to64();
}

proof fn lemma_pow2_32()
    ensures
        pow2(32) == 0x1_0000_0000,
{
    vstd::arithmetic::power2::lemma2_to64();
}

// -------------------------------------------------------------- division ----

/// Putting a limb below the others multiplies them by the base.
proof fn lemma_low_skip(a: Seq<u32>, i: int, n: nat)
    requires
        0 <= i < a.len(),
    ensures
        low(a.skip(i), n + 1) == a[i] as nat + BASE as nat * low(a.skip(i + 1), n),
    decreases n,
{
    let s = a.skip(i);
    let t = a.skip(i + 1);
    if n == 0 {
        assert(low(s, 1) == low(s, 0) + limb(s, 0) * weight(0));
        assert(limb(s, 0) == a[i]);
        assert(a[i] as nat * 1 == a[i]) by (nonlinear_arith);
        assert(BASE as nat * low(t, 0) == 0) by (nonlinear_arith)
            requires
                low(t, 0) == 0,
        ;
    } else {
        lemma_low_skip(a, i, (n - 1) as nat);
        let w = weight((n - 1) as nat);
        assert(limb(s, n as int) == limb(t, n - 1));
        assert(weight(n) == BASE as nat * w);
        let d = limb(t, n - 1);
        assert(BASE as nat * low(t, (n - 1) as nat) + d * (BASE as nat * w) == BASE as nat * (low(
            t,
            (n - 1) as nat,
        ) + d * w)) by (nonlinear_arith);
    }
}

impl Natural {
    /// The quotient and the remainder of a division by `d`.
    pub fn div_rem(&self, d: u64) -> (r: (Natural, u64))
        requires
            0 < d <= BASE,
        ensures
            r.0@ == self@ / d as nat,
            r.1 == self@ % d as nat,
    {
        let n = self.limbs.len();
        let mut out: Vec<u32> = self.limbs.clone();
        let mut rem: u64 = 0;
        let mut i: usize = n;
        let ghost a = self.limbs@;
        assert(a.skip(n as int) =~= Seq::<u32>::empty());
        assert(out@.skip(n as int) =~= Seq::<u32>::empty());
        assert(0 * d as nat == 0) by (nonlinear_arith);
        while i > 0
            invariant
                i <= n,
                n == a.len(),
                a == self.limbs@,
                out.len() == n,
                0 < d <= BASE,
                rem < d,
                low(a.skip(i as int), (n - i) as nat) == low(out@.skip(i as int), (n - i) as nat)
                    * d as nat + rem,
            decreases i,
        {
            let ghost before = out@;
            i -= 1;
            let x: u64 = self.limbs[i] as u64;
            assert(rem * BASE + x <= 0xffff_ffff_ffff_ffff) by (nonlinear_arith)
                requires
                    rem < d,
                    d <= BASE,
                    x < BASE,
                    BASE == 0x1_0000_0000,
            ;
            let t: u64 = rem * 0x1_0000_0000 + x;
            let q: u64 = t / d;
            let m: u64 = t % d;
            assert(q < BASE) by (nonlinear_arith)
                requires
                    q == t / d,
                    t == rem * 0x1_0000_0000 + x,
                    rem < d,
                    x < 0x1_0000_0000,
                    BASE == 0x1_0000_0000,
                    d > 0,
            ;
            out.set(i, q as u32);
            proof {
                lemma_low_skip(a, i as int, (n - i - 1) as nat);
                lemma_low_skip(out@, i as int, (n - i - 1) as nat);
                assert(out@.skip(i + 1) =~= before.skip(i + 1));
                let h = low(before.skip(i + 1), (n - i - 1) as nat);
                let l = low(a.skip(i + 1), (n - i - 1) as nat);
                assert(t == q * d + m) by (nonlinear_arith)
                    requires
                        q == t / d,
                        m == t % d,
                        d > 0,
                ;
                assert(x + BASE as nat * l == (q + BASE as nat * h) * d as nat + m)
                    by (nonlinear_arith)
                    requires
                        l == h * d as nat + rem,
                        rem * BASE + x == q * d + m,
                ;
            }
            rem = m;
        }
        assert(a.skip(0) =~= a);
        assert(out@.skip(0) =~= out@);
        proof {
            lemma_fundamental_div_mod_converse(
                self@ as int,
                d as int,
                low(out@, n as nat) as int,
                rem as int,
            );
        }
        (Natural { limbs: out }, rem)
    }

    /// `self / 2^k`.
    pub fn shr(&self, k: u64) -> (r: Natural)
        ensures
            r@ == self@ / pow2(k as nat),
    {
        let mut r = self.mul_add(1, 0);
        let mut left: u64 = k;
        proof {
            lemma_pow2_zero();
            assert(self@ * 1 == self@) by (nonlinear_arith);
            assert(self@ / 1 == self@) by (nonlinear_arith);
        }
        while left > 0
            invariant
                left <= k,
                r@ == self@ / pow2((k - left) as nat),
            decreases left,
        {
            let step: u64 = if left >= 32 {
                32
            } else {
                1
            };
            let by: u64 = if left >= 32 {
                0x1_0000_0000
            } else {
                2
            };
            r = r.div_rem(by).0;
            proof {
                lemma_pow2_one();
                lemma_pow2_32();
                lemma_pow2_adds((k - left) as nat, step as nat);
                lemma_pow2_pos((k - left) as nat);
                lemma_div_denominator(self@ as int, pow2((k - left) as nat) as int, by as int);
            }
            left -= step;
        }
        r
    }

    pub fn is_zero(&self) -> (yes: bool)
        ensures
            yes == (self@ == 0),
    {
        match self.order(&Natural::zero()) {
            Order::Equal => true,
            _ => false,
        }
    }

    /// The number as a `u64`, or the largest one when it does not fit.
    pub fn saturate(&self) -> (r: u64)
        ensures
            r == (if self@ <= u64::MAX {
                self@
            } else {
                u64::MAX as nat
            }),
    {
        let top = Natural::from_u64(u64::MAX);
        match self.order(&top) {
            Order::Greater => u64::MAX,
            _ => {
                let (high, lo) = self.div_rem(0x1_0000_0000);
                let (higher, hi) = high.div_rem(0x1_0000_0000);
                assert(higher@ == 0);
                hi * 0x1_0000_0000 + lo
            },
        }
    }

    /// The number in decimal.
    pub fn decimal(&self) -> (r: String)
        ensures
            r@ == dec(self@),
    {
        let mut back: Vec<char> = Vec::new();
        let mut rest = self.mul_add(1, 0);
        let ten = Natural::from_u64(10);
        assert(back@.reverse() =~= Seq::<char>::empty());
        loop
            invariant
                ten@ == 10,
                dec(self@) == dec(rest@) + back@.reverse(),
            decreases rest@,
        {
            let ghost before = back@;
            let small = match rest.order(&ten) {
                Order::Less => true,
                _ => false,
            };
            let (q, d) = rest.div_rem(10);
            back.push(digit(d));
            if small {
                assert(back@.reverse() =~= dec(self@));
                return string_of(reversed(&back).as_slice());
            }
            assert(dec(rest@) + before.reverse() =~= dec(q@) + back@.reverse());
            rest = q;
        }
    }
}

} // verus!
