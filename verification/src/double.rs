//! Numbers in double precision.
//!
//! A double is a whole number of steps of 2 to the minus 1074, the smallest
//! that the format knows. What an operation gives is the double nearest to
//! the exact result, and of two that are equally near the even one. Only
//! numbers that are not negative and far from the ends of the range are
//! needed here.

use vstd::arithmetic::power2::{lemma_pow2_adds, lemma_pow2_pos, lemma_pow2_unfold, pow2};
use vstd::prelude::*;

verus! {

/// How many steps make one.
pub open spec fn one() -> nat {
    pow2(1074)
}

/// `n / d` as a whole number, the even one of two that are equally near.
pub open spec fn half_even(n: nat, d: nat) -> nat
    recommends
        d > 0,
{
    let (q, r) = (n / d, n % d);
    if 2 * r < d || (2 * r == d && q % 2 == 0) {
        q
    } else {
        q + 1
    }
}

/// How many steps apart, as a power of two, the doubles around `n / d` steps
/// are: 53 binary digits are kept.
pub open spec fn spacing(n: nat, d: nat) -> nat
    decreases n / d,
    when d > 0
    via spacing_decreases
{
    if n < 9007199254740992 * d {
        0
    } else {
        1 + spacing(n, 2 * d)
    }
}

#[via_fn]
proof fn spacing_decreases(n: nat, d: nat) {
    if n >= 9007199254740992 * d {
        assert(n / (2 * d) < n / d) by (nonlinear_arith)
            requires
                d > 0,
                n >= 9007199254740992 * d,
        ;
    }
}

/// The double nearest to `n / d` steps, in steps.
pub open spec fn nearest(n: nat, d: nat) -> nat {
    half_even(n, d * pow2(spacing(n, d))) * pow2(spacing(n, d))
}

proof fn lemma_spacing(n: nat, d: nat, y: nat)
    requires
        d > 0,
        4503599627370496 * (d * pow2(y)) <= n < 9007199254740992 * (d * pow2(y)),
    ensures
        spacing(n, d) == y,
    decreases y,
{
    if y == 0 {
        vstd::arithmetic::power2::lemma2_to64();
        assert(d * pow2(0) == d) by (nonlinear_arith)
            requires
                pow2(0) == 1,
        ;
    } else {
        let z = (y - 1) as nat;
        lemma_pow2_unfold(y);
        lemma_pow2_pos(z);
        assert(d * pow2(y) == (2 * d) * pow2(z)) by (nonlinear_arith)
            requires
                pow2(y) == 2 * pow2(z),
        ;
        assert(d * pow2(y) >= 2 * d) by (nonlinear_arith)
            requires
                d * pow2(y) == (2 * d) * pow2(z),
                pow2(z) >= 1,
        ;
        lemma_spacing(n, 2 * d, z);
    }
}

/// A number that is not negative.
#[derive(Debug, Clone, Copy)]
pub struct Double {
    m: u64,
    x: u32,
}

impl Double {
    /// The number, in steps.
    pub closed spec fn steps(self) -> nat {
        (self.m * pow2(self.x as nat)) as nat
    }

    /// All 53 binary digits are in use.
    pub closed spec fn well_formed(self) -> bool {
        self.m == 0 || 4503599627370496 <= self.m < 9007199254740992
    }

    /// The power of two that the last digit stands for, in steps.
    pub closed spec fn exponent(self) -> nat {
        self.x as nat
    }

    /// The double nearest to `n / d` steps, of which `h` times two to `x` are
    /// whole, with something left over where `rest` says so.
    fn rounded(h: u128, rest: bool, x: u32, Ghost(n): Ghost<nat>, Ghost(d): Ghost<nat>) -> (r: Double)
        requires
            d > 0,
            x < 10000,
            9007199254740992 <= h,
            h * (d * pow2(x as nat)) <= n < (h + 1) * (d * pow2(x as nat)),
            rest <==> n != h * (d * pow2(x as nat)),
        ensures
            r.steps() == nearest(n, d),
            r.well_formed(),
            r.m > 0,
            x < r.x <= x + 130,
    {
        let mut h: u128 = h;
        let mut rest: bool = rest;
        let mut y: u32 = x;
        let ghost mut left: nat = 128;
        proof {
            vstd::arithmetic::power2::lemma2_to64();
            lemma_pow2_adds(64, 64);
        }
        while h >= 18014398509481984
            invariant
                d > 0,
                x < 10000,
                x <= y,
                y + left == x + 128,
                h < pow2(left),
                9007199254740992 <= h,
                h * (d * pow2(y as nat)) <= n < (h + 1) * (d * pow2(y as nat)),
                rest <==> n != h * (d * pow2(y as nat)),
            decreases h,
        {
            let ghost step = d * pow2(y as nat);
            let ghost (h0, rest0) = (h, rest);
            let odd = h % 2 == 1;
            proof {
                lemma_pow2_unfold((y + 1) as nat);
                lemma_pow2_pos(y as nat);
                assert(d * pow2((y + 1) as nat) == 2 * step) by (nonlinear_arith)
                    requires
                        pow2((y + 1) as nat) == 2 * pow2(y as nat),
                        step == d * pow2(y as nat),
                ;
                assert(step > 0) by (nonlinear_arith)
                    requires
                        step == d * pow2(y as nat),
                        d > 0,
                        pow2(y as nat) > 0,
                ;
                if left == 0 {
                    vstd::arithmetic::power2::lemma2_to64();
                }
                lemma_pow2_unfold(left);
                left = (left - 1) as nat;
            }
            rest = rest || odd;
            h = h / 2;
            y = y + 1;
            proof {
                let h1 = h as nat;
                lemma_halved(h0 as nat, h1, step, n);
            }
        }
        let ghost step = d * pow2(y as nat);
        let m: u64 = (h / 2) as u64;
        let odd = h % 2 == 1;
        let up = odd && (rest || m % 2 == 1);
        proof {
            lemma_pow2_unfold((y + 1) as nat);
            lemma_pow2_pos(y as nat);
            lemma_pow2_pos((y + 1) as nat);
            assert(d * pow2((y + 1) as nat) == 2 * step) by (nonlinear_arith)
                requires
                    pow2((y + 1) as nat) == 2 * pow2(y as nat),
                    step == d * pow2(y as nat),
            ;
            assert(step > 0) by (nonlinear_arith)
                requires
                    step == d * pow2(y as nat),
                    d > 0,
                    pow2(y as nat) > 0,
            ;
            lemma_rounding(h as nat, m as nat, step, n, up);
            lemma_spacing(n, d, (y + 1) as nat);
        }
        let kept: u64 = if up {
            m + 1
        } else {
            m
        };
        if kept == 9007199254740992 {
            proof {
                lemma_pow2_unfold((y + 2) as nat);
                assert(4503599627370496 * pow2((y + 2) as nat) == 9007199254740992 * pow2((y + 1) as nat));
            }
            Double { m: 4503599627370496, x: y + 2 }
        } else {
            Double { m: kept, x: y + 1 }
        }
    }
}

proof fn lemma_halved(h: nat, half: nat, step: nat, n: nat)
    requires
        step > 0,
        half == h / 2,
        h * step <= n < (h + 1) * step,
    ensures
        half * (2 * step) <= n < (half + 1) * (2 * step),
        n != half * (2 * step) <==> n != h * step || h % 2 == 1,
{
    let odd = h % 2;
    assert(h == 2 * half + odd);
    assert(h * step == half * (2 * step) + odd * step) by (nonlinear_arith)
        requires
            h == 2 * half + odd,
    ;
    assert((h + 1) * step == h * step + step) by (nonlinear_arith);
    assert((half + 1) * (2 * step) == half * (2 * step) + 2 * step) by (nonlinear_arith);
    assert(odd * step <= step) by (nonlinear_arith)
        requires
            odd <= 1,
    ;
    if odd == 1 {
        assert(odd * step == step) by (nonlinear_arith)
            requires
                odd == 1,
        ;
    } else {
        assert(odd * step == 0) by (nonlinear_arith)
            requires
                odd == 0,
        ;
    }
}

proof fn lemma_rounding(h: nat, m: nat, step: nat, n: nat, up: bool)
    requires
        step > 0,
        m == h / 2,
        9007199254740992 <= h < 18014398509481984,
        h * step <= n < (h + 1) * step,
        up <==> h % 2 == 1 && (n != h * step || m % 2 == 1),
    ensures
        4503599627370496 * (2 * step) <= n < 9007199254740992 * (2 * step),
        half_even(n, 2 * step) == if up {
            m + 1
        } else {
            m
        },
{
    lemma_halved(h, m, step, n);
    let d = 2 * step;
    let r = (n - m * d) as nat;
    assert((m + 1) * d == m * d + d) by (nonlinear_arith);
    assert(n == m * d + r && r < d);
    vstd::arithmetic::div_mod::lemma_fundamental_div_mod_converse(n as int, d as int, m as int, r as int);
    let odd = h % 2;
    assert(h == 2 * m + odd);
    assert(h * step == m * d + odd * step) by (nonlinear_arith)
        requires
            h == 2 * m + odd,
            d == 2 * step,
    ;
    assert((h + 1) * step == h * step + step) by (nonlinear_arith);
    if odd == 1 {
        assert(odd * step == step) by (nonlinear_arith)
            requires
                odd == 1,
        ;
    } else {
        assert(odd * step == 0) by (nonlinear_arith)
            requires
                odd == 0,
        ;
    }
    assert(4503599627370496 * d <= m * d) by (nonlinear_arith)
        requires
            4503599627370496 <= m,
    ;
    assert((m + 1) * d <= 9007199254740992 * d) by (nonlinear_arith)
        requires
            m + 1 <= 9007199254740992,
    ;
}

proof fn lemma_spacing_fits(n: nat, d: nat)
    requires
        d > 0,
    ensures
        spacing(n, d) == 0 || 4503599627370496 * (d * pow2(spacing(n, d))) <= n,
    decreases n / d,
{
    if n >= 9007199254740992 * d {
        assert(n / (2 * d) < n / d) by (nonlinear_arith)
            requires
                d > 0,
                n >= 9007199254740992 * d,
        ;
        lemma_spacing_fits(n, 2 * d);
        let z = spacing(n, 2 * d);
        lemma_pow2_unfold(z + 1);
        assert(d * pow2(z + 1) == (2 * d) * pow2(z)) by (nonlinear_arith)
            requires
                pow2(z + 1) == 2 * pow2(z),
        ;
        if z == 0 {
            vstd::arithmetic::power2::lemma2_to64();
            assert((2 * d) * pow2(0) == 2 * d) by (nonlinear_arith)
                requires
                    pow2(0) == 1,
            ;
        }
    }
}

/// The nearest double to a number of at least one step is at most twice as
/// large.
pub proof fn lemma_nearest_bound(n: nat, d: nat)
    requires
        d > 0,
        n >= d,
    ensures
        nearest(n, d) * d <= 2 * n,
{
    let s = spacing(n, d);
    let p = pow2(s);
    let step = d * p;
    lemma_spacing_fits(n, d);
    lemma_pow2_pos(s);
    if s == 0 {
        vstd::arithmetic::power2::lemma2_to64();
        assert(step == d) by (nonlinear_arith)
            requires
                step == d * p,
                p == 1,
        ;
    }
    assert(step <= n);
    assert(step > 0) by (nonlinear_arith)
        requires
            step == d * p,
            d > 0,
            p > 0,
    ;
    let q = half_even(n, step);
    assert((n / step) * step <= n) by (nonlinear_arith)
        requires
            step > 0,
    ;
    assert(q * step <= (n / step + 1) * step) by (nonlinear_arith)
        requires
            q <= n / step + 1,
    ;
    assert((n / step + 1) * step == (n / step) * step + step) by (nonlinear_arith);
    assert((q * p) * d == q * step) by (nonlinear_arith)
        requires
            step == d * p,
    ;
}

/// Nothing is nearest to nothing.
pub proof fn lemma_nearest_zero(d: nat)
    requires
        d > 0,
    ensures
        nearest(0, d) == 0,
{
    vstd::arithmetic::power2::lemma2_to64();
    assert(d * pow2(0) == d) by (nonlinear_arith)
        requires
            pow2(0) == 1,
    ;
    assert(0nat / d == 0 && 0nat % d == 0) by (nonlinear_arith)
        requires
            d > 0,
    ;
    assert(half_even(0, d) == 0);
    assert(spacing(0, d) == 0);
    assert(0 * pow2(0) == 0) by (nonlinear_arith);
}

proof fn lemma_half_even_scaled(n: nat, d: nat, k: nat)
    requires
        d > 0,
        k > 0,
    ensures
        half_even(n * k, d * k) == half_even(n, d),
        (n * k) / (d * k) == n / d,
{
    let (q, r) = (n / d, n % d);
    assert(n == q * d + r && r < d) by {
        vstd::arithmetic::div_mod::lemma_fundamental_div_mod(n as int, d as int);
        assert(q * d == d * q) by (nonlinear_arith);
    }
    assert(n * k == q * (d * k) + r * k) by (nonlinear_arith)
        requires
            n == q * d + r,
    ;
    assert(r * k < d * k) by (nonlinear_arith)
        requires
            r < d,
            k > 0,
    ;
    assert(d * k > 0) by (nonlinear_arith)
        requires
            d > 0,
            k > 0,
    ;
    vstd::arithmetic::div_mod::lemma_fundamental_div_mod_converse(
        (n * k) as int,
        (d * k) as int,
        q as int,
        (r * k) as int,
    );
    assert(2 * (r * k) < d * k <==> 2 * r < d) by (nonlinear_arith)
        requires
            k > 0,
    ;
    assert(2 * (r * k) == d * k <==> 2 * r == d) by (nonlinear_arith)
        requires
            k > 0,
    ;
}

/// Two to the `k`.
fn power(k: u32) -> (r: u128)
    requires
        k <= 64,
    ensures
        r == pow2(k as nat),
        1 <= r <= 0x1_0000_0000_0000_0000,
{
    let mut r: u128 = 1;
    let mut i: u32 = 0;
    proof {
        vstd::arithmetic::power2::lemma2_to64();
    }
    while i < k
        invariant
            i <= k <= 64,
            r == pow2(i as nat),
            pow2(64) == 0x1_0000_0000_0000_0000,
        decreases k - i,
    {
        proof {
            lemma_pow2_unfold((i + 1) as nat);
            lemma_pow2_adds((i + 1) as nat, (63 - i) as nat);
            lemma_pow2_pos((63 - i) as nat);
            assert(pow2((i + 1) as nat) <= pow2(64)) by (nonlinear_arith)
                requires
                    pow2(64) == pow2((i + 1) as nat) * pow2((63 - i) as nat),
                    pow2((63 - i) as nat) >= 1,
            ;
        }
        r = r * 2;
        i += 1;
    }
    proof {
        lemma_pow2_adds(k as nat, (64 - k) as nat);
        lemma_pow2_pos(k as nat);
        lemma_pow2_pos((64 - k) as nat);
        assert(pow2(k as nat) <= pow2(64)) by (nonlinear_arith)
            requires
                pow2(64) == pow2(k as nat) * pow2((64 - k) as nat),
                pow2((64 - k) as nat) >= 1,
        ;
    }
    r
}

impl Double {
    /// A whole number as a double.
    pub fn from_u64(n: u64) -> (r: Double)
        ensures
            r.well_formed(),
            r.steps() == nearest(n as nat * one(), 1),
            1010 < r.exponent() <= 1140,
            n > 0 ==> r.steps() > 0,
    {
        if n == 0 {
            proof {
                assert(0 * one() == 0) by (nonlinear_arith);
                lemma_nearest_zero(1);
                assert(0 * pow2(1074) == 0) by (nonlinear_arith);
            }
            Double { m: 0, x: 1074 }
        } else {
            let h: u128 = n as u128 * 0x1_0000_0000_0000_0000;
            proof {
                vstd::arithmetic::power2::lemma2_to64();
                lemma_pow2_adds(64, 1010);
                let p = pow2(1010);
                lemma_pow2_pos(1010);
                assert(h * (1 * p) == n as nat * one()) by (nonlinear_arith)
                    requires
                        h == n * 0x1_0000_0000_0000_0000,
                        one() == 0x1_0000_0000_0000_0000 * p,
                ;
                assert((h + 1) * (1 * p) > h * (1 * p)) by (nonlinear_arith)
                    requires
                        p > 0,
                ;
            }
            let r = Double::rounded(h, false, 1010, Ghost(n as nat * one()), Ghost(1));
            proof {
                r.lemma_some();
            }
            r
        }
    }

    proof fn lemma_some(self)
        requires
            self.m > 0,
        ensures
            self.steps() > 0,
    {
        lemma_pow2_pos(self.x as nat);
        assert(self.m * pow2(self.x as nat) > 0) by (nonlinear_arith)
            requires
                self.m > 0,
                pow2(self.x as nat) > 0,
        ;
    }

    /// The number divided by a thousand.
    pub fn thousandth(self) -> (r: Double)
        requires
            self.well_formed(),
            self.steps() > 0,
            70 <= self.exponent() < 9000,
        ensures
            r.well_formed(),
            r.steps() == nearest(self.steps(), 1000),
            r.steps() > 0,
            self.exponent() - 70 < r.exponent() <= self.exponent() + 60,
    {
        proof {
            if self.m == 0 {
                assert(0 * pow2(self.x as nat) == 0) by (nonlinear_arith);
            }
        }
        let wide: u128 = self.m as u128 * 0x40_0000_0000_0000_0000;
        let h: u128 = wide / 1000;
        let rest = wide % 1000 != 0;
        let x: u32 = self.x - 70;
        proof {
            vstd::arithmetic::power2::lemma2_to64();
            lemma_pow2_adds(64, 6);
            lemma_pow2_adds(70, x as nat);
            lemma_pow2_pos(x as nat);
            let p = pow2(x as nat);
            let n = self.steps();
            assert(n == wide * p) by (nonlinear_arith)
                requires
                    n == self.m * pow2(self.x as nat),
                    pow2(self.x as nat) == 0x40_0000_0000_0000_0000 * p,
                    wide == self.m * 0x40_0000_0000_0000_0000,
            ;
            let r = wide % 1000;
            assert(h * (1000 * p) + r * p == n) by (nonlinear_arith)
                requires
                    n == wide * p,
                    wide == 1000 * h + r,
            ;
            assert(0 <= r * p < 1000 * p) by (nonlinear_arith)
                requires
                    0 <= r < 1000,
                    p > 0,
            ;
            assert(r * p == 0 <==> r == 0) by (nonlinear_arith)
                requires
                    p > 0,
                    r >= 0,
            ;
            assert((h + 1) * (1000 * p) == h * (1000 * p) + 1000 * p) by (nonlinear_arith);
        }
        let r = Double::rounded(h, rest, x, Ghost(self.steps()), Ghost(1000));
        proof {
            r.lemma_some();
        }
        r
    }

    /// The product of two numbers.
    pub fn times(self, other: Double) -> (r: Double)
        requires
            self.well_formed(),
            other.well_formed(),
            1074 <= self.exponent() + other.exponent() < 9000,
        ensures
            r.well_formed(),
            r.steps() == nearest(self.steps() * other.steps(), one()),
            self.steps() > 0 && other.steps() > 0 ==> self.exponent() + other.exponent() - 1074 < r.exponent()
                <= self.exponent() + other.exponent() - 944,
            self.steps() == 0 || other.steps() == 0 ==> r.steps() == 0 && r.exponent() == 1074,
    {
        let ghost (a, b) = (pow2(self.x as nat), pow2(other.x as nat));
        proof {
            lemma_pow2_pos(1074);
        }
        if self.m == 0 || other.m == 0 {
            proof {
                assert((self.m * a) * (other.m * b) == 0) by (nonlinear_arith)
                    requires
                        self.m == 0 || other.m == 0,
                ;
                lemma_nearest_zero(one());
                assert(0 * pow2(1074) == 0) by (nonlinear_arith);
                if self.m == 0 {
                    assert(self.m * a == 0) by (nonlinear_arith)
                        requires
                            self.m == 0,
                    ;
                } else {
                    self.lemma_some();
                }
                if other.m == 0 {
                    assert(other.m * b == 0) by (nonlinear_arith)
                        requires
                            other.m == 0,
                    ;
                } else {
                    other.lemma_some();
                }
            }
            return Double { m: 0, x: 1074 };
        }
        proof {
            self.lemma_some();
            other.lemma_some();
            assert(4503599627370496 * 4503599627370496 <= self.m * other.m < 9007199254740992 * 9007199254740992)
                by (nonlinear_arith)
                requires
                    4503599627370496 <= self.m < 9007199254740992,
                    4503599627370496 <= other.m < 9007199254740992,
            ;
        }
        let h: u128 = self.m as u128 * other.m as u128;
        let x: u32 = self.x + other.x - 1074;
        let ghost n = self.steps() * other.steps();
        proof {
            let p = pow2(x as nat);
            lemma_pow2_pos(x as nat);
            lemma_pow2_adds(self.x as nat, other.x as nat);
            lemma_pow2_adds(1074, x as nat);
            assert(n == h * (one() * p)) by (nonlinear_arith)
                requires
                    n == (self.m * a) * (other.m * b),
                    h == self.m * other.m,
                    a * b == one() * p,
            ;
            assert((h + 1) * (one() * p) > h * (one() * p)) by (nonlinear_arith)
                requires
                    one() > 0,
                    p > 0,
            ;
        }
        let r = Double::rounded(h, false, x, Ghost(n), Ghost(one()));
        proof {
            r.lemma_some();
        }
        r
    }

    /// The quotient of two numbers.
    pub fn over(self, other: Double) -> (r: Double)
        requires
            self.well_formed(),
            other.well_formed(),
            other.steps() > 0,
            other.exponent() <= self.exponent() + 1000,
            self.exponent() < 8000,
        ensures
            r.well_formed(),
            r.steps() == nearest(self.steps() * one(), other.steps()),
            self.steps() > 0 ==> self.exponent() + 1000 - other.exponent() < r.exponent() <= self.exponent() + 1130
                - other.exponent(),
            self.steps() == 0 ==> r.steps() == 0 && r.exponent() == 1074,
    {
        let ghost (a, b) = (pow2(self.x as nat), pow2(other.x as nat));
        proof {
            if other.m == 0 {
                assert(0 * b == 0) by (nonlinear_arith);
            }
        }
        if self.m == 0 {
            proof {
                assert((self.m * a) * one() == 0) by (nonlinear_arith)
                    requires
                        self.m == 0,
                ;
                assert(self.m * a == 0) by (nonlinear_arith)
                    requires
                        self.m == 0,
                ;
                lemma_nearest_zero(other.steps());
                assert(0 * pow2(1074) == 0) by (nonlinear_arith);
            }
            return Double { m: 0, x: 1074 };
        }
        let wide: u128 = self.m as u128 * 0x400_0000_0000_0000_0000;
        let below: u128 = other.m as u128;
        let h: u128 = wide / below;
        let rest = wide % below != 0;
        let x: u32 = self.x + 1000 - other.x;
        let ghost n = self.steps() * one();
        let ghost d = other.steps();
        proof {
            self.lemma_some();
            let p = pow2(x as nat);
            lemma_pow2_pos(x as nat);
            lemma_pow2_pos(other.x as nat);
            vstd::arithmetic::power2::lemma2_to64();
            lemma_pow2_adds(64, 10);
            lemma_pow2_adds(74, 1000);
            lemma_pow2_adds(self.x as nat, 1000);
            lemma_pow2_adds(other.x as nat, x as nat);
            let r = wide % below;
            assert(wide == below * h + r) by {
                vstd::arithmetic::div_mod::lemma_fundamental_div_mod(wide as int, below as int);
            }
            assert(n == wide * (b * p)) by (nonlinear_arith)
                requires
                    n == (self.m * a) * one(),
                    one() == 0x400_0000_0000_0000_0000 * pow2(1000),
                    a * pow2(1000) == b * p,
                    wide == self.m * 0x400_0000_0000_0000_0000,
            ;
            assert(h * (d * p) + r * (b * p) == n) by (nonlinear_arith)
                requires
                    n == wide * (b * p),
                    wide == below * h + r,
                    d == below * b,
            ;
            assert(b * p > 0) by (nonlinear_arith)
                requires
                    b > 0,
                    p > 0,
            ;
            assert(d * p == below * (b * p)) by (nonlinear_arith)
                requires
                    d == below * b,
            ;
            assert(0 <= r * (b * p) < below * (b * p)) by (nonlinear_arith)
                requires
                    0 <= r < below,
                    b * p > 0,
            ;
            assert(r * (b * p) == 0 <==> r == 0) by (nonlinear_arith)
                requires
                    b * p > 0,
                    r >= 0,
            ;
            assert((h + 1) * (d * p) == h * (d * p) + d * p) by (nonlinear_arith);
            assert(h >= 9007199254740992) by (nonlinear_arith)
                requires
                    wide == below * h + r,
                    0 <= r < below,
                    below < 9007199254740992,
                    wide >= 4503599627370496 * 0x400_0000_0000_0000_0000,
            ;
        }
        let r = Double::rounded(h, rest, x, Ghost(n), Ghost(d));
        proof {
            r.lemma_some();
        }
        r
    }
}

impl Double {
    proof fn lemma_integral(self)
        requires
            self.x >= 1074,
        ensures
            self.steps() == (self.m * pow2((self.x - 1074) as nat)) * one(),
            one() > 0,
    {
        let k = (self.x - 1074) as nat;
        lemma_pow2_adds(k, 1074);
        lemma_pow2_pos(1074);
        assert(self.m * pow2(self.x as nat) == (self.m * pow2(k)) * one()) by (nonlinear_arith)
            requires
                pow2(self.x as nat) == pow2(k) * one(),
        ;
    }

    proof fn lemma_fraction(self)
        requires
            self.x < 1074,
        ensures
            one() == pow2((1074 - self.x) as nat) * pow2(self.x as nat),
            pow2((1074 - self.x) as nat) > 0,
            pow2(self.x as nat) > 0,
            one() > 0,
    {
        lemma_pow2_adds((1074 - self.x) as nat, self.x as nat);
        lemma_pow2_pos((1074 - self.x) as nat);
        lemma_pow2_pos(self.x as nat);
        lemma_pow2_pos(1074);
    }

    proof fn lemma_small(self, k: nat)
        requires
            self.m < 9007199254740992,
            self.x < 1074,
            k <= 1074 - self.x,
        ensures
            self.steps() * pow2(k) < 9007199254740992 * one(),
    {
        let a = pow2(self.x as nat);
        lemma_pow2_adds(self.x as nat, k);
        lemma_pow2_adds(self.x as nat + k, (1074 - self.x - k) as nat);
        lemma_pow2_pos((1074 - self.x - k) as nat);
        lemma_pow2_pos(self.x as nat + k);
        let b = pow2(self.x as nat + k);
        assert(b <= one()) by (nonlinear_arith)
            requires
                one() == b * pow2((1074 - self.x - k) as nat),
                pow2((1074 - self.x - k) as nat) >= 1,
        ;
        assert((self.m * a) * pow2(k) == self.m * b) by (nonlinear_arith)
            requires
                a * pow2(k) == b,
        ;
        assert(self.m * b < 9007199254740992 * one()) by (nonlinear_arith)
            requires
                self.m < 9007199254740992,
                0 < b <= one(),
        ;
    }

    /// The whole part, as far as it fits.
    pub fn whole(self) -> (r: u64)
        requires
            self.well_formed(),
        ensures
            r == if self.steps() / one() <= u64::MAX {
                self.steps() / one()
            } else {
                u64::MAX as nat
            },
    {
        proof {
            vstd::arithmetic::power2::lemma2_to64();
            vstd::arithmetic::power2::lemma2_to64_rest();
            lemma_pow2_pos(1074);
        }
        if self.m == 0 {
            proof {
                assert(self.m * pow2(self.x as nat) == 0) by (nonlinear_arith)
                    requires
                        self.m == 0,
                ;
                assert(0nat / one() == 0) by (nonlinear_arith)
                    requires
                        one() > 0,
                ;
            }
            0
        } else if self.x >= 1074 {
            let k: u32 = self.x - 1074;
            let ghost p = pow2(k as nat);
            let ghost v = (self.m * p) as nat;
            proof {
                self.lemma_integral();
                vstd::arithmetic::div_mod::lemma_div_multiples_vanish(v as int, one() as int);
                assert(one() * v == v * one()) by (nonlinear_arith);
            }
            if k >= 12 {
                proof {
                    lemma_pow2_adds(12, (k - 12) as nat);
                    lemma_pow2_pos((k - 12) as nat);
                    assert(v >= 4503599627370496 * 4096) by (nonlinear_arith)
                        requires
                            v == self.m * p,
                            self.m >= 4503599627370496,
                            p == 4096 * pow2((k - 12) as nat),
                            pow2((k - 12) as nat) >= 1,
                    ;
                }
                u64::MAX
            } else {
                let q = power(k);
                proof {
                    lemma_pow2_adds(k as nat, (12 - k) as nat);
                    lemma_pow2_pos((12 - k) as nat);
                    assert(p <= 4096) by (nonlinear_arith)
                        requires
                            4096 == p * pow2((12 - k) as nat),
                            pow2((12 - k) as nat) >= 1,
                    ;
                    assert(self.m * q < 9007199254740992 * 4097) by (nonlinear_arith)
                        requires
                            self.m < 9007199254740992,
                            0 <= q <= 4096,
                    ;
                }
                let v: u128 = self.m as u128 * q;
                if v <= 0xffff_ffff_ffff_ffff {
                    v as u64
                } else {
                    u64::MAX
                }
            }
        } else {
            let k: u32 = 1074 - self.x;
            proof {
                self.lemma_fraction();
            }
            if k >= 53 {
                proof {
                    self.lemma_small(53);
                    assert(self.steps() < one()) by (nonlinear_arith)
                        requires
                            self.steps() * pow2(53) < 9007199254740992 * one(),
                            pow2(53) == 9007199254740992,
                    ;
                    assert(self.steps() / one() == 0) by (nonlinear_arith)
                        requires
                            self.steps() < one(),
                    ;
                }
                0
            } else {
                let d = power(k);
                let r = self.m as u128 / d;
                proof {
                    let a = pow2(self.x as nat);
                    lemma_half_even_scaled(self.m as nat, d as nat, a);
                    assert(self.m as nat / d as nat <= self.m) by (nonlinear_arith)
                        requires
                            d >= 1,
                    ;
                }
                r as u64
            }
        }
    }

    /// So many times the number, as the nearest whole number, the even one of
    /// two that are equally near.
    pub fn nearest_whole(self, k: u64) -> (r: u64)
        requires
            self.well_formed(),
            self.steps() < 1073741824 * one(),
            one() <= 4 * self.steps(),
            1 <= k <= 10,
        ensures
            r == half_even(k as nat * self.steps(), one()),
    {
        proof {
            vstd::arithmetic::power2::lemma2_to64();
            vstd::arithmetic::power2::lemma2_to64_rest();
            lemma_pow2_pos(1074);
        }
        if self.m == 0 {
            proof {
                assert(self.m * pow2(self.x as nat) == 0) by (nonlinear_arith)
                    requires
                        self.m == 0,
                ;
                assert(k as nat * 0 == 0) by (nonlinear_arith);
                assert(0nat / one() == 0 && 0nat % one() == 0) by (nonlinear_arith)
                    requires
                        one() > 0,
                ;
            }
            return 0;
        }
        proof {
            if self.x >= 1074 {
                self.lemma_integral();
                lemma_pow2_pos((self.x - 1074) as nat);
                let p = pow2((self.x - 1074) as nat);
                assert(self.m * p >= 4503599627370496) by (nonlinear_arith)
                    requires
                        self.m >= 4503599627370496,
                        p >= 1,
                ;
                assert((self.m * p) * one() >= 4503599627370496 * one()) by (nonlinear_arith)
                    requires
                        self.m * p >= 4503599627370496,
                ;
            }
            self.lemma_fraction();
            if 1074 - self.x > 64 {
                self.lemma_small(64);
                assert(4 * self.steps() < one()) by (nonlinear_arith)
                    requires
                        self.steps() * pow2(64) < 9007199254740992 * one(),
                        pow2(64) == 0x1_0000_0000_0000_0000,
                ;
            }
        }
        let d = power(1074 - self.x);
        proof {
            assert(self.m * k <= 9007199254740992 * 10) by (nonlinear_arith)
                requires
                    self.m < 9007199254740992,
                    k <= 10,
            ;
        }
        let n: u128 = self.m as u128 * k as u128;
        let q = n / d;
        let rem = n % d;
        proof {
            let a = pow2(self.x as nat);
            lemma_half_even_scaled(n as nat, d as nat, a);
            assert(n * a == k as nat * self.steps()) by (nonlinear_arith)
                requires
                    n == self.m * k,
                    self.steps() == self.m * a,
            ;
            assert(q <= n) by (nonlinear_arith)
                requires
                    q == n / d,
                    d >= 1,
            ;
            assert(n < 9007199254740992 * 11) by (nonlinear_arith)
                requires
                    n == self.m * k,
                    self.m < 9007199254740992,
                    k <= 10,
            ;
        }
        if 2 * rem < d || (2 * rem == d && q % 2 == 0) {
            q as u64
        } else {
            (q + 1) as u64
        }
    }

    /// The nearest whole number, the larger one of two that are equally near,
    /// as far as it fits.
    pub fn round(self) -> (r: u64)
        requires
            self.well_formed(),
        ensures
            r == if (2 * self.steps() + one()) / (2 * one()) <= u64::MAX {
                (2 * self.steps() + one()) / (2 * one())
            } else {
                u64::MAX as nat
            },
    {
        let ghost s = self.steps();
        let ghost o = one();
        proof {
            lemma_pow2_pos(1074);
            vstd::arithmetic::power2::lemma2_to64();
            vstd::arithmetic::power2::lemma2_to64_rest();
        }
        if self.x >= 1074 {
            proof {
                self.lemma_integral();
                let v = (self.m * pow2((self.x - 1074) as nat)) as nat;
                vstd::arithmetic::div_mod::lemma_fundamental_div_mod_converse(s as int, o as int, v as int, 0);
                assert(2 * s + o == v * (2 * o) + o) by (nonlinear_arith)
                    requires
                        s == v * o,
                ;
                vstd::arithmetic::div_mod::lemma_fundamental_div_mod_converse(
                    (2 * s + o) as int,
                    (2 * o) as int,
                    v as int,
                    o as int,
                );
            }
            self.whole()
        } else {
            let k: u32 = 1074 - self.x;
            proof {
                self.lemma_fraction();
            }
            if k >= 55 {
                proof {
                    self.lemma_small(55);
                    lemma_pow2_adds(53, 2);
                    assert(4 * s < o) by (nonlinear_arith)
                        requires
                            s * pow2(55) < 9007199254740992 * o,
                            pow2(55) == 9007199254740992 * 4,
                    ;
                    vstd::arithmetic::div_mod::lemma_fundamental_div_mod_converse(
                        (2 * s + o) as int,
                        (2 * o) as int,
                        0,
                        (2 * s + o) as int,
                    );
                }
                0
            } else {
                let d = power(k);
                let n: u128 = 2 * self.m as u128 + d;
                let r = n / (2 * d);
                proof {
                    let a = pow2(self.x as nat);
                    lemma_half_even_scaled(n as nat, (2 * d) as nat, a);
                    assert(n * a == 2 * s + o) by (nonlinear_arith)
                        requires
                            n == 2 * self.m + d,
                            s == self.m * a,
                            o == d * a,
                    ;
                    assert((2 * d) * a == 2 * o) by (nonlinear_arith)
                        requires
                            o == d * a,
                    ;
                    assert(n < (self.m + 1) * (2 * d)) by (nonlinear_arith)
                        requires
                            n == 2 * self.m + d,
                            d >= 1,
                    ;
                    assert(r * (2 * d) <= n) by {
                        vstd::arithmetic::div_mod::lemma_fundamental_div_mod(n as int, (2 * d) as int);
                        assert(r * (2 * d) == (2 * d) * r) by (nonlinear_arith);
                    }
                    assert(r < self.m + 1) by (nonlinear_arith)
                        requires
                            r * (2 * d) <= n,
                            n < (self.m + 1) * (2 * d),
                            d >= 1,
                    ;
                }
                r as u64
            }
        }
    }
}

/// Ten to the `k`.
pub open spec fn ten_to(k: nat) -> nat
    decreases k,
{
    if k == 0 {
        1
    } else {
        10 * ten_to((k - 1) as nat)
    }
}

/// The number that a row of decimal digits stands for.
pub open spec fn number_of(digits: Seq<u8>) -> nat
    decreases digits.len(),
{
    if digits.len() == 0 {
        0
    } else {
        number_of(digits.drop_last()) * 10 + digits.last() as nat
    }
}

/// All of them are decimal digits.
pub open spec fn are_digits(digits: Seq<u8>) -> bool {
    forall|i: int| 0 <= i < digits.len() ==> #[trigger] digits[i] < 10
}

proof fn lemma_number_push_front(d: u8, digits: Seq<u8>)
    ensures
        number_of(seq![d] + digits) == d * ten_to(digits.len()) + number_of(digits),
    decreases digits.len(),
{
    let all = seq![d] + digits;
    if digits.len() == 0 {
        assert(all =~= seq![d]);
        assert(all.drop_last() =~= Seq::<u8>::empty());
        assert(number_of(all.drop_last()) == 0);
        assert(ten_to(0) == 1);
        assert(d * 1 == d);
    } else {
        let front = digits.drop_last();
        assert(all.drop_last() =~= seq![d] + front);
        lemma_number_push_front(d, front);
        let t = ten_to(front.len());
        assert((d * t + number_of(front)) * 10 == d * (10 * t) + number_of(front) * 10) by (nonlinear_arith);
    }
}

/// A row of digits stands for less than its length allows.
pub proof fn lemma_number_bound(digits: Seq<u8>)
    requires
        are_digits(digits),
    ensures
        number_of(digits) < ten_to(digits.len()),
    decreases digits.len(),
{
    if digits.len() > 0 {
        assert(are_digits(digits.drop_last()));
        lemma_number_bound(digits.drop_last());
        assert(digits.last() < 10);
    }
}

/// Twice a row of digits, in place, and what is carried out of it.
fn doubled(digits: &mut Vec<u8>) -> (carry: u8)
    requires
        are_digits(old(digits)@),
    ensures
        are_digits(final(digits)@),
        final(digits)@.len() == old(digits)@.len(),
        carry <= 1,
        number_of(final(digits)@) + carry as nat * ten_to(old(digits)@.len()) == 2 * number_of(old(digits)@),
{
    let ghost was = digits@;
    let n: usize = digits.len();
    let mut carry: u8 = 0;
    let mut i: usize = n;
    assert(digits@.skip(n as int) =~= Seq::<u8>::empty());
    assert(0 * ten_to(0) == 0);
    while i > 0
        invariant
            i <= n,
            n == was.len(),
            digits@.len() == n,
            are_digits(was),
            are_digits(digits@),
            carry <= 1,
            forall|k: int| 0 <= k < i ==> #[trigger] digits@[k] == was[k],
            number_of(digits@.skip(i as int)) + carry as nat * ten_to((n - i) as nat) == 2 * number_of(
                was.skip(i as int),
            ),
        decreases i,
    {
        let ghost before = digits@;
        let ghost tail = digits@.skip(i as int);
        let ghost carried = carry;
        i -= 1;
        let d: u8 = digits[i];
        let twice: u8 = 2 * d + carry;
        if twice >= 10 {
            digits.set(i, twice - 10);
            carry = 1;
        } else {
            digits.set(i, twice);
            carry = 0;
        }
        proof {
            let now = digits@[i as int];
            assert(digits@.skip(i as int) =~= seq![now] + tail);
            assert(was.skip(i as int) =~= seq![d] + was.skip(i + 1));
            lemma_number_push_front(now, tail);
            lemma_number_push_front(d, was.skip(i + 1));
            let t = ten_to((n - i - 1) as nat);
            assert(ten_to((n - i) as nat) == 10 * t);
            assert(now * t + carry as nat * (10 * t) == 2 * (d * t) + carried as nat * t) by (nonlinear_arith)
                requires
                    now + 10 * carry == 2 * d + carried,
            ;
        }
    }
    assert(digits@.skip(0) =~= digits@);
    assert(was.skip(0) =~= was);
    carry
}

proof fn lemma_number_zero(digits: Seq<u8>)
    ensures
        number_of(digits) == 0 <==> forall|i: int| 0 <= i < digits.len() ==> #[trigger] digits[i] == 0,
    decreases digits.len(),
{
    if digits.len() > 0 {
        let front = digits.drop_last();
        lemma_number_zero(front);
        if number_of(digits) == 0 {
            assert forall|i: int| 0 <= i < digits.len() implies #[trigger] digits[i] == 0 by {
                if i < front.len() {
                    assert(front[i] == digits[i]);
                }
            }
        } else if number_of(front) == 0 {
            assert(digits[digits.len() - 1] != 0);
        } else {
            let i = choose|i: int| 0 <= i < front.len() && front[i] != 0;
            assert(digits[i] == front[i]);
        }
    }
}

fn all_zero(digits: &Vec<u8>) -> (r: bool)
    ensures
        r == (number_of(digits@) == 0),
{
    let mut i: usize = 0;
    while i < digits.len()
        invariant
            i <= digits@.len(),
            forall|k: int| 0 <= k < i ==> #[trigger] digits@[k] == 0,
        decreases digits@.len() - i,
    {
        if digits[i] != 0 {
            proof {
                lemma_number_zero(digits@);
            }
            return false;
        }
        i += 1;
    }
    proof {
        lemma_number_zero(digits@);
    }
    true
}

/// What a whole number and the digits behind its point come to, as the
/// numerator over a power of ten.
pub open spec fn numerator(whole: nat, fraction: Seq<u8>) -> nat {
    whole * ten_to(fraction.len()) + number_of(fraction)
}

impl Double {
    /// The double nearest to a decimal number; nothing for one that is far
    /// below anything that counts.
    pub fn from_decimal(whole: u128, fraction: Vec<u8>) -> (r: Option<Double>)
        requires
            whole < 0x100_0000_0000_0000_0000_0000_0000,
            are_digits(fraction@),
        ensures
            match r {
                Some(double) => double.well_formed() && double.steps() == nearest(
                    numerator(whole as nat, fraction@) * one(),
                    ten_to(fraction@.len()),
                ) && 910 <= double.exponent() <= 1300,
                None => numerator(whole as nat, fraction@) * pow2(107) < ten_to(fraction@.len()),
            },
    {
        let ghost k = fraction@.len();
        let ghost w = numerator(whole as nat, fraction@);
        let ghost t = ten_to(k);
        let mut digits = fraction;
        proof {
            lemma_number_bound(digits@);
            vstd::arithmetic::power2::lemma2_to64();
            vstd::arithmetic::power2::lemma2_to64_rest();
            lemma_pow2_pos(1074);
        }
        if whole == 0 && all_zero(&digits) {
            proof {
                assert(0 * t == 0) by (nonlinear_arith);
                assert(0 * one() == 0) by (nonlinear_arith);
                lemma_nearest_zero(t);
                assert(0 * pow2(1074) == 0) by (nonlinear_arith);
            }
            return Some(Double { m: 0, x: 1074 });
        }
        let mut b: u128 = whole;
        let mut j: u32 = 0;
        assert(w * 1 == w);
        while b < 9007199254740992 && j < 160
            invariant
                j <= 160,
                b < 0x100_0000_0000_0000_0000_0000_0000,
                are_digits(digits@),
                digits@.len() == k,
                t == ten_to(k),
                b * t + number_of(digits@) == w * pow2(j as nat),
            decreases 160 - j,
        {
            let ghost had = number_of(digits@);
            let ghost b0 = b;
            let carry = doubled(&mut digits);
            b = 2 * b + carry as u128;
            j += 1;
            proof {
                lemma_pow2_unfold(j as nat);
                let p = pow2((j - 1) as nat);
                assert(b * t + number_of(digits@) == 2 * (b0 * t + had)) by (nonlinear_arith)
                    requires
                        b == 2 * b0 + carry,
                        number_of(digits@) + carry as nat * t == 2 * had,
                ;
                assert(w * (2 * p) == 2 * (w * p)) by (nonlinear_arith);
            }
        }
        proof {
            lemma_number_bound(digits@);
        }
        if b < 9007199254740992 {
            proof {
                lemma_pow2_adds(53, 107);
                assert((b + 1) * t <= 9007199254740992 * t) by (nonlinear_arith)
                    requires
                        b + 1 <= 9007199254740992,
                ;
                assert((b + 1) * t == b * t + t) by (nonlinear_arith);
                assert(w * pow2(107) < t) by (nonlinear_arith)
                    requires
                        w * pow2(160) < 9007199254740992 * t,
                        pow2(160) == 9007199254740992 * pow2(107),
                ;
            }
            None
        } else {
            let rest = !all_zero(&digits);
            let x: u32 = 1074 - j;
            proof {
                let p = pow2(x as nat);
                let f = number_of(digits@);
                lemma_pow2_adds(j as nat, x as nat);
                lemma_pow2_pos(x as nat);
                assert(w * one() == b * (t * p) + f * p) by (nonlinear_arith)
                    requires
                        b * t + f == w * pow2(j as nat),
                        one() == pow2(j as nat) * p,
                ;
                assert((b + 1) * (t * p) == b * (t * p) + t * p) by (nonlinear_arith);
                assert(f * p < t * p) by (nonlinear_arith)
                    requires
                        f < t,
                        p > 0,
                ;
                assert(f * p == 0 <==> f == 0) by (nonlinear_arith)
                    requires
                        p > 0,
                ;
            }
            Some(Double::rounded(b, rest, x, Ghost(w * one()), Ghost(t)))
        }
    }
}

/// A double is little more than twice what it is nearest to.
pub proof fn lemma_nearest_bound_loose(n: nat, d: nat)
    requires
        d > 0,
    ensures
        nearest(n, d) * d <= 2 * n + d,
{
    if n >= d {
        lemma_nearest_bound(n, d);
    } else {
        assert(spacing(n, d) == 0);
        vstd::arithmetic::power2::lemma2_to64();
        assert(d * pow2(0) == d) by (nonlinear_arith)
            requires
                pow2(0) == 1,
        ;
        assert(n / d == 0) by (nonlinear_arith)
            requires
                n < d,
        ;
        assert(half_even(n, d) <= 1);
        assert(nearest(n, d) <= 1) by (nonlinear_arith)
            requires
                nearest(n, d) == half_even(n, d) * pow2(0),
                half_even(n, d) <= 1,
                pow2(0) == 1,
        ;
        assert(nearest(n, d) * d <= d) by (nonlinear_arith)
            requires
                nearest(n, d) <= 1,
        ;
    }
}

/// The nearest double to a number of at least one step is at least half of
/// it.
pub proof fn lemma_nearest_floor(n: nat, d: nat)
    requires
        d > 0,
        n >= d,
    ensures
        2 * (nearest(n, d) * d) >= n,
{
    let s = spacing(n, d);
    let p = pow2(s);
    let step = d * p;
    lemma_spacing_fits(n, d);
    lemma_pow2_pos(s);
    if s == 0 {
        vstd::arithmetic::power2::lemma2_to64();
        assert(step == d) by (nonlinear_arith)
            requires
                step == d * p,
                p == 1,
        ;
    }
    assert(step > 0) by (nonlinear_arith)
        requires
            step == d * p,
            d > 0,
            p > 0,
    ;
    let q = n / step;
    let r = n % step;
    vstd::arithmetic::div_mod::lemma_fundamental_div_mod(n as int, step as int);
    assert(step * q == q * step) by (nonlinear_arith);
    assert(q >= 1) by (nonlinear_arith)
        requires
            n == step * q + r,
            r < step,
            n >= step,
    ;
    assert(q * step >= step) by (nonlinear_arith)
        requires
            q >= 1,
    ;
    let h = half_even(n, step);
    assert(h * step >= q * step) by (nonlinear_arith)
        requires
            h >= q,
    ;
    assert((h * p) * d == h * step) by (nonlinear_arith)
        requires
            step == d * p,
    ;
}

/// Whole numbers of at most 53 binary digits are doubles: working one out
/// gives the number itself.
pub proof fn whole_numbers_are_exact(k: nat, d: nat)
    requires
        d > 0,
        k < 9007199254740992,
    ensures
        nearest(k * one() * d, d) == k * one(),
{
    let o = one();
    let n = k * o * d;
    let y = spacing(n, d);
    let p = pow2(y);
    lemma_pow2_pos(y);
    lemma_pow2_pos(1074);
    lemma_spacing_fits(n, d);
    if y > 1074 {
        lemma_pow2_adds(1075, (y - 1075) as nat);
        lemma_pow2_pos((y - 1075) as nat);
        lemma_pow2_unfold(1075);
        assert(p >= 2 * o) by (nonlinear_arith)
            requires
                p == pow2(1075) * pow2((y - 1075) as nat),
                pow2((y - 1075) as nat) >= 1,
                pow2(1075) == 2 * o,
        ;
        assert(4503599627370496 * (d * p) >= 9007199254740992 * (o * d)) by (nonlinear_arith)
            requires
                p >= 2 * o,
        ;
        assert(k * o * d < 9007199254740992 * (o * d)) by (nonlinear_arith)
            requires
                k < 9007199254740992,
                o > 0,
                d > 0,
        ;
        assert(false);
    }
    let z = (1074 - y) as nat;
    let q = pow2(z);
    lemma_pow2_adds(y, z);
    let step = d * p;
    assert(step > 0) by (nonlinear_arith)
        requires
            step == d * p,
            d > 0,
            p > 0,
    ;
    assert(n == (k * q) * step) by (nonlinear_arith)
        requires
            n == k * o * d,
            o == p * q,
            step == d * p,
    ;
    assert(n as int == (k * q) as int * step as int + 0);
    vstd::arithmetic::div_mod::lemma_fundamental_div_mod_converse(n as int, step as int, (k * q) as int, 0);
    assert((k * q) * p == k * o) by (nonlinear_arith)
        requires
            o == p * q,
    ;
}

/// A whole number of at most 53 binary digits, times a power of two that the
/// format knows, is a double: working it out gives the number itself.
pub proof fn scaled_numbers_are_exact(k: nat, e: nat, d: nat)
    requires
        d > 0,
        k < 9007199254740992,
    ensures
        nearest(k * pow2(e) * d, d) == k * pow2(e),
{
    let o = pow2(e);
    let n = k * o * d;
    let y = spacing(n, d);
    let p = pow2(y);
    lemma_pow2_pos(y);
    lemma_pow2_pos(e);
    lemma_spacing_fits(n, d);
    if y > e {
        lemma_pow2_adds(e + 1, (y - e - 1) as nat);
        lemma_pow2_pos((y - e - 1) as nat);
        lemma_pow2_unfold(e + 1);
        assert(p >= 2 * o) by (nonlinear_arith)
            requires
                p == pow2(e + 1) * pow2((y - e - 1) as nat),
                pow2((y - e - 1) as nat) >= 1,
                pow2(e + 1) == 2 * o,
        ;
        assert(4503599627370496 * (d * p) >= 9007199254740992 * (o * d)) by (nonlinear_arith)
            requires
                p >= 2 * o,
        ;
        assert(k * o * d < 9007199254740992 * (o * d)) by (nonlinear_arith)
            requires
                k < 9007199254740992,
                o > 0,
                d > 0,
        ;
        assert(false);
    }
    let z = (e - y) as nat;
    let q = pow2(z);
    lemma_pow2_adds(y, z);
    let step = d * p;
    assert(step > 0) by (nonlinear_arith)
        requires
            step == d * p,
            d > 0,
            p > 0,
    ;
    assert(n == (k * q) * step) by (nonlinear_arith)
        requires
            n == k * o * d,
            o == p * q,
            step == d * p,
    ;
    assert(n as int == (k * q) as int * step as int + 0);
    vstd::arithmetic::div_mod::lemma_fundamental_div_mod_converse(n as int, step as int, (k * q) as int, 0);
    assert((k * q) * p == k * o) by (nonlinear_arith)
        requires
            o == p * q,
    ;
}

/// Rounding to the nearest whole number gives one that is no further away
/// than a half, and leaves whole numbers alone.
pub proof fn rounding_goes_no_further_than_a_half(n: nat, d: nat, k: nat)
    requires
        d > 0,
    ensures
        2 * (half_even(n, d) * d) <= 2 * n + d,
        2 * n <= 2 * (half_even(n, d) * d) + d,
        half_even(k * d, d) == k,
{
    vstd::arithmetic::div_mod::lemma_fundamental_div_mod(n as int, d as int);
    let (q, r) = (n / d, n % d);
    assert(d * q == q * d) by (nonlinear_arith);
    assert((q + 1) * d == q * d + d) by (nonlinear_arith);
    vstd::arithmetic::div_mod::lemma_fundamental_div_mod_converse((k * d) as int, d as int, k as int, 0);
}

} // verus!
