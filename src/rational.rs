use vstd::prelude::*;
use vstd::arithmetic::div_mod::lemma_fundamental_div_mod_converse;

verus! {

/// An exact fraction `nr / denom`.
#[derive(Copy, Clone, Debug)]
pub struct Rational {
    pub nr: i32,
    pub denom: i32,
}

pub open spec fn abs(v: int) -> int {
    if v < 0 { -v } else { v }
}

/// Greatest common divisor, by Euclid's algorithm.
pub open spec fn spec_gcd(a: nat, b: nat) -> nat
    decreases b,
{
    if b == 0 {
        a
    } else {
        spec_gcd(b, a % b)
    }
}

/// The normal form of `n / d`: the positive denominator and the numerator
/// divided by their greatest common divisor.
pub open spec fn normal(n: int, d: int) -> Rational {
    let g = spec_gcd(abs(n) as nat, abs(d) as nat) as int;
    let neg = (n < 0) != (d < 0);
    Rational { nr: (if neg { -(abs(n) / g) } else { abs(n) / g }) as i32, denom: (abs(d) / g) as i32 }
}

impl Rational {
    /// A positive denominator.
    pub open spec fn wf(&self) -> bool {
        self.denom > 0
    }

    /// Both fractions denote the same number.
    pub open spec fn same_value(&self, other: Rational) -> bool {
        self.nr * other.denom == other.nr * self.denom
    }

    /// `self <= other` as numbers, for positive denominators.
    pub open spec fn value_le(&self, other: Rational) -> bool {
        self.nr * other.denom <= other.nr * self.denom
    }

    /// The fraction can not be reduced further.
    pub open spec fn reduced(&self) -> bool {
        spec_gcd(abs(self.nr as int) as nat, self.denom as nat) == 1
    }

    /// Rounds towards minus infinity.
    pub open spec fn floor_of(&self) -> int {
        self.nr as int / self.denom as int
    }

    /// Rounds towards plus infinity.
    pub open spec fn ceil_of(&self) -> int {
        (self.nr + self.denom - 1) / self.denom as int
    }
}

/// The gcd of two numbers that are not both zero is positive and divides both.
pub proof fn lemma_gcd_divides(a: nat, b: nat)
    ensures
        a > 0 || b > 0 ==> spec_gcd(a, b) > 0,
        spec_gcd(a, b) > 0 ==> a == (a / spec_gcd(a, b)) * spec_gcd(a, b),
        spec_gcd(a, b) > 0 ==> b == (b / spec_gcd(a, b)) * spec_gcd(a, b),
    decreases b,
{
    let g = spec_gcd(a, b);
    if b == 0 {
        if a > 0 {
            lemma_fundamental_div_mod_converse(a as int, a as int, 1, 0);
        }
        if g > 0 {
            assert(0 * (g as int) == 0);
            lemma_fundamental_div_mod_converse(0, g as int, 0, 0);
        }
    } else {
        lemma_gcd_divides(b, a % b);
        let m = a % b;
        let q = a / b;
        lemma_div_mod(a as int, b as int);
        let kb = b / g;
        let km = m / g;
        assert(a == (q * kb + km) * g) by (nonlinear_arith)
            requires
                a == q * b + m,
                b == kb * g,
                m == km * g,
        ;
        lemma_fundamental_div_mod_converse(a as int, g as int, (q * kb + km) as int, 0);
    }
}

/// Scaling both arguments scales their gcd.
pub proof fn lemma_gcd_scale(k: nat, x: nat, y: nat)
    requires
        k > 0,
    ensures
        spec_gcd(k * x, k * y) == k * spec_gcd(x, y),
    decreases y,
{
    if y == 0 {
        assert(k * y == 0) by (nonlinear_arith)
            requires
                y == 0,
        ;
    } else {
        let q = x / y;
        let m = x % y;
        lemma_div_mod(x as int, y as int);
        assert(k * x == q * (k * y) + k * m) by (nonlinear_arith)
            requires
                x == q * y + m,
        ;
        assert(0 <= k * m < k * y) by (nonlinear_arith)
            requires
                0 <= m < y,
                k > 0,
        ;
        assert(k * y > 0) by (nonlinear_arith)
            requires
                k > 0,
                y > 0,
        ;
        lemma_fundamental_div_mod_converse((k * x) as int, (k * y) as int, q as int, (k * m) as int);
        lemma_gcd_scale(k, y, m);
    }
}

/// The normal form is reduced, has a positive denominator, denotes the same
/// number and is no larger than the fraction it came from.
pub proof fn lemma_normal(n: int, d: int)
    requires
        d != 0,
        i32::MIN < n <= i32::MAX,
        i32::MIN < d <= i32::MAX,
    ensures
        normal(n, d).denom > 0,
        normal(n, d).nr * d == n * normal(n, d).denom,
        normal(n, d).reduced(),
        abs(normal(n, d).nr as int) <= abs(n),
        normal(n, d).denom <= abs(d),
{
    let a = abs(n) as nat;
    let b = abs(d) as nat;
    lemma_gcd_divides(a, b);
    let g = spec_gcd(a, b);
    let an = a / g;
    let bn = b / g;
    assert(an <= a && bn <= b && bn > 0) by (nonlinear_arith)
        requires
            a == an * g,
            b == bn * g,
            g > 0,
            b > 0,
    ;
    let neg = (n < 0) != (d < 0);
    let r = normal(n, d);
    assert(r.nr == if neg { -(an as int) } else { an as int });
    assert(r.denom == bn);
    if n < 0 && d < 0 {
        assert(r.nr * d == n * r.denom) by (nonlinear_arith)
            requires
                r.nr == an,
                r.denom == bn,
                n == -(an * g),
                d == -(bn * g),
        ;
    } else if n < 0 {
        assert(r.nr * d == n * r.denom) by (nonlinear_arith)
            requires
                r.nr == -an,
                r.denom == bn,
                n == -(an * g),
                d == bn * g,
        ;
    } else if d < 0 {
        assert(r.nr * d == n * r.denom) by (nonlinear_arith)
            requires
                r.nr == -an,
                r.denom == bn,
                n == an * g,
                d == -(bn * g),
        ;
    } else {
        assert(r.nr * d == n * r.denom) by (nonlinear_arith)
            requires
                r.nr == an,
                r.denom == bn,
                n == an * g,
                d == bn * g,
        ;
    }
    lemma_gcd_scale(g, an, bn);
    assert(g * an == a && g * bn == b) by (nonlinear_arith)
        requires
            a == an * g,
            b == bn * g,
    ;
    assert(abs(r.nr as int) == an);
    assert(g * spec_gcd(an, bn) == g * 1);
    assert(spec_gcd(an, bn) == 1) by (nonlinear_arith)
        requires
            g * spec_gcd(an, bn) == g * 1,
            g > 0,
    ;
}

pub proof fn lemma_div_mod(x: int, d: int)
    requires
        d > 0,
    ensures
        x == (x / d) * d + x % d,
        0 <= x % d < d,
{
    vstd::arithmetic::div_mod::lemma_fundamental_div_mod(x, d);
    vstd::arithmetic::div_mod::lemma_mod_bound(x, d);
    assert(d * (x / d) == (x / d) * d) by (nonlinear_arith);
}

/// The product of two 32-bit values fits in 64 bits.
pub proof fn lemma_i32_product(a: int, b: int)
    requires
        i32::MIN <= a <= i32::MAX,
        i32::MIN <= b <= i32::MAX,
    ensures
        i64::MIN <= a * b <= i64::MAX,
{
    assert(-0x4000_0000_0000_0000 <= a * b <= 0x4000_0000_0000_0000) by (nonlinear_arith)
        requires
            -0x8000_0000 <= a <= 0x8000_0000,
            -0x8000_0000 <= b <= 0x8000_0000,
    ;
}

/// An integer, and one half, are already in normal form.
pub proof fn lemma_normal_small(n: int)
    requires
        i32::MIN < n <= i32::MAX,
    ensures
        normal(n, 1) == (Rational { nr: n as i32, denom: 1 }),
        normal(1, 2) == (Rational { nr: 1, denom: 2 }),
        normal(-1, 2) == (Rational { nr: -1i32, denom: 2 }),
{
    let a = abs(n) as nat;
    assert(a % 1 == 0);
    assert(spec_gcd(1, 0) == 1);
    assert(spec_gcd(a, 1) == spec_gcd(1, a % 1));
    assert(spec_gcd(a, 1) == 1);
    assert(abs(1) as nat == 1);
    assert(abs(n) / 1 == abs(n));
    assert(1int / 1 == 1);
    let r = normal(n, 1);
    assert(r.denom == 1);
    assert(r.nr == n as i32);
    assert(1nat % 2 == 1);
    assert(2nat % 1 == 0);
    assert(spec_gcd(2, 1) == spec_gcd(1, 0));
    assert(spec_gcd(1, 2) == spec_gcd(2, 1));
    assert(abs(2) as nat == 2);
    assert(abs(1) as nat == 1);
    assert(2int / 1 == 2);
    let h = normal(1, 2);
    assert(h.denom == 2);
    assert(h.nr == 1);
    assert(abs(-1) as nat == 1);
    let mh = normal(-1, 2);
    assert(mh.denom == 2);
    assert(mh.nr == -1);
}

/// Greatest common divisor of two non-negative numbers.
pub fn gcd(a: i32, b: i32) -> (r: i32)
    requires
        a >= 0,
        b >= 0,
    ensures
        r == spec_gcd(a as nat, b as nat),
    decreases b,
{
    if b == 0 {
        a
    } else {
        gcd(b, a % b)
    }
}

impl Rational {
    pub fn new(nr: i32, denom: i32) -> (r: Rational)
        requires
            denom != 0,
            nr != i32::MIN,
            denom != i32::MIN,
        ensures
            r == normal(nr as int, denom as int),
            r.wf(),
            r.reduced(),
            r.nr * denom == nr * r.denom,
            abs(r.nr as int) <= abs(nr as int),
            r.denom <= abs(denom as int),
    {
        Rational { nr, denom }.normalize()
    }

    /// The same number with a positive denominator, reduced by the gcd.
    pub fn normalize(self) -> (r: Rational)
        requires
            self.denom != 0,
            self.nr != i32::MIN,
            self.denom != i32::MIN,
        ensures
            r == normal(self.nr as int, self.denom as int),
            r.wf(),
            r.reduced(),
            r.nr * self.denom == self.nr * r.denom,
            abs(r.nr as int) <= abs(self.nr as int),
            r.denom <= abs(self.denom as int),
    {
        proof {
            lemma_normal(self.nr as int, self.denom as int);
            lemma_gcd_divides(abs(self.nr as int) as nat, abs(self.denom as int) as nat);
        }
        let a = if self.nr < 0 { -self.nr } else { self.nr };
        let b = if self.denom < 0 { -self.denom } else { self.denom };
        let g = gcd(a, b);
        let an = a / g;
        let bn = b / g;
        let neg = (self.nr < 0) != (self.denom < 0);
        let nr = if neg { -an } else { an };
        Rational { nr, denom: bn }
    }

    /// Rounds towards minus infinity.
    pub fn floor(self) -> (r: i32)
        requires
            self.wf(),
        ensures
            r == self.floor_of(),
    {
        if self.nr >= 0 {
            self.nr / self.denom
        } else {
            let m = -(self.nr as i64);
            let d = self.denom as i64;
            let q = (m + d - 1) / d;
            proof {
                let x = (m + d - 1) as int;
                let di = d as int;
                let r0 = x % di;
                vstd::arithmetic::div_mod::lemma_fundamental_div_mod(x, di);
                vstd::arithmetic::div_mod::lemma_mod_bound(x, di);
                assert(self.nr == (-(q as int)) * di + (di - 1 - r0)) by (nonlinear_arith)
                    requires
                        x == di * q + r0,
                        x == m + di - 1,
                        m == -self.nr,
                ;
                lemma_fundamental_div_mod_converse(self.nr as int, di, -(q as int), di - 1 - r0);
                assert(q <= m) by (nonlinear_arith)
                    requires
                        x == di * q + r0,
                        x == m + di - 1,
                        0 <= r0,
                        di >= 1,
                        m >= 1,
                ;
            }
            (-q) as i32
        }
    }

    /// Rounds towards plus infinity.
    pub fn ceil(self) -> (r: i32)
        requires
            self.wf(),
        ensures
            r == self.ceil_of(),
    {
        if self.nr >= 0 {
            let n = self.nr as i64;
            let d = self.denom as i64;
            let q = (n + d - 1) / d;
            proof {
                let x = (n + d - 1) as int;
                let di = d as int;
                let r0 = x % di;
                vstd::arithmetic::div_mod::lemma_fundamental_div_mod(x, di);
                vstd::arithmetic::div_mod::lemma_mod_bound(x, di);
                assert(q <= n) by (nonlinear_arith)
                    requires
                        x == di * q + r0,
                        x == n + di - 1,
                        0 <= r0,
                        di >= 1,
                        n >= 0,
                ;
                assert(q >= 0) by (nonlinear_arith)
                    requires
                        x == di * q + r0,
                        x == n + di - 1,
                        r0 < di,
                        di >= 1,
                        n >= 0,
                ;
            }
            q as i32
        } else {
            let m = -(self.nr as i64);
            let d = self.denom as i64;
            let q = m / d;
            proof {
                let mi = m as int;
                let di = d as int;
                let r0 = mi % di;
                vstd::arithmetic::div_mod::lemma_fundamental_div_mod(mi, di);
                vstd::arithmetic::div_mod::lemma_mod_bound(mi, di);
                assert(self.nr + di - 1 == (-(q as int)) * di + (di - 1 - r0)) by (nonlinear_arith)
                    requires
                        mi == di * q + r0,
                        mi == -self.nr,
                ;
                lemma_fundamental_div_mod_converse(self.nr + di - 1, di, -(q as int), di - 1 - r0);
                assert(q <= mi) by (nonlinear_arith)
                    requires
                        mi == di * q + r0,
                        0 <= r0,
                        di >= 1,
                        mi >= 1,
                ;
                assert(q >= 0) by (nonlinear_arith)
                    requires
                        mi == di * q + r0,
                        r0 < di,
                        di >= 1,
                        mi >= 1,
                ;
            }
            (-q) as i32
        }
    }

    /// `self + rhs`, normalized.
    pub fn add(self, rhs: Rational) -> (r: Rational)
        requires
            self.wf(),
            rhs.wf(),
            self.denom * rhs.denom <= i32::MAX,
            i32::MIN < self.nr * rhs.denom <= i32::MAX,
            i32::MIN < rhs.nr * self.denom <= i32::MAX,
            i32::MIN < self.nr * rhs.denom + rhs.nr * self.denom <= i32::MAX,
        ensures
            r == normal(self.nr * rhs.denom + rhs.nr * self.denom, self.denom * rhs.denom),
            r.wf(),
            abs(r.nr as int) <= abs(self.nr * rhs.denom + rhs.nr * self.denom),
            r.denom <= self.denom * rhs.denom,
    {
        proof {
            assert(self.denom * rhs.denom > 0) by (nonlinear_arith)
                requires
                    self.denom > 0,
                    rhs.denom > 0,
            ;
        }
        let common_denom = self.denom * rhs.denom;
        let nr = self.nr * rhs.denom + rhs.nr * self.denom;
        Rational::new(nr, common_denom)
    }

    /// `self - rhs`, normalized.
    pub fn sub(self, rhs: Rational) -> (r: Rational)
        requires
            self.wf(),
            rhs.wf(),
            self.denom * rhs.denom <= i32::MAX,
            i32::MIN < self.nr * rhs.denom <= i32::MAX,
            i32::MIN < rhs.nr * self.denom <= i32::MAX,
            i32::MIN < self.nr * rhs.denom - rhs.nr * self.denom <= i32::MAX,
        ensures
            r == normal(self.nr * rhs.denom - rhs.nr * self.denom, self.denom * rhs.denom),
            r.wf(),
            abs(r.nr as int) <= abs(self.nr * rhs.denom - rhs.nr * self.denom),
            r.denom <= self.denom * rhs.denom,
    {
        proof {
            assert(self.denom * rhs.denom > 0) by (nonlinear_arith)
                requires
                    self.denom > 0,
                    rhs.denom > 0,
            ;
        }
        let common_denom = self.denom * rhs.denom;
        let nr = self.nr * rhs.denom - rhs.nr * self.denom;
        Rational::new(nr, common_denom)
    }

    /// `self * rhs`, normalized.
    pub fn mul(self, rhs: Rational) -> (r: Rational)
        requires
            self.wf(),
            rhs.wf(),
            self.denom * rhs.denom <= i32::MAX,
            i32::MIN < self.nr * rhs.nr <= i32::MAX,
        ensures
            r == normal(self.nr * rhs.nr, self.denom * rhs.denom),
            r.wf(),
            abs(r.nr as int) <= abs(self.nr * rhs.nr),
            r.denom <= self.denom * rhs.denom,
    {
        proof {
            assert(self.denom * rhs.denom > 0) by (nonlinear_arith)
                requires
                    self.denom > 0,
                    rhs.denom > 0,
            ;
        }
        let nr = self.nr * rhs.nr;
        let denom = self.denom * rhs.denom;
        Rational::new(nr, denom)
    }

    /// `self <= other` as numbers, compared by cross-multiplying in wide integers.
    pub fn le(&self, other: &Rational) -> (r: bool)
        requires
            self.wf(),
            other.wf(),
        ensures
            r == self.value_le(*other),
    {
        proof {
            lemma_i32_product(self.nr as int, other.denom as int);
            lemma_i32_product(other.nr as int, self.denom as int);
        }
        let x = self.nr as i64 * other.denom as i64;
        let y = other.nr as i64 * self.denom as i64;
        x <= y
    }

    /// Both fractions denote the same number.
    pub fn eq(&self, other: &Rational) -> (r: bool)
        requires
            self.wf(),
            other.wf(),
        ensures
            r == self.same_value(*other),
    {
        proof {
            lemma_i32_product(self.nr as int, other.denom as int);
            lemma_i32_product(other.nr as int, self.denom as int);
        }
        let x = self.nr as i64 * other.denom as i64;
        let y = other.nr as i64 * self.denom as i64;
        x == y
    }
}

} // verus!
