use vstd::arithmetic::div_mod::{
    lemma_fundamental_div_mod, lemma_mod_multiples_basic,
};
use vstd::prelude::*;

verus! {

/// Greatest common divisor by Euclid's recurrence.
pub open spec fn gcd(a: nat, b: nat) -> nat
    decreases b,
{
    if b == 0 {
        a
    } else {
        gcd(b, a % b)
    }
}

pub open spec fn abs(x: int) -> nat {
    if x < 0 {
        (-x) as nat
    } else {
        x as nat
    }
}

/// The numerator of `n / d` in lowest terms (`d > 0`).
pub open spec fn reduced_num(n: int, d: int) -> int {
    let q = abs(n) / gcd(abs(n), d as nat);
    if n < 0 {
        -q
    } else {
        q as int
    }
}

/// The denominator of `n / d` in lowest terms (`d > 0`).
pub open spec fn reduced_den(n: int, d: int) -> int {
    (d as nat / gcd(abs(n), d as nat)) as int
}

/// The rational `n / d` (`d > 0`) in lowest terms, or `None` where its
/// numerator or denominator falls outside the range a `Rational` holds.
pub open spec fn from_frac(n: int, d: int) -> Option<Rational> {
    let rn = reduced_num(n, d);
    let rd = reduced_den(n, d);
    if i64::MIN < rn && rn <= i64::MAX && rd <= i64::MAX {
        Some(Rational { num: rn as i64, den: rd as i64 })
    } else {
        None
    }
}

/// An exact rational number `num / den`, kept in lowest terms by every
/// arithmetic operation of this module.
#[derive(Clone, Copy, Debug, PartialEq, Eq, Structural)]
pub struct Rational {
    pub num: i64,
    pub den: i64,
}

pub open spec fn spec_add(a: Rational, b: Rational) -> Option<Rational> {
    from_frac(a.num * b.den + b.num * a.den, a.den * b.den)
}

pub open spec fn spec_sub(a: Rational, b: Rational) -> Option<Rational> {
    from_frac(a.num * b.den - b.num * a.den, a.den * b.den)
}

pub open spec fn spec_mul(a: Rational, b: Rational) -> Option<Rational> {
    from_frac(a.num * b.num, a.den * b.den)
}

/// `a / b`, for `b` not zero; the sign moves to the numerator.
pub open spec fn spec_div(a: Rational, b: Rational) -> Option<Rational> {
    if b.num < 0 {
        from_frac(-(a.num * b.den), -(a.den * b.num))
    } else {
        from_frac(a.num * b.den, a.den * b.num)
    }
}

impl Rational {
    /// A denominator above zero and a numerator whose negation fits.
    pub open spec fn wf(self) -> bool {
        self.den > 0 && self.num > i64::MIN
    }

    /// `self` equals the fraction `n / d`.
    pub open spec fn denotes(self, n: int, d: int) -> bool {
        self.num * d == n * self.den
    }

    pub open spec fn same_value(self, o: Rational) -> bool {
        self.denotes(o.num as int, o.den as int)
    }

    /// `self < o`, for well-formed values.
    pub open spec fn less_than(self, o: Rational) -> bool {
        self.num * o.den < o.num * self.den
    }

    pub open spec fn is_negative(self) -> bool {
        self.num < 0
    }

    pub open spec fn is_positive(self) -> bool {
        self.num > 0
    }

    pub open spec fn is_zero(self) -> bool {
        self.num == 0
    }

    pub open spec fn is_one(self) -> bool {
        self.num == self.den
    }

    pub open spec fn spec_neg(self) -> Rational {
        Rational { num: -self.num as i64, den: self.den }
    }

    pub fn from_int(n: i64) -> (r: Rational)
        requires
            n > i64::MIN,
        ensures
            r.wf(),
            r.num == n,
            r.den == 1,
    {
        Rational { num: n, den: 1 }
    }

    pub fn zero() -> (r: Rational)
        ensures
            r.wf(),
            r.num == 0,
            r.den == 1,
    {
        Rational { num: 0, den: 1 }
    }

    pub fn one() -> (r: Rational)
        ensures
            r.wf(),
            r.num == 1,
            r.den == 1,
    {
        Rational { num: 1, den: 1 }
    }

    pub fn neg(self) -> (r: Rational)
        requires
            self.wf(),
        ensures
            r == self.spec_neg(),
            r.wf(),
    {
        Rational { num: -self.num, den: self.den }
    }

    pub fn is_neg(self) -> (r: bool)
        ensures
            r == self.is_negative(),
    {
        self.num < 0
    }

    pub fn is_pos(self) -> (r: bool)
        ensures
            r == self.is_positive(),
    {
        self.num > 0
    }

    pub fn is_nonzero(self) -> (r: bool)
        ensures
            r == !self.is_zero(),
    {
        self.num != 0
    }

    /// `self < o`.
    pub fn lt(self, o: Rational) -> (r: bool)
        requires
            self.wf(),
            o.wf(),
        ensures
            r == self.less_than(o),
    {
        proof { lemma_wide_products(self, o); }
        (self.num as i128) * (o.den as i128) < (o.num as i128) * (self.den as i128)
    }

    pub fn add(self, o: Rational) -> (r: Option<Rational>)
        requires
            self.wf(),
            o.wf(),
        ensures
            r == spec_add(self, o),
    {
        let (a, b, c, d) = (self.num as i128, self.den as i128, o.num as i128, o.den as i128);
        proof { lemma_wide_products(self, o); }
        make(a * d + c * b, b * d)
    }

    pub fn sub(self, o: Rational) -> (r: Option<Rational>)
        requires
            self.wf(),
            o.wf(),
        ensures
            r == spec_sub(self, o),
    {
        let (a, b, c, d) = (self.num as i128, self.den as i128, o.num as i128, o.den as i128);
        proof { lemma_wide_products(self, o); }
        make(a * d - c * b, b * d)
    }

    pub fn mul(self, o: Rational) -> (r: Option<Rational>)
        requires
            self.wf(),
            o.wf(),
        ensures
            r == spec_mul(self, o),
    {
        let (a, b, c, d) = (self.num as i128, self.den as i128, o.num as i128, o.den as i128);
        proof { lemma_wide_products(self, o); }
        make(a * c, b * d)
    }

    pub fn div(self, o: Rational) -> (r: Option<Rational>)
        requires
            self.wf(),
            o.wf(),
            !o.is_zero(),
        ensures
            r == spec_div(self, o),
    {
        let (a, b, c, d) = (self.num as i128, self.den as i128, o.num as i128, o.den as i128);
        proof { lemma_wide_products(self, o); }
        if c < 0 {
            make(-(a * d), -(b * c))
        } else {
            make(a * d, b * c)
        }
    }
}

/// Products of two components of well-formed values stay well inside `i128`.
proof fn lemma_wide_products(x: Rational, y: Rational)
    requires
        x.wf(),
        y.wf(),
    ensures
        -0x4000_0000_0000_0000_0000_0000_0000_0000 < x.num * y.num
            < 0x4000_0000_0000_0000_0000_0000_0000_0000,
        -0x4000_0000_0000_0000_0000_0000_0000_0000 < x.num * y.den
            < 0x4000_0000_0000_0000_0000_0000_0000_0000,
        -0x4000_0000_0000_0000_0000_0000_0000_0000 < y.num * x.den
            < 0x4000_0000_0000_0000_0000_0000_0000_0000,
        0 < x.den * y.den < 0x4000_0000_0000_0000_0000_0000_0000_0000,
        -0x4000_0000_0000_0000_0000_0000_0000_0000 < x.den * y.num
            < 0x4000_0000_0000_0000_0000_0000_0000_0000,
        y.num < 0 ==> x.den * y.num < 0,
        y.num > 0 ==> x.den * y.num > 0,
{
    let (a, b, c, d) = (x.num as int, x.den as int, y.num as int, y.den as int);
    let k: int = 0x8000_0000_0000_0000;
    assert(-k < a < k && 0 < b < k && -k < c < k && 0 < d < k);
    assert(-k * k < a * c < k * k) by (nonlinear_arith)
        requires -k < a < k, -k < c < k, k > 0;
    assert(-k * k < a * d < k * k) by (nonlinear_arith)
        requires -k < a < k, 0 < d < k, k > 0;
    assert(-k * k < c * b < k * k) by (nonlinear_arith)
        requires -k < c < k, 0 < b < k, k > 0;
    assert(0 < b * d < k * k) by (nonlinear_arith)
        requires 0 < b < k, 0 < d < k;
    assert(-k * k < b * c < k * k) by (nonlinear_arith)
        requires -k < c < k, 0 < b < k, k > 0;
    assert(c * b == b * c) by (nonlinear_arith);
    assert(c < 0 ==> b * c < 0) by (nonlinear_arith)
        requires b > 0;
    assert(c > 0 ==> b * c > 0) by (nonlinear_arith)
        requires b > 0;
}

/// Both arguments divide evenly by their gcd, which is positive unless both
/// are zero.
pub proof fn lemma_gcd_divides(a: nat, b: nat)
    ensures
        a > 0 || b > 0 ==> gcd(a, b) > 0,
        gcd(a, b) > 0 ==> a % gcd(a, b) == 0 && b % gcd(a, b) == 0,
    decreases b,
{
    if b == 0 {
        if a > 0 {
            lemma_mod_multiples_basic(1, a as int);
            lemma_mod_multiples_basic(0, a as int);
        }
    } else {
        let r = a % b;
        lemma_gcd_divides(b, r);
        let g = gcd(b, r);
        if g > 0 {
            lemma_fundamental_div_mod(a as int, b as int);
            lemma_fundamental_div_mod(b as int, g as int);
            lemma_fundamental_div_mod(r as int, g as int);
            let k = (a / b) * (b / g) + r / g;
            assert(a == k * g) by (nonlinear_arith)
                requires
                    a == b * (a / b) + r,
                    b == g * (b / g),
                    r == g * (r / g),
                    k == (a / b) * (b / g) + r / g,
            ;
            lemma_mod_multiples_basic(k as int, g as int);
        }
    }
}

/// A value built by `from_frac` equals the fraction it was built from.
pub proof fn lemma_from_frac_denotes(n: int, d: int)
    requires
        d > 0,
    ensures
        from_frac(n, d) matches Some(v) ==> v.wf() && v.denotes(n, d),
{
    let g = gcd(abs(n), d as nat);
    lemma_gcd_divides(abs(n), d as nat);
    lemma_fundamental_div_mod(abs(n) as int, g as int);
    lemma_fundamental_div_mod(d, g as int);
    let qn = abs(n) / g;
    let qd = d as nat / g;
    assert(qd > 0) by (nonlinear_arith)
        requires d == g * qd + 0, d > 0, g > 0, qd >= 0;
    assert(qn * d == abs(n) * qd) by (nonlinear_arith)
        requires d == g * qd, abs(n) == g * qn;
    assert(reduced_num(n, d) * d == n * reduced_den(n, d)) by (nonlinear_arith)
        requires
            qn * d == abs(n) * qd,
            reduced_den(n, d) == qd,
            n < 0 ==> reduced_num(n, d) == -qn && abs(n) == -n,
            n >= 0 ==> reduced_num(n, d) == qn && abs(n) == n,
    ;
}

/// `n / d` in lowest terms, for `d > 0`.
pub fn make(n: i128, d: i128) -> (r: Option<Rational>)
    requires
        d > 0,
        n > i128::MIN,
    ensures
        r == from_frac(n as int, d as int),
{
    let an: u128 = if n < 0 { (-n) as u128 } else { n as u128 };
    let g = gcd_exec(an, d as u128);
    proof { lemma_gcd_divides(an as nat, d as nat); }
    let qn = an / g;
    let qd = (d as u128) / g;
    if qn <= 0x7fff_ffff_ffff_ffff && qd <= 0x7fff_ffff_ffff_ffff {
        let num: i64 = if n < 0 { -(qn as i64) } else { qn as i64 };
        Some(Rational { num, den: qd as i64 })
    } else {
        None
    }
}

fn gcd_exec(a0: u128, b0: u128) -> (g: u128)
    ensures
        g == gcd(a0 as nat, b0 as nat),
{
    let mut a = a0;
    let mut b = b0;
    while b != 0
        invariant
            gcd(a as nat, b as nat) == gcd(a0 as nat, b0 as nat),
        decreases b,
    {
        let r = a % b;
        a = b;
        b = r;
    }
    a
}

} // verus!
