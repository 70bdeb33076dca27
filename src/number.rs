use vstd::arithmetic::div_mod::*;
use vstd::arithmetic::mul::*;
use vstd::prelude::*;

verus! {

/// Greatest common divisor, by Euclid's algorithm.
pub open spec fn gcd_spec(a: nat, b: nat) -> nat
    decreases b,
{
    if b == 0 {
        a
    } else {
        gcd_spec(b, a % b)
    }
}

/// `d` divides `q * b + r` whenever it divides `b` and `r`.
proof fn lemma_divides_combination(d: int, b: int, r: int, q: int)
    requires
        d > 0,
        b % d == 0,
        r % d == 0,
    ensures
        (q * b + r) % d == 0,
{
    lemma_fundamental_div_mod(b, d);
    lemma_fundamental_div_mod(r, d);
    let kb = b / d;
    let kr = r / d;
    assert(q * b + r == (q * kb + kr) * d) by (nonlinear_arith)
        requires
            b == d * kb,
            r == d * kr,
    ;
    lemma_mod_multiples_basic(q * kb + kr, d);
}

/// The gcd divides both arguments, and is positive unless both are zero.
pub proof fn lemma_gcd_divides(a: nat, b: nat)
    ensures
        (a > 0 || b > 0) ==> gcd_spec(a, b) > 0,
        gcd_spec(a, b) > 0 ==> a % gcd_spec(a, b) == 0 && b % gcd_spec(a, b) == 0,
        a == 0 && b == 0 ==> gcd_spec(a, b) == 0,
    decreases b,
{
    if b == 0 {
        if a > 0 {
            lemma_mod_self_0(a as int);
            lemma_small_mod(0, a);
        }
    } else {
        let r = a % b;
        lemma_gcd_divides(b, r);
        let g = gcd_spec(b, r);
        assert(g > 0);
        lemma_fundamental_div_mod(a as int, b as int);
        lemma_divides_combination(g as int, b as int, r as int, (a / b) as int);
        assert(a == (a / b) * b + r) by (nonlinear_arith)
            requires
                a == b * (a / b) + r,
        ;
    }
}

/// Every common divisor of `a` and `b` divides their gcd.
pub proof fn lemma_gcd_greatest(a: nat, b: nat, d: nat)
    requires
        d > 0,
        a % d == 0,
        b % d == 0,
    ensures
        gcd_spec(a, b) % d == 0,
    decreases b,
{
    if b > 0 {
        let r = a % b;
        lemma_fundamental_div_mod(a as int, b as int);
        assert(r == (-(a / b) as int) * b + a) by (nonlinear_arith)
            requires
                a == b * (a / b) + r,
        ;
        lemma_divides_combination(d as int, b as int, a as int, -(a / b) as int);
        lemma_gcd_greatest(b, r, d);
    }
}

/// Dividing both arguments by their gcd leaves them coprime.
pub proof fn lemma_gcd_reduced(a: nat, b: nat)
    requires
        a > 0 || b > 0,
    ensures
        gcd_spec(a / gcd_spec(a, b), b / gcd_spec(a, b)) == 1,
{
    let g = gcd_spec(a, b);
    lemma_gcd_divides(a, b);
    let x = a / g;
    let y = b / g;
    lemma_fundamental_div_mod(a as int, g as int);
    lemma_fundamental_div_mod(b as int, g as int);
    assert(x > 0 || y > 0) by (nonlinear_arith)
        requires
            a == g * x,
            b == g * y,
            a > 0 || b > 0,
    ;
    lemma_gcd_divides(x, y);
    let h = gcd_spec(x, y);
    lemma_fundamental_div_mod(x as int, h as int);
    lemma_fundamental_div_mod(y as int, h as int);
    let x1 = x / h;
    let y1 = y / h;
    assert(a == (x1 * (g * h)) && b == (y1 * (g * h))) by (nonlinear_arith)
        requires
            a == g * x,
            b == g * y,
            x == h * x1,
            y == h * y1,
    ;
    assert(g * h > 0) by (nonlinear_arith)
        requires
            g > 0,
            h > 0,
    ;
    lemma_mod_multiples_basic(x1 as int, (g * h) as int);
    lemma_mod_multiples_basic(y1 as int, (g * h) as int);
    lemma_gcd_greatest(a, b, g * h);
    lemma_fundamental_div_mod(g as int, (g * h) as int);
    let z = g / (g * h);
    assert(h == 1) by (nonlinear_arith)
        requires
            g == (g * h) * z,
            g > 0,
            h > 0,
    ;
}

/// Greatest common divisor of two 32-bit values.
pub fn gcd(a: u32, b: u32) -> (r: u32)
    ensures
        r == gcd_spec(a as nat, b as nat),
    decreases b,
{
    if b == 0 {
        a
    } else {
        gcd(b, a % b)
    }
}


/// `b` raised to the power `e`.
pub open spec fn pow_nat(b: nat, e: nat) -> nat
    decreases e,
{
    if e == 0 {
        1
    } else {
        b * pow_nat(b, (e - 1) as nat)
    }
}

/// The product of two values below 2^32 in magnitude is below 2^64 in magnitude.
proof fn lemma_abs_product_bound(x: int, y: int)
    requires
        -0x1_0000_0000 < x < 0x1_0000_0000,
        -0x1_0000_0000 < y < 0x1_0000_0000,
    ensures
        -0x1_0000_0000_0000_0000 < x * y < 0x1_0000_0000_0000_0000,
{
    assert(-0x1_0000_0000_0000_0000 < x * y < 0x1_0000_0000_0000_0000) by (nonlinear_arith)
        requires
            -0x1_0000_0000 < x < 0x1_0000_0000,
            -0x1_0000_0000 < y < 0x1_0000_0000,
    ;
}

/// Absolute value.
pub open spec fn abs(v: int) -> int {
    if v >= 0 {
        v
    } else {
        -v
    }
}

/// `v` is a divisor of `n`, of either sign; zero counts as the only divisor
/// of zero.
pub open spec fn is_signed_divisor(n: nat, v: int) -> bool {
    if n == 0 {
        v == 0
    } else {
        v != 0 && (n as int) % abs(v) == 0
    }
}

/// A divisor of `n` below `n` is at most `n / 2`.
proof fn lemma_proper_divisor_bound(n: nat, m: nat)
    requires
        0 < m < n,
        n % m == 0,
    ensures
        m <= n / 2,
{
    lemma_fundamental_div_mod(n as int, m as int);
    let q = n / m;
    assert(q >= 2) by (nonlinear_arith)
        requires
            n == m * q,
            0 < m < n,
    ;
    assert(m * 2 <= n) by (nonlinear_arith)
        requires
            n == m * q,
            q >= 2,
            m > 0,
    ;
}

/// Powers of a positive base are positive and grow with the exponent.
proof fn lemma_pow_mono(b: nat, e1: nat, e2: nat)
    requires
        e1 <= e2,
        b > 0 || e1 > 0,
    ensures
        pow_nat(b, e1) <= pow_nat(b, e2),
        b > 0 ==> pow_nat(b, e1) > 0,
    decreases e2,
{
    if b == 0 {
        lemma_pow_zero_base(e1);
        lemma_pow_zero_base(e2);
    } else if e2 > e1 {
        lemma_pow_mono(b, e1, (e2 - 1) as nat);
        let p = pow_nat(b, (e2 - 1) as nat);
        assert(p <= b * p) by (nonlinear_arith)
            requires
                b > 0,
                p > 0,
        ;
    } else if e1 > 0 {
        lemma_pow_mono(b, (e1 - 1) as nat, (e1 - 1) as nat);
        let p = pow_nat(b, (e1 - 1) as nat);
        assert(b * p > 0) by (nonlinear_arith)
            requires
                b > 0,
                p > 0,
        ;
    }
}

/// Zero raised to a positive power is zero.
proof fn lemma_pow_zero_base(e: nat)
    requires
        e > 0,
    ensures
        pow_nat(0, e) == 0,
{
}

/// One is in lowest terms.
proof fn lemma_one_wf()
    ensures
        Number::one().wf(),
{
    assert(gcd_spec(1, 0) == 1);
    assert(gcd_spec(1, 1) == 1);
}

/// Greatest common divisor of two 128-bit values, used for intermediate
/// products that do not fit in 32 bits.
fn gcd_wide(a: u128, b: u128) -> (r: u128)
    ensures
        r == gcd_spec(a as nat, b as nat),
    decreases b,
{
    if b == 0 {
        a
    } else {
        gcd_wide(b, a % b)
    }
}

/// A rational number held as a magnitude fraction and an explicit sign.
///
/// A well-formed value has a positive denominator and is in lowest terms.
/// Zero has numerator 0 and denominator 1; its sign bit carries no meaning.
#[derive(Debug, Clone, Copy)]
pub struct Number {
    pub numerator: u32,
    pub denominator: u32,
    pub positive: bool,
}

impl Number {
    /// The denominator is positive, so the value is defined.
    pub open spec fn valid(self) -> bool {
        self.denominator > 0
    }

    /// Canonical form: a positive denominator and a fraction in lowest terms.
    pub open spec fn wf(self) -> bool {
        &&& self.valid()
        &&& gcd_spec(self.numerator as nat, self.denominator as nat) == 1
    }

    /// The numerator with the sign folded in.
    pub open spec fn signed(self) -> int {
        if self.positive {
            self.numerator as int
        } else {
            -(self.numerator as int)
        }
    }

    /// `self` and `other` denote the same rational number.
    pub open spec fn same_value(self, other: Number) -> bool {
        self.signed() * other.denominator == other.signed() * self.denominator
    }

    /// The fraction `n / d` with sign `positive`, divided through by the gcd.
    pub open spec fn canon(n: nat, d: nat, positive: bool) -> Number {
        let g = gcd_spec(n, d);
        Number { numerator: (n / g) as u32, denominator: (d / g) as u32, positive }
    }

    /// The lowest-terms form of `n / d` fits in 32-bit fields.
    pub open spec fn canon_fits(n: nat, d: nat) -> bool {
        let g = gcd_spec(n, d);
        n / g <= u32::MAX && d / g <= u32::MAX
    }

    /// `canon(n, d, positive)` when it is representable, `None` otherwise.
    pub open spec fn reduce(n: nat, d: nat, positive: bool) -> Option<Number> {
        if Number::canon_fits(n, d) {
            Some(Number::canon(n, d, positive))
        } else {
            None
        }
    }

    /// The number zero.
    pub open spec fn zero() -> Number {
        Number { numerator: 0, denominator: 1, positive: true }
    }

    /// The number one.
    pub open spec fn one() -> Number {
        Number { numerator: 1, denominator: 1, positive: true }
    }

    /// Reduction preserves the value and yields a well-formed number.
    pub proof fn lemma_canon(n: nat, d: nat, positive: bool)
        requires
            d > 0,
        ensures
            Number::canon_fits(n, d) ==> Number::canon(n, d, positive).wf(),
            n / gcd_spec(n, d) <= n,
            d / gcd_spec(n, d) <= d,
            ({
                let g = gcd_spec(n, d);
                &&& g > 0
                &&& n == (n / g) * g
                &&& d == (d / g) * g
                &&& n / g * d == d / g * n
                &&& (n > 0 <==> n / g > 0)
                &&& d / g > 0
            }),
    {
        let g = gcd_spec(n, d);
        lemma_gcd_divides(n, d);
        lemma_gcd_reduced(n, d);
        lemma_fundamental_div_mod(n as int, g as int);
        lemma_fundamental_div_mod(d as int, g as int);
        let x = n / g;
        let y = d / g;
        assert(x <= n && y <= d && y > 0 && (n > 0 <==> x > 0) && x * d == y * n) by (nonlinear_arith)
            requires
                n == g * x,
                d == g * y,
                g > 0,
                d > 0,
        ;
    }

    /// Reduces `n / d` with the given sign; `None` when the result does not fit.
    fn reduce_wide(n: u128, d: u128, positive: bool) -> (r: Option<Number>)
        requires
            d > 0,
        ensures
            r == Number::reduce(n as nat, d as nat, positive),
    {
        proof {
            Number::lemma_canon(n as nat, d as nat, positive);
        }
        let g = gcd_wide(n, d);
        let rn = n / g;
        let rd = d / g;
        if rn <= u32::MAX as u128 && rd <= u32::MAX as u128 {
            Some(Number { numerator: rn as u32, denominator: rd as u32, positive })
        } else {
            None
        }
    }

    /// Builds `numerator / denominator` with the given sign, in lowest terms.
    pub fn new(numerator: u32, denominator: u32, sign: bool) -> (r: Number)
        requires
            denominator > 0,
        ensures
            r == Number::canon(numerator as nat, denominator as nat, sign),
            r.wf(),
    {
        let mut out = Number { numerator, denominator, positive: sign };
        out.simplify();
        out
    }

    /// Like `new`, but rejects a zero denominator with `None`.
    pub fn try_new(numerator: u32, denominator: u32, sign: bool) -> (r: Option<Number>)
        ensures
            denominator == 0 <==> r is None,
            denominator > 0 ==> r == Some(Number::canon(numerator as nat, denominator as nat, sign)),
    {
        if denominator == 0 {
            None
        } else {
            Some(Number::new(numerator, denominator, sign))
        }
    }

    /// Divides numerator and denominator by their gcd, keeping the sign.
    pub fn simplify(&mut self)
        requires
            old(self).valid(),
        ensures
            *final(self) == Number::canon(
                old(self).numerator as nat,
                old(self).denominator as nat,
                old(self).positive,
            ),
            final(self).wf(),
    {
        proof {
            Number::lemma_canon(self.numerator as nat, self.denominator as nat, self.positive);
        }
        let fac = gcd(self.numerator, self.denominator);
        self.numerator = self.numerator / fac;
        self.denominator = self.denominator / fac;
    }

    /// The exact sum, reduced; `None` when it is not representable.
    pub open spec fn sum(self, rhs: Number) -> Option<Number> {
        let n = self.signed() * rhs.denominator + rhs.signed() * self.denominator;
        Number::reduce(
            (if n >= 0 { n } else { -n }) as nat,
            (self.denominator * rhs.denominator) as nat,
            n >= 0,
        )
    }

    /// The exact product, reduced; `None` when it is not representable.
    pub open spec fn product(self, rhs: Number) -> Option<Number> {
        Number::reduce(
            (self.numerator * rhs.numerator) as nat,
            (self.denominator * rhs.denominator) as nat,
            self.positive == rhs.positive,
        )
    }

    /// The exact quotient, reduced; `None` when dividing by zero or when it
    /// is not representable.
    pub open spec fn quotient(self, rhs: Number) -> Option<Number> {
        if rhs.numerator == 0 {
            None
        } else {
            Number::reduce(
                (self.numerator * rhs.denominator) as nat,
                (self.denominator * rhs.numerator) as nat,
                self.positive == rhs.positive,
            )
        }
    }

    /// `self` raised to the power `k`. A non-positive `k` gives one. For a
    /// positive `k` the result is `None` when the numerator or denominator
    /// raised to `k` exceeds 32 bits; its sign is positive for an even `k`.
    pub open spec fn power(self, k: int) -> Option<Number> {
        if k <= 0 {
            Some(Number::one())
        } else {
            let n = pow_nat(self.numerator as nat, k as nat);
            let d = pow_nat(self.denominator as nat, k as nat);
            if n <= u32::MAX && d <= u32::MAX {
                Some(Number::canon(n, d, k % 2 == 0 || self.positive))
            } else {
                None
            }
        }
    }

    /// Adds two numbers; `None` when the reduced sum does not fit in 32 bits.
    pub fn checked_add(self, rhs: Number) -> (r: Option<Number>)
        requires
            self.valid(),
            rhs.valid(),
        ensures
            r == self.sum(rhs),
    {
        let a: i128 = if self.positive {
            self.numerator as i128
        } else {
            -(self.numerator as i128)
        };
        let b: i128 = if rhs.positive {
            rhs.numerator as i128
        } else {
            -(rhs.numerator as i128)
        };
        proof {
            lemma_abs_product_bound(a as int, rhs.denominator as int);
            lemma_abs_product_bound(b as int, self.denominator as int);
        }
        let x: i128 = a * (rhs.denominator as i128);
        let y: i128 = b * (self.denominator as i128);
        let n: i128 = x + y;
        let mag: u128 = if n >= 0 {
            n as u128
        } else {
            (-n) as u128
        };
        proof {
            lemma_abs_product_bound(self.denominator as int, rhs.denominator as int);
            lemma_mul_strictly_positive(self.denominator as int, rhs.denominator as int);
        }
        let d: u128 = (self.denominator as u128) * (rhs.denominator as u128);
        Number::reduce_wide(mag, d, n >= 0)
    }

    /// Adds two numbers whose reduced sum fits in 32 bits.
    pub fn add(self, rhs: Number) -> (r: Number)
        requires
            self.valid(),
            rhs.valid(),
            self.sum(rhs) is Some,
        ensures
            Some(r) == self.sum(rhs),
            r.wf(),
    {
        proof {
            Number::lemma_arithmetic_closed(self, rhs);
        }
        self.checked_add(rhs).unwrap()
    }

    /// Adds `rhs` in place; the reduced sum must fit in 32 bits.
    pub fn add_assign(&mut self, rhs: Number)
        requires
            old(self).valid(),
            rhs.valid(),
            old(self).sum(rhs) is Some,
        ensures
            Some(*final(self)) == old(self).sum(rhs),
            final(self).wf(),
    {
        *self = self.add(rhs);
    }

    /// Multiplies two numbers; `None` when the reduced product does not fit.
    pub fn checked_mul(self, rhs: Number) -> (r: Option<Number>)
        requires
            self.valid(),
            rhs.valid(),
        ensures
            r == self.product(rhs),
    {
        proof {
            lemma_abs_product_bound(self.numerator as int, rhs.numerator as int);
            lemma_abs_product_bound(self.denominator as int, rhs.denominator as int);
            lemma_mul_strictly_positive(self.denominator as int, rhs.denominator as int);
        }
        let n: u128 = (self.numerator as u128) * (rhs.numerator as u128);
        let d: u128 = (self.denominator as u128) * (rhs.denominator as u128);
        Number::reduce_wide(n, d, self.positive == rhs.positive)
    }

    /// Multiplies two numbers whose reduced product fits in 32 bits.
    pub fn mul(self, rhs: Number) -> (r: Number)
        requires
            self.valid(),
            rhs.valid(),
            self.product(rhs) is Some,
        ensures
            Some(r) == self.product(rhs),
            r.wf(),
    {
        proof {
            Number::lemma_arithmetic_closed(self, rhs);
        }
        self.checked_mul(rhs).unwrap()
    }

    /// Divides by `rhs`; `None` when `rhs` is zero or the reduced quotient
    /// does not fit in 32 bits.
    pub fn checked_div(self, rhs: Number) -> (r: Option<Number>)
        requires
            self.valid(),
            rhs.valid(),
        ensures
            r == self.quotient(rhs),
    {
        if rhs.numerator == 0 {
            return None;
        }
        proof {
            lemma_abs_product_bound(self.numerator as int, rhs.denominator as int);
            lemma_abs_product_bound(self.denominator as int, rhs.numerator as int);
            lemma_mul_strictly_positive(self.denominator as int, rhs.numerator as int);
        }
        let n: u128 = (self.numerator as u128) * (rhs.denominator as u128);
        let d: u128 = (self.denominator as u128) * (rhs.numerator as u128);
        Number::reduce_wide(n, d, self.positive == rhs.positive)
    }

    /// Divides by a non-zero `rhs` whose reduced quotient fits in 32 bits.
    pub fn div(self, rhs: Number) -> (r: Number)
        requires
            self.valid(),
            rhs.valid(),
            self.quotient(rhs) is Some,
        ensures
            Some(r) == self.quotient(rhs),
            r.wf(),
    {
        proof {
            Number::lemma_arithmetic_closed(self, rhs);
        }
        self.checked_div(rhs).unwrap()
    }

    /// Sums, products and quotients, when representable, are in lowest
    /// terms with a positive denominator, and denote the exact result.
    pub proof fn lemma_arithmetic_closed(a: Number, b: Number)
        requires
            a.valid(),
            b.valid(),
        ensures
            a.sum(b) matches Some(r) ==> r.wf() && r.signed() * (a.denominator * b.denominator)
                == (a.signed() * b.denominator + b.signed() * a.denominator) * r.denominator,
            a.product(b) matches Some(r) ==> r.wf() && r.signed() * (a.denominator * b.denominator)
                == a.signed() * b.signed() * r.denominator,
            a.quotient(b) matches Some(r) ==> r.wf() && r.signed() * b.signed() * a.denominator
                == a.signed() * b.denominator * r.denominator,
    {
        lemma_mul_strictly_positive(a.denominator as int, b.denominator as int);
        let n = a.signed() * b.denominator + b.signed() * a.denominator;
        let m: nat = (if n >= 0 { n } else { -n }) as nat;
        let d: nat = (a.denominator * b.denominator) as nat;
        Number::lemma_canon(m, d, n >= 0);
        Number::lemma_reduce_value(m, d, n >= 0, n);
        let pos = a.positive == b.positive;
        let sa: int = if a.positive { 1 } else { -1 };
        let sb: int = if b.positive { 1 } else { -1 };
        let sp: int = if pos { 1 } else { -1 };
        assert(sp == sa * sb && a.signed() == sa * a.numerator && b.signed() == sb * b.numerator)
            by {
            if a.positive {
                if b.positive {
                } else {
                }
            } else {
                if b.positive {
                } else {
                }
            }
        }
        let pn: nat = (a.numerator * b.numerator) as nat;
        assert(a.signed() * b.signed() == sp * pn) by (nonlinear_arith)
            requires
                sp == sa * sb,
                a.signed() == sa * a.numerator,
                b.signed() == sb * b.numerator,
                pn == a.numerator * b.numerator,
        ;
        Number::lemma_canon(pn, d, pos);
        Number::lemma_reduce_value(pn, d, pos, sp * pn);
        if b.numerator != 0 {
            let qn: nat = (a.numerator * b.denominator) as nat;
            let qd: nat = (a.denominator * b.numerator) as nat;
            lemma_mul_strictly_positive(a.denominator as int, b.numerator as int);
            Number::lemma_canon(qn, qd, pos);
            Number::lemma_reduce_value(qn, qd, pos, sp * qn);
            if let Some(r) = a.quotient(b) {
                assert(r.signed() * b.signed() * a.denominator
                    == a.signed() * b.denominator * r.denominator) by (nonlinear_arith)
                    requires
                        r.signed() * qd == sp * qn * r.denominator,
                        qd == a.denominator * b.numerator,
                        qn == a.numerator * b.denominator,
                        sp == sa * sb,
                        sa == 1 || sa == -1,
                        sb == 1 || sb == -1,
                        a.signed() == sa * a.numerator,
                        b.signed() == sb * b.numerator,
                ;
            }
        }
    }

    /// A reduced fraction, read with its sign, equals `v / d`, where `v` is
    /// `n` with the sign `positive`.
    proof fn lemma_reduce_value(n: nat, d: nat, positive: bool, v: int)
        requires
            d > 0,
            v == (if positive { n as int } else { -(n as int) }),
        ensures
            Number::reduce(n, d, positive) matches Some(r) ==> r.signed() * d == v * r.denominator,
    {
        Number::lemma_canon(n, d, positive);
        let g = gcd_spec(n, d);
        let x = n / g;
        let y = d / g;
        if Number::canon_fits(n, d) {
            let r = Number::canon(n, d, positive);
            assert(r.numerator == x && r.denominator == y);
            if positive {
                assert(x * d == n * y) by (nonlinear_arith)
                    requires
                        x * d == y * n,
                ;
            } else {
                assert(-(x as int) * d == -(n as int) * y) by (nonlinear_arith)
                    requires
                        x * d == y * n,
                ;
            }
        }
    }

    /// Reducing is idempotent: building a number again from the parts of
    /// `Number::new(n, d, sign)`, with the same sign, gives the same number.
    pub proof fn lemma_new_idempotent(n: u32, d: u32, sign: bool)
        requires
            d > 0,
        ensures
            ({
                let r = Number::canon(n as nat, d as nat, sign);
                Number::canon(r.numerator as nat, r.denominator as nat, sign) == r
            }),
    {
        Number::lemma_canon(n as nat, d as nat, sign);
        let r = Number::canon(n as nat, d as nat, sign);
        lemma_div_basics(r.numerator as int);
        lemma_div_basics(r.denominator as int);
    }

    /// Raises to the power `degree`; `None` when the numerator or the
    /// denominator raised to `degree` exceeds 32 bits.
    pub fn checked_pow(&self, degree: i32) -> (r: Option<Number>)
        requires
            self.valid(),
        ensures
            r == self.power(degree as int),
    {
        if degree <= 0 {
            return Some(Number { numerator: 1, denominator: 1, positive: true });
        }
        let mut numerator: u32 = 1;
        let mut denominator: u32 = 1;
        let mut i: i32 = 0;
        while i < degree
            invariant
                0 <= i <= degree,
                self.valid(),
                numerator == pow_nat(self.numerator as nat, i as nat),
                denominator == pow_nat(self.denominator as nat, i as nat),
            decreases degree - i,
        {
            proof {
                lemma_abs_product_bound(numerator as int, self.numerator as int);
                lemma_abs_product_bound(denominator as int, self.denominator as int);
            }
            let n: u64 = (numerator as u64) * (self.numerator as u64);
            let d: u64 = (denominator as u64) * (self.denominator as u64);
            proof {
                let ni = (i + 1) as nat;
                assert(pow_nat(self.numerator as nat, ni) == self.numerator * pow_nat(self.numerator as nat, (ni - 1) as nat));
                assert(pow_nat(self.denominator as nat, ni) == self.denominator * pow_nat(self.denominator as nat, (ni - 1) as nat));
                lemma_mul_is_commutative(numerator as int, self.numerator as int);
                lemma_mul_is_commutative(denominator as int, self.denominator as int);
            }
            if n > u32::MAX as u64 || d > u32::MAX as u64 {
                proof {
                    if n > u32::MAX {
                        lemma_pow_mono(self.numerator as nat, (i + 1) as nat, degree as nat);
                    } else {
                        lemma_pow_mono(self.denominator as nat, (i + 1) as nat, degree as nat);
                    }
                }
                return None;
            }
            numerator = n as u32;
            denominator = d as u32;
            i = i + 1;
        }
        proof {
            lemma_pow_mono(self.denominator as nat, 0, degree as nat);
        }
        Some(Number::new(numerator, denominator, degree % 2 == 0 || self.positive))
    }

    /// Raises to the power `degree`, which must stay within 32 bits; a
    /// non-positive `degree` gives one.
    pub fn pow(&self, degree: i32) -> (r: Number)
        requires
            self.valid(),
            self.power(degree as int) is Some,
        ensures
            Some(r) == self.power(degree as int),
            r.wf(),
    {
        proof {
            Number::lemma_power_closed(*self, degree as int);
        }
        self.checked_pow(degree).unwrap()
    }

    /// Powers, when representable, are in lowest terms with a positive denominator.
    pub proof fn lemma_power_closed(a: Number, k: int)
        requires
            a.valid(),
        ensures
            a.power(k) matches Some(r) ==> r.wf(),
    {
        if k <= 0 {
            lemma_one_wf();
        } else {
            lemma_pow_mono(a.denominator as nat, 0, k as nat);
            let n = pow_nat(a.numerator as nat, k as nat);
            let d = pow_nat(a.denominator as nat, k as nat);
            Number::lemma_canon(n, d, k % 2 == 0 || a.positive);
        }
    }

    /// Multiplies by a whole number whose product with the numerator fits.
    pub fn mul_int(self, rhs: u32) -> (r: Number)
        requires
            self.valid(),
            self.numerator * rhs <= u32::MAX,
        ensures
            r == Number::canon((self.numerator * rhs) as nat, self.denominator as nat, self.positive),
            r.wf(),
    {
        Number::new(self.numerator * rhs, self.denominator, self.positive)
    }

    /// Divides by a positive whole number whose product with the denominator fits.
    pub fn div_int(self, rhs: u32) -> (r: Number)
        requires
            self.valid(),
            rhs > 0,
            self.denominator * rhs <= u32::MAX,
        ensures
            r == Number::canon(self.numerator as nat, (self.denominator * rhs) as nat, self.positive),
            r.wf(),
    {
        proof {
            lemma_mul_strictly_positive(self.denominator as int, rhs as int);
        }
        Number::new(self.numerator, self.denominator * rhs, self.positive)
    }

    /// Every divisor of the numerator, each followed by its negation. A zero
    /// numerator gives `[0, 0]`.
    pub fn factors(&self) -> (r: Vec<i32>)
        requires
            self.numerator <= i32::MAX,
        ensures
            forall|v: i32| r@.contains(v) <==> is_signed_divisor(self.numerator as nat, v as int),
            self.numerator > 0 ==> r@.no_duplicates(),
    {
        let n = self.numerator;
        let mut out: Vec<i32> = Vec::new();
        let mut x: u32 = 1;
        while x <= n / 2
            invariant
                n == self.numerator,
                n <= i32::MAX,
                1 <= x <= n / 2 + 1,
                forall|v: i32| out@.contains(v) <==> (v != 0 && abs(v as int) < x && (n as int) % abs(v as int) == 0),
                out@.no_duplicates(),
            decreases n / 2 + 1 - x,
        {
            if n % x == 0 {
                let ghost before = out@;
                out.push(x as i32);
                out.push(-(x as i32));
                proof {
                    assert forall|v: i32| out@.contains(v) <==> (v != 0 && abs(v as int) < x + 1 && (n as int) % abs(v as int) == 0) by {
                        if out@.contains(v) && !before.contains(v) {
                            assert(v == x as i32 || v == -(x as i32)) by {
                                let k = choose|k: int| 0 <= k < out@.len() && out@[k] == v;
                                assert(k >= before.len());
                            }
                        }
                        if v != 0 && abs(v as int) == x && (n as int) % abs(v as int) == 0 {
                            if v > 0 {
                                assert(out@[before.len() as int] == v);
                            } else {
                                assert(out@[before.len() as int + 1] == v);
                            }
                        }
                        if before.contains(v) {
                            let k = choose|k: int| 0 <= k < before.len() && before[k] == v;
                            assert(out@[k] == v);
                        }
                    }
                    assert forall|i: int, j: int| 0 <= i < out@.len() && 0 <= j < out@.len() && i != j
                        implies out@[i] != out@[j] by {
                        if i < before.len() {
                            assert(before.contains(out@[i]));
                        }
                        if j < before.len() {
                            assert(before.contains(out@[j]));
                        }
                    }
                }
            } else {
                proof {
                    assert forall|v: i32| out@.contains(v) <==> (v != 0 && abs(v as int) < x + 1 && (n as int) % abs(v as int) == 0) by {
                        if abs(v as int) == x {
                            assert((n as int) % abs(v as int) != 0);
                        }
                    }
                }
            }
            x = x + 1;
        }
        let ghost before = out@;
        out.push(n as i32);
        out.push(-(n as i32));
        proof {
            assert forall|v: i32| out@.contains(v) <==> is_signed_divisor(n as nat, v as int) by {
                if n > 0 && v != 0 && (n as int) % abs(v as int) == 0 && abs(v as int) < n {
                    lemma_proper_divisor_bound(n as nat, abs(v as int) as nat);
                }
                if out@.contains(v) && !before.contains(v) {
                    let k = choose|k: int| 0 <= k < out@.len() && out@[k] == v;
                    assert(k >= before.len());
                    if n > 0 {
                        lemma_mod_self_0(n as int);
                    }
                }
                if is_signed_divisor(n as nat, v as int) && !before.contains(v) {
                    if n == 0 {
                        assert(out@[before.len() as int] == v);
                    } else if abs(v as int) >= n {
                        if abs(v as int) > n {
                            lemma_small_mod(n as nat, abs(v as int) as nat);
                        }
                        if v > 0 {
                            assert(out@[before.len() as int] == v);
                        } else {
                            assert(out@[before.len() as int + 1] == v);
                        }
                    }
                }
                if before.contains(v) {
                    let k = choose|k: int| 0 <= k < before.len() && before[k] == v;
                    assert(out@[k] == v);
                }
            }
            if n > 0 {
                assert forall|i: int, j: int| 0 <= i < out@.len() && 0 <= j < out@.len() && i != j
                    implies out@[i] != out@[j] by {
                    if i < before.len() {
                        assert(before.contains(out@[i]));
                    }
                    if j < before.len() {
                        assert(before.contains(out@[j]));
                    }
                }
            }
        }
        out
    }

    /// The value is not zero.
    pub fn not_zero(&self) -> (r: bool)
        ensures
            r == (self.numerator != 0),
    {
        self.numerator != 0
    }

    /// The value is an integer (in lowest terms, its denominator is 1).
    pub fn is_integer(&self) -> (r: bool)
        ensures
            r == (self.denominator == 1),
    {
        self.denominator == 1
    }
}

} // verus!

verus! {

impl From<u32> for Number {
    /// The whole number `value`.
    fn from(value: u32) -> (r: Number) {
        Number { numerator: value, denominator: 1, positive: true }
    }
}

impl vstd::std_specs::convert::FromSpecImpl<u32> for Number {
    open spec fn obeys_from_spec() -> bool {
        true
    }

    open spec fn from_spec(v: u32) -> Number {
        Number { numerator: v, denominator: 1, positive: true }
    }
}

impl Number {
    /// The signed numerator scaled by the other value's denominator, the key
    /// on which two values are compared.
    fn cross(&self, other: &Number) -> (r: i128)
        ensures
            r == self.signed() * other.denominator,
    {
        let a: i128 = if self.positive {
            self.numerator as i128
        } else {
            -(self.numerator as i128)
        };
        proof {
            lemma_abs_product_bound(a as int, other.denominator as int);
        }
        a * (other.denominator as i128)
    }
}

impl PartialEq for Number {
    /// Equality of values: the sign of zero does not matter.
    fn eq(&self, other: &Number) -> (r: bool) {
        self.cross(other) == other.cross(self)
    }
}

impl vstd::std_specs::cmp::PartialEqSpecImpl for Number {
    open spec fn obeys_eq_spec() -> bool {
        true
    }

    open spec fn eq_spec(&self, other: &Number) -> bool {
        self.same_value(*other)
    }
}

impl Eq for Number {

}

impl PartialOrd for Number {
    /// Orders by value, taking the sign into account.
    fn partial_cmp(&self, other: &Number) -> (r: Option<core::cmp::Ordering>) {
        let a = self.cross(other);
        let b = other.cross(self);
        if a < b {
            Some(core::cmp::Ordering::Less)
        } else if a > b {
            Some(core::cmp::Ordering::Greater)
        } else {
            Some(core::cmp::Ordering::Equal)
        }
    }
}

impl vstd::std_specs::cmp::PartialOrdSpecImpl for Number {
    open spec fn obeys_partial_cmp_spec() -> bool {
        true
    }

    open spec fn partial_cmp_spec(&self, other: &Number) -> Option<core::cmp::Ordering> {
        let a = self.signed() * other.denominator;
        let b = other.signed() * self.denominator;
        if a < b {
            Some(core::cmp::Ordering::Less)
        } else if a > b {
            Some(core::cmp::Ordering::Greater)
        } else {
            Some(core::cmp::Ordering::Equal)
        }
    }
}

} // verus!
