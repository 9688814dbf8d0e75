//! Exact rational quantities (items per minute, scale factors, clock speeds).

use vstd::prelude::*;

verus! {

/// The largest magnitude of a numerator or denominator that a `Rate` stores.
pub const RATE_LIMIT: i64 = 9223372036854775807;

/// A rational number `n / d` as the contracts speak of it.
pub struct Frac {
    pub n: int,
    pub d: int,
}

impl Frac {
    pub open spec fn wf(self) -> bool {
        self.d > 0
    }

    pub open spec fn of_int(k: int) -> Frac {
        Frac { n: k, d: 1 }
    }

    /// Same value (cross-multiplication).
    pub open spec fn eqv(self, o: Frac) -> bool {
        self.n * o.d == o.n * self.d
    }

    pub open spec fn add(self, o: Frac) -> Frac {
        Frac { n: self.n * o.d + o.n * self.d, d: self.d * o.d }
    }

    pub open spec fn neg(self) -> Frac {
        Frac { n: -self.n, d: self.d }
    }

    pub open spec fn sub(self, o: Frac) -> Frac {
        self.add(o.neg())
    }

    pub open spec fn mul(self, o: Frac) -> Frac {
        Frac { n: self.n * o.n, d: self.d * o.d }
    }

    /// Division; the divisor's sign moves to the numerator so that `d` stays positive.
    pub open spec fn div(self, o: Frac) -> Frac {
        if o.n >= 0 {
            Frac { n: self.n * o.d, d: self.d * o.n }
        } else {
            Frac { n: -(self.n * o.d), d: -(self.d * o.n) }
        }
    }

    pub open spec fn is_pos(self) -> bool {
        self.n > 0
    }

    pub open spec fn is_zero(self) -> bool {
        self.n == 0
    }

    /// `self < o`, for positive denominators.
    pub open spec fn lt(self, o: Frac) -> bool {
        self.n * o.d < o.n * self.d
    }

    pub open spec fn le(self, o: Frac) -> bool {
        self.n * o.d <= o.n * self.d
    }

    /// Numerator and denominator both fit a `Rate`.
    pub open spec fn fits(self) -> bool {
        -(RATE_LIMIT as int) <= self.n <= RATE_LIMIT as int && 0 < self.d <= RATE_LIMIT as int
    }
}

pub open spec fn abs(x: int) -> int {
    if x < 0 {
        -x
    } else {
        x
    }
}

pub proof fn lemma_eqv_refl(a: Frac)
    ensures
        a.eqv(a),
{
}

pub proof fn lemma_eqv_sym(a: Frac, b: Frac)
    requires
        a.eqv(b),
    ensures
        b.eqv(a),
{
}

pub proof fn lemma_eqv_trans(a: Frac, b: Frac, c: Frac)
    requires
        b.wf(),
        a.eqv(b),
        b.eqv(c),
    ensures
        a.eqv(c),
{
    assert(a.n * b.d * c.d == b.n * a.d * c.d) by (nonlinear_arith)
        requires a.n * b.d == b.n * a.d;
    assert(b.n * c.d * a.d == c.n * b.d * a.d) by (nonlinear_arith)
        requires b.n * c.d == c.n * b.d;
    assert(a.n * c.d * b.d == c.n * a.d * b.d) by (nonlinear_arith)
        requires a.n * b.d * c.d == b.n * a.d * c.d, b.n * c.d * a.d == c.n * b.d * a.d;
    assert(a.n * c.d == c.n * a.d) by (nonlinear_arith)
        requires a.n * c.d * b.d == c.n * a.d * b.d, b.d > 0;
}

pub proof fn lemma_wf_ops(a: Frac, b: Frac)
    requires
        a.wf(),
        b.wf(),
    ensures
        a.add(b).wf(),
        a.neg().wf(),
        a.sub(b).wf(),
        a.mul(b).wf(),
        b.n != 0 ==> a.div(b).wf(),
{
    assert(a.d * b.d > 0) by (nonlinear_arith)
        requires a.d > 0, b.d > 0;
    if b.n > 0 {
        assert(a.d * b.n > 0) by (nonlinear_arith)
            requires a.d > 0, b.n > 0;
    } else if b.n < 0 {
        assert(a.d * b.n < 0) by (nonlinear_arith)
            requires a.d > 0, b.n < 0;
    }
}

proof fn lemma_regroup(p: int, q: int, r: int, s: int, t: int, u: int)
    ensures
        (p * q + r * s) * (t * u) == (p * t) * (q * u) + (r * u) * (s * t),
{
    assert((p * q + r * s) * (t * u) == (p * q) * (t * u) + (r * s) * (t * u)) by (nonlinear_arith);
    assert((p * q) * (t * u) == (p * t) * (q * u)) by (nonlinear_arith);
    assert((r * s) * (t * u) == (r * u) * (s * t)) by (nonlinear_arith);
}

proof fn lemma_assoc_num(an: int, ad: int, bn: int, bd: int, cn: int, cd: int)
    ensures
        (an * bd + bn * ad) * cd + cn * (ad * bd) == an * (bd * cd) + (bn * cd + cn * bd) * ad,
{
    assert((an * bd + bn * ad) * cd == an * bd * cd + bn * ad * cd) by (nonlinear_arith);
    assert((bn * cd + cn * bd) * ad == bn * cd * ad + cn * bd * ad) by (nonlinear_arith);
    assert(an * bd * cd == an * (bd * cd)) by (nonlinear_arith);
    assert(bn * ad * cd == bn * cd * ad) by (nonlinear_arith);
    assert(cn * (ad * bd) == cn * bd * ad) by (nonlinear_arith);
}

pub proof fn lemma_add_congr(a: Frac, a2: Frac, b: Frac, b2: Frac)
    requires
        a.eqv(a2),
        b.eqv(b2),
    ensures
        a.add(b).eqv(a2.add(b2)),
{
    lemma_regroup(a.n, b.d, b.n, a.d, a2.d, b2.d);
    lemma_regroup(a2.n, b2.d, b2.n, a2.d, a.d, b.d);
    assert(a.d * a2.d == a2.d * a.d) by (nonlinear_arith);
    assert(b.d * b2.d == b2.d * b.d) by (nonlinear_arith);
}

pub proof fn lemma_mul_congr(a: Frac, a2: Frac, b: Frac, b2: Frac)
    requires
        a.eqv(a2),
        b.eqv(b2),
    ensures
        a.mul(b).eqv(a2.mul(b2)),
{
    assert((a.n * b.n) * (a2.d * b2.d) == (a2.n * b2.n) * (a.d * b.d)) by (nonlinear_arith)
        requires a.n * a2.d == a2.n * a.d, b.n * b2.d == b2.n * b.d;
}

pub proof fn lemma_neg_congr(a: Frac, a2: Frac)
    requires
        a.eqv(a2),
    ensures
        a.neg().eqv(a2.neg()),
{
    assert((-a.n) * a2.d == (-a2.n) * a.d) by (nonlinear_arith)
        requires a.n * a2.d == a2.n * a.d;
}

pub proof fn lemma_add_assoc(a: Frac, b: Frac, c: Frac)
    ensures
        a.add(b).add(c).eqv(a.add(b.add(c))),
{
    lemma_assoc_num(a.n, a.d, b.n, b.d, c.n, c.d);
    assert((a.d * b.d) * c.d == a.d * (b.d * c.d)) by (nonlinear_arith);
}

/// Adding zero leaves the value.
pub proof fn lemma_add_zero(a: Frac)
    ensures
        Frac::of_int(0).add(a).eqv(a),
        a.add(Frac::of_int(0)).eqv(a),
{
    assert((0 * a.d + a.n * 1) * a.d == a.n * (1 * a.d)) by (nonlinear_arith);
    assert((a.n * 1 + 0 * a.d) * a.d == a.n * (a.d * 1)) by (nonlinear_arith);
}

/// Dividing by `b` and multiplying back by `b` gives the value again.
pub proof fn lemma_div_mul_cancel(a: Frac, b: Frac)
    requires
        a.wf(),
        b.wf(),
        b.n != 0,
    ensures
        a.div(b).mul(b).eqv(a),
{
    if b.n >= 0 {
        assert((a.n * b.d) * b.n * a.d == a.n * ((a.d * b.n) * b.d)) by (nonlinear_arith);
    } else {
        assert((-(a.n * b.d)) * b.n * a.d == a.n * ((-(a.d * b.n)) * b.d)) by (nonlinear_arith);
    }
}

pub proof fn lemma_div_congr(a: Frac, a2: Frac, b: Frac)
    requires
        a.eqv(a2),
    ensures
        a.div(b).eqv(a2.div(b)),
{
    lemma_swap4(a.n, b.d, a2.d, b.n);
    lemma_swap4(a2.n, b.d, a.d, b.n);
    if b.n >= 0 {
        assert((a.n * a2.d) * (b.d * b.n) == (a2.n * a.d) * (b.d * b.n));
    } else {
        assert(-(a.n * b.d) * -(a2.d * b.n) == (a.n * b.d) * (a2.d * b.n)) by (nonlinear_arith);
        assert(-(a2.n * b.d) * -(a.d * b.n) == (a2.n * b.d) * (a.d * b.n)) by (nonlinear_arith);
        assert((a.n * a2.d) * (b.d * b.n) == (a2.n * a.d) * (b.d * b.n));
    }
}

proof fn lemma_swap4(p: int, q: int, r: int, s: int)
    ensures
        (p * q) * (r * s) == (p * r) * (q * s),
{
    assert((p * q) * (r * s) == (p * r) * (q * s)) by (nonlinear_arith);
}

/// Values of the same sign are equally positive.
pub proof fn lemma_eqv_pos(a: Frac, b: Frac)
    requires
        a.wf(),
        b.wf(),
        a.eqv(b),
    ensures
        a.is_pos() == b.is_pos(),
        a.is_zero() == b.is_zero(),
{
    if a.n > 0 {
        assert(a.n * b.d > 0) by (nonlinear_arith)
            requires a.n > 0, b.d > 0;
        assert(b.n > 0) by (nonlinear_arith)
            requires b.n * a.d > 0, a.d > 0;
    } else if a.n == 0 {
        assert(b.n * a.d == 0);
        assert(b.n == 0) by (nonlinear_arith)
            requires b.n * a.d == 0, a.d > 0;
    } else {
        assert(a.n * b.d < 0) by (nonlinear_arith)
            requires a.n < 0, b.d > 0;
        assert(b.n < 0) by (nonlinear_arith)
            requires b.n * a.d < 0, a.d > 0;
    }
}

proof fn lemma_scale_cmp(x: int, y: int, c: int)
    requires
        c > 0,
    ensures
        (x <= y) == (x * c <= y * c),
        (x < y) == (x * c < y * c),
{
    assert((x <= y) == (x * c <= y * c)) by (nonlinear_arith)
        requires c > 0;
    assert((x < y) == (x * c < y * c)) by (nonlinear_arith)
        requires c > 0;
}

/// Order does not depend on which representatives are compared.
pub proof fn lemma_cmp_congr(a: Frac, a2: Frac, b: Frac, b2: Frac)
    requires
        a.wf(),
        a2.wf(),
        b.wf(),
        b2.wf(),
        a.eqv(a2),
        b.eqv(b2),
    ensures
        a.le(b) == a2.le(b2),
        a.lt(b) == a2.lt(b2),
{
    let c = a2.d * b2.d;
    let e = a.d * b.d;
    assert(a2.d * b2.d > 0) by (nonlinear_arith)
        requires a2.d > 0, b2.d > 0;
    assert(a.d * b.d > 0) by (nonlinear_arith)
        requires a.d > 0, b.d > 0;
    lemma_swap4(a.n, b.d, a2.d, b2.d);
    lemma_swap4(a2.n, b2.d, a.d, b.d);
    lemma_swap4(b.n, a.d, b2.d, a2.d);
    lemma_swap4(b2.n, a2.d, b.d, a.d);
    assert((a.n * a2.d) * (b.d * b2.d) == (a2.n * a.d) * (b.d * b2.d));
    assert((b.n * b2.d) * (a.d * a2.d) == (b2.n * b.d) * (a.d * a2.d));
    assert(b.d * b2.d == b2.d * b.d) by (nonlinear_arith);
    assert(a.d * a2.d == a2.d * a.d) by (nonlinear_arith);
    assert(a2.d * b2.d == b2.d * a2.d) by (nonlinear_arith);
    assert(a.d * b.d == b.d * a.d) by (nonlinear_arith);
    // (a.n*b.d)*c == (a2.n*b2.d)*e and (b.n*a.d)*c == (b2.n*a2.d)*e
    lemma_scale_cmp(a.n * b.d, b.n * a.d, c);
    lemma_scale_cmp(a2.n * b2.d, b2.n * a2.d, e);
}

/// `r`'s numerator and denominator are at most those of `f` in magnitude.
pub open spec fn bounded_by(r: Rate, f: Frac) -> bool {
    r.den <= f.d && abs(r.num as int) <= abs(f.n)
}

pub proof fn lemma_abs_mul(x: int, y: int)
    ensures
        abs(x * y) == abs(x) * abs(y),
{
    if x >= 0 && y >= 0 {
        assert(x * y >= 0) by (nonlinear_arith)
            requires x >= 0, y >= 0;
    } else if x >= 0 && y < 0 {
        assert(x * y <= 0) by (nonlinear_arith)
            requires x >= 0, y < 0;
        assert(abs(x * y) == x * (-y)) by (nonlinear_arith)
            requires x >= 0, y < 0, x * y <= 0;
    } else if x < 0 && y >= 0 {
        assert(x * y <= 0) by (nonlinear_arith)
            requires x < 0, y >= 0;
        assert(abs(x * y) == (-x) * y) by (nonlinear_arith)
            requires x < 0, y >= 0, x * y <= 0;
    } else {
        assert(x * y > 0) by (nonlinear_arith)
            requires x < 0, y < 0;
        assert(abs(x * y) == (-x) * (-y)) by (nonlinear_arith)
            requires x < 0, y < 0, x * y > 0;
    }
}

pub proof fn lemma_mul_mono(u: int, v: int, w: int)
    requires
        0 <= u <= v,
        w >= 0,
    ensures
        u * w <= v * w,
        0 <= u * w,
{
    assert(u * w <= v * w && 0 <= u * w) by (nonlinear_arith)
        requires 0 <= u <= v, w >= 0;
}

/// Dividing a value no larger in its parts by the same divisor fits where
/// the larger one does.
pub proof fn lemma_div_fits_mono(a: Frac, big: Frac, o: Frac)
    requires
        0 < a.d <= big.d,
        abs(a.n) <= abs(big.n),
        o.d > 0,
        o.n != 0,
        big.div(o).fits(),
    ensures
        a.div(o).fits(),
{
    lemma_abs_mul(a.n, o.d);
    lemma_abs_mul(big.n, o.d);
    lemma_abs_mul(a.d, o.n);
    lemma_abs_mul(big.d, o.n);
    lemma_mul_mono(abs(a.n), abs(big.n), o.d);
    lemma_mul_mono(a.d, big.d, abs(o.n));
    assert(a.d * abs(o.n) > 0) by (nonlinear_arith)
        requires a.d > 0, o.n != 0;
    if o.n < 0 {
        assert(-(a.d * o.n) == a.d * abs(o.n)) by (nonlinear_arith)
            requires o.n < 0;
        assert(-(big.d * o.n) == big.d * abs(o.n)) by (nonlinear_arith)
            requires o.n < 0;
        assert(abs(-(a.n * o.d)) == abs(a.n * o.d));
        assert(abs(-(big.n * o.d)) == abs(big.n * o.d));
    }
}

/// Multiplying a value no larger in its parts by the same factor fits where
/// the larger one does.
pub proof fn lemma_mul_fits_mono(a: Frac, big: Frac, o: Frac)
    requires
        0 < a.d <= big.d,
        abs(a.n) <= abs(big.n),
        o.d > 0,
        big.mul(o).fits(),
    ensures
        a.mul(o).fits(),
        abs(a.mul(o).n) <= abs(big.mul(o).n),
        a.mul(o).d <= big.mul(o).d,
{
    lemma_abs_mul(a.n, o.n);
    lemma_abs_mul(big.n, o.n);
    lemma_mul_mono(abs(a.n), abs(big.n), abs(o.n));
    lemma_mul_mono(a.d, big.d, o.d);
    assert(a.d * o.d > 0) by (nonlinear_arith)
        requires a.d > 0, o.d > 0;
}

/// An exact rational number with numerator and denominator of at most
/// `RATE_LIMIT` in magnitude, the denominator positive.
#[derive(Clone, Copy, Debug)]
pub struct Rate {
    pub num: i64,
    pub den: i64,
}

impl View for Rate {
    type V = Frac;

    open spec fn view(&self) -> Frac {
        Frac { n: self.num as int, d: self.den as int }
    }
}

/// Greatest common divisor by Euclid's algorithm, on non-negative numbers.
fn gcd(a: i128, b: i128) -> (g: i128)
    requires
        a >= 0,
        b > 0,
    ensures
        0 < g <= b,
{
    let mut x: i128 = b;
    let mut y: i128 = a % b;
    while y > 0
        invariant
            0 < x <= b,
            0 <= y < x,
        decreases y,
    {
        let r: i128 = x % y;
        x = y;
        y = r;
    }
    x
}

/// `n / d` in lowest terms where that fits a `Rate`.
fn reduce(n: i128, d: i128) -> (r: Option<Rate>)
    requires
        -(i128::MAX as int) <= n,
        d > 0,
    ensures
        (r is Some) ==> r->0.wf() && r->0@.eqv((Frac { n: n as int, d: d as int })),
        (Frac { n: n as int, d: d as int }).fits() ==> (r is Some),
        (r is Some) ==> r->0.den <= d && abs(r->0.num as int) <= abs(n as int),
{
    let m: i128 = if n < 0 { -n } else { n };
    let g: i128 = gcd(m, d);
    let mut m2: i128 = m;
    let mut d2: i128 = d;
    if m % g == 0 && d % g == 0 {
        m2 = m / g;
        d2 = d / g;
        proof {
            lemma_div_exact(m as int, g as int);
            lemma_div_exact(d as int, g as int);
            assert(m2 * d == m * d2) by (nonlinear_arith)
                requires m == m2 * g, d == d2 * g;
            assert(m2 <= m && d2 <= d && d2 > 0) by (nonlinear_arith)
                requires m == m2 * g, d == d2 * g, g > 0, m >= 0, d > 0, m2 >= 0;
        }
    }
    if m2 > RATE_LIMIT as i128 || d2 > RATE_LIMIT as i128 {
        return None;
    }
    let n2: i128 = if n < 0 { -m2 } else { m2 };
    proof {
        assert(n2 * d == n * d2) by (nonlinear_arith)
            requires m2 * d == m * d2, (n < 0 && m == -n && n2 == -m2) || (n >= 0 && m == n && n2 == m2);
    }
    Some(Rate { num: n2 as i64, den: d2 as i64 })
}

proof fn lemma_div_exact(x: int, g: int)
    requires
        x >= 0,
        g > 0,
        x % g == 0,
    ensures
        x == (x / g) * g,
        x / g >= 0,
{
    vstd::arithmetic::div_mod::lemma_fundamental_div_mod(x, g);
    vstd::arithmetic::mul::lemma_mul_is_commutative(g, x / g);
    vstd::arithmetic::div_mod::lemma_div_pos_is_pos(x, g);
}

proof fn lemma_product_bound(a: int, b: int)
    requires
        -(RATE_LIMIT as int) <= a <= RATE_LIMIT as int,
        -(RATE_LIMIT as int) <= b <= RATE_LIMIT as int,
    ensures
        -(RATE_LIMIT as int) * (RATE_LIMIT as int) <= a * b <= (RATE_LIMIT as int) * (
        RATE_LIMIT as int),
{
    assert(-(RATE_LIMIT as int) * (RATE_LIMIT as int) <= a * b <= (RATE_LIMIT as int) * (
    RATE_LIMIT as int)) by (nonlinear_arith)
        requires
            -(RATE_LIMIT as int) <= a <= RATE_LIMIT as int,
            -(RATE_LIMIT as int) <= b <= RATE_LIMIT as int,
    ;
}

impl Rate {
    /// Denominator positive, numerator not `i64::MIN`.
    pub open spec fn wf(&self) -> bool {
        self.den > 0 && self.num >= -RATE_LIMIT
    }

    /// The whole number `k`.
    pub fn from_int(k: i64) -> (r: Rate)
        requires
            k >= -RATE_LIMIT,
        ensures
            r.wf(),
            r@ == Frac::of_int(k as int),
    {
        Rate { num: k, den: 1 }
    }

    /// `n / d` in lowest terms.
    pub fn ratio(n: i64, d: i64) -> (r: Rate)
        requires
            n >= -RATE_LIMIT,
            d > 0,
        ensures
            r.wf(),
            r@.eqv((Frac { n: n as int, d: d as int })),
    {
        match reduce(n as i128, d as i128) {
            Some(r) => r,
            None => Rate { num: n, den: d },
        }
    }

    pub fn zero() -> (r: Rate)
        ensures
            r.wf(),
            r@ == Frac::of_int(0),
    {
        Rate { num: 0, den: 1 }
    }

    pub fn neg(&self) -> (r: Rate)
        requires
            self.wf(),
        ensures
            r.wf(),
            r@ == self@.neg(),
    {
        Rate { num: -self.num, den: self.den }
    }

    /// `self + o`; `None` when the result does not fit.
    pub fn add(&self, o: &Rate) -> (r: Option<Rate>)
        requires
            self.wf(),
            o.wf(),
        ensures
            (r is Some) ==> r->0.wf() && r->0@.eqv(self@.add(o@)),
            self@.add(o@).fits() ==> (r is Some),
            (r is Some) ==> bounded_by(r->0, self@.add(o@)),
            self.den == 1 && o.den == 1 && (r is Some) ==> r->0.den == 1 && r->0.num == self.num
                + o.num,
    {
        proof {
            lemma_product_bound(self.num as int, o.den as int);
            lemma_product_bound(o.num as int, self.den as int);
            lemma_product_bound(self.den as int, o.den as int);
        }
        let n: i128 = self.num as i128 * o.den as i128 + o.num as i128 * self.den as i128;
        let d: i128 = self.den as i128 * o.den as i128;
        proof {
            assert(d > 0) by (nonlinear_arith)
                requires d == self.den * o.den, self.den > 0, o.den > 0;
        }
        let r = reduce(n, d);
        proof {
            if self.den == 1 && o.den == 1 && r is Some {
                assert(d == 1 && n == self.num + o.num) by (nonlinear_arith)
                    requires
                        self.den == 1,
                        o.den == 1,
                        d == self.den * o.den,
                        n == self.num * o.den + o.num * self.den,
                ;
                let v = r->0;
                assert(v.num * 1 == n * v.den);
                assert(v.den == 1);
                assert(v.num == n) by (nonlinear_arith)
                    requires v.num * 1 == n * v.den, v.den == 1;
            }
        }
        r
    }

    /// `self - o`; `None` when the result does not fit.
    pub fn sub(&self, o: &Rate) -> (r: Option<Rate>)
        requires
            self.wf(),
            o.wf(),
        ensures
            (r is Some) ==> r->0.wf() && r->0@.eqv(self@.sub(o@)),
            self@.sub(o@).fits() ==> (r is Some),
    {
        self.add(&o.neg())
    }

    /// `self * o`; `None` when the result does not fit.
    pub fn mul(&self, o: &Rate) -> (r: Option<Rate>)
        requires
            self.wf(),
            o.wf(),
        ensures
            (r is Some) ==> r->0.wf() && r->0@.eqv(self@.mul(o@)),
            self@.mul(o@).fits() ==> (r is Some),
            (r is Some) ==> bounded_by(r->0, self@.mul(o@)),
            self.den == 1 && o.den == 1 && (r is Some) ==> r->0.den == 1 && r->0.num == self.num
                * o.num,
    {
        proof {
            lemma_product_bound(self.num as int, o.num as int);
            lemma_product_bound(self.den as int, o.den as int);
        }
        let n: i128 = self.num as i128 * o.num as i128;
        let d: i128 = self.den as i128 * o.den as i128;
        proof {
            assert(d > 0) by (nonlinear_arith)
                requires d == self.den * o.den, self.den > 0, o.den > 0;
        }
        let r = reduce(n, d);
        proof {
            if self.den == 1 && o.den == 1 && r is Some {
                assert(d == 1) by (nonlinear_arith)
                    requires self.den == 1, o.den == 1, d == self.den * o.den;
                let v = r->0;
                assert(v.num * 1 == n * v.den);
                assert(v.den == 1);
                assert(v.num == n) by (nonlinear_arith)
                    requires v.num * 1 == n * v.den, v.den == 1;
            }
        }
        r
    }

    /// `self / o` for a non-zero `o`; `None` when the result does not fit.
    pub fn div(&self, o: &Rate) -> (r: Option<Rate>)
        requires
            self.wf(),
            o.wf(),
            o.num != 0,
        ensures
            (r is Some) ==> r->0.wf() && r->0@.eqv(self@.div(o@)),
            self@.div(o@).fits() ==> (r is Some),
            (r is Some) ==> bounded_by(r->0, self@.div(o@)),
    {
        proof {
            lemma_product_bound(self.num as int, o.den as int);
            lemma_product_bound(self.den as int, o.num as int);
        }
        let n: i128 = self.num as i128 * o.den as i128;
        let d: i128 = self.den as i128 * o.num as i128;
        if o.num > 0 {
            proof {
                assert(d > 0) by (nonlinear_arith)
                    requires d == self.den * o.num, self.den > 0, o.num > 0;
            }
            reduce(n, d)
        } else {
            proof {
                assert(d < 0) by (nonlinear_arith)
                    requires d == self.den * o.num, self.den > 0, o.num < 0;
            }
            reduce(-n, -d)
        }
    }

    pub fn is_positive(&self) -> (r: bool)
        ensures
            r == self@.is_pos(),
    {
        self.num > 0
    }

    /// `self < o`.
    pub fn lt(&self, o: &Rate) -> (r: bool)
        requires
            self.wf(),
            o.wf(),
        ensures
            r == self@.lt(o@),
    {
        proof {
            lemma_product_bound(self.num as int, o.den as int);
            lemma_product_bound(o.num as int, self.den as int);
        }
        (self.num as i128) * (o.den as i128) < (o.num as i128) * (self.den as i128)
    }

    /// `self <= o`.
    pub fn le(&self, o: &Rate) -> (r: bool)
        requires
            self.wf(),
            o.wf(),
        ensures
            r == self@.le(o@),
    {
        proof {
            lemma_product_bound(self.num as int, o.den as int);
            lemma_product_bound(o.num as int, self.den as int);
        }
        (self.num as i128) * (o.den as i128) <= (o.num as i128) * (self.den as i128)
    }
}

} // verus!
