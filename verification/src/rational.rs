//! Exact rational arithmetic.
//!
//! The mathematical model is `Q`, a pair of an `int` numerator and a positive
//! `int` denominator; two pairs denote the same rational exactly when they
//! agree under cross multiplication (`q_eq`). The executable type is `Rat`,
//! a gcd-reduced pair of `i64` values kept strictly below `BOUND` in
//! magnitude, so that every product of two of its components fits in `i128`.
//! Each arithmetic operation returns `None` exactly when the reduced result
//! leaves that range.

use vstd::prelude::*;
use vstd::arithmetic::div_mod::{
    lemma_fundamental_div_mod, lemma_div_multiples_vanish, lemma_mod_multiples_basic,
    lemma_mod_bound,
};

verus! {

/// A mathematical rational: numerator `n` over denominator `d`.
pub struct Q {
    pub n: int,
    pub d: int,
}

/// A well-formed rational pair has a positive denominator.
pub open spec fn q_wf(a: Q) -> bool {
    a.d > 0
}

/// `a` and `b` denote the same rational (cross multiplication).
pub open spec fn q_eq(a: Q, b: Q) -> bool {
    a.n * b.d == b.n * a.d
}

/// `a <= b` as rationals (valid when both denominators are positive).
pub open spec fn q_le(a: Q, b: Q) -> bool {
    a.n * b.d <= b.n * a.d
}

/// `a < b` as rationals (valid when both denominators are positive).
pub open spec fn q_lt(a: Q, b: Q) -> bool {
    a.n * b.d < b.n * a.d
}

/// The integer `i` as a rational.
pub open spec fn q_int(i: int) -> Q {
    Q { n: i, d: 1 }
}

pub open spec fn q_add(a: Q, b: Q) -> Q {
    Q { n: a.n * b.d + b.n * a.d, d: a.d * b.d }
}

pub open spec fn q_neg(a: Q) -> Q {
    Q { n: -a.n, d: a.d }
}

pub open spec fn q_sub(a: Q, b: Q) -> Q {
    q_add(a, q_neg(b))
}

pub open spec fn q_mul(a: Q, b: Q) -> Q {
    Q { n: a.n * b.n, d: a.d * b.d }
}

/// `a / b`; the sign of `b`'s numerator is moved into the numerator of the
/// result so that the result is well-formed whenever `a` is and `b.n != 0`.
pub open spec fn q_div(a: Q, b: Q) -> Q {
    if b.n >= 0 {
        Q { n: a.n * b.d, d: a.d * b.n }
    } else {
        Q { n: -(a.n * b.d), d: -(a.d * b.n) }
    }
}

/// `a` to the `k`-th power.
pub open spec fn q_pow(a: Q, k: nat) -> Q
    decreases k,
{
    if k == 0 {
        q_int(1)
    } else {
        q_mul(a, q_pow(a, (k - 1) as nat))
    }
}

/// Absolute value of an integer.
pub open spec fn iabs(a: int) -> int {
    if a < 0 {
        -a
    } else {
        a
    }
}

/// Greatest common divisor by Euclid's recursion; `gcd_int(a, 0) == a`.
pub open spec fn gcd_int(a: int, b: int) -> int
    decreases b,
    when 0 <= b
{
    if b <= 0 {
        a
    } else {
        gcd_int(b, a % b)
    }
}

/// `a` with numerator and denominator divided by their gcd.
pub open spec fn q_reduce(a: Q) -> Q {
    let g = gcd_int(iabs(a.n), a.d);
    Q { n: a.n / g, d: a.d / g }
}

/// Exclusive magnitude bound on the components of an executable `Rat`:
/// 2^62, so that sums of two products of components fit in `i128`.
pub const BOUND: i64 = 0x4000_0000_0000_0000;

/// `a` fits the executable representation.
pub open spec fn q_bounded(a: Q) -> bool {
    &&& -(BOUND as int) < a.n < (BOUND as int)
    &&& 0 < a.d < (BOUND as int)
}


/// One checked computation step: the reduced result where it fits the
/// executable range, and `None` where it does not. Every `Rat` operation
/// returns `Some` exactly when `q_step` of its exact result does.
pub open spec fn q_step(x: Q) -> Option<Q> {
    if q_bounded(q_reduce(x)) {
        Some(q_reduce(x))
    } else {
        None
    }
}

/// The gcd of two non-negative integers, not both zero, is positive and
/// divides both.
pub proof fn lemma_gcd_divides(a: int, b: int)
    requires
        0 <= a,
        0 <= b,
        a > 0 || b > 0,
    ensures
        gcd_int(a, b) > 0,
        a % gcd_int(a, b) == 0,
        b % gcd_int(a, b) == 0,
    decreases b,
{
    let g = gcd_int(a, b);
    if b <= 0 {
        assert(g == a);
        assert(a % a == 0) by (nonlinear_arith)
            requires a > 0;
        assert(0int % a == 0) by (nonlinear_arith)
            requires a > 0;
    } else {
        let r = a % b;
        lemma_mod_bound(a, b);
        lemma_gcd_divides(b, r);
        assert(g == gcd_int(b, r));
        // b and r are both multiples of g, hence so is a = (a/b)*b + r.
        lemma_fundamental_div_mod(a, b);
        lemma_fundamental_div_mod(b, g);
        lemma_fundamental_div_mod(r, g);
        let kb = b / g;
        let kr = r / g;
        let ka = a / b;
        assert(a == (ka * kb + kr) * g) by (nonlinear_arith)
            requires
                a == b * ka + r,
                b == g * kb,
                r == g * kr,
        ;
        lemma_mod_multiples_basic(ka * kb + kr, g);
    }
}

/// Dividing numerator and denominator by their gcd keeps the denominator
/// positive, keeps the value, and never grows the components.
pub proof fn lemma_reduce(a: Q)
    requires
        q_wf(a),
    ensures
        q_wf(q_reduce(a)),
        q_eq(q_reduce(a), a),
        iabs(q_reduce(a).n) <= iabs(a.n),
        q_reduce(a).d <= a.d,
{
    let g = gcd_int(iabs(a.n), a.d);
    lemma_gcd_divides(iabs(a.n), a.d);
    lemma_fundamental_div_mod(iabs(a.n), g);
    lemma_fundamental_div_mod(a.d, g);
    let km = iabs(a.n) / g;
    let kd = a.d / g;
    assert(iabs(a.n) == g * km);
    assert(a.d == g * kd);
    assert(kd > 0) by (nonlinear_arith)
        requires a.d == g * kd, a.d > 0, g > 0;
    assert(km >= 0) by (nonlinear_arith)
        requires iabs(a.n) == g * km, iabs(a.n) >= 0, g > 0;
    if a.n < 0 {
        assert(a.n == g * (-km)) by (nonlinear_arith)
            requires -a.n == g * km;
        lemma_div_multiples_vanish(-km, g);
        assert(a.n / g == -km);
    } else {
        lemma_div_multiples_vanish(km, g);
        assert(a.n / g == km);
    }
    lemma_div_multiples_vanish(kd, g);
    assert(a.d / g == kd);
    let rn = a.n / g;
    assert(rn * a.d == a.n * kd) by (nonlinear_arith)
        requires
            a.d == g * kd,
            a.n == g * rn,
    ;
    assert(km <= iabs(a.n)) by (nonlinear_arith)
        requires iabs(a.n) == g * km, g > 0, km >= 0;
    assert(kd <= a.d) by (nonlinear_arith)
        requires a.d == g * kd, g > 0, kd > 0;
}

/// Normalisation of an arbitrary integer pair: the denominator's sign is
/// moved into the numerator.
pub open spec fn q_norm(n: int, d: int) -> Q {
    if d >= 0 {
        Q { n: n, d: d }
    } else {
        Q { n: -n, d: -d }
    }
}

/// An executable rational: a reduced pair of `i64` components, the
/// denominator positive, both strictly below `BOUND` in magnitude.
#[derive(Clone, Copy, PartialEq, Eq, Structural, Debug)]
pub struct Rat {
    n: i64,
    d: i64,
}

impl View for Rat {
    type V = Q;

    closed spec fn view(&self) -> Q {
        Q { n: self.n as int, d: self.d as int }
    }
}

/// Bound on products of two in-range components: `BOUND^2 == 2^124`.
proof fn lemma_prod_bound(x: int, y: int)
    by (nonlinear_arith)
    requires
        -0x4000_0000_0000_0000 <= x <= 0x4000_0000_0000_0000,
        -0x4000_0000_0000_0000 <= y <= 0x4000_0000_0000_0000,
    ensures
        -0x1000_0000_0000_0000_0000_0000_0000_0000 <= x * y
            <= 0x1000_0000_0000_0000_0000_0000_0000_0000,
{
}

/// Euclid's algorithm, matching `gcd_int`.
fn gcd128(a0: i128, b0: i128) -> (g: i128)
    requires
        0 <= a0,
        0 < b0,
    ensures
        g == gcd_int(a0 as int, b0 as int),
        0 < g,
{
    let mut a = a0;
    let mut b = b0;
    while b > 0
        invariant
            0 <= a,
            0 <= b,
            a > 0 || b > 0,
            gcd_int(a as int, b as int) == gcd_int(a0 as int, b0 as int),
        decreases b,
    {
        proof {
            lemma_mod_bound(a as int, b as int);
        }
        let r = a % b;
        a = b;
        b = r;
    }
    proof {
        lemma_gcd_divides(a0 as int, b0 as int);
    }
    a
}

impl Rat {
    /// The representation invariant: reduced or not, the components are in
    /// range and the denominator is positive.
    pub open spec fn wf(&self) -> bool {
        q_bounded(self@)
    }

    /// Numerator, for inspection.
    pub fn num(&self) -> (r: i64)
        ensures
            r as int == self@.n,
    {
        self.n
    }

    /// Denominator, for inspection.
    pub fn den(&self) -> (r: i64)
        ensures
            r as int == self@.d,
    {
        self.d
    }

    /// The rational 0.
    pub fn zero() -> (r: Rat)
        ensures
            r.wf(),
            r@ == q_int(0),
    {
        Rat { n: 0, d: 1 }
    }

    /// The rational 1.
    pub fn one() -> (r: Rat)
        ensures
            r.wf(),
            r@ == q_int(1),
    {
        Rat { n: 1, d: 1 }
    }

    /// The rational `n/d`, reduced; `None` exactly when `d == 0` or the
    /// reduced pair leaves the representable range.
    pub fn new(n: i64, d: i64) -> (r: Option<Rat>)
        ensures
            match r {
                Some(v) => {
                    &&& d != 0
                    &&& v.wf()
                    &&& v@ == q_reduce(q_norm(n as int, d as int))
                    &&& q_eq(v@, Q { n: n as int, d: d as int })
                },
                None => d == 0 || !q_bounded(q_reduce(q_norm(n as int, d as int))),
            },
    {
        if d == 0 {
            return None;
        }
        let num: i128 = n as i128;
        let den: i128 = d as i128;
        let (num, den) = if den < 0 { (-num, -den) } else { (num, den) };
        let r = reduce128(num, den);
        proof {
            let q = q_norm(n as int, d as int);
            lemma_reduce(q);
            if r is Some {
                let v = r->Some_0;
                assert(q_eq(v@, q)) by {
                    assert(v@ == q_reduce(q));
                }
                assert(q_eq(q, Q { n: n as int, d: d as int })) by (nonlinear_arith)
                    requires q == q_norm(n as int, d as int), d != 0;
                assert(q_eq(v@, Q { n: n as int, d: d as int })) by (nonlinear_arith)
                    requires
                        q_eq(v@, q),
                        q_eq(q, Q { n: n as int, d: d as int }),
                        q_wf(v@),
                        q_wf(q),
                        (d as int) != 0,
                ;
            }
        }
        r
    }

    /// Negation; exact and total.
    pub fn neg(&self) -> (r: Rat)
        requires
            self.wf(),
        ensures
            r.wf(),
            r@ == q_neg(self@),
    {
        Rat { n: -self.n, d: self.d }
    }

    /// Sum, reduced; `None` exactly when the reduced sum leaves the
    /// representable range.
    pub fn add(&self, other: &Rat) -> (r: Option<Rat>)
        requires
            self.wf(),
            other.wf(),
        ensures
            match r {
                Some(v) => v.wf() && v@ == q_reduce(q_add(self@, other@)),
                None => !q_bounded(q_reduce(q_add(self@, other@))),
            },
    {
        proof {
            lemma_prod_bound(self@.n, other@.d);
            lemma_prod_bound(other@.n, self@.d);
            lemma_prod_bound(self@.d, other@.d);
            assert(self@.d * other@.d > 0) by (nonlinear_arith)
                requires self@.d > 0, other@.d > 0;
        }
        let num: i128 = (self.n as i128) * (other.d as i128) + (other.n as i128) * (self.d as i128);
        let den: i128 = (self.d as i128) * (other.d as i128);
        reduce128(num, den)
    }

    /// Difference, reduced; `None` exactly when the reduced difference
    /// leaves the representable range.
    pub fn sub(&self, other: &Rat) -> (r: Option<Rat>)
        requires
            self.wf(),
            other.wf(),
        ensures
            match r {
                Some(v) => v.wf() && v@ == q_reduce(q_sub(self@, other@)),
                None => !q_bounded(q_reduce(q_sub(self@, other@))),
            },
    {
        self.add(&other.neg())
    }

    /// Product, reduced; `None` exactly when the reduced product leaves the
    /// representable range.
    pub fn mul(&self, other: &Rat) -> (r: Option<Rat>)
        requires
            self.wf(),
            other.wf(),
        ensures
            match r {
                Some(v) => v.wf() && v@ == q_reduce(q_mul(self@, other@)),
                None => !q_bounded(q_reduce(q_mul(self@, other@))),
            },
    {
        proof {
            lemma_prod_bound(self@.n, other@.n);
            lemma_prod_bound(self@.d, other@.d);
            assert(self@.d * other@.d > 0) by (nonlinear_arith)
                requires self@.d > 0, other@.d > 0;
        }
        let num: i128 = (self.n as i128) * (other.n as i128);
        let den: i128 = (self.d as i128) * (other.d as i128);
        reduce128(num, den)
    }

    /// Quotient, reduced; `None` exactly when the divisor is zero or the
    /// reduced quotient leaves the representable range.
    pub fn div(&self, other: &Rat) -> (r: Option<Rat>)
        requires
            self.wf(),
            other.wf(),
        ensures
            match r {
                Some(v) => other@.n != 0 && v.wf() && v@ == q_reduce(q_div(self@, other@)),
                None => other@.n == 0 || !q_bounded(q_reduce(q_div(self@, other@))),
            },
    {
        if other.n == 0 {
            return None;
        }
        proof {
            lemma_prod_bound(self@.n, other@.d);
            lemma_prod_bound(self@.d, other@.n);
            assert(other@.n < 0 ==> self@.d * other@.n < 0) by (nonlinear_arith)
                requires self@.d > 0;
            assert(other@.n > 0 ==> self@.d * other@.n > 0) by (nonlinear_arith)
                requires self@.d > 0;
        }
        let num: i128 = (self.n as i128) * (other.d as i128);
        let den: i128 = (self.d as i128) * (other.n as i128);
        let (num, den) = if den < 0 { (-num, -den) } else { (num, den) };
        reduce128(num, den)
    }

    /// `self <= other` as rationals; exact and total.
    pub fn le(&self, other: &Rat) -> (r: bool)
        requires
            self.wf(),
            other.wf(),
        ensures
            r == q_le(self@, other@),
    {
        proof {
            lemma_prod_bound(self@.n, other@.d);
            lemma_prod_bound(other@.n, self@.d);
        }
        (self.n as i128) * (other.d as i128) <= (other.n as i128) * (self.d as i128)
    }

    /// `self < other` as rationals; exact and total.
    pub fn lt(&self, other: &Rat) -> (r: bool)
        requires
            self.wf(),
            other.wf(),
        ensures
            r == q_lt(self@, other@),
    {
        proof {
            lemma_prod_bound(self@.n, other@.d);
            lemma_prod_bound(other@.n, self@.d);
        }
        (self.n as i128) * (other.d as i128) < (other.n as i128) * (self.d as i128)
    }
}

/// Reduce the pair `num/den` by its gcd and pack it into a `Rat`; `None`
/// exactly when the reduced pair leaves the representable range.
fn reduce128(num: i128, den: i128) -> (r: Option<Rat>)
    requires
        -0x2000_0000_0000_0000_0000_0000_0000_0000 <= num
            <= 0x2000_0000_0000_0000_0000_0000_0000_0000,
        0 < den <= 0x2000_0000_0000_0000_0000_0000_0000_0000,
    ensures
        match r {
            Some(v) => v.wf() && v@ == q_reduce(Q { n: num as int, d: den as int }),
            None => !q_bounded(q_reduce(Q { n: num as int, d: den as int })),
        },
{
    let ghost q = Q { n: num as int, d: den as int };
    let m: i128 = if num < 0 { -num } else { num };
    assert(m as int == iabs(q.n));
    let g = gcd128(m, den);
    proof {
        lemma_gcd_divides(m as int, den as int);
        assert((m as int) % (g as int) == 0);
        assert((den as int) % (g as int) == 0);
        lemma_fundamental_div_mod(m as int, g as int);
        lemma_fundamental_div_mod(den as int, g as int);
        let km = (m as int) / (g as int);
        let kd = (den as int) / (g as int);
        assert(m as int == (g as int) * km);
        assert(den as int == (g as int) * kd);
        assert(km >= 0) by (nonlinear_arith)
            requires (m as int) == (g as int) * km, m >= 0, g > 0;
        assert(kd > 0) by (nonlinear_arith)
            requires (den as int) == (g as int) * kd, den > 0, g > 0;
        if num < 0 {
            assert((num as int) == (g as int) * (-km)) by (nonlinear_arith)
                requires (m as int) == (g as int) * km, (num as int) == -(m as int);
            lemma_div_multiples_vanish(-km, g as int);
            assert((q.n) / (g as int) == -km);
        } else {
            lemma_div_multiples_vanish(km, g as int);
            assert((q.n) / (g as int) == km);
        }
        lemma_div_multiples_vanish(kd, g as int);
        assert((q.d) / (g as int) == kd);
    }
    let rn = m / g;
    let rd = den / g;
    assert(rn as int == (m as int) / (g as int));
    assert(rd as int == (den as int) / (g as int));
    if rn < BOUND as i128 && rd < BOUND as i128 {
        let n64: i64 = if num < 0 { -(rn as i64) } else { rn as i64 };
        Some(Rat { n: n64, d: rd as i64 })
    } else {
        None
    }
}

/// Distributing a product over a sum, in both argument orders.
pub proof fn lemma_distrib3(x: int, y: int, t: int)
    by (nonlinear_arith)
    ensures
        (x + y) * t == x * t + y * t,
        t * (x + y) == t * x + t * y,
{
}

/// `q_eq` is symmetric.
pub proof fn lemma_q_eq_sym(a: Q, b: Q)
    requires
        q_eq(a, b),
    ensures
        q_eq(b, a),
{
}

/// `q_eq` is transitive over well-formed pairs.
pub proof fn lemma_q_eq_trans(a: Q, b: Q, c: Q)
    requires
        q_wf(a),
        q_wf(b),
        q_wf(c),
        q_eq(a, b),
        q_eq(b, c),
    ensures
        q_eq(a, c),
{
    assert(a.n * c.d == c.n * a.d) by (nonlinear_arith)
        requires
            a.n * b.d == b.n * a.d,
            b.n * c.d == c.n * b.d,
            b.d > 0,
    ;
}

/// Sums of equal rationals are equal.
pub proof fn lemma_q_add_congr(a: Q, a2: Q, b: Q, b2: Q)
    requires
        q_wf(a),
        q_wf(a2),
        q_wf(b),
        q_wf(b2),
        q_eq(a, a2),
        q_eq(b, b2),
    ensures
        q_wf(q_add(a, b)),
        q_eq(q_add(a, b), q_add(a2, b2)),
{
    assert(a.d * b.d > 0 && a2.d * b2.d > 0) by (nonlinear_arith)
        requires a.d > 0, b.d > 0, a2.d > 0, b2.d > 0;
    // Multiply each hypothesis by the missing denominators, expand the sums,
    // and match the products pairwise.
    assert((a.n * a2.d) * (b.d * b2.d) == (a2.n * a.d) * (b.d * b2.d));
    assert((b.n * b2.d) * (a.d * a2.d) == (b2.n * b.d) * (a.d * a2.d));
    lemma_distrib3(a.n * b.d, b.n * a.d, a2.d * b2.d);
    lemma_distrib3(a2.n * b2.d, b2.n * a2.d, a.d * b.d);
    assert((a.n * b.d) * (a2.d * b2.d) == (a.n * a2.d) * (b.d * b2.d)) by (nonlinear_arith);
    assert((b.n * a.d) * (a2.d * b2.d) == (b.n * b2.d) * (a.d * a2.d)) by (nonlinear_arith);
    assert((a2.n * b2.d) * (a.d * b.d) == (a2.n * a.d) * (b.d * b2.d)) by (nonlinear_arith);
    assert((b2.n * a2.d) * (a.d * b.d) == (b2.n * b.d) * (a.d * a2.d)) by (nonlinear_arith);
}

/// Products of equal rationals are equal.
pub proof fn lemma_q_mul_congr(a: Q, a2: Q, b: Q, b2: Q)
    requires
        q_wf(a),
        q_wf(a2),
        q_wf(b),
        q_wf(b2),
        q_eq(a, a2),
        q_eq(b, b2),
    ensures
        q_wf(q_mul(a, b)),
        q_eq(q_mul(a, b), q_mul(a2, b2)),
{
    assert(a.d * b.d > 0 && a2.d * b2.d > 0) by (nonlinear_arith)
        requires a.d > 0, b.d > 0, a2.d > 0, b2.d > 0;
    assert((a.n * b.n) * (a2.d * b2.d) == (a2.n * b2.n) * (a.d * b.d)) by (nonlinear_arith)
        requires
            a.n * a2.d == a2.n * a.d,
            b.n * b2.d == b2.n * b.d,
    ;
}

/// Negations of equal rationals are equal.
pub proof fn lemma_q_neg_congr(a: Q, a2: Q)
    requires
        q_wf(a),
        q_wf(a2),
        q_eq(a, a2),
    ensures
        q_wf(q_neg(a)),
        q_eq(q_neg(a), q_neg(a2)),
{
    assert((-a.n) * a2.d == (-a2.n) * a.d) by (nonlinear_arith)
        requires a.n * a2.d == a2.n * a.d;
}

/// Differences of equal rationals are equal.
pub proof fn lemma_q_sub_congr(a: Q, a2: Q, b: Q, b2: Q)
    requires
        q_wf(a),
        q_wf(a2),
        q_wf(b),
        q_wf(b2),
        q_eq(a, a2),
        q_eq(b, b2),
    ensures
        q_wf(q_sub(a, b)),
        q_eq(q_sub(a, b), q_sub(a2, b2)),
{
    lemma_q_neg_congr(b, b2);
    lemma_q_add_congr(a, a2, q_neg(b), q_neg(b2));
}

/// A well-formed pair equal to a pair with positive numerator has a
/// positive numerator itself; likewise for zero and negative.
pub proof fn lemma_q_eq_sign(a: Q, b: Q)
    requires
        q_wf(a),
        q_wf(b),
        q_eq(a, b),
    ensures
        a.n > 0 <==> b.n > 0,
        a.n == 0 <==> b.n == 0,
        a.n < 0 <==> b.n < 0,
{
    assert((a.n > 0 <==> b.n > 0) && (a.n == 0 <==> b.n == 0) && (a.n < 0 <==> b.n < 0))
        by (nonlinear_arith)
        requires
            a.n * b.d == b.n * a.d,
            a.d > 0,
            b.d > 0,
    ;
}

/// Quotients of equal rationals are equal; the divisor's numerator must be
/// non-zero for the quotient to be well-formed.
pub proof fn lemma_q_div_congr(a: Q, a2: Q, b: Q, b2: Q)
    requires
        q_wf(a),
        q_wf(a2),
        q_wf(b),
        q_wf(b2),
        q_eq(a, a2),
        q_eq(b, b2),
        b.n != 0,
    ensures
        b2.n != 0,
        q_wf(q_div(a, b)),
        q_eq(q_div(a, b), q_div(a2, b2)),
{
    lemma_q_eq_sign(b, b2);
    // Multiply each hypothesis by the missing factors, then combine.
    assert((a.n * a2.d) * (b.d * b2.n) == (a2.n * a.d) * (b.d * b2.n));
    assert((b.n * b2.d) * (a2.n * a.d) == (b2.n * b.d) * (a2.n * a.d));
    assert((a.n * b.d) * (a2.d * b2.n) == (a2.n * b2.d) * (a.d * b.n)) by (nonlinear_arith)
        requires
            (a.n * a2.d) * (b.d * b2.n) == (a2.n * a.d) * (b.d * b2.n),
            (b.n * b2.d) * (a2.n * a.d) == (b2.n * b.d) * (a2.n * a.d),
    ;
    if b.n > 0 {
        assert(a.d * b.n > 0 && a2.d * b2.n > 0) by (nonlinear_arith)
            requires a.d > 0, b.n > 0, a2.d > 0, b2.n > 0;
    } else {
        assert(-(a.d * b.n) > 0 && -(a2.d * b2.n) > 0) by (nonlinear_arith)
            requires a.d > 0, b.n < 0, a2.d > 0, b2.n < 0;
        assert((-(a.n * b.d)) * (-(a2.d * b2.n)) == (-(a2.n * b2.d)) * (-(a.d * b.n)))
            by (nonlinear_arith)
            requires (a.n * b.d) * (a2.d * b2.n) == (a2.n * b2.d) * (a.d * b.n);
    }
}

/// `q_le` respects `q_eq` on both sides.
pub proof fn lemma_q_le_congr(a: Q, a2: Q, b: Q, b2: Q)
    requires
        q_wf(a),
        q_wf(a2),
        q_wf(b),
        q_wf(b2),
        q_eq(a, a2),
        q_eq(b, b2),
        q_le(a, b),
    ensures
        q_le(a2, b2),
{
    assert(a2.n * b2.d <= b2.n * a2.d) by (nonlinear_arith)
        requires
            a.n * a2.d == a2.n * a.d,
            b.n * b2.d == b2.n * b.d,
            a.n * b.d <= b.n * a.d,
            a.d > 0,
            b.d > 0,
            a2.d > 0,
            b2.d > 0,
    ;
}

/// `q_lt` respects `q_eq` on both sides.
pub proof fn lemma_q_lt_congr(a: Q, a2: Q, b: Q, b2: Q)
    requires
        q_wf(a),
        q_wf(a2),
        q_wf(b),
        q_wf(b2),
        q_eq(a, a2),
        q_eq(b, b2),
        q_lt(a, b),
    ensures
        q_lt(a2, b2),
{
    assert(a2.n * b2.d < b2.n * a2.d) by (nonlinear_arith)
        requires
            a.n * a2.d == a2.n * a.d,
            b.n * b2.d == b2.n * b.d,
            a.n * b.d < b.n * a.d,
            a.d > 0,
            b.d > 0,
            a2.d > 0,
            b2.d > 0,
    ;
}

/// `q_lt` is transitive over well-formed pairs.
pub proof fn lemma_q_lt_trans(a: Q, b: Q, c: Q)
    requires
        q_wf(a),
        q_wf(b),
        q_wf(c),
        q_lt(a, b),
        q_lt(b, c),
    ensures
        q_lt(a, c),
{
    assert(a.n * c.d < c.n * a.d) by (nonlinear_arith)
        requires
            a.n * b.d < b.n * a.d,
            b.n * c.d < c.n * b.d,
            a.d > 0,
            b.d > 0,
            c.d > 0,
    ;
}

/// Products and sums of well-formed pairs are well-formed.
pub proof fn lemma_q_mul_wf(a: Q, b: Q)
    requires
        q_wf(a),
        q_wf(b),
    ensures
        q_wf(q_mul(a, b)),
        q_wf(q_add(a, b)),
{
    assert(a.d * b.d > 0) by (nonlinear_arith)
        requires a.d > 0, b.d > 0;
}

/// A quotient by a pair with non-zero numerator is well-formed.
pub proof fn lemma_q_div_wf(a: Q, b: Q)
    requires
        q_wf(a),
        q_wf(b),
        b.n != 0,
    ensures
        q_wf(q_div(a, b)),
{
    if b.n > 0 {
        assert(a.d * b.n > 0) by (nonlinear_arith)
            requires a.d > 0, b.n > 0;
    } else {
        assert(-(a.d * b.n) > 0) by (nonlinear_arith)
            requires a.d > 0, b.n < 0;
    }
}

/// Reassociation used when a product is built up one factor at a time.
pub proof fn lemma_q_mul_ac(a: Q, b: Q, c: Q)
    ensures
        q_eq(q_mul(q_mul(a, b), c), q_mul(a, q_mul(c, b))),
{
    assert(((a.n * b.n) * c.n) * (a.d * (c.d * b.d)) == (a.n * (c.n * b.n)) * ((a.d * b.d) * c.d))
        by (nonlinear_arith);
}

/// A power of a well-formed pair is well-formed.
pub proof fn lemma_q_pow_wf(a: Q, k: nat)
    requires
        q_wf(a),
    ensures
        q_wf(q_pow(a, k)),
    decreases k,
{
    if k > 0 {
        lemma_q_pow_wf(a, (k - 1) as nat);
        lemma_q_mul_wf(a, q_pow(a, (k - 1) as nat));
    }
}

/// Multiplying by one keeps the value.
pub proof fn lemma_q_mul_one(a: Q)
    ensures
        q_eq(q_mul(a, q_int(1)), a),
        q_eq(a, q_mul(a, q_int(1))),
{
}

/// Multiplying both sides of an inequality by a positive factor.
proof fn lemma_mul_le_compat(x: int, y: int, t: int)
    by (nonlinear_arith)
    requires
        x <= y,
        t > 0,
    ensures
        x * t <= y * t,
{
}

/// Addition is compatible with the order.
pub proof fn lemma_q_add_le(a: Q, a2: Q, b: Q, b2: Q)
    requires
        q_wf(a),
        q_wf(a2),
        q_wf(b),
        q_wf(b2),
        q_le(a, a2),
        q_le(b, b2),
    ensures
        q_le(q_add(a, b), q_add(a2, b2)),
{
    assert(b.d * b2.d > 0 && a.d * a2.d > 0) by (nonlinear_arith)
        requires a.d > 0, b.d > 0, a2.d > 0, b2.d > 0;
    lemma_mul_le_compat(a.n * a2.d, a2.n * a.d, b.d * b2.d);
    lemma_mul_le_compat(b.n * b2.d, b2.n * b.d, a.d * a2.d);
    lemma_distrib3(a.n * b.d, b.n * a.d, a2.d * b2.d);
    lemma_distrib3(a2.n * b2.d, b2.n * a2.d, a.d * b.d);
    assert((a.n * b.d) * (a2.d * b2.d) == (a.n * a2.d) * (b.d * b2.d)) by (nonlinear_arith);
    assert((b.n * a.d) * (a2.d * b2.d) == (b.n * b2.d) * (a.d * a2.d)) by (nonlinear_arith);
    assert((a2.n * b2.d) * (a.d * b.d) == (a2.n * a.d) * (b.d * b2.d)) by (nonlinear_arith);
    assert((b2.n * a2.d) * (a.d * b.d) == (b2.n * b.d) * (a.d * a2.d)) by (nonlinear_arith);
}

/// Multiplication by a non-negative rational is compatible with the order.
pub proof fn lemma_q_mul_le(c: Q, a: Q, b: Q)
    requires
        q_wf(c),
        q_wf(a),
        q_wf(b),
        q_le(q_int(0), c),
        q_le(a, b),
    ensures
        q_le(q_mul(c, a), q_mul(c, b)),
{
    assert((c.n * a.n) * (c.d * b.d) <= (c.n * b.n) * (c.d * a.d)) by (nonlinear_arith)
        requires
            c.n >= 0,
            a.n * b.d <= b.n * a.d,
            c.d > 0,
            a.d > 0,
            b.d > 0,
    ;
}

/// Negation reverses the order.
pub proof fn lemma_q_neg_le(a: Q, b: Q)
    requires
        q_le(a, b),
    ensures
        q_le(q_neg(b), q_neg(a)),
{
    assert((-b.n) * a.d <= (-a.n) * b.d) by (nonlinear_arith)
        requires a.n * b.d <= b.n * a.d;
}

/// A strict bound below a weak one, over well-formed pairs.
pub proof fn lemma_q_le_lt_trans(a: Q, b: Q, c: Q)
    requires
        q_wf(a),
        q_wf(b),
        q_wf(c),
        q_le(a, b),
        q_lt(b, c),
    ensures
        q_lt(a, c),
{
    assert(a.n * c.d < c.n * a.d) by (nonlinear_arith)
        requires
            a.n * b.d <= b.n * a.d,
            b.n * c.d < c.n * b.d,
            a.d > 0,
            b.d > 0,
            c.d > 0,
    ;
}


/// A strict bound extended by a weak one, over well-formed pairs.
pub proof fn lemma_q_lt_le_trans(a: Q, b: Q, c: Q)
    requires
        q_wf(a),
        q_wf(b),
        q_wf(c),
        q_lt(a, b),
        q_le(b, c),
    ensures
        q_lt(a, c),
{
    assert(a.n * c.d < c.n * a.d) by (nonlinear_arith)
        requires
            a.n * b.d < b.n * a.d,
            b.n * c.d <= c.n * b.d,
            a.d > 0,
            b.d > 0,
            c.d > 0,
    ;
}

/// Reassociating a three-factor product.
proof fn lemma_mul_assoc3(x: int, y: int, z: int)
    by (nonlinear_arith)
    ensures
        x * (y * z) == (x * y) * z,
{
}

/// Reordering the six-factor monomial that appears when a product over a
/// common denominator is cross-multiplied.
proof fn lemma_mul_shuffle(x: int, p: int, q: int, r: int)
    by (nonlinear_arith)
    ensures
        (x * p) * ((q * r) * (q * p)) == (x * (q * p)) * (q * (r * p)),
{
}

/// Multiplication distributes over addition, up to `q_eq`.
pub proof fn lemma_q_mul_distrib(c: Q, a: Q, b: Q)
    requires
        q_wf(c),
        q_wf(a),
        q_wf(b),
    ensures
        q_eq(q_mul(c, q_add(a, b)), q_add(q_mul(c, a), q_mul(c, b))),
{
    lemma_distrib3(a.n * b.d, b.n * a.d, c.n);
    lemma_distrib3(c.n * (a.n * b.d), c.n * (b.n * a.d), (c.d * a.d) * (c.d * b.d));
    lemma_distrib3((c.n * a.n) * (c.d * b.d), (c.n * b.n) * (c.d * a.d), c.d * (a.d * b.d));
    // First monomial.
    lemma_mul_assoc3(c.n, a.n, b.d);
    lemma_mul_shuffle(c.n * a.n, b.d, c.d, a.d);
    assert((c.d * a.d) * (c.d * b.d) == (c.d * b.d) * (c.d * a.d)) by (nonlinear_arith);
    // Second monomial.
    lemma_mul_assoc3(c.n, b.n, a.d);
    lemma_mul_shuffle(c.n * b.n, a.d, c.d, b.d);
    assert(c.d * (b.d * a.d) == c.d * (a.d * b.d)) by (nonlinear_arith);
}

/// Multiplication is commutative up to `q_eq`.
pub proof fn lemma_q_mul_comm(a: Q, b: Q)
    ensures
        q_eq(q_mul(a, b), q_mul(b, a)),
{
    assert((a.n * b.n) * (b.d * a.d) == (b.n * a.n) * (a.d * b.d)) by (nonlinear_arith);
}

/// Reordering the six-factor monomial that appears when a product of two
/// quotients over powers is cross-multiplied.
proof fn lemma_mul_shuffle2(a: int, b: int, c: int, d: int, e: int, f: int)
    by (nonlinear_arith)
    ensures
        ((a * b) * c) * (d * (e * f)) == (a * (c * b)) * ((d * f) * e),
{
}

/// A power of a well-formed pair with positive numerator stays positive.
pub proof fn lemma_q_pow_pos(a: Q, k: nat)
    requires
        q_wf(a),
        a.n > 0,
    ensures
        q_wf(q_pow(a, k)),
        q_pow(a, k).n > 0,
    decreases k,
{
    if k > 0 {
        lemma_q_pow_pos(a, (k - 1) as nat);
        lemma_q_mul_wf(a, q_pow(a, (k - 1) as nat));
        assert(a.n * q_pow(a, (k - 1) as nat).n > 0) by (nonlinear_arith)
            requires a.n > 0, q_pow(a, (k - 1) as nat).n > 0;
    }
}

/// A product of two quotients with a shared positive structure:
/// `(c / p) * (1 / g) == c / (g * p)` up to `q_eq`, stated on the pairs the
/// constant-payoff value proof meets.
pub proof fn lemma_q_div_mul_pow(c: Q, g: Q, p1: Q)
    requires
        q_wf(c),
        q_wf(g),
        q_wf(p1),
        g.n > 0,
        p1.n > 0,
    ensures
        q_eq(
            q_mul(q_div(c, p1), q_div(q_int(1), g)),
            q_div(c, q_mul(g, p1)),
        ),
{
    assert(q_mul(g, p1).n > 0) by (nonlinear_arith)
        requires g.n > 0, p1.n > 0;
    lemma_mul_shuffle2(c.n, p1.d, 1 * g.d, c.d, 1 * g.n, p1.n);
    assert(((c.n * p1.d) * (1 * g.d)) * (c.d * ((1 * g.n) * p1.n)) == (c.n * ((1 * g.d) * p1.d))
        * ((c.d * p1.n) * (1 * g.n)));
    assert(c.n * ((1 * g.d) * p1.d) == c.n * (g.d * p1.d));
    assert((c.d * p1.n) * (1 * g.n) == (c.d * p1.n) * g.n);
    assert(c.d * ((1 * g.n) * p1.n) == c.d * (g.n * p1.n));
}

/// Addition is commutative up to `q_eq`.
pub proof fn lemma_q_add_comm(a: Q, b: Q)
    ensures
        q_eq(q_add(a, b), q_add(b, a)),
{
    assert((a.n * b.d + b.n * a.d) * (b.d * a.d) == (b.n * a.d + a.n * b.d) * (a.d * b.d))
        by (nonlinear_arith);
}

/// Adding zero keeps the value.
pub proof fn lemma_q_add_zero(a: Q)
    ensures
        q_eq(q_add(a, q_int(0)), a),
        q_eq(q_add(q_int(0), a), a),
{
    assert((a.n * 1 + 0 * a.d) * a.d == a.n * (a.d * 1)) by (nonlinear_arith);
    assert((0 * a.d + a.n * 1) * a.d == a.n * (1 * a.d)) by (nonlinear_arith);
}

/// Addition is associative up to `q_eq`.
pub proof fn lemma_q_add_assoc(a: Q, b: Q, c: Q)
    requires
        q_wf(a),
        q_wf(b),
        q_wf(c),
    ensures
        q_eq(q_add(q_add(a, b), c), q_add(a, q_add(b, c))),
{
    lemma_distrib3(a.n * b.d, b.n * a.d, c.d);
    lemma_distrib3(b.n * c.d, c.n * b.d, a.d);
    lemma_distrib3((a.n * b.d) * c.d + (b.n * a.d) * c.d, c.n * (a.d * b.d), a.d * (b.d * c.d));
    lemma_distrib3((a.n * b.d) * c.d, (b.n * a.d) * c.d, a.d * (b.d * c.d));
    lemma_distrib3(a.n * (b.d * c.d), (b.n * c.d) * a.d + (c.n * b.d) * a.d, (a.d * b.d) * c.d);
    lemma_distrib3((b.n * c.d) * a.d, (c.n * b.d) * a.d, (a.d * b.d) * c.d);
    assert(((a.n * b.d) * c.d) * (a.d * (b.d * c.d)) == (a.n * (b.d * c.d)) * ((a.d * b.d)
        * c.d)) by (nonlinear_arith);
    assert(((b.n * a.d) * c.d) * (a.d * (b.d * c.d)) == ((b.n * c.d) * a.d) * ((a.d * b.d)
        * c.d)) by (nonlinear_arith);
    assert((c.n * (a.d * b.d)) * (a.d * (b.d * c.d)) == ((c.n * b.d) * a.d) * ((a.d * b.d)
        * c.d)) by (nonlinear_arith);
}

/// Regrouping a sum of four terms: `(a + b) + (c + d) == (a + c) + (b + d)`
/// up to `q_eq`.
pub proof fn lemma_q_add_regroup(a: Q, b: Q, c: Q, d: Q)
    requires
        q_wf(a),
        q_wf(b),
        q_wf(c),
        q_wf(d),
    ensures
        q_eq(q_add(q_add(a, b), q_add(c, d)), q_add(q_add(a, c), q_add(b, d))),
{
    lemma_q_mul_wf(a, b);
    lemma_q_mul_wf(c, d);
    lemma_q_mul_wf(b, c);
    lemma_q_mul_wf(b, d);
    lemma_q_mul_wf(a, c);
    lemma_q_mul_wf(q_add(a, b), q_add(c, d));
    lemma_q_mul_wf(q_add(a, c), q_add(b, d));
    lemma_q_mul_wf(q_add(c, d), b);
    lemma_q_mul_wf(c, q_add(d, b));
    lemma_q_mul_wf(c, q_add(b, d));
    lemma_q_mul_wf(a, q_add(b, q_add(c, d)));
    lemma_q_mul_wf(a, q_add(c, q_add(b, d)));
    lemma_q_mul_wf(b, q_add(c, d));
    lemma_q_mul_wf(q_add(c, d), q_add(b, d));
    // (a + b) + (c + d) ~ a + (b + (c + d))
    lemma_q_add_assoc(a, b, q_add(c, d));
    // b + (c + d) ~ (c + d) + b ~ c + (d + b) ~ c + (b + d)
    lemma_q_add_comm(b, q_add(c, d));
    lemma_q_add_assoc(c, d, b);
    lemma_q_add_comm(d, b);
    lemma_q_add_congr(c, c, q_add(d, b), q_add(b, d));
    lemma_q_eq_trans(q_add(b, q_add(c, d)), q_add(q_add(c, d), b), q_add(c, q_add(d, b)));
    lemma_q_eq_trans(q_add(b, q_add(c, d)), q_add(c, q_add(d, b)), q_add(c, q_add(b, d)));
    // a + (b + (c + d)) ~ a + (c + (b + d)) ~ (a + c) + (b + d)
    lemma_q_add_congr(a, a, q_add(b, q_add(c, d)), q_add(c, q_add(b, d)));
    lemma_q_add_assoc(a, c, q_add(b, d));
    lemma_q_eq_sym(q_add(q_add(a, c), q_add(b, d)), q_add(a, q_add(c, q_add(b, d))));
    lemma_q_eq_trans(
        q_add(q_add(a, b), q_add(c, d)),
        q_add(a, q_add(b, q_add(c, d))),
        q_add(a, q_add(c, q_add(b, d))),
    );
    lemma_q_eq_trans(
        q_add(q_add(a, b), q_add(c, d)),
        q_add(a, q_add(c, q_add(b, d))),
        q_add(q_add(a, c), q_add(b, d)),
    );
}

} // verus!
