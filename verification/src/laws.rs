//! Laws of the lattice model that hold for every sound market.

use vstd::prelude::*;
use crate::rational::{
    Q, q_wf, q_eq, q_le, q_lt, q_int, q_add, q_sub, q_neg, q_mul, q_div, q_pow, lemma_q_mul_wf,
    lemma_q_mul_one, lemma_q_mul_congr, lemma_q_add_congr, lemma_q_eq_trans, lemma_q_eq_sym,
    lemma_q_pow_wf, lemma_q_pow_pos, lemma_q_neg_le, lemma_q_add_le, lemma_q_le_lt_trans,
    lemma_q_lt_le_trans, lemma_q_le_congr, lemma_q_mul_comm, lemma_q_mul_distrib,
    lemma_q_div_wf, lemma_q_div_mul_pow, lemma_q_add_zero, lemma_distrib3,
};
use crate::market::{MarketQ, market_wf, q_grow, q_node_price, lemma_market_signs};
use crate::contracts::{
    pf_ok, q_double_payoff, q_call_payoff, q_put_payoff, q_bear_payoff, q_bull_payoff,
    call_pf, put_pf, double_pf, bear_pf, bull_pf, lemma_pf_ok, lemma_payoff_congr,
};
use crate::pricer::{
    q_value, q_up_weight, q_down_weight, lemma_q_node_price_wf, lemma_q_value_wf,
    lemma_weights_wf, lemma_weights_sum, lemma_value_monotone, lemma_value_pointwise,
    lemma_value_additive,
};

verus! {

/// At the root of the lattice the underlying is worth its spot price:
/// `nodePrice(0, 0) == spot`.
pub proof fn lemma_node_price_spot(m: MarketQ)
    requires
        market_wf(m),
    ensures
        q_eq(q_node_price(m, 0, 0), m.spot),
{
    lemma_q_mul_wf(m.spot, q_int(1));
    lemma_q_mul_one(m.spot);
    lemma_q_mul_one(q_mul(m.spot, q_int(1)));
    lemma_q_eq_trans(q_node_price(m, 0, 0), q_mul(m.spot, q_int(1)), m.spot);
}

/// The extreme terminal nodes compound one tick only:
/// `nodePrice(n, n) == spot * (1 + utick)^n` and
/// `nodePrice(n, 0) == spot * (1 + dtick)^n`.
pub proof fn lemma_node_price_edges(m: MarketQ, n: nat)
    requires
        market_wf(m),
    ensures
        q_eq(q_node_price(m, n, n), q_mul(m.spot, q_pow(q_grow(m.utick), n))),
        q_eq(q_node_price(m, n, 0), q_mul(m.spot, q_pow(q_grow(m.dtick), n))),
{
    let pu = q_pow(q_grow(m.utick), n);
    let pd = q_pow(q_grow(m.dtick), n);
    lemma_q_mul_wf(q_int(1), m.utick);
    lemma_q_mul_wf(q_int(1), m.dtick);
    lemma_q_pow_wf(q_grow(m.utick), n);
    lemma_q_pow_wf(q_grow(m.dtick), n);
    lemma_q_mul_wf(m.spot, pu);
    lemma_q_mul_one(q_mul(m.spot, pu));
    // node(n, 0): the up factor is the empty power, equal to one.
    lemma_q_mul_wf(m.spot, q_int(1));
    lemma_q_mul_one(m.spot);
    lemma_q_mul_wf(m.spot, pd);
    lemma_q_mul_congr(q_mul(m.spot, q_int(1)), m.spot, pd, pd);
}

/// A zero-expiry contract is worth its payoff at the spot price: no
/// induction happens.
pub proof fn lemma_zero_expiry(m: MarketQ, f: spec_fn(Q) -> Q)
    requires
        market_wf(m),
        pf_ok(f),
    ensures
        q_eq(q_value(m, f, 0, 0, 0), f(m.spot)),
{
    lemma_q_node_price_wf(m, 0, 0);
    lemma_node_price_spot(m);
    let node = q_node_price(m, 0, 0);
    assert(q_wf(f(node)) && q_eq(f(node), f(m.spot)));
}

/// The double digital payoff is bounded by 0 and 1 at every underlying
/// price.
pub proof fn lemma_double_payoff_bounds(lower: Q, upper: Q, s: Q)
    requires
        q_wf(lower),
        q_wf(upper),
        q_wf(s),
    ensures
        q_le(q_int(0), q_double_payoff(lower, upper, s)),
        q_le(q_double_payoff(lower, upper, s), q_int(1)),
{
}

/// Raising the strike never raises the call payoff, at any underlying price.
pub proof fn lemma_call_payoff_strike_mono(k1: Q, k2: Q, s: Q)
    requires
        q_wf(k1),
        q_wf(k2),
        q_wf(s),
        q_le(k1, k2),
    ensures
        q_le(q_call_payoff(k2, s), q_call_payoff(k1, s)),
{
    if q_lt(k2, s) {
        lemma_q_le_lt_trans(k1, k2, s);
        lemma_q_neg_le(k1, k2);
        lemma_q_add_le(s, s, crate::rational::q_neg(k2), crate::rational::q_neg(k1));
    } else if q_lt(k1, s) {
        assert(s.n * k1.d + (-k1.n) * s.d >= 0) by (nonlinear_arith)
            requires k1.n * s.d < s.n * k1.d;
    }
}

/// Raising the strike never lowers the put payoff, at any underlying price.
pub proof fn lemma_put_payoff_strike_mono(k1: Q, k2: Q, s: Q)
    requires
        q_wf(k1),
        q_wf(k2),
        q_wf(s),
        q_le(k1, k2),
    ensures
        q_le(q_put_payoff(k1, s), q_put_payoff(k2, s)),
{
    if q_lt(s, k1) {
        lemma_q_lt_le_trans(s, k1, k2);
        lemma_q_add_le(k1, k2, crate::rational::q_neg(s), crate::rational::q_neg(s));
    } else if q_lt(s, k2) {
        assert(k2.n * s.d + (-s.n) * k2.d >= 0) by (nonlinear_arith)
            requires s.n * k2.d < k2.n * s.d;
    }
}

/// Raising the strike never raises the call price: pointwise payoff
/// monotonicity carried through the whole lattice.
pub proof fn lemma_call_price_strike_monotone(m: MarketQ, k1: Q, k2: Q, n: nat)
    requires
        market_wf(m),
        q_wf(k1),
        q_wf(k2),
        q_le(k1, k2),
    ensures
        q_le(q_value(m, call_pf(k2), n, 0, 0), q_value(m, call_pf(k1), n, 0, 0)),
{
    lemma_pf_ok(k1, k1);
    lemma_pf_ok(k2, k2);
    let f = call_pf(k2);
    let g = call_pf(k1);
    assert forall|s: Q| #![trigger f(s), g(s)] q_wf(s) implies q_le(f(s), g(s)) by {
        lemma_call_payoff_strike_mono(k1, k2, s);
    }
    lemma_value_monotone(m, f, g, n, 0, 0);
}

/// Raising the strike never lowers the put price.
pub proof fn lemma_put_price_strike_monotone(m: MarketQ, k1: Q, k2: Q, n: nat)
    requires
        market_wf(m),
        q_wf(k1),
        q_wf(k2),
        q_le(k1, k2),
    ensures
        q_le(q_value(m, put_pf(k1), n, 0, 0), q_value(m, put_pf(k2), n, 0, 0)),
{
    lemma_pf_ok(k1, k1);
    lemma_pf_ok(k2, k2);
    let f = put_pf(k1);
    let g = put_pf(k2);
    assert forall|s: Q| #![trigger f(s), g(s)] q_wf(s) implies q_le(f(s), g(s)) by {
        lemma_put_payoff_strike_mono(k1, k2, s);
    }
    lemma_value_monotone(m, f, g, n, 0, 0);
}

/// The payoff that is zero everywhere.
pub open spec fn zero_pf() -> spec_fn(Q) -> Q {
    |s: Q| q_int(0)
}

/// The zero payoff prices to zero at every node.
pub proof fn lemma_value_zero(m: MarketQ, n: nat, t: nat, i: nat)
    requires
        market_wf(m),
    ensures
        q_wf(q_value(m, zero_pf(), n, t, i)),
        q_eq(q_value(m, zero_pf(), n, t, i), q_int(0)),
    decreases n - t,
{
    let z = zero_pf();
    if t >= n {
        assert(z(q_node_price(m, n, i)) == q_int(0));
    } else {
        let t1 = (t + 1) as nat;
        lemma_value_zero(m, n, t1, i);
        lemma_value_zero(m, n, t1, (i + 1) as nat);
        lemma_weights_wf(m);
        let dw = q_down_weight(m);
        let uw = q_up_weight(m);
        let va = q_value(m, z, n, t1, i);
        let vb = q_value(m, z, n, t1, (i + 1) as nat);
        lemma_q_mul_wf(dw, va);
        lemma_q_mul_wf(uw, vb);
        lemma_q_mul_wf(q_mul(dw, va), q_mul(uw, vb));
        assert(va.n == 0 && vb.n == 0);
        assert(dw.n * va.n == 0 && uw.n * vb.n == 0) by (nonlinear_arith)
            requires va.n == 0, vb.n == 0;
        let x = q_mul(dw, va);
        let y = q_mul(uw, vb);
        assert(x.n * y.d + y.n * x.d == 0) by (nonlinear_arith)
            requires x.n == 0, y.n == 0;
    }
}

/// The double digital price is never negative: its payoff dominates the
/// zero payoff at every terminal node.
pub proof fn lemma_double_digital_price_nonneg(m: MarketQ, lower: Q, upper: Q, n: nat)
    requires
        market_wf(m),
        q_wf(lower),
        q_wf(upper),
    ensures
        q_le(q_int(0), q_value(m, double_pf(lower, upper), n, 0, 0)),
{
    lemma_pf_ok(lower, upper);
    let z = zero_pf();
    let g = double_pf(lower, upper);
    assert forall|a: Q, b: Q| #![trigger z(a), z(b)]
        q_wf(a) && q_wf(b) && q_eq(a, b) implies q_wf(z(a)) && q_eq(z(a), z(b)) by {
        assert(z(a) == q_int(0));
    }
    assert forall|s: Q| #![trigger z(s), g(s)] q_wf(s) implies q_le(z(s), g(s)) by {
        lemma_double_payoff_bounds(lower, upper, s);
    }
    lemma_value_monotone(m, z, g, n, 0, 0);
    lemma_value_zero(m, n, 0, 0);
    lemma_q_value_wf(m, g, n, 0, 0);
    lemma_q_le_congr(
        q_value(m, z, n, 0, 0),
        q_int(0),
        q_value(m, g, n, 0, 0),
        q_value(m, g, n, 0, 0),
    );
}

/// The payoff that is `c` everywhere.
pub open spec fn const_pf(c: Q) -> spec_fn(Q) -> Q {
    |s: Q| c
}

/// A constant payoff prices to the payoff discounted over the remaining
/// periods: `c / (1 + rate)^(n - t)` at node `(t, i)`.
pub proof fn lemma_value_const(m: MarketQ, c: Q, n: nat, t: nat, i: nat)
    requires
        market_wf(m),
        q_wf(c),
        t <= n,
    ensures
        q_wf(q_value(m, const_pf(c), n, t, i)),
        q_eq(
            q_value(m, const_pf(c), n, t, i),
            q_div(c, q_pow(q_grow(m.rate), (n - t) as nat)),
        ),
    decreases n - t,
{
    let f = const_pf(c);
    let g = q_grow(m.rate);
    lemma_market_signs(m);
    let k = (n - t) as nat;
    lemma_q_pow_pos(g, k);
    lemma_q_div_wf(c, q_pow(g, k));
    if t >= n {
        assert(f(q_node_price(m, n, i)) == c);
        assert(q_pow(g, 0) == q_int(1));
        assert(c.n * (c.d * 1) == (c.n * 1) * c.d) by (nonlinear_arith);
        assert(q_eq(c, q_div(c, q_int(1))));
    } else {
        let t1 = (t + 1) as nat;
        let k1 = (k - 1) as nat;
        lemma_value_const(m, c, n, t1, i);
        lemma_value_const(m, c, n, t1, (i + 1) as nat);
        lemma_weights_wf(m);
        lemma_weights_sum(m);
        let dw = q_down_weight(m);
        let uw = q_up_weight(m);
        let va = q_value(m, f, n, t1, i);
        let vb = q_value(m, f, n, t1, (i + 1) as nat);
        lemma_q_pow_pos(g, k1);
        let d1 = q_div(c, q_pow(g, k1));
        lemma_q_div_wf(c, q_pow(g, k1));
        lemma_q_mul_wf(dw, va);
        lemma_q_mul_wf(uw, vb);
        lemma_q_mul_wf(dw, d1);
        lemma_q_mul_wf(uw, d1);
        lemma_q_mul_wf(d1, dw);
        lemma_q_mul_wf(d1, uw);
        lemma_q_mul_wf(dw, uw);
        lemma_q_mul_wf(q_mul(dw, va), q_mul(uw, vb));
        lemma_q_mul_wf(q_mul(dw, d1), q_mul(uw, d1));
        lemma_q_mul_wf(q_mul(d1, dw), q_mul(d1, uw));
        lemma_q_mul_wf(d1, q_add(dw, uw));
        lemma_q_div_wf(q_int(1), g);
        lemma_q_mul_wf(d1, q_div(q_int(1), g));
        let v = q_value(m, f, n, t, i);
        assert(v == q_add(q_mul(dw, va), q_mul(uw, vb)));
        // v ~ dw*d1 + uw*d1
        lemma_q_mul_congr(dw, dw, va, d1);
        lemma_q_mul_congr(uw, uw, vb, d1);
        lemma_q_add_congr(q_mul(dw, va), q_mul(dw, d1), q_mul(uw, vb), q_mul(uw, d1));
        // ~ d1*dw + d1*uw
        lemma_q_mul_comm(dw, d1);
        lemma_q_mul_comm(uw, d1);
        lemma_q_add_congr(q_mul(dw, d1), q_mul(d1, dw), q_mul(uw, d1), q_mul(d1, uw));
        // ~ d1*(dw + uw)
        lemma_q_mul_distrib(d1, dw, uw);
        lemma_q_eq_sym(
            q_mul(d1, q_add(dw, uw)),
            q_add(q_mul(d1, dw), q_mul(d1, uw)),
        );
        // ~ d1 * (1/g)
        lemma_q_mul_congr(d1, d1, q_add(dw, uw), q_div(q_int(1), g));
        // ~ c / (g * g^(k-1)) == c / g^k
        lemma_q_div_mul_pow(c, g, q_pow(g, k1));
        assert(q_pow(g, k) == q_mul(g, q_pow(g, k1)));
        lemma_q_eq_trans(
            v,
            q_add(q_mul(dw, d1), q_mul(uw, d1)),
            q_add(q_mul(d1, dw), q_mul(d1, uw)),
        );
        lemma_q_eq_trans(
            v,
            q_add(q_mul(d1, dw), q_mul(d1, uw)),
            q_mul(d1, q_add(dw, uw)),
        );
        lemma_q_eq_trans(v, q_mul(d1, q_add(dw, uw)), q_mul(d1, q_div(q_int(1), g)));
        lemma_q_eq_trans(v, q_mul(d1, q_div(q_int(1), g)), q_div(c, q_pow(g, k)));
    }
}

/// The double digital price lies between 0 and the discounted unit payoff
/// `(1 + rate)^(-n)`: its payoff lies in [0, 1] at every terminal node and
/// each sweep step combines with non-negative weights summing to the
/// one-period discount factor.
pub proof fn lemma_double_digital_price_bounds(m: MarketQ, lower: Q, upper: Q, n: nat)
    requires
        market_wf(m),
        q_wf(lower),
        q_wf(upper),
    ensures
        q_le(q_int(0), q_value(m, double_pf(lower, upper), n, 0, 0)),
        q_le(
            q_value(m, double_pf(lower, upper), n, 0, 0),
            q_div(q_int(1), q_pow(q_grow(m.rate), n)),
        ),
{
    lemma_double_digital_price_nonneg(m, lower, upper, n);
    lemma_pf_ok(lower, upper);
    let f = double_pf(lower, upper);
    let one = const_pf(q_int(1));
    assert forall|a: Q, b: Q| #![trigger one(a), one(b)]
        q_wf(a) && q_wf(b) && q_eq(a, b) implies q_wf(one(a)) && q_eq(one(a), one(b)) by {
        assert(one(a) == q_int(1));
    }
    assert forall|s: Q| #![trigger f(s), one(s)] q_wf(s) implies q_le(f(s), one(s)) by {
        lemma_double_payoff_bounds(lower, upper, s);
    }
    lemma_value_monotone(m, f, one, n, 0, 0);
    lemma_value_const(m, q_int(1), n, 0, 0);
    lemma_q_value_wf(m, f, n, 0, 0);
    lemma_market_signs(m);
    lemma_q_pow_pos(q_grow(m.rate), n);
    lemma_q_div_wf(q_int(1), q_pow(q_grow(m.rate), n));
    lemma_q_le_congr(
        q_value(m, f, n, 0, 0),
        q_value(m, f, n, 0, 0),
        q_value(m, one, n, 0, 0),
        q_div(q_int(1), q_pow(q_grow(m.rate), n)),
    );
}

/// At every underlying price the bear and bull spread payoffs on the same
/// band sum to the width of the band.
pub proof fn lemma_bear_bull_sum(lower: Q, upper: Q, s: Q)
    requires
        q_wf(lower),
        q_wf(upper),
        q_wf(s),
    ensures
        q_eq(
            q_add(q_bear_payoff(lower, upper, s), q_bull_payoff(lower, upper, s)),
            q_sub(upper, lower),
        ),
{
    lemma_q_mul_wf(upper, q_neg(lower));
    lemma_q_mul_wf(upper, q_neg(s));
    lemma_q_mul_wf(s, q_neg(lower));
    if q_lt(s, lower) {
        lemma_q_add_zero(q_sub(upper, lower));
    } else if q_lt(upper, s) {
        lemma_q_add_zero(q_sub(upper, lower));
    } else {
        let a = q_sub(upper, s);
        let b = q_sub(s, lower);
        let w = q_sub(upper, lower);
        lemma_distrib3(a.n * b.d, b.n * a.d, w.d);
        lemma_distrib3(upper.n * s.d, (-s.n) * upper.d, b.d);
        lemma_distrib3(s.n * lower.d, (-lower.n) * s.d, a.d);
        lemma_distrib3((upper.n * s.d) * b.d, ((-s.n) * upper.d) * b.d, w.d);
        lemma_distrib3((s.n * lower.d) * a.d, ((-lower.n) * s.d) * a.d, w.d);
        lemma_distrib3(upper.n * lower.d, (-lower.n) * upper.d, q_add(a, b).d);
        assert(((upper.n * s.d) * (s.d * lower.d)) * (upper.d * lower.d) == (upper.n * lower.d)
            * ((upper.d * s.d) * (s.d * lower.d))) by (nonlinear_arith);
        assert((((-s.n) * upper.d) * (s.d * lower.d)) * (upper.d * lower.d) + ((s.n * lower.d)
            * (upper.d * s.d)) * (upper.d * lower.d) == 0) by (nonlinear_arith);
        assert((((-lower.n) * s.d) * (upper.d * s.d)) * (upper.d * lower.d) == ((-lower.n)
            * upper.d) * ((upper.d * s.d) * (s.d * lower.d))) by (nonlinear_arith);
    }
}

/// Bear plus bull on one band prices to the discounted band width:
/// `price(Bear) + price(Bull) == (upper - lower) / (1 + rate)^n`.
pub proof fn lemma_bear_bull_parity(m: MarketQ, lower: Q, upper: Q, n: nat)
    requires
        market_wf(m),
        q_wf(lower),
        q_wf(upper),
    ensures
        q_eq(
            q_add(
                q_value(m, bear_pf(lower, upper), n, 0, 0),
                q_value(m, bull_pf(lower, upper), n, 0, 0),
            ),
            q_div(q_sub(upper, lower), q_pow(q_grow(m.rate), n)),
        ),
{
    lemma_pf_ok(lower, upper);
    let f = bear_pf(lower, upper);
    let g = bull_pf(lower, upper);
    let hh = (|s: Q| q_add(q_bear_payoff(lower, upper, s), q_bull_payoff(lower, upper, s)));
    let w = q_sub(upper, lower);
    lemma_q_mul_wf(upper, q_neg(lower));
    assert forall|s: Q| #![trigger hh(s)] q_wf(s) implies hh(s) == q_add(f(s), g(s)) by {
        assert(f(s) == q_bear_payoff(lower, upper, s));
        assert(g(s) == q_bull_payoff(lower, upper, s));
    }
    assert forall|a: Q, b: Q| #![trigger hh(a), hh(b)]
        q_wf(a) && q_wf(b) && q_eq(a, b) implies q_wf(hh(a)) && q_eq(hh(a), hh(b)) by {
        lemma_payoff_congr(lower, upper, a, b);
        lemma_q_eq_sym(a, b);
        lemma_payoff_congr(lower, upper, b, a);
        lemma_q_mul_wf(q_bear_payoff(lower, upper, a), q_bull_payoff(lower, upper, a));
        lemma_q_add_congr(
            q_bear_payoff(lower, upper, a),
            q_bear_payoff(lower, upper, b),
            q_bull_payoff(lower, upper, a),
            q_bull_payoff(lower, upper, b),
        );
    }
    lemma_value_additive(m, f, g, hh, n, 0, 0);
    let cw = const_pf(w);
    assert forall|a: Q, b: Q| #![trigger cw(a), cw(b)]
        q_wf(a) && q_wf(b) && q_eq(a, b) implies q_wf(cw(a)) && q_eq(cw(a), cw(b)) by {
        assert(cw(a) == w);
    }
    assert forall|s: Q| #![trigger hh(s), cw(s)] q_wf(s) implies q_eq(hh(s), cw(s)) by {
        lemma_bear_bull_sum(lower, upper, s);
        assert(cw(s) == w);
    }
    lemma_value_pointwise(m, hh, cw, n, 0, 0);
    lemma_value_const(m, w, n, 0, 0);
    lemma_market_signs(m);
    lemma_q_pow_pos(q_grow(m.rate), n);
    lemma_q_div_wf(w, q_pow(q_grow(m.rate), n));
    lemma_q_value_wf(m, f, n, 0, 0);
    lemma_q_value_wf(m, g, n, 0, 0);
    lemma_q_value_wf(m, hh, n, 0, 0);
    lemma_q_value_wf(m, cw, n, 0, 0);
    lemma_q_mul_wf(q_value(m, f, n, 0, 0), q_value(m, g, n, 0, 0));
    lemma_q_eq_sym(
        q_value(m, hh, n, 0, 0),
        q_add(q_value(m, f, n, 0, 0), q_value(m, g, n, 0, 0)),
    );
    lemma_q_eq_trans(
        q_add(q_value(m, f, n, 0, 0), q_value(m, g, n, 0, 0)),
        q_value(m, hh, n, 0, 0),
        q_value(m, cw, n, 0, 0),
    );
    lemma_q_eq_trans(
        q_add(q_value(m, f, n, 0, 0), q_value(m, g, n, 0, 0)),
        q_value(m, cw, n, 0, 0),
        q_div(w, q_pow(q_grow(m.rate), n)),
    );
}

} // verus!
