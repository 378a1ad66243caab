//! CRR pricing engine: backward induction over the implicit binomial
//! lattice, using one rolling buffer of length `expiry + 1`.

use vstd::prelude::*;
use crate::rational::{
    Q, Rat, q_wf, q_eq, q_le, q_int, q_add, q_neg, q_sub, q_mul, q_div, q_pow, q_step,
    lemma_reduce, lemma_q_mul_wf, lemma_q_div_wf, lemma_q_eq_sign, lemma_q_div_congr,
    lemma_q_eq_trans, lemma_q_mul_congr, lemma_q_add_congr, lemma_q_sub_congr, lemma_q_pow_wf,
    lemma_q_mul_le, lemma_q_add_le, lemma_distrib3, lemma_q_mul_distrib,
    lemma_q_add_regroup, lemma_q_eq_sym, lemma_q_mul_comm,
};
use crate::market::{
    MarketQ, market_wf, q_mprob, q_grow, q_node_price, BinMarket, lemma_market_signs,
    lemma_mprob_bounds, mprob_steps, node_price_steps,
};
use crate::contracts::{Contract, pf_ok};

verus! {

/// Discounted weight of the up branch: mprob / (1 + rate).
pub open spec fn q_up_weight(m: MarketQ) -> Q {
    q_div(q_mprob(m), q_grow(m.rate))
}

/// Discounted weight of the down branch: (1 - mprob) / (1 + rate).
pub open spec fn q_down_weight(m: MarketQ) -> Q {
    q_div(q_sub(q_int(1), q_mprob(m)), q_grow(m.rate))
}

/// Value at lattice node `(t, i)` of a contract with payoff `f` expiring at
/// `n`: the terminal payoff at `t == n`, and otherwise the discounted
/// risk-neutral expectation of the two child values.
pub open spec fn q_value(m: MarketQ, f: spec_fn(Q) -> Q, n: nat, t: nat, i: nat) -> Q
    decreases n - t,
{
    if t >= n {
        f(q_node_price(m, n, i))
    } else {
        q_add(
            q_mul(q_down_weight(m), q_value(m, f, n, (t + 1) as nat, i)),
            q_mul(q_up_weight(m), q_value(m, f, n, (t + 1) as nat, (i + 1) as nat)),
        )
    }
}

/// Node prices of a sound market are well-formed pairs.
pub proof fn lemma_q_node_price_wf(m: MarketQ, horizon: nat, ups: nat)
    requires
        market_wf(m),
    ensures
        q_wf(q_node_price(m, horizon, ups)),
{
    lemma_q_mul_wf(q_int(1), m.utick);
    lemma_q_mul_wf(q_int(1), m.dtick);
    lemma_q_pow_wf(q_grow(m.utick), ups);
    lemma_q_pow_wf(q_grow(m.dtick), (horizon - ups) as nat);
    lemma_q_mul_wf(m.spot, q_pow(q_grow(m.utick), ups));
    lemma_q_mul_wf(
        q_mul(m.spot, q_pow(q_grow(m.utick), ups)),
        q_pow(q_grow(m.dtick), (horizon - ups) as nat),
    );
}

/// The discount weights of a sound market are well-formed pairs.
pub proof fn lemma_weights_wf(m: MarketQ)
    requires
        market_wf(m),
    ensures
        q_wf(q_up_weight(m)),
        q_wf(q_down_weight(m)),
{
    lemma_market_signs(m);
    lemma_mprob_bounds(m);
    lemma_q_mul_wf(q_int(1), q_neg(q_mprob(m)));
    lemma_q_div_wf(q_mprob(m), q_grow(m.rate));
    lemma_q_div_wf(q_sub(q_int(1), q_mprob(m)), q_grow(m.rate));
}

/// The discount weights of a sound market are non-negative: the risk-
/// neutral probability lies in [0, 1] and the growth factor is positive.
pub proof fn lemma_weights_nonneg(m: MarketQ)
    requires
        market_wf(m),
    ensures
        q_le(q_int(0), q_up_weight(m)),
        q_le(q_int(0), q_down_weight(m)),
{
    lemma_market_signs(m);
    lemma_mprob_bounds(m);
    lemma_weights_wf(m);
    let p = q_mprob(m);
    let g = q_grow(m.rate);
    let s = q_sub(q_int(1), p);
    assert(q_up_weight(m).n == p.n * g.d);
    assert(p.n * g.d >= 0) by (nonlinear_arith)
        requires p.n >= 0, g.d > 0;
    assert(q_down_weight(m).n == s.n * g.d);
    assert(s.n >= 0);
    assert(s.n * g.d >= 0) by (nonlinear_arith)
        requires s.n >= 0, g.d > 0;
}

/// The two discount weights sum to the one-period discount factor:
/// `(1 - mprob)/(1 + rate) + mprob/(1 + rate) == 1/(1 + rate)`.
pub proof fn lemma_weights_sum(m: MarketQ)
    requires
        market_wf(m),
    ensures
        q_eq(q_add(q_down_weight(m), q_up_weight(m)), q_div(q_int(1), q_grow(m.rate))),
{
    lemma_market_signs(m);
    lemma_mprob_bounds(m);
    lemma_weights_wf(m);
    let p = q_mprob(m);
    let g = q_grow(m.rate);
    let s = q_sub(q_int(1), p);
    assert(s.d == p.d);
    assert(s.n == p.d - p.n);
    let dw = q_down_weight(m);
    let uw = q_up_weight(m);
    assert(dw == Q { n: s.n * g.d, d: s.d * g.n });
    assert(uw == Q { n: p.n * g.d, d: p.d * g.n });
    let sum = q_add(dw, uw);
    lemma_distrib3(s.n * g.d, p.n * g.d, p.d * g.n);
    lemma_distrib3(s.n, p.n, g.d);
    assert(s.n + p.n == p.d);
    assert(sum.n == (p.d * g.d) * (p.d * g.n));
    assert(sum.d == (p.d * g.n) * (p.d * g.n));
    assert(((p.d * g.d) * (p.d * g.n)) * (1 * g.n) == (1 * g.d) * ((p.d * g.n) * (p.d * g.n)))
        by (nonlinear_arith);
}

/// Pointwise order between two payoff functions on well-formed prices.
pub open spec fn pf_le(f: spec_fn(Q) -> Q, g: spec_fn(Q) -> Q) -> bool {
    forall|s: Q| #![trigger f(s), g(s)] q_wf(s) ==> q_le(f(s), g(s))
}

/// A pointwise larger payoff never has a smaller lattice value: each sweep
/// step combines the children with non-negative weights.
pub proof fn lemma_value_monotone(
    m: MarketQ,
    f: spec_fn(Q) -> Q,
    g: spec_fn(Q) -> Q,
    n: nat,
    t: nat,
    i: nat,
)
    requires
        market_wf(m),
        pf_ok(f),
        pf_ok(g),
        pf_le(f, g),
    ensures
        q_le(q_value(m, f, n, t, i), q_value(m, g, n, t, i)),
    decreases n - t,
{
    if t >= n {
        lemma_q_node_price_wf(m, n, i);
        let s = q_node_price(m, n, i);
        assert(q_le(f(s), g(s)));
    } else {
        let t1 = (t + 1) as nat;
        let i1 = (i + 1) as nat;
        lemma_value_monotone(m, f, g, n, t1, i);
        lemma_value_monotone(m, f, g, n, t1, i1);
        lemma_q_value_wf(m, f, n, t1, i);
        lemma_q_value_wf(m, f, n, t1, i1);
        lemma_q_value_wf(m, g, n, t1, i);
        lemma_q_value_wf(m, g, n, t1, i1);
        lemma_weights_wf(m);
        lemma_weights_nonneg(m);
        let dw = q_down_weight(m);
        let uw = q_up_weight(m);
        lemma_q_mul_le(dw, q_value(m, f, n, t1, i), q_value(m, g, n, t1, i));
        lemma_q_mul_le(uw, q_value(m, f, n, t1, i1), q_value(m, g, n, t1, i1));
        lemma_q_mul_wf(dw, q_value(m, f, n, t1, i));
        lemma_q_mul_wf(uw, q_value(m, f, n, t1, i1));
        lemma_q_mul_wf(dw, q_value(m, g, n, t1, i));
        lemma_q_mul_wf(uw, q_value(m, g, n, t1, i1));
        lemma_q_add_le(
            q_mul(dw, q_value(m, f, n, t1, i)),
            q_mul(dw, q_value(m, g, n, t1, i)),
            q_mul(uw, q_value(m, f, n, t1, i1)),
            q_mul(uw, q_value(m, g, n, t1, i1)),
        );
    }
}

/// Pointwise equality of two payoff functions on well-formed prices.
pub open spec fn pf_eq(f: spec_fn(Q) -> Q, g: spec_fn(Q) -> Q) -> bool {
    forall|s: Q| #![trigger f(s), g(s)] q_wf(s) ==> q_eq(f(s), g(s))
}

/// Pointwise equal payoffs have equal lattice values at every node.
pub proof fn lemma_value_pointwise(
    m: MarketQ,
    f: spec_fn(Q) -> Q,
    g: spec_fn(Q) -> Q,
    n: nat,
    t: nat,
    i: nat,
)
    requires
        market_wf(m),
        pf_ok(f),
        pf_ok(g),
        pf_eq(f, g),
    ensures
        q_eq(q_value(m, f, n, t, i), q_value(m, g, n, t, i)),
    decreases n - t,
{
    if t >= n {
        lemma_q_node_price_wf(m, n, i);
        let s = q_node_price(m, n, i);
        assert(q_eq(f(s), g(s)));
    } else {
        let t1 = (t + 1) as nat;
        let i1 = (i + 1) as nat;
        lemma_value_pointwise(m, f, g, n, t1, i);
        lemma_value_pointwise(m, f, g, n, t1, i1);
        lemma_q_value_wf(m, f, n, t1, i);
        lemma_q_value_wf(m, f, n, t1, i1);
        lemma_q_value_wf(m, g, n, t1, i);
        lemma_q_value_wf(m, g, n, t1, i1);
        lemma_weights_wf(m);
        let dw = q_down_weight(m);
        let uw = q_up_weight(m);
        lemma_q_mul_wf(dw, q_value(m, f, n, t1, i));
        lemma_q_mul_wf(dw, q_value(m, g, n, t1, i));
        lemma_q_mul_wf(uw, q_value(m, f, n, t1, i1));
        lemma_q_mul_wf(uw, q_value(m, g, n, t1, i1));
        lemma_q_mul_congr(dw, dw, q_value(m, f, n, t1, i), q_value(m, g, n, t1, i));
        lemma_q_mul_congr(uw, uw, q_value(m, f, n, t1, i1), q_value(m, g, n, t1, i1));
        lemma_q_add_congr(
            q_mul(dw, q_value(m, f, n, t1, i)),
            q_mul(dw, q_value(m, g, n, t1, i)),
            q_mul(uw, q_value(m, f, n, t1, i1)),
            q_mul(uw, q_value(m, g, n, t1, i1)),
        );
    }
}

/// The lattice value is additive in the payoff: a payoff that is pointwise
/// the sum of two others prices to the sum of their values, at every node.
pub proof fn lemma_value_additive(
    m: MarketQ,
    f: spec_fn(Q) -> Q,
    g: spec_fn(Q) -> Q,
    h: spec_fn(Q) -> Q,
    n: nat,
    t: nat,
    i: nat,
)
    requires
        market_wf(m),
        pf_ok(f),
        pf_ok(g),
        pf_ok(h),
        forall|s: Q| #![trigger h(s)] q_wf(s) ==> h(s) == q_add(f(s), g(s)),
    ensures
        q_eq(
            q_value(m, h, n, t, i),
            q_add(q_value(m, f, n, t, i), q_value(m, g, n, t, i)),
        ),
    decreases n - t,
{
    if t >= n {
        lemma_q_node_price_wf(m, n, i);
        let s = q_node_price(m, n, i);
        assert(h(s) == q_add(f(s), g(s)));
    } else {
        let t1 = (t + 1) as nat;
        let i1 = (i + 1) as nat;
        lemma_value_additive(m, f, g, h, n, t1, i);
        lemma_value_additive(m, f, g, h, n, t1, i1);
        let vfa = q_value(m, f, n, t1, i);
        let vfb = q_value(m, f, n, t1, i1);
        let vga = q_value(m, g, n, t1, i);
        let vgb = q_value(m, g, n, t1, i1);
        let vha = q_value(m, h, n, t1, i);
        let vhb = q_value(m, h, n, t1, i1);
        lemma_q_value_wf(m, f, n, t1, i);
        lemma_q_value_wf(m, f, n, t1, i1);
        lemma_q_value_wf(m, g, n, t1, i);
        lemma_q_value_wf(m, g, n, t1, i1);
        lemma_q_value_wf(m, h, n, t1, i);
        lemma_q_value_wf(m, h, n, t1, i1);
        lemma_q_value_wf(m, f, n, t, i);
        lemma_q_value_wf(m, g, n, t, i);
        lemma_weights_wf(m);
        let dw = q_down_weight(m);
        let uw = q_up_weight(m);
        lemma_q_mul_wf(vfa, vga);
        lemma_q_mul_wf(vfb, vgb);
        lemma_q_mul_wf(dw, vha);
        lemma_q_mul_wf(uw, vhb);
        lemma_q_mul_wf(dw, q_add(vfa, vga));
        lemma_q_mul_wf(uw, q_add(vfb, vgb));
        lemma_q_mul_wf(dw, vfa);
        lemma_q_mul_wf(dw, vga);
        lemma_q_mul_wf(uw, vfb);
        lemma_q_mul_wf(uw, vgb);
        lemma_q_mul_wf(q_mul(dw, vha), q_mul(uw, vhb));
        lemma_q_mul_wf(q_mul(dw, q_add(vfa, vga)), q_mul(uw, q_add(vfb, vgb)));
        lemma_q_mul_wf(q_mul(dw, vfa), q_mul(dw, vga));
        lemma_q_mul_wf(q_mul(uw, vfb), q_mul(uw, vgb));
        lemma_q_mul_wf(q_add(q_mul(dw, vfa), q_mul(dw, vga)), q_add(q_mul(uw, vfb), q_mul(uw, vgb)));
        lemma_q_mul_wf(q_mul(dw, vfa), q_mul(uw, vfb));
        lemma_q_mul_wf(q_mul(dw, vga), q_mul(uw, vgb));
        lemma_q_mul_wf(
            q_add(q_mul(dw, vfa), q_mul(uw, vfb)),
            q_add(q_mul(dw, vga), q_mul(uw, vgb)),
        );
        let v = q_value(m, h, n, t, i);
        assert(v == q_add(q_mul(dw, vha), q_mul(uw, vhb)));
        // v ~ dw*(vfa + vga) + uw*(vfb + vgb)
        lemma_q_mul_congr(dw, dw, vha, q_add(vfa, vga));
        lemma_q_mul_congr(uw, uw, vhb, q_add(vfb, vgb));
        lemma_q_add_congr(
            q_mul(dw, vha),
            q_mul(dw, q_add(vfa, vga)),
            q_mul(uw, vhb),
            q_mul(uw, q_add(vfb, vgb)),
        );
        // ~ (dw*vfa + dw*vga) + (uw*vfb + uw*vgb)
        lemma_q_mul_distrib(dw, vfa, vga);
        lemma_q_mul_distrib(uw, vfb, vgb);
        lemma_q_add_congr(
            q_mul(dw, q_add(vfa, vga)),
            q_add(q_mul(dw, vfa), q_mul(dw, vga)),
            q_mul(uw, q_add(vfb, vgb)),
            q_add(q_mul(uw, vfb), q_mul(uw, vgb)),
        );
        // ~ (dw*vfa + uw*vfb) + (dw*vga + uw*vgb) == v_f + v_g
        lemma_q_add_regroup(q_mul(dw, vfa), q_mul(dw, vga), q_mul(uw, vfb), q_mul(uw, vgb));
        lemma_q_eq_trans(
            v,
            q_add(q_mul(dw, q_add(vfa, vga)), q_mul(uw, q_add(vfb, vgb))),
            q_add(q_add(q_mul(dw, vfa), q_mul(dw, vga)), q_add(q_mul(uw, vfb), q_mul(uw, vgb))),
        );
        lemma_q_eq_trans(
            v,
            q_add(q_add(q_mul(dw, vfa), q_mul(dw, vga)), q_add(q_mul(uw, vfb), q_mul(uw, vgb))),
            q_add(q_add(q_mul(dw, vfa), q_mul(uw, vfb)), q_add(q_mul(dw, vga), q_mul(uw, vgb))),
        );
    }
}

/// Lattice values of a sound market and an equality-respecting payoff are
/// well-formed pairs.
pub proof fn lemma_q_value_wf(m: MarketQ, f: spec_fn(Q) -> Q, n: nat, t: nat, i: nat)
    requires
        market_wf(m),
        pf_ok(f),
    ensures
        q_wf(q_value(m, f, n, t, i)),
    decreases n - t,
{
    if t >= n {
        lemma_q_node_price_wf(m, n, i);
        let s = q_node_price(m, n, i);
        assert(q_wf(f(s)) && q_eq(f(s), f(s)));
    } else {
        lemma_q_value_wf(m, f, n, (t + 1) as nat, i);
        lemma_q_value_wf(m, f, n, (t + 1) as nat, (i + 1) as nat);
        lemma_weights_wf(m);
        let lo = q_mul(q_down_weight(m), q_value(m, f, n, (t + 1) as nat, i));
        let hi = q_mul(q_up_weight(m), q_value(m, f, n, (t + 1) as nat, (i + 1) as nat));
        lemma_q_mul_wf(q_down_weight(m), q_value(m, f, n, (t + 1) as nat, i));
        lemma_q_mul_wf(q_up_weight(m), q_value(m, f, n, (t + 1) as nat, (i + 1) as nat));
        lemma_q_mul_wf(lo, hi);
    }
}

/// Exact mirror of the discount-weight computation in `crr_pricer`: the
/// reduced pair (down weight, up weight), or `None` where an intermediate
/// value leaves the representable range.
pub open spec fn weights_steps(m: MarketQ) -> Option<(Q, Q)> {
    match mprob_steps(m) {
        Some(p) => match q_step(q_grow(m.rate)) {
            Some(opr) => if opr.n != 0 {
                match q_step(q_div(p, opr)) {
                    Some(up) => match q_step(q_sub(q_int(1), p)) {
                        Some(q1) => match q_step(q_div(q1, opr)) {
                            Some(dn) => Some((dn, up)),
                            None => None,
                        },
                        None => None,
                    },
                    None => None,
                }
            } else {
                None
            },
            None => None,
        },
        None => None,
    }
}

/// Exact mirror of the value the pricer computes for lattice node `(t, i)`:
/// the terminal payoff steps at `t == n`, and otherwise the reduced
/// combination of the two child values with the reduced weights `dn` and
/// `up`. `None` exactly where some step of the computation leaves the
/// representable range.
pub open spec fn node_steps<O: Contract>(
    m: MarketQ,
    opt: O,
    dn: Q,
    up: Q,
    n: nat,
    t: nat,
    i: nat,
) -> Option<Q>
    decreases n - t,
{
    if t >= n {
        match node_price_steps(m, n, i) {
            Some(s) => opt.payoff_steps(s),
            None => None,
        }
    } else {
        match node_steps(m, opt, dn, up, n, (t + 1) as nat, i) {
            Some(a) => match node_steps(m, opt, dn, up, n, (t + 1) as nat, (i + 1) as nat) {
                Some(b) => match q_step(q_mul(dn, a)) {
                    Some(x) => match q_step(q_mul(up, b)) {
                        Some(y) => q_step(q_add(x, y)),
                        None => None,
                    },
                    None => None,
                },
                None => None,
            },
            None => None,
        }
    }
}

/// A failed node makes every ancestor fail, the root included: each node of
/// the lattice is reached from the root by down steps and up steps.
pub proof fn lemma_node_steps_none<O: Contract>(
    m: MarketQ,
    opt: O,
    dn: Q,
    up: Q,
    n: nat,
    t: nat,
    i: nat,
)
    requires
        i <= t <= n,
        node_steps(m, opt, dn, up, n, t, i) is None,
    ensures
        node_steps(m, opt, dn, up, n, 0, 0) is None,
    decreases t,
{
    if t > 0 {
        let pt = (t - 1) as nat;
        if i <= t - 1 {
            // (t, i) is the down child of (t - 1, i).
            assert(node_steps(m, opt, dn, up, n, pt, i) is None);
            lemma_node_steps_none(m, opt, dn, up, n, pt, i);
        } else {
            // i == t: (t, t) is the up child of (t - 1, t - 1).
            assert(node_steps(m, opt, dn, up, n, pt, (i - 1) as nat) is None);
            lemma_node_steps_none(m, opt, dn, up, n, pt, (i - 1) as nat);
        }
    }
}

/// Exact mirror of the whole pricing computation.
pub open spec fn pricer_steps<O: Contract>(m: MarketQ, opt: O, n: nat) -> Option<Q> {
    match weights_steps(m) {
        Some(w) => node_steps(m, opt, w.0, w.1, n, 0, 0),
        None => None,
    }
}

/// The pricer fails exactly when the node that failed would make the root
/// fail, or the weights themselves fail.
proof fn lemma_pricer_steps_none_at<O: Contract>(m: MarketQ, opt: O, n: nat, t: nat, i: nat)
    requires
        i <= t <= n,
        weights_steps(m) matches Some(w) ==> node_steps(m, opt, w.0, w.1, n, t, i) is None,
    ensures
        pricer_steps(m, opt, n) is None,
{
    if weights_steps(m) is Some {
        let w = weights_steps(m)->Some_0;
        lemma_node_steps_none(m, opt, w.0, w.1, n, t, i);
    }
}

/// Price a contract by backward induction: exact present value of the
/// discounted risk-neutral expectation of the terminal payoff. `None`
/// exactly when `pricer_steps` fails, that is, when some intermediate value
/// of the computation leaves the representable range.
pub fn crr_pricer<O: Contract>(bm: &BinMarket, opt: &O) -> (r: Option<Rat>)
    requires
        bm.wf(),
        opt.wf(),
        opt.spec_expiry() < usize::MAX,
    ensures
        r is Some <==> pricer_steps(bm@, *opt, opt.spec_expiry()) is Some,
        r matches Some(v) ==> v.wf() && v@ == pricer_steps(
            bm@,
            *opt,
            opt.spec_expiry(),
        )->Some_0 && q_eq(v@, q_value(bm@, opt.pf(), opt.spec_expiry(), 0, 0)),
{
    let ghost m = bm@;
    let ghost f = opt.pf();
    let ghost o = *opt;
    proof {
        opt.lemma_payoff_fn();
    }
    let expiry = opt.get_expiry();
    let ghost n = opt.spec_expiry();

    // Terminal payoffs, indexed by the number of up moves.
    let mut vals: Vec<Rat> = Vec::new();
    let mut i: usize = 0;
    while i <= expiry
        invariant
            bm.wf(),
            opt.wf(),
            m == bm@,
            f == opt.pf(),
            pf_ok(f),
            n == opt.spec_expiry(),
            expiry as nat == n,
            expiry < usize::MAX,
            o == *opt,
            i <= expiry + 1,
            vals@.len() == i as nat,
            forall|k: int|
                0 <= k < i as int ==> (#[trigger] vals@[k]).wf() && q_eq(
                    vals@[k]@,
                    q_value(m, f, n, n, k as nat),
                ) && node_price_steps(m, n, k as nat) is Some && o.payoff_steps(
                    node_price_steps(m, n, k as nat)->Some_0,
                ) == Some(vals@[k]@),
        decreases expiry + 1 - i,
    {
        let p = match bm.price(expiry, i) {
            Some(v) => v,
            None => {
                proof {
                    assert(weights_steps(m) matches Some(w) ==> node_steps(
                        m, o, w.0, w.1, n, n, i as nat,
                    ) is None);
                    lemma_pricer_steps_none_at(m, o, n, n, i as nat);
                }
                return None;
            },
        };
        let v = match opt.payoff(&p) {
            Some(v) => v,
            None => {
                proof {
                    assert(node_price_steps(m, n, i as nat) == Some(p@));
                    assert(weights_steps(m) matches Some(w) ==> node_steps(
                        m, o, w.0, w.1, n, n, i as nat,
                    ) is None);
                    lemma_pricer_steps_none_at(m, o, n, n, i as nat);
                }
                return None;
            },
        };
        proof {
            lemma_q_node_price_wf(m, n, i as nat);
            let node = q_node_price(m, n, i as nat);
            assert(q_wf(f(p@)) && q_eq(f(p@), f(node)));
            lemma_q_eq_trans(v@, f(p@), f(node));
            assert(q_value(m, f, n, n, i as nat) == f(node));
            assert(node_price_steps(m, n, i as nat) == Some(p@));
            assert(o.payoff_steps(p@) == Some(v@));
        }
        let ghost prev = vals@;
        vals.push(v);
        proof {
            assert forall|k: int| 0 <= k < i as int + 1 implies (#[trigger] vals@[k]).wf()
                && q_eq(vals@[k]@, q_value(m, f, n, n, k as nat)) && node_price_steps(
                m, n, k as nat,
            ) is Some && o.payoff_steps(node_price_steps(m, n, k as nat)->Some_0) == Some(
                vals@[k]@,
            ) by {
                if k < i as int {
                    assert(vals@[k] == prev[k]);
                    assert(prev[k].wf());
                } else {
                    assert(vals@[k] == v);
                    assert(k as nat == i as nat);
                }
            }
        }
        i = i + 1;
    }

    // Discount weights, fixed for the whole sweep.
    let p = match bm.martingal_prob() {
        Some(v) => v,
        None => {
            proof {
                assert(pricer_steps(m, o, n) is None);
            }
            return None;
        },
    };
    let one = Rat::one();
    let opr = match one.add(&bm.get_rate()) {
        Some(v) => v,
        None => {
            proof {
                assert(q_step(q_grow(m.rate)) is None);
                assert(pricer_steps(m, o, n) is None);
            }
            return None;
        },
    };
    proof {
        lemma_market_signs(m);
        lemma_mprob_bounds(m);
        lemma_q_mul_wf(q_int(1), m.rate);
        lemma_reduce(q_grow(m.rate));
        lemma_q_eq_sign(opr@, q_grow(m.rate));
        lemma_weights_wf(m);
        lemma_q_mul_wf(q_int(1), q_neg(q_mprob(m)));
    }
    proof {
        assert(mprob_steps(m) == Some(p@));
        assert(q_step(q_grow(m.rate)) == Some(opr@));
        assert(opr@.n != 0);
    }
    let up = match p.div(&opr) {
        Some(v) => v,
        None => {
            proof {
                assert(q_step(q_div(p@, opr@)) is None);
                assert(pricer_steps(m, o, n) is None);
            }
            return None;
        },
    };
    proof {
        lemma_q_div_wf(p@, opr@);
        lemma_reduce(q_div(p@, opr@));
        lemma_q_div_congr(p@, q_mprob(m), opr@, q_grow(m.rate));
        lemma_q_eq_trans(up@, q_div(p@, opr@), q_up_weight(m));
    }
    let q1 = match one.sub(&p) {
        Some(v) => v,
        None => {
            proof {
                assert(q_step(q_sub(q_int(1), p@)) is None);
                assert(pricer_steps(m, o, n) is None);
            }
            return None;
        },
    };
    proof {
        lemma_q_mul_wf(q_int(1), q_neg(p@));
        lemma_q_mul_wf(q_int(1), q_neg(q_mprob(m)));
        lemma_reduce(q_sub(q_int(1), p@));
        lemma_q_sub_congr(q_int(1), q_int(1), p@, q_mprob(m));
        lemma_q_eq_trans(q1@, q_sub(q_int(1), p@), q_sub(q_int(1), q_mprob(m)));
    }
    let dn = match q1.div(&opr) {
        Some(v) => v,
        None => {
            proof {
                assert(q_step(q_sub(q_int(1), p@)) == Some(q1@));
                assert(q_step(q_div(q1@, opr@)) is None);
                assert(pricer_steps(m, o, n) is None);
            }
            return None;
        },
    };
    proof {
        lemma_q_div_wf(q1@, opr@);
        lemma_reduce(q_div(q1@, opr@));
        lemma_q_div_congr(q1@, q_sub(q_int(1), q_mprob(m)), opr@, q_grow(m.rate));
        lemma_q_eq_trans(dn@, q_div(q1@, opr@), q_down_weight(m));
        lemma_weights_wf(m);
        assert(weights_steps(m) == Some((dn@, up@)));
        assert forall|k: int| 0 <= k <= expiry as int implies node_steps(
            m, o, dn@, up@, n, n, k as nat,
        ) == Some(vals@[k]@) by {
            assert(vals@[k].wf());
        }
    }

    // Backward sweep: after processing time slice t, index k holds the
    // value at node (t - 1, k).
    let mut t = expiry;
    while t >= 1
        invariant
            bm.wf(),
            opt.wf(),
            m == bm@,
            f == opt.pf(),
            pf_ok(f),
            n == opt.spec_expiry(),
            expiry as nat == n,
            o == *opt,
            t <= expiry,
            up.wf(),
            dn.wf(),
            q_eq(up@, q_up_weight(m)),
            q_eq(dn@, q_down_weight(m)),
            q_wf(q_up_weight(m)),
            q_wf(q_down_weight(m)),
            weights_steps(m) == Some((dn@, up@)),
            vals@.len() == (expiry + 1) as nat,
            forall|k: int|
                0 <= k <= t as int ==> (#[trigger] vals@[k]).wf() && q_eq(
                    vals@[k]@,
                    q_value(m, f, n, t as nat, k as nat),
                ) && node_steps(m, o, dn@, up@, n, t as nat, k as nat) == Some(vals@[k]@),
        decreases t,
    {
        let mut j: usize = 0;
        while j < t
            invariant
                bm.wf(),
                opt.wf(),
                m == bm@,
                f == opt.pf(),
                pf_ok(f),
                n == opt.spec_expiry(),
                expiry as nat == n,
                o == *opt,
                1 <= t <= expiry,
                j <= t,
                up.wf(),
                dn.wf(),
                q_eq(up@, q_up_weight(m)),
                q_eq(dn@, q_down_weight(m)),
                q_wf(q_up_weight(m)),
                q_wf(q_down_weight(m)),
                weights_steps(m) == Some((dn@, up@)),
                vals@.len() == (expiry + 1) as nat,
                forall|k: int|
                    0 <= k < j as int ==> (#[trigger] vals@[k]).wf() && q_eq(
                        vals@[k]@,
                        q_value(m, f, n, (t - 1) as nat, k as nat),
                    ) && node_steps(m, o, dn@, up@, n, (t - 1) as nat, k as nat) == Some(
                        vals@[k]@,
                    ),
                forall|k: int|
                    j as int <= k <= t as int ==> (#[trigger] vals@[k]).wf() && q_eq(
                        vals@[k]@,
                        q_value(m, f, n, t as nat, k as nat),
                    ) && node_steps(m, o, dn@, up@, n, t as nat, k as nat) == Some(vals@[k]@),
            decreases t - j,
        {
            let a = match dn.mul(&vals[j]) {
                Some(v) => v,
                None => {
                    proof {
                        assert(q_step(q_mul(dn@, vals@[j as int]@)) is None);
                        assert(node_steps(m, o, dn@, up@, n, (t - 1) as nat, j as nat) is None);
                        lemma_pricer_steps_none_at(m, o, n, (t - 1) as nat, j as nat);
                    }
                    return None;
                },
            };
            let b = match up.mul(&vals[j + 1]) {
                Some(v) => v,
                None => {
                    proof {
                        assert(q_step(q_mul(dn@, vals@[j as int]@)) == Some(a@));
                        assert(q_step(q_mul(up@, vals@[j as int + 1]@)) is None);
                        assert(node_steps(m, o, dn@, up@, n, (t - 1) as nat, j as nat) is None);
                        lemma_pricer_steps_none_at(m, o, n, (t - 1) as nat, j as nat);
                    }
                    return None;
                },
            };
            let c = match a.add(&b) {
                Some(v) => v,
                None => {
                    proof {
                        assert(q_step(q_mul(dn@, vals@[j as int]@)) == Some(a@));
                        assert(q_step(q_mul(up@, vals@[j as int + 1]@)) == Some(b@));
                        assert(q_step(q_add(a@, b@)) is None);
                        assert(node_steps(m, o, dn@, up@, n, (t - 1) as nat, j as nat) is None);
                        lemma_pricer_steps_none_at(m, o, n, (t - 1) as nat, j as nat);
                    }
                    return None;
                },
            };
            proof {
                let vj = q_value(m, f, n, t as nat, j as nat);
                let vj1 = q_value(m, f, n, t as nat, (j + 1) as nat);
                lemma_q_value_wf(m, f, n, t as nat, j as nat);
                lemma_q_value_wf(m, f, n, t as nat, (j + 1) as nat);
                lemma_q_mul_wf(dn@, vals@[j as int]@);
                lemma_q_mul_wf(up@, vals@[j as int + 1]@);
                lemma_q_mul_wf(q_down_weight(m), vj);
                lemma_q_mul_wf(q_up_weight(m), vj1);
                lemma_q_mul_wf(a@, b@);
                lemma_q_mul_wf(q_mul(q_down_weight(m), vj), q_mul(q_up_weight(m), vj1));
                lemma_reduce(q_mul(dn@, vals@[j as int]@));
                lemma_q_mul_congr(dn@, q_down_weight(m), vals@[j as int]@, vj);
                lemma_q_eq_trans(
                    a@,
                    q_mul(dn@, vals@[j as int]@),
                    q_mul(q_down_weight(m), vj),
                );
                lemma_reduce(q_mul(up@, vals@[j as int + 1]@));
                lemma_q_mul_congr(up@, q_up_weight(m), vals@[j as int + 1]@, vj1);
                lemma_q_eq_trans(b@, q_mul(up@, vals@[j as int + 1]@), q_mul(q_up_weight(m), vj1));
                lemma_reduce(q_add(a@, b@));
                lemma_q_add_congr(a@, q_mul(q_down_weight(m), vj), b@, q_mul(q_up_weight(m), vj1));
                lemma_q_eq_trans(
                    c@,
                    q_add(a@, b@),
                    q_add(q_mul(q_down_weight(m), vj), q_mul(q_up_weight(m), vj1)),
                );
                assert(q_value(m, f, n, (t - 1) as nat, j as nat) == q_add(
                    q_mul(q_down_weight(m), vj),
                    q_mul(q_up_weight(m), vj1),
                ));
                assert(q_step(q_mul(dn@, vals@[j as int]@)) == Some(a@));
                assert(q_step(q_mul(up@, vals@[j as int + 1]@)) == Some(b@));
                assert(q_step(q_add(a@, b@)) == Some(c@));
                assert(node_steps(m, o, dn@, up@, n, (t - 1) as nat, j as nat) == Some(c@));
            }
            vals.set(j, c);
            j = j + 1;
        }
        t = t - 1;
    }
    let out = vals[0];
    proof {
        assert(node_steps(m, o, dn@, up@, n, 0, 0) == Some(out@));
        assert(pricer_steps(m, o, n) == Some(out@));
    }
    Some(out)
}

} // verus!
