//! The one-period binomial market model: spot price, down-tick, up-tick and
//! risk-free rate, all exact rationals, with the derived risk-neutral
//! probability and lattice node prices.

use vstd::prelude::*;
use crate::rational::{
    Q, Rat, q_wf, q_eq, q_le, q_lt, q_int, q_add, q_neg, q_sub, q_mul, q_div, q_pow,
    q_bounded, q_step, lemma_reduce, lemma_q_mul_wf, lemma_q_div_wf, lemma_q_eq_sign,
    lemma_q_div_congr, lemma_q_eq_trans, lemma_q_eq_sym, lemma_q_le_congr, lemma_q_mul_congr,
    lemma_q_mul_ac, lemma_q_pow_wf, lemma_q_mul_one, lemma_q_lt_trans,
};

verus! {

/// The mathematical market model.
pub struct MarketQ {
    pub spot: Q,
    pub dtick: Q,
    pub utick: Q,
    pub rate: Q,
}

/// Economically sound parameters: positive spot, the rate strictly inside
/// the tick band (so the risk-neutral probability lies in [0, 1]) and a
/// rate above -1 (so discounting by 1 + rate is defined and positive).
pub open spec fn market_wf(m: MarketQ) -> bool {
    &&& q_wf(m.spot)
    &&& q_wf(m.dtick)
    &&& q_wf(m.utick)
    &&& q_wf(m.rate)
    &&& q_lt(q_int(0), m.spot)
    &&& q_lt(m.dtick, m.rate)
    &&& q_lt(m.rate, m.utick)
    &&& q_lt(q_int(-1), m.rate)
}

/// Risk-neutral probability of an up move: (rate - dtick) / (utick - dtick).
pub open spec fn q_mprob(m: MarketQ) -> Q {
    q_div(q_sub(m.rate, m.dtick), q_sub(m.utick, m.dtick))
}

/// Per-period growth factor `1 + x`.
pub open spec fn q_grow(x: Q) -> Q {
    q_add(q_int(1), x)
}

/// Underlying price at lattice node `(horizon, ups)`:
/// `spot * (1 + utick)^ups * (1 + dtick)^(horizon - ups)`.
pub open spec fn q_node_price(m: MarketQ, horizon: nat, ups: nat) -> Q
    recommends
        ups <= horizon,
{
    q_mul(
        q_mul(m.spot, q_pow(q_grow(m.utick), ups)),
        q_pow(q_grow(m.dtick), (horizon - ups) as nat),
    )
}

/// Exact mirror of the probability computation in `martingal_prob`: the
/// reduced value it returns, or `None` where an intermediate value leaves
/// the representable range.
pub open spec fn mprob_steps(m: MarketQ) -> Option<Q> {
    match q_step(q_sub(m.rate, m.dtick)) {
        Some(a) => match q_step(q_sub(m.utick, m.dtick)) {
            Some(b) => if b.n != 0 {
                q_step(q_div(a, b))
            } else {
                None
            },
            None => None,
        },
        None => None,
    }
}

/// Exact mirror of one multiplication loop in `price`: fold `k` reduced
/// multiplications by `g` over `acc`, failing at the first value outside
/// the representable range.
pub open spec fn pow_steps(acc: Q, g: Q, k: nat) -> Option<Q>
    decreases k,
{
    if k == 0 {
        Some(acc)
    } else {
        match q_step(q_mul(acc, g)) {
            Some(v) => pow_steps(v, g, (k - 1) as nat),
            None => None,
        }
    }
}

/// Exact mirror of the node price computation in `price`.
pub open spec fn node_price_steps(m: MarketQ, horizon: nat, ups: nat) -> Option<Q> {
    match q_step(q_grow(m.utick)) {
        Some(gu) => match q_step(q_grow(m.dtick)) {
            Some(gd) => match pow_steps(m.spot, gu, ups) {
                Some(a) => pow_steps(a, gd, (horizon - ups) as nat),
                None => None,
            },
            None => None,
        },
        None => None,
    }
}

/// A sound market has a band `utick - dtick` with positive numerator and a
/// positive growth factor `1 + rate`.
pub proof fn lemma_market_signs(m: MarketQ)
    requires
        market_wf(m),
    ensures
        q_wf(q_sub(m.utick, m.dtick)),
        q_sub(m.utick, m.dtick).n > 0,
        q_wf(q_sub(m.rate, m.dtick)),
        q_sub(m.rate, m.dtick).n >= 0,
        q_wf(q_grow(m.rate)),
        q_grow(m.rate).n > 0,
{
    lemma_q_lt_trans(m.dtick, m.rate, m.utick);
    lemma_q_mul_wf(m.utick, m.dtick);
    lemma_q_mul_wf(m.rate, m.dtick);
    lemma_q_mul_wf(q_int(1), m.rate);
    assert(m.utick.n * m.dtick.d + (-m.dtick.n) * m.utick.d > 0) by (nonlinear_arith)
        requires
            m.dtick.n * m.utick.d < m.utick.n * m.dtick.d,
    ;
    assert(m.rate.n * m.dtick.d + (-m.dtick.n) * m.rate.d > 0) by (nonlinear_arith)
        requires
            m.dtick.n * m.rate.d < m.rate.n * m.dtick.d,
    ;
    assert(q_grow(m.rate).n == m.rate.d + m.rate.n);
    assert(m.rate.d + m.rate.n > 0) by (nonlinear_arith)
        requires
            (-1) * m.rate.d < m.rate.n,
    ;
}

/// The risk-neutral probability of a sound market lies in [0, 1].
pub proof fn lemma_mprob_bounds(m: MarketQ)
    requires
        market_wf(m),
    ensures
        q_wf(q_mprob(m)),
        q_le(q_int(0), q_mprob(m)),
        q_le(q_mprob(m), q_int(1)),
{
    lemma_market_signs(m);
    let a = q_sub(m.rate, m.dtick);
    let b = q_sub(m.utick, m.dtick);
    lemma_q_div_wf(a, b);
    let p = q_mprob(m);
    assert(p == Q { n: a.n * b.d, d: a.d * b.n });
    assert(0 * p.d <= p.n * 1) by (nonlinear_arith)
        requires
            a.n >= 0,
            b.d > 0,
            p.n == a.n * b.d,
    ;
    // p <= 1 reduces to (rate - dtick) <= (utick - dtick) over the common
    // denominators, which follows from rate < utick.
    assert(a.n * b.d <= a.d * b.n) by (nonlinear_arith)
        requires
            a.n == m.rate.n * m.dtick.d + (-m.dtick.n) * m.rate.d,
            a.d == m.rate.d * m.dtick.d,
            b.n == m.utick.n * m.dtick.d + (-m.dtick.n) * m.utick.d,
            b.d == m.utick.d * m.dtick.d,
            m.rate.n * m.utick.d < m.utick.n * m.rate.d,
            m.rate.d > 0,
            m.utick.d > 0,
            m.dtick.d > 0,
    ;
    assert(p.n * 1 <= 1 * p.d);
}

/// Binomial market over exact rationals.
pub struct BinMarket {
    spot: Rat,
    dtick: Rat,
    utick: Rat,
    rate: Rat,
}

impl View for BinMarket {
    type V = MarketQ;

    closed spec fn view(&self) -> MarketQ {
        MarketQ { spot: self.spot@, dtick: self.dtick@, utick: self.utick@, rate: self.rate@ }
    }
}

impl BinMarket {
    pub open spec fn wf(&self) -> bool {
        &&& q_bounded(self@.spot)
        &&& q_bounded(self@.dtick)
        &&& q_bounded(self@.utick)
        &&& q_bounded(self@.rate)
        &&& market_wf(self@)
    }

    /// Accepts exactly the economically sound parameter sets (`market_wf`).
    pub fn new(spot: Rat, dtick: Rat, utick: Rat, rate: Rat) -> (r: Option<BinMarket>)
        requires
            spot.wf(),
            dtick.wf(),
            utick.wf(),
            rate.wf(),
        ensures
            match r {
                Some(m) => m.wf() && m@ == (MarketQ {
                    spot: spot@,
                    dtick: dtick@,
                    utick: utick@,
                    rate: rate@,
                }),
                None => !market_wf(
                    MarketQ { spot: spot@, dtick: dtick@, utick: utick@, rate: rate@ },
                ),
            },
    {
        let zero = Rat::zero();
        let neg_one = Rat::one().neg();
        if zero.lt(&spot) && dtick.lt(&rate) && rate.lt(&utick) && neg_one.lt(&rate) {
            Some(BinMarket { spot, dtick, utick, rate })
        } else {
            None
        }
    }

    /// The per-period risk-free rate.
    pub fn get_rate(&self) -> (r: Rat)
        requires
            self.wf(),
        ensures
            r.wf(),
            r@ == self@.rate,
    {
        self.rate
    }

    /// The spot price of the underlying.
    pub fn get_spot(&self) -> (r: Rat)
        requires
            self.wf(),
        ensures
            r.wf(),
            r@ == self@.spot,
    {
        self.spot
    }

    /// Risk-neutral probability of an up move; in [0, 1] for a sound market.
    /// `None` exactly when `mprob_steps` fails, that is, when an
    /// intermediate value leaves the representable range.
    pub fn martingal_prob(&self) -> (r: Option<Rat>)
        requires
            self.wf(),
        ensures
            r is Some <==> mprob_steps(self@) is Some,
            r matches Some(p) ==> {
                &&& p.wf()
                &&& p@ == mprob_steps(self@)->Some_0
                &&& q_eq(p@, q_mprob(self@))
                &&& q_le(q_int(0), p@)
                &&& q_le(p@, q_int(1))
            },
    {
        proof {
            lemma_market_signs(self@);
            lemma_mprob_bounds(self@);
        }
        let num = match self.rate.sub(&self.dtick) {
            Some(v) => v,
            None => { return None; },
        };
        let den = match self.utick.sub(&self.dtick) {
            Some(v) => v,
            None => { return None; },
        };
        proof {
            let ns = q_sub(self@.rate, self@.dtick);
            let ds = q_sub(self@.utick, self@.dtick);
            lemma_q_mul_wf(self@.rate, q_neg(self@.dtick));
            lemma_q_mul_wf(self@.utick, q_neg(self@.dtick));
            lemma_reduce(ns);
            lemma_reduce(ds);
            lemma_q_eq_sign(den@, ds);
        }
        let p = match num.div(&den) {
            Some(v) => v,
            None => { return None; },
        };
        proof {
            let ns = q_sub(self@.rate, self@.dtick);
            let ds = q_sub(self@.utick, self@.dtick);
            lemma_q_div_wf(num@, den@);
            lemma_reduce(q_div(num@, den@));
            lemma_q_div_congr(num@, ns, den@, ds);
            lemma_q_eq_trans(p@, q_div(num@, den@), q_div(ns, ds));
            lemma_q_eq_sym(p@, q_mprob(self@));
            lemma_q_le_congr(q_int(0), q_int(0), q_mprob(self@), p@);
            lemma_q_le_congr(q_mprob(self@), p@, q_int(1), q_int(1));
        }
        Some(p)
    }

    /// Price of the underlying at lattice node `(horizon, uts)`. `None`
    /// exactly when `node_price_steps` fails, that is, when an intermediate
    /// value leaves the representable range.
    pub fn price(&self, horizon: usize, uts: usize) -> (r: Option<Rat>)
        requires
            self.wf(),
            uts <= horizon,
        ensures
            r is Some <==> node_price_steps(self@, horizon as nat, uts as nat) is Some,
            r matches Some(v) ==> v.wf() && v@ == node_price_steps(
                self@,
                horizon as nat,
                uts as nat,
            )->Some_0 && q_eq(v@, q_node_price(self@, horizon as nat, uts as nat)),
    {
        let one = Rat::one();
        let gu = match one.add(&self.utick) {
            Some(v) => v,
            None => { return None; },
        };
        let gd = match one.add(&self.dtick) {
            Some(v) => v,
            None => { return None; },
        };
        proof {
            lemma_q_mul_wf(q_int(1), self@.utick);
            lemma_q_mul_wf(q_int(1), self@.dtick);
            lemma_reduce(q_grow(self@.utick));
            lemma_reduce(q_grow(self@.dtick));
        }
        let ghost gus = q_grow(self@.utick);
        let ghost gds = q_grow(self@.dtick);
        let mut acc = self.spot;
        let mut j: usize = 0;
        proof {
            lemma_q_pow_wf(gus, 0);
            lemma_q_mul_one(self@.spot);
        }
        while j < uts
            invariant
                self.wf(),
                uts <= horizon,
                j <= uts,
                gu.wf(),
                gd.wf(),
                q_eq(gu@, gus),
                q_eq(gd@, gds),
                gus == q_grow(self@.utick),
                gds == q_grow(self@.dtick),
                q_step(q_grow(self@.utick)) == Some(gu@),
                q_step(q_grow(self@.dtick)) == Some(gd@),
                acc.wf(),
                q_wf(q_pow(gus, j as nat)),
                q_eq(acc@, q_mul(self@.spot, q_pow(gus, j as nat))),
                pow_steps(self@.spot, gu@, uts as nat) == pow_steps(acc@, gu@, (uts - j) as nat),
            decreases uts - j,
        {
            let next = match acc.mul(&gu) {
                Some(v) => v,
                None => {
                    proof {
                        assert(pow_steps(acc@, gu@, (uts - j) as nat) is None);
                    }
                    return None;
                },
            };
            proof {
                let pj = q_pow(gus, j as nat);
                lemma_q_pow_wf(gus, (j + 1) as nat);
                lemma_q_mul_wf(acc@, gu@);
                lemma_q_mul_wf(self@.spot, pj);
                lemma_q_mul_wf(q_mul(self@.spot, pj), gus);
                lemma_q_mul_wf(gus, pj);
                lemma_q_mul_wf(self@.spot, q_mul(gus, pj));
                lemma_reduce(q_mul(acc@, gu@));
                lemma_q_mul_congr(acc@, q_mul(self@.spot, pj), gu@, gus);
                lemma_q_mul_ac(self@.spot, pj, gus);
                lemma_q_eq_trans(
                    next@,
                    q_mul(acc@, gu@),
                    q_mul(q_mul(self@.spot, pj), gus),
                );
                lemma_q_eq_trans(
                    next@,
                    q_mul(q_mul(self@.spot, pj), gus),
                    q_mul(self@.spot, q_mul(gus, pj)),
                );
            }
            proof {
                assert(q_step(q_mul(acc@, gu@)) == Some(next@));
                assert(pow_steps(acc@, gu@, (uts - j) as nat) == pow_steps(
                    next@,
                    gu@,
                    (uts - j - 1) as nat,
                ));
            }
            acc = next;
            j = j + 1;
        }
        let ghost pu = q_pow(gus, uts as nat);
        let ghost acc1 = acc@;
        let steps = horizon - uts;
        let mut i: usize = 0;
        proof {
            assert(pow_steps(self@.spot, gu@, uts as nat) == Some(acc1));
            lemma_q_pow_wf(gus, uts as nat);
            lemma_q_pow_wf(gds, 0);
            lemma_q_mul_wf(self@.spot, pu);
            lemma_q_mul_wf(q_mul(self@.spot, pu), q_pow(gds, 0));
            // acc ~ spot * pu ~ (spot * pu) * 1.
            lemma_q_mul_one(q_mul(self@.spot, pu));
            lemma_q_eq_trans(
                acc@,
                q_mul(self@.spot, pu),
                q_mul(q_mul(self@.spot, pu), q_pow(gds, 0)),
            );
        }
        while i < steps
            invariant
                self.wf(),
                uts <= horizon,
                steps == horizon - uts,
                i <= steps,
                gu.wf(),
                gd.wf(),
                q_eq(gd@, gds),
                gds == q_grow(self@.dtick),
                gus == q_grow(self@.utick),
                q_step(q_grow(self@.utick)) == Some(gu@),
                q_step(q_grow(self@.dtick)) == Some(gd@),
                pow_steps(self@.spot, gu@, uts as nat) == Some(acc1),
                pu == q_pow(gus, uts as nat),
                q_wf(pu),
                acc.wf(),
                q_wf(q_pow(gds, i as nat)),
                q_eq(acc@, q_mul(q_mul(self@.spot, pu), q_pow(gds, i as nat))),
                pow_steps(acc1, gd@, steps as nat) == pow_steps(acc@, gd@, (steps - i) as nat),
            decreases steps - i,
        {
            let next = match acc.mul(&gd) {
                Some(v) => v,
                None => {
                    proof {
                        assert(pow_steps(acc@, gd@, (steps - i) as nat) is None);
                        assert(node_price_steps(self@, horizon as nat, uts as nat) is None);
                    }
                    return None;
                },
            };
            proof {
                let base = q_mul(self@.spot, pu);
                let pi = q_pow(gds, i as nat);
                lemma_q_pow_wf(gds, (i + 1) as nat);
                lemma_q_mul_wf(self@.spot, pu);
                lemma_q_mul_wf(acc@, gd@);
                lemma_q_mul_wf(base, pi);
                lemma_q_mul_wf(q_mul(base, pi), gds);
                lemma_q_mul_wf(gds, pi);
                lemma_q_mul_wf(base, q_mul(gds, pi));
                lemma_reduce(q_mul(acc@, gd@));
                lemma_q_mul_congr(acc@, q_mul(base, pi), gd@, gds);
                lemma_q_mul_ac(base, pi, gds);
                lemma_q_eq_trans(next@, q_mul(acc@, gd@), q_mul(q_mul(base, pi), gds));
                lemma_q_eq_trans(next@, q_mul(q_mul(base, pi), gds), q_mul(base, q_mul(gds, pi)));
            }
            proof {
                assert(q_step(q_mul(acc@, gd@)) == Some(next@));
                assert(pow_steps(acc@, gd@, (steps - i) as nat) == pow_steps(
                    next@,
                    gd@,
                    (steps - i - 1) as nat,
                ));
            }
            acc = next;
            i = i + 1;
        }
        proof {
            assert(pow_steps(acc1, gd@, steps as nat) == Some(acc@));
            assert(node_price_steps(self@, horizon as nat, uts as nat) == Some(acc@));
        }
        Some(acc)
    }
}

} // verus!
