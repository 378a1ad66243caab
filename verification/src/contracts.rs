//! Payoff abstraction: vanilla (single-strike) and spread (two-strike)
//! European contracts, each a pure function from the terminal underlying
//! price to a payoff amount, plus the contract's expiry.

use vstd::prelude::*;
use crate::rational::{
    Q, Rat, q_wf, q_eq, q_lt, q_int, q_neg, q_sub, q_step, lemma_reduce,
    lemma_q_mul_wf, lemma_q_eq_sym, lemma_q_lt_congr, lemma_q_sub_congr,
};

verus! {

pub enum VanillaType {
    Call,
    Put,
    DigitCall,
    DigitPut,
}

pub enum SpreadType {
    DoubleDigit,
    BearSpread,
    BullSpread,
}

/// max(s - k, 0).
pub open spec fn q_call_payoff(k: Q, s: Q) -> Q {
    if q_lt(k, s) {
        q_sub(s, k)
    } else {
        q_int(0)
    }
}

/// max(k - s, 0).
pub open spec fn q_put_payoff(k: Q, s: Q) -> Q {
    if q_lt(s, k) {
        q_sub(k, s)
    } else {
        q_int(0)
    }
}

/// 1 if s > k else 0.
pub open spec fn q_dcall_payoff(k: Q, s: Q) -> Q {
    if q_lt(k, s) {
        q_int(1)
    } else {
        q_int(0)
    }
}

/// 1 if s < k else 0.
pub open spec fn q_dput_payoff(k: Q, s: Q) -> Q {
    if q_lt(s, k) {
        q_int(1)
    } else {
        q_int(0)
    }
}

/// 1 if lower <= s <= upper else 0.
pub open spec fn q_double_payoff(lower: Q, upper: Q, s: Q) -> Q {
    if q_lt(s, lower) {
        q_int(0)
    } else if q_lt(upper, s) {
        q_int(0)
    } else {
        q_int(1)
    }
}

/// upper - lower below the band, 0 above it, upper - s inside it.
pub open spec fn q_bear_payoff(lower: Q, upper: Q, s: Q) -> Q {
    if q_lt(s, lower) {
        q_sub(upper, lower)
    } else if q_lt(upper, s) {
        q_int(0)
    } else {
        q_sub(upper, s)
    }
}

/// 0 below the band, upper - lower above it, s - lower inside it.
pub open spec fn q_bull_payoff(lower: Q, upper: Q, s: Q) -> Q {
    if q_lt(s, lower) {
        q_int(0)
    } else if q_lt(upper, s) {
        q_sub(upper, lower)
    } else {
        q_sub(s, lower)
    }
}

/// The call payoff with strike `k`, as a payoff function.
pub open spec fn call_pf(k: Q) -> spec_fn(Q) -> Q {
    |s: Q| q_call_payoff(k, s)
}

/// The put payoff with strike `k`, as a payoff function.
pub open spec fn put_pf(k: Q) -> spec_fn(Q) -> Q {
    |s: Q| q_put_payoff(k, s)
}

/// The digital call payoff with strike `k`, as a payoff function.
pub open spec fn dcall_pf(k: Q) -> spec_fn(Q) -> Q {
    |s: Q| q_dcall_payoff(k, s)
}

/// The digital put payoff with strike `k`, as a payoff function.
pub open spec fn dput_pf(k: Q) -> spec_fn(Q) -> Q {
    |s: Q| q_dput_payoff(k, s)
}

/// The double digital payoff on `[lower, upper]`, as a payoff function.
pub open spec fn double_pf(lower: Q, upper: Q) -> spec_fn(Q) -> Q {
    |s: Q| q_double_payoff(lower, upper, s)
}

/// The bear spread payoff on `[lower, upper]`, as a payoff function.
pub open spec fn bear_pf(lower: Q, upper: Q) -> spec_fn(Q) -> Q {
    |s: Q| q_bear_payoff(lower, upper, s)
}

/// The bull spread payoff on `[lower, upper]`, as a payoff function.
pub open spec fn bull_pf(lower: Q, upper: Q) -> spec_fn(Q) -> Q {
    |s: Q| q_bull_payoff(lower, upper, s)
}

/// A payoff function respects rational equality and keeps well-formedness.
pub open spec fn pf_ok(f: spec_fn(Q) -> Q) -> bool {
    forall|a: Q, b: Q|
        #![trigger f(a), f(b)]
        q_wf(a) && q_wf(b) && q_eq(a, b) ==> q_wf(f(a)) && q_eq(f(a), f(b))
}

/// Exact mirror of the call payoff computation: the reduced value the
/// executable function returns, or `None` where it leaves the range.
pub open spec fn q_call_steps(k: Q, s: Q) -> Option<Q> {
    if q_lt(k, s) {
        q_step(q_sub(s, k))
    } else {
        Some(q_int(0))
    }
}

/// Exact mirror of the put payoff computation.
pub open spec fn q_put_steps(k: Q, s: Q) -> Option<Q> {
    if q_lt(s, k) {
        q_step(q_sub(k, s))
    } else {
        Some(q_int(0))
    }
}

/// Exact mirror of the bear spread payoff computation.
pub open spec fn q_bear_steps(lower: Q, upper: Q, s: Q) -> Option<Q> {
    if q_lt(s, lower) {
        q_step(q_sub(upper, lower))
    } else if q_lt(upper, s) {
        Some(q_int(0))
    } else {
        q_step(q_sub(upper, s))
    }
}

/// Exact mirror of the bull spread payoff computation.
pub open spec fn q_bull_steps(lower: Q, upper: Q, s: Q) -> Option<Q> {
    if q_lt(s, lower) {
        Some(q_int(0))
    } else if q_lt(upper, s) {
        q_step(q_sub(upper, lower))
    } else {
        q_step(q_sub(s, lower))
    }
}

/// Vanilla payoff, for strike k: max(s - k, 0).
pub fn call_payoff(strike: &Rat, underlying: &Rat) -> (r: Option<Rat>)
    requires
        strike.wf(),
        underlying.wf(),
    ensures
        r is Some <==> q_call_steps(strike@, underlying@) is Some,
        r matches Some(v) ==> v.wf() && v@ == q_call_steps(strike@, underlying@)->Some_0
            && q_eq(v@, q_call_payoff(strike@, underlying@)),
{
    if strike.lt(underlying) {
        let d = underlying.sub(strike);
        proof {
            lemma_q_mul_wf(underlying@, q_neg(strike@));
            lemma_reduce(q_sub(underlying@, strike@));
        }
        d
    } else {
        Some(Rat::zero())
    }
}

/// Vanilla payoff, for strike k: max(k - s, 0).
pub fn put_payoff(strike: &Rat, underlying: &Rat) -> (r: Option<Rat>)
    requires
        strike.wf(),
        underlying.wf(),
    ensures
        r is Some <==> q_put_steps(strike@, underlying@) is Some,
        r matches Some(v) ==> v.wf() && v@ == q_put_steps(strike@, underlying@)->Some_0
            && q_eq(v@, q_put_payoff(strike@, underlying@)),
{
    if underlying.lt(strike) {
        let d = strike.sub(underlying);
        proof {
            lemma_q_mul_wf(strike@, q_neg(underlying@));
            lemma_reduce(q_sub(strike@, underlying@));
        }
        d
    } else {
        Some(Rat::zero())
    }
}

/// Digital call payoff: 1 if s > k else 0. Total.
pub fn dcall_payoff(strike: &Rat, underlying: &Rat) -> (r: Rat)
    requires
        strike.wf(),
        underlying.wf(),
    ensures
        r.wf(),
        r@ == q_dcall_payoff(strike@, underlying@),
{
    if strike.lt(underlying) {
        Rat::one()
    } else {
        Rat::zero()
    }
}

/// Digital put payoff: 1 if s < k else 0. Total.
pub fn dput_payoff(strike: &Rat, underlying: &Rat) -> (r: Rat)
    requires
        strike.wf(),
        underlying.wf(),
    ensures
        r.wf(),
        r@ == q_dput_payoff(strike@, underlying@),
{
    if underlying.lt(strike) {
        Rat::one()
    } else {
        Rat::zero()
    }
}

/// Double digital payoff: 1 inside [lower, upper], 0 outside. Total.
pub fn double_payoff(lower: &Rat, upper: &Rat, underlying: &Rat) -> (r: Rat)
    requires
        lower.wf(),
        upper.wf(),
        underlying.wf(),
    ensures
        r.wf(),
        r@ == q_double_payoff(lower@, upper@, underlying@),
{
    if underlying.lt(lower) {
        Rat::zero()
    } else if upper.lt(underlying) {
        Rat::zero()
    } else {
        Rat::one()
    }
}

/// Bear spread payoff.
pub fn bear_payoff(lower: &Rat, upper: &Rat, underlying: &Rat) -> (r: Option<Rat>)
    requires
        lower.wf(),
        upper.wf(),
        underlying.wf(),
    ensures
        r is Some <==> q_bear_steps(lower@, upper@, underlying@) is Some,
        r matches Some(v) ==> v.wf() && v@ == q_bear_steps(lower@, upper@, underlying@)->Some_0
            && q_eq(v@, q_bear_payoff(lower@, upper@, underlying@)),
{
    if underlying.lt(lower) {
        let d = upper.sub(lower);
        proof {
            lemma_q_mul_wf(upper@, q_neg(lower@));
            lemma_reduce(q_sub(upper@, lower@));
        }
        d
    } else if upper.lt(underlying) {
        Some(Rat::zero())
    } else {
        let d = upper.sub(underlying);
        proof {
            lemma_q_mul_wf(upper@, q_neg(underlying@));
            lemma_reduce(q_sub(upper@, underlying@));
        }
        d
    }
}

/// Bull spread payoff.
pub fn bull_payoff(lower: &Rat, upper: &Rat, underlying: &Rat) -> (r: Option<Rat>)
    requires
        lower.wf(),
        upper.wf(),
        underlying.wf(),
    ensures
        r is Some <==> q_bull_steps(lower@, upper@, underlying@) is Some,
        r matches Some(v) ==> v.wf() && v@ == q_bull_steps(lower@, upper@, underlying@)->Some_0
            && q_eq(v@, q_bull_payoff(lower@, upper@, underlying@)),
{
    if underlying.lt(lower) {
        Some(Rat::zero())
    } else if upper.lt(underlying) {
        let d = upper.sub(lower);
        proof {
            lemma_q_mul_wf(upper@, q_neg(lower@));
            lemma_reduce(q_sub(upper@, lower@));
        }
        d
    } else {
        let d = underlying.sub(lower);
        proof {
            lemma_q_mul_wf(underlying@, q_neg(lower@));
            lemma_reduce(q_sub(underlying@, lower@));
        }
        d
    }
}

/// A European contract: an expiry in periods and a payoff on the terminal
/// underlying price.
pub trait Contract {
    spec fn wf(&self) -> bool;

    /// The contract's payoff as a mathematical function.
    spec fn pf(&self) -> spec_fn(Q) -> Q;

    /// Exact mirror of the payoff computation on an underlying price:
    /// the reduced value the executable payoff returns, or `None` where an
    /// intermediate value leaves the representable range.
    spec fn payoff_steps(&self, s: Q) -> Option<Q>;

    spec fn spec_expiry(&self) -> nat;

    fn get_expiry(&self) -> (r: usize)
        requires
            self.wf(),
        ensures
            r as nat == self.spec_expiry(),
    ;

    /// Evaluate the payoff; `None` exactly when `payoff_steps` fails, that
    /// is, when an intermediate value leaves the representable range.
    fn payoff(&self, underlying: &Rat) -> (r: Option<Rat>)
        requires
            self.wf(),
            underlying.wf(),
        ensures
            r is Some <==> self.payoff_steps(underlying@) is Some,
            r matches Some(v) ==> v.wf() && v@ == self.payoff_steps(underlying@)->Some_0
                && q_eq(v@, self.pf()(underlying@)),
    ;

    /// The payoff function respects rational equality.
    proof fn lemma_payoff_fn(&self)
        requires
            self.wf(),
        ensures
            pf_ok(self.pf()),
    ;
}

/// Equal underlying prices give equal payoffs, for every payoff shape.
pub proof fn lemma_payoff_congr(lower: Q, upper: Q, a: Q, b: Q)
    requires
        q_wf(lower),
        q_wf(upper),
        q_wf(a),
        q_wf(b),
        q_eq(a, b),
    ensures
        q_wf(q_call_payoff(lower, a)) && q_eq(q_call_payoff(lower, a), q_call_payoff(lower, b)),
        q_wf(q_put_payoff(lower, a)) && q_eq(q_put_payoff(lower, a), q_put_payoff(lower, b)),
        q_wf(q_dcall_payoff(lower, a)) && q_eq(q_dcall_payoff(lower, a), q_dcall_payoff(lower, b)),
        q_wf(q_dput_payoff(lower, a)) && q_eq(q_dput_payoff(lower, a), q_dput_payoff(lower, b)),
        q_wf(q_double_payoff(lower, upper, a)) && q_eq(
            q_double_payoff(lower, upper, a),
            q_double_payoff(lower, upper, b),
        ),
        q_wf(q_bear_payoff(lower, upper, a)) && q_eq(
            q_bear_payoff(lower, upper, a),
            q_bear_payoff(lower, upper, b),
        ),
        q_wf(q_bull_payoff(lower, upper, a)) && q_eq(
            q_bull_payoff(lower, upper, a),
            q_bull_payoff(lower, upper, b),
        ),
{
    lemma_q_eq_sym(a, b);
    if q_lt(lower, a) {
        lemma_q_lt_congr(lower, lower, a, b);
    }
    if q_lt(lower, b) {
        lemma_q_lt_congr(lower, lower, b, a);
    }
    if q_lt(a, lower) {
        lemma_q_lt_congr(a, b, lower, lower);
    }
    if q_lt(b, lower) {
        lemma_q_lt_congr(b, a, lower, lower);
    }
    if q_lt(upper, a) {
        lemma_q_lt_congr(upper, upper, a, b);
    }
    if q_lt(upper, b) {
        lemma_q_lt_congr(upper, upper, b, a);
    }
    lemma_q_sub_congr(a, b, lower, lower);
    lemma_q_sub_congr(lower, lower, a, b);
    lemma_q_sub_congr(upper, upper, a, b);
    lemma_q_sub_congr(upper, upper, lower, lower);
}

/// Each named payoff function respects rational equality.
pub proof fn lemma_pf_ok(lower: Q, upper: Q)
    requires
        q_wf(lower),
        q_wf(upper),
    ensures
        pf_ok(call_pf(lower)),
        pf_ok(put_pf(lower)),
        pf_ok(dcall_pf(lower)),
        pf_ok(dput_pf(lower)),
        pf_ok(double_pf(lower, upper)),
        pf_ok(bear_pf(lower, upper)),
        pf_ok(bull_pf(lower, upper)),
{
    let fc = call_pf(lower);
    assert forall|a: Q, b: Q| #![trigger fc(a), fc(b)]
        q_wf(a) && q_wf(b) && q_eq(a, b) implies q_wf(fc(a)) && q_eq(fc(a), fc(b)) by {
        lemma_payoff_congr(lower, upper, a, b);
    }
    let fp = put_pf(lower);
    assert forall|a: Q, b: Q| #![trigger fp(a), fp(b)]
        q_wf(a) && q_wf(b) && q_eq(a, b) implies q_wf(fp(a)) && q_eq(fp(a), fp(b)) by {
        lemma_payoff_congr(lower, upper, a, b);
    }
    let fdc = dcall_pf(lower);
    assert forall|a: Q, b: Q| #![trigger fdc(a), fdc(b)]
        q_wf(a) && q_wf(b) && q_eq(a, b) implies q_wf(fdc(a)) && q_eq(fdc(a), fdc(b)) by {
        lemma_payoff_congr(lower, upper, a, b);
    }
    let fdp = dput_pf(lower);
    assert forall|a: Q, b: Q| #![trigger fdp(a), fdp(b)]
        q_wf(a) && q_wf(b) && q_eq(a, b) implies q_wf(fdp(a)) && q_eq(fdp(a), fdp(b)) by {
        lemma_payoff_congr(lower, upper, a, b);
    }
    let fdd = double_pf(lower, upper);
    assert forall|a: Q, b: Q| #![trigger fdd(a), fdd(b)]
        q_wf(a) && q_wf(b) && q_eq(a, b) implies q_wf(fdd(a)) && q_eq(fdd(a), fdd(b)) by {
        lemma_payoff_congr(lower, upper, a, b);
    }
    let fbe = bear_pf(lower, upper);
    assert forall|a: Q, b: Q| #![trigger fbe(a), fbe(b)]
        q_wf(a) && q_wf(b) && q_eq(a, b) implies q_wf(fbe(a)) && q_eq(fbe(a), fbe(b)) by {
        lemma_payoff_congr(lower, upper, a, b);
    }
    let fbu = bull_pf(lower, upper);
    assert forall|a: Q, b: Q| #![trigger fbu(a), fbu(b)]
        q_wf(a) && q_wf(b) && q_eq(a, b) implies q_wf(fbu(a)) && q_eq(fbu(a), fbu(b)) by {
        lemma_payoff_congr(lower, upper, a, b);
    }
}

/// Plain vanilla European option: one strike price.
pub struct VanillaOption {
    pub tp: VanillaType,
    pub expiry: usize,
    pub strike: Rat,
}

impl VanillaOption {
    pub fn new(tp: VanillaType, ex: usize, k: Rat) -> (r: VanillaOption)
        requires
            k.wf(),
        ensures
            r.wf(),
            r.strike == k,
            r.expiry == ex,
            r.tp == tp,
    {
        VanillaOption { tp, expiry: ex, strike: k }
    }
}

impl Contract for VanillaOption {
    open spec fn wf(&self) -> bool {
        self.strike.wf()
    }

    open spec fn pf(&self) -> spec_fn(Q) -> Q {
        match self.tp {
            VanillaType::Call => call_pf(self.strike@),
            VanillaType::Put => put_pf(self.strike@),
            VanillaType::DigitCall => dcall_pf(self.strike@),
            VanillaType::DigitPut => dput_pf(self.strike@),
        }
    }

    open spec fn payoff_steps(&self, s: Q) -> Option<Q> {
        let k = self.strike@;
        match self.tp {
            VanillaType::Call => q_call_steps(k, s),
            VanillaType::Put => q_put_steps(k, s),
            VanillaType::DigitCall => Some(q_dcall_payoff(k, s)),
            VanillaType::DigitPut => Some(q_dput_payoff(k, s)),
        }
    }

    open spec fn spec_expiry(&self) -> nat {
        self.expiry as nat
    }

    fn get_expiry(&self) -> (r: usize) {
        self.expiry
    }

    fn payoff(&self, underlying: &Rat) -> (r: Option<Rat>) {
        match self.tp {
            VanillaType::Call => call_payoff(&self.strike, underlying),
            VanillaType::Put => put_payoff(&self.strike, underlying),
            VanillaType::DigitCall => Some(dcall_payoff(&self.strike, underlying)),
            VanillaType::DigitPut => Some(dput_payoff(&self.strike, underlying)),
        }
    }

    proof fn lemma_payoff_fn(&self) {
        let f = self.pf();
        assert forall|a: Q, b: Q| #![trigger f(a), f(b)]
            q_wf(a) && q_wf(b) && q_eq(a, b) implies q_wf(f(a)) && q_eq(f(a), f(b)) by {
            lemma_payoff_congr(self.strike@, self.strike@, a, b);
        }
    }
}

/// European spread option: a pair of strike prices `lower < upper`.
pub struct SpreadOption {
    pub tp: SpreadType,
    pub expiry: usize,
    pub lower: Rat,
    pub upper: Rat,
}

impl SpreadOption {
    /// Accepts exactly the strike pairs with `lower < upper`.
    pub fn new(tp: SpreadType, ex: usize, lo: Rat, hi: Rat) -> (r: Option<SpreadOption>)
        requires
            lo.wf(),
            hi.wf(),
        ensures
            match r {
                Some(o) => {
                    &&& o.wf()
                    &&& o.lower == lo
                    &&& o.upper == hi
                    &&& o.expiry == ex
                    &&& o.tp == tp
                },
                None => !q_lt(lo@, hi@),
            },
    {
        if lo.lt(&hi) {
            Some(SpreadOption { tp, expiry: ex, lower: lo, upper: hi })
        } else {
            None
        }
    }
}

impl Contract for SpreadOption {
    open spec fn wf(&self) -> bool {
        self.lower.wf() && self.upper.wf() && q_lt(self.lower@, self.upper@)
    }

    open spec fn pf(&self) -> spec_fn(Q) -> Q {
        match self.tp {
            SpreadType::DoubleDigit => double_pf(self.lower@, self.upper@),
            SpreadType::BearSpread => bear_pf(self.lower@, self.upper@),
            SpreadType::BullSpread => bull_pf(self.lower@, self.upper@),
        }
    }

    open spec fn payoff_steps(&self, s: Q) -> Option<Q> {
        let lo = self.lower@;
        let hi = self.upper@;
        match self.tp {
            SpreadType::DoubleDigit => Some(q_double_payoff(lo, hi, s)),
            SpreadType::BearSpread => q_bear_steps(lo, hi, s),
            SpreadType::BullSpread => q_bull_steps(lo, hi, s),
        }
    }

    open spec fn spec_expiry(&self) -> nat {
        self.expiry as nat
    }

    fn get_expiry(&self) -> (r: usize) {
        self.expiry
    }

    fn payoff(&self, underlying: &Rat) -> (r: Option<Rat>) {
        match self.tp {
            SpreadType::DoubleDigit => Some(double_payoff(&self.lower, &self.upper, underlying)),
            SpreadType::BearSpread => bear_payoff(&self.lower, &self.upper, underlying),
            SpreadType::BullSpread => bull_payoff(&self.lower, &self.upper, underlying),
        }
    }

    proof fn lemma_payoff_fn(&self) {
        let f = self.pf();
        assert forall|a: Q, b: Q| #![trigger f(a), f(b)]
            q_wf(a) && q_wf(b) && q_eq(a, b) implies q_wf(f(a)) && q_eq(f(a), f(b)) by {
            lemma_payoff_congr(self.lower@, self.upper@, a, b);
        }
    }
}

} // verus!
