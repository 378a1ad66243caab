use lib::rational::Rat;
use lib::market::BinMarket;
use lib::contracts::{SpreadOption, SpreadType, VanillaOption, VanillaType};
use lib::pricer::crr_pricer;

fn rat(n: i64, d: i64) -> Rat {
    Rat::new(n, d).unwrap()
}

fn sample_market() -> BinMarket {
    // spot 100, down tick -0.01, up tick 0.01, rate 0.005
    BinMarket::new(rat(100, 1), rat(-1, 100), rat(1, 100), rat(1, 200)).unwrap()
}

fn assert_rat(v: &Rat, n: i64, d: i64) {
    assert_eq!(v.num(), n);
    assert_eq!(v.den(), d);
}

#[test]
fn martingal_prob_in_unit_interval() {
    let bm = sample_market();
    let p = bm.martingal_prob().unwrap();
    assert_rat(&p, 3, 4);
    assert!(Rat::zero().le(&p));
    assert!(p.le(&Rat::one()));
}

#[test]
fn node_price_at_root_is_spot() {
    let bm = sample_market();
    let s = bm.price(0, 0).unwrap();
    assert_rat(&s, 100, 1);
}

#[test]
fn node_price_extremes_compound_one_tick() {
    let bm = sample_market();
    let top = bm.price(2, 2).unwrap();
    assert_rat(&top, 10201, 100);
    let bottom = bm.price(2, 0).unwrap();
    assert_rat(&bottom, 9801, 100);
}

#[test]
fn degenerate_market_rejected() {
    // utick == dtick: no risk-neutral probability.
    assert!(BinMarket::new(rat(100, 1), rat(1, 100), rat(1, 100), rat(1, 200)).is_none());
    // rate outside the tick band: probability would leave [0, 1].
    assert!(BinMarket::new(rat(100, 1), rat(-1, 100), rat(1, 100), rat(2, 100)).is_none());
    // non-positive spot.
    assert!(BinMarket::new(rat(0, 1), rat(-1, 100), rat(1, 100), rat(1, 200)).is_none());
}

#[test]
fn spread_strikes_must_be_ordered() {
    assert!(SpreadOption::new(SpreadType::DoubleDigit, 1, rat(101, 1), rat(99, 1)).is_none());
    assert!(SpreadOption::new(SpreadType::BearSpread, 1, rat(99, 1), rat(99, 1)).is_none());
    assert!(SpreadOption::new(SpreadType::BullSpread, 1, rat(99, 1), rat(101, 1)).is_some());
}

#[test]
fn call_one_period() {
    let bm = sample_market();
    let call = VanillaOption::new(VanillaType::Call, 1, rat(100, 1));
    let v = crr_pricer(&bm, &call).unwrap();
    assert_rat(&v, 50, 67);
}

#[test]
fn digital_calls_and_puts_one_period() {
    let bm = sample_market();
    let dc = VanillaOption::new(VanillaType::DigitCall, 1, rat(100, 1));
    assert_rat(&crr_pricer(&bm, &dc).unwrap(), 50, 67);
    let dp = VanillaOption::new(VanillaType::DigitPut, 1, rat(100, 1));
    assert_rat(&crr_pricer(&bm, &dp).unwrap(), 50, 201);
}

#[test]
fn put_call_parity_two_periods() {
    // price(Call) - price(Put) == spot - K / (1 + rate)^2, exactly.
    let bm = sample_market();
    let call = VanillaOption::new(VanillaType::Call, 2, rat(100, 1));
    let put = VanillaOption::new(VanillaType::Put, 2, rat(100, 1));
    let vc = crr_pricer(&bm, &call).unwrap();
    let vp = crr_pricer(&bm, &put).unwrap();
    assert_rat(&vc, 75, 67);
    assert_rat(&vp, 5125, 40401);
    let diff = vc.sub(&vp).unwrap();
    assert_rat(&diff, 40100, 40401);
}

#[test]
fn bear_plus_bull_is_discounted_band() {
    // price(Bear) + price(Bull) == (upper - lower) / (1 + rate)^N.
    let bm = sample_market();
    let bear = SpreadOption::new(SpreadType::BearSpread, 1, rat(99, 1), rat(101, 1)).unwrap();
    let bull = SpreadOption::new(SpreadType::BullSpread, 1, rat(99, 1), rat(101, 1)).unwrap();
    let vbear = crr_pricer(&bm, &bear).unwrap();
    let vbull = crr_pricer(&bm, &bull).unwrap();
    assert_rat(&vbear, 100, 201);
    assert_rat(&vbull, 100, 67);
    let sum = vbear.add(&vbull).unwrap();
    // 2 * 200/201 == 400/201.
    assert_rat(&sum, 400, 201);
}

#[test]
fn double_digital_bounded_by_discounted_one() {
    let bm = sample_market();
    let dd = SpreadOption::new(SpreadType::DoubleDigit, 2, rat(199, 2), rat(201, 2)).unwrap();
    let v = crr_pricer(&bm, &dd).unwrap();
    assert_rat(&v, 5000, 13467);
    assert!(Rat::zero().le(&v));
    // (1 + rate)^-2 == 40000/40401.
    let bound = rat(40000, 40401);
    assert!(v.le(&bound));
}

#[test]
fn zero_expiry_is_payoff_at_spot() {
    let bm = sample_market();
    let call = VanillaOption::new(VanillaType::Call, 0, rat(90, 1));
    assert_rat(&crr_pricer(&bm, &call).unwrap(), 10, 1);
    let put = VanillaOption::new(VanillaType::Put, 0, rat(90, 1));
    assert_rat(&crr_pricer(&bm, &put).unwrap(), 0, 1);
}

#[test]
fn call_price_does_not_increase_with_strike() {
    let bm = sample_market();
    let low = VanillaOption::new(VanillaType::Call, 1, rat(100, 1));
    let high = VanillaOption::new(VanillaType::Call, 1, rat(101, 1));
    let vl = crr_pricer(&bm, &low).unwrap();
    let vh = crr_pricer(&bm, &high).unwrap();
    assert_rat(&vh, 0, 1);
    assert!(vh.le(&vl));
}

#[test]
fn put_price_does_not_decrease_with_strike() {
    let bm = sample_market();
    let low = VanillaOption::new(VanillaType::Put, 1, rat(100, 1));
    let high = VanillaOption::new(VanillaType::Put, 1, rat(101, 1));
    let vl = crr_pricer(&bm, &low).unwrap();
    let vh = crr_pricer(&bm, &high).unwrap();
    assert!(vl.le(&vh));
}

#[test]
fn four_period_call_regression() {
    // Exact reference value for the sample market, expiry 4, strike 100,
    // deterministic across runs.
    let bm = sample_market();
    let call = VanillaOption::new(VanillaType::Call, 4, rat(100, 1));
    let first = crr_pricer(&bm, &call).unwrap();
    let second = crr_pricer(&bm, &call).unwrap();
    assert_rat(&first, 504509975, 241813452);
    assert_eq!(first, second);
}

#[test]
fn rational_arithmetic_is_exact_and_reduced() {
    let a = rat(1, 3);
    let b = rat(1, 6);
    assert_rat(&a.add(&b).unwrap(), 1, 2);
    assert_rat(&a.sub(&b).unwrap(), 1, 6);
    assert_rat(&a.mul(&b).unwrap(), 1, 18);
    assert_rat(&a.div(&b).unwrap(), 2, 1);
    assert_rat(&a.neg(), -1, 3);
    assert!(b.lt(&a));
    assert!(Rat::new(1, 0).is_none());
    assert_rat(&rat(3, -6), -1, 2);
}
