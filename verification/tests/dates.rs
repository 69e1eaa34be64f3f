use rustifin::date::{days_between, Date, DateConversionError};
use rustifin::flows::{CashFlow, CashFlowList};
use rustifin::amount::Amount;

fn amount_of(x: f64) -> Amount {
    Amount { bits: x.to_bits() }
}

#[test]
fn date_construction_is_total() {
    let d = Date::new(30, 2, 2024);
    assert_eq!(d.day, 30);
    assert_eq!(d.month, 2);
    assert_eq!(d.year, 2024);
}

#[test]
fn date_equality_by_value() {
    assert_eq!(Date::new(1, 1, 2025), Date::new(1, 1, 2025));
    assert_ne!(Date::new(1, 1, 2025), Date::new(2, 1, 2025));
    assert_ne!(Date::new(1, 1, 2025), Date::new(1, 1, -2025));
}

#[test]
fn zero_day_count_at_same_date() {
    let as_of = Date::new(15, 6, 2024);
    let flow = CashFlow::new(amount_of(42.5), as_of);
    assert_eq!(flow.day_count(&as_of), Ok(0));
}

#[test]
fn pv_is_identity_at_zero_days() {
    let as_of = Date::new(15, 6, 2024);
    let flow = CashFlow::new(amount_of(42.5), as_of);
    let days = flow.day_count(&as_of).unwrap();
    for rate in [0.05f64, -0.5, 1.3, 0.0] {
        let pv = f64::from_bits(flow.amount().bits) / (1.0 + rate).powf(days as f64 / 365.25);
        assert_eq!(pv, 42.5);
    }
}

#[test]
fn known_day_counts() {
    let as_of = Date::new(1, 1, 2025);
    assert_eq!(days_between(&Date::new(1, 1, 2026), &as_of), Ok(365));
    assert_eq!(days_between(&Date::new(1, 1, 2027), &as_of), Ok(730));
    assert_eq!(days_between(&Date::new(1, 1, 2024), &as_of), Ok(-366));
    assert_eq!(days_between(&Date::new(1, 1, 2025), &Date::new(1, 1, 2024)), Ok(366));
    assert_eq!(days_between(&Date::new(1, 3, 2024), &Date::new(28, 2, 2024)), Ok(2));
    assert_eq!(days_between(&Date::new(1, 3, 2023), &Date::new(28, 2, 2023)), Ok(1));
}

#[test]
fn invalid_flow_date_fails_on_conversion() {
    let bad = Date::new(30, 2, 2024);
    let flow = CashFlow::new(amount_of(1.0), bad);
    let r = flow.day_count(&Date::new(1, 1, 2024));
    assert_eq!(r, Err(DateConversionError { date: bad }));
}

#[test]
fn invalid_as_of_fails_on_conversion() {
    let bad = Date::new(32, 1, 2020);
    let flow = CashFlow::new(amount_of(1.0), Date::new(1, 1, 2024));
    assert_eq!(flow.day_count(&bad), Err(DateConversionError { date: bad }));
}

#[test]
fn flow_date_reported_before_as_of() {
    let bad_flow = Date::new(31, 4, 2024);
    let bad_as_of = Date::new(0, 1, 2024);
    let flow = CashFlow::new(amount_of(1.0), bad_flow);
    assert_eq!(flow.day_count(&bad_as_of), Err(DateConversionError { date: bad_flow }));
}

#[test]
fn npv_errors_on_invalid_date_in_list() {
    let bad = Date::new(30, 2, 2024);
    let mut list = CashFlowList::new();
    list.add(CashFlow::new(amount_of(3.0), Date::new(1, 1, 2024)));
    list.add(CashFlow::new(amount_of(4.0), bad));
    let r = list.discount_terms(&Date::new(1, 1, 2024));
    assert_eq!(r, Err(DateConversionError { date: bad }));
}

#[test]
fn getters_hand_fields_back() {
    let d = Date::new(2, 3, 1999);
    let flow = CashFlow::new(amount_of(-7.25), d);
    assert_eq!(flow.amount(), amount_of(-7.25));
    assert_eq!(flow.date(), d);
    assert_eq!(Amount::from_bits(77).bits, 77);
}
