use rustifin::amount::Amount;
use rustifin::bond::Bond;
use rustifin::date::{Date, DateConversionError};
use rustifin::flows::{CashFlow, CashFlowList, DiscountTerm};

fn amount_of(x: f64) -> Amount {
    Amount { bits: x.to_bits() }
}

fn discount(term: &DiscountTerm, rate: f64) -> f64 {
    f64::from_bits(term.amount.bits) / (1.0 + rate).powf(term.days as f64 / 365.25)
}

fn fold_npv(terms: &[DiscountTerm], rate: f64) -> f64 {
    let mut total = 0.0f64;
    for term in terms {
        total += discount(term, rate);
    }
    total
}

#[test]
fn empty_list_npv_is_zero() {
    let list = CashFlowList::new();
    let terms = list.discount_terms(&Date::new(1, 1, 2025)).unwrap();
    assert_eq!(terms.len(), 0);
    assert_eq!(fold_npv(&terms, 0.05), 0.0);
}

#[test]
fn empty_list_ignores_the_valuation_date() {
    let list = CashFlowList::new();
    let terms = list.discount_terms(&Date::new(30, 2, 2024)).unwrap();
    assert_eq!(terms.len(), 0);
    assert_eq!(fold_npv(&terms, 0.05), 0.0);
}

#[test]
fn add_appends_in_order() {
    let mut list = CashFlowList::new();
    let a = CashFlow::new(amount_of(1.0), Date::new(1, 1, 2025));
    let b = CashFlow::new(amount_of(2.0), Date::new(1, 1, 2026));
    list.add(a);
    list.add(b);
    assert_eq!(list.cash_flows.len(), 2);
    assert_eq!(list.cash_flows[0], a);
    assert_eq!(list.cash_flows[1], b);
}

#[test]
fn npv_is_sum_of_independent_present_values() {
    let as_of = Date::new(1, 1, 2025);
    let rate = 0.07f64;
    let flows = [
        CashFlow::new(amount_of(5.0), Date::new(1, 1, 2025)),
        CashFlow::new(amount_of(-3.5), Date::new(1, 7, 2026)),
        CashFlow::new(amount_of(105.0), Date::new(1, 1, 2027)),
    ];
    let mut list = CashFlowList::new();
    for flow in flows {
        list.add(flow);
    }
    let terms = list.discount_terms(&as_of).unwrap();
    assert_eq!(terms.len(), 3);

    let mut expected = 0.0f64;
    for flow in flows {
        let days = flow.day_count(&as_of).unwrap();
        expected += f64::from_bits(flow.amount().bits) / (1.0 + rate).powf(days as f64 / 365.25);
    }
    assert_eq!(fold_npv(&terms, rate), expected);
}

#[test]
fn schedule_six_entries() {
    let bond = Bond::new(Date::new(1, 1, 2030), amount_of(5.0), amount_of(100.0));
    let schedule = bond.schedule(&Date::new(1, 1, 2025));
    let flows = &schedule.cash_flows;
    assert_eq!(flows.len(), 6);
    for (i, year) in (2025..2030).enumerate() {
        assert_eq!(flows[i].amount(), amount_of(5.0));
        assert_eq!(flows[i].date(), Date::new(1, 1, year));
    }
    assert_eq!(flows[5].amount().bits, (5.0f64 + 100.0f64).to_bits());
    assert_eq!(flows[5].date(), Date::new(1, 1, 2030));
}

#[test]
fn schedule_ignores_as_of_month_and_day() {
    let bond = Bond::new(Date::new(1, 1, 2027), amount_of(2.0), amount_of(50.0));
    let a = bond.schedule(&Date::new(1, 1, 2026));
    let b = bond.schedule(&Date::new(31, 12, 2026));
    assert_eq!(a.cash_flows, b.cash_flows);
}

#[test]
fn degenerate_schedule_at_maturity_year() {
    let maturity = Date::new(1, 6, 2025);
    let bond = Bond::new(maturity, amount_of(5.0), amount_of(100.0));
    let schedule = bond.schedule(&Date::new(1, 1, 2025));
    assert_eq!(schedule.cash_flows.len(), 1);
    assert_eq!(schedule.cash_flows[0].amount().bits, (5.0f64 + 100.0f64).to_bits());
    assert_eq!(schedule.cash_flows[0].date(), maturity);
}

#[test]
fn degenerate_schedule_past_maturity() {
    let maturity = Date::new(1, 1, 2020);
    let bond = Bond::new(maturity, amount_of(5.0), amount_of(100.0));
    let schedule = bond.schedule(&Date::new(1, 1, 2025));
    assert_eq!(schedule.cash_flows.len(), 1);
    assert_eq!(schedule.cash_flows[0].date(), maturity);
    let terms = bond.price_terms(&Date::new(1, 1, 2025)).unwrap();
    assert_eq!(terms[0].days, -1827);
}

#[test]
fn price_concrete_scenario() {
    let bond = Bond::new(Date::new(1, 1, 2027), amount_of(5.0), amount_of(100.0));
    let as_of = Date::new(1, 1, 2025);
    let rate = 0.05f64;
    let terms = bond.price_terms(&as_of).unwrap();
    let days: Vec<i64> = terms.iter().map(|t| t.days).collect();
    assert_eq!(days, vec![0, 365, 730]);
    let price = fold_npv(&terms, rate);
    let expected = 5.0f64 / (1.0f64 + rate).powf(0.0f64 / 365.25)
        + 5.0f64 / (1.0f64 + rate).powf(365.0f64 / 365.25)
        + 105.0f64 / (1.0f64 + rate).powf(730.0f64 / 365.25);
    assert_eq!(price, expected);
    assert!(price > 104.9 && price < 105.3);
}

#[test]
fn price_fails_on_invalid_maturity() {
    let bad = Date::new(30, 2, 2024);
    let bond = Bond::new(bad, amount_of(5.0), amount_of(100.0));
    let r = bond.price_terms(&Date::new(1, 1, 2024));
    assert_eq!(r, Err(DateConversionError { date: bad }));
}

#[test]
fn price_fails_on_invalid_as_of() {
    let bond = Bond::new(Date::new(1, 1, 2027), amount_of(5.0), amount_of(100.0));
    let bad = Date::new(30, 2, 2025);
    let r = bond.price_terms(&bad);
    assert_eq!(r, Err(DateConversionError { date: bad }));
}
