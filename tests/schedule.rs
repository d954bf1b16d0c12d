use amortization_calculator::{
    base_monthly_payment, calculate_amortization, calculate_with_extra_payments,
    AmortizationResult, ValidationError, MAX_ANNUAL_RATE, PAYOFF_EPSILON,
};
use std::collections::HashMap;

const UNIT: u64 = 1_000_000;
const PERCENT: u32 = 1_000_000;

fn standard(principal_units: u64, rate_percent: u32, term: u32) -> AmortizationResult {
    calculate_amortization(principal_units * UNIT, rate_percent * PERCENT, term).unwrap()
}

fn check_totals(r: &AmortizationResult, principal: u64) {
    let interest: u128 = r.schedule.iter().map(|p| p.interest_payment as u128).sum();
    assert_eq!(r.total_interest, interest);
    assert_eq!(r.total_paid, principal as u128 + r.total_interest);
    for (i, p) in r.schedule.iter().enumerate() {
        assert_eq!(p.payment_number as usize, i + 1);
        assert_eq!(p.payment_amount, p.principal_payment + p.interest_payment);
    }
}

#[test]
fn thirty_year_mortgage() {
    let r = standard(100_000, 6, 360);
    assert_eq!(r.monthly_payment, 599_550_526);
    assert!((r.monthly_payment as i64 - 599_550_000).abs() < 10_000);
    assert!((r.total_paid as i128 - 215_838_190_000).abs() < 10_000);
    assert_eq!(r.total_paid, 215_838_188_000);
    assert_eq!(r.schedule.len(), 360);
    let first = r.schedule[0];
    assert_eq!(first.interest_payment, 500_000_000);
    assert_eq!(first.principal_payment, 99_550_526);
    assert_eq!(first.remaining_balance, 99_900_449_474);
    assert_eq!(r.schedule[359].remaining_balance, 0);
    check_totals(&r, 100_000 * UNIT);
}

#[test]
fn zero_rate_loan() {
    let r = standard(1200, 0, 12);
    assert_eq!(r.monthly_payment, 100 * UNIT);
    assert_eq!(r.total_interest, 0);
    assert_eq!(r.total_paid, 1200 * UNIT as u128);
    assert_eq!(r.schedule.len(), 12);
    assert!(r.schedule.iter().all(|p| p.interest_payment == 0));
    assert_eq!(r.schedule[11].remaining_balance, 0);
}

#[test]
fn zero_rate_payment_rounds_up() {
    let r = calculate_amortization(1_000_001, 0, 2).unwrap();
    assert_eq!(r.monthly_payment, 500_001);
    assert_eq!(r.schedule.len(), 2);
    assert_eq!(r.schedule[1].principal_payment, 500_000);
    assert_eq!(r.schedule[1].remaining_balance, 0);
}

#[test]
fn principal_is_repaid() {
    for &(p, rate, term) in &[(100_000u64, 6u32, 360u32), (10_000, 5, 24), (250_000, 12, 120), (5_000, 100, 12)] {
        let r = standard(p, rate, term);
        let repaid: u64 = r.schedule.iter().map(|x| x.principal_payment).sum();
        let last = r.schedule.last().unwrap().remaining_balance;
        assert_eq!(repaid + last, p * UNIT);
        assert!(last <= PAYOFF_EPSILON);
        assert!((repaid as i64 - (p * UNIT) as i64).abs() <= 10_000);
        check_totals(&r, p * UNIT);
    }
}

#[test]
fn schedule_length_within_term() {
    let r = standard(10_000, 5, 24);
    assert!(!r.schedule.is_empty());
    assert!(r.schedule.len() <= 24);
    let r = calculate_amortization(10, 5 * PERCENT, 1).unwrap();
    assert_eq!(r.schedule.len(), 1);
}

#[test]
fn balance_never_grows() {
    let r = standard(250_000, 12, 120);
    for w in r.schedule.windows(2) {
        assert!(w[1].remaining_balance <= w[0].remaining_balance);
    }
    assert_eq!(r.schedule.last().unwrap().remaining_balance, 0);
}

#[test]
fn extra_payment_shortens_loan() {
    let base = standard(10_000, 5, 24);
    let mut extras = HashMap::new();
    extras.insert(1u32, 500 * UNIT);
    let r = calculate_with_extra_payments(10_000 * UNIT, 5 * PERCENT, 24, extras).unwrap();
    assert!(r.schedule.len() < 24);
    assert_eq!(r.schedule.len(), 23);
    assert!(r.total_interest < base.total_interest);
    assert_eq!(r.monthly_payment, base.monthly_payment);
    assert_eq!(r.schedule[0].payment_amount, 938_713_898);
    assert_eq!(r.schedule[0].principal_payment, 897_047_232);
    check_totals(&r, 10_000 * UNIT);
}

#[test]
fn extra_variant_without_extras_matches_standard() {
    let base = standard(10_000, 5, 24);
    let r = calculate_with_extra_payments(10_000 * UNIT, 5 * PERCENT, 24, HashMap::new()).unwrap();
    assert_eq!(r.schedule, base.schedule);
    assert_eq!(r.total_interest, base.total_interest);
    assert_eq!(r.total_paid, base.total_paid);
}

#[test]
fn zero_principal_is_refused() {
    let e = calculate_amortization(0, 6 * PERCENT, 360).unwrap_err();
    assert_eq!(e, ValidationError::PrincipalNotPositive);
    assert!(e.message().contains("Principal must be greater than 0"));
    let e = calculate_with_extra_payments(0, 6 * PERCENT, 360, HashMap::new()).unwrap_err();
    assert_eq!(e, ValidationError::PrincipalNotPositive);
}

#[test]
fn rate_out_of_range_is_refused() {
    let e = calculate_amortization(1000 * UNIT, MAX_ANNUAL_RATE + 1, 12).unwrap_err();
    assert_eq!(e, ValidationError::RateOutOfRange);
    assert_eq!(e.message(), "Interest rate must be between 0 and 100");
    assert!(calculate_amortization(1000 * UNIT, MAX_ANNUAL_RATE, 12).is_ok());
}

#[test]
fn zero_term_is_refused() {
    let e = calculate_amortization(1000 * UNIT, 5 * PERCENT, 0).unwrap_err();
    assert_eq!(e, ValidationError::TermNotPositive);
    assert_eq!(e.message(), "Term must be greater than 0");
}

#[test]
fn extra_variant_checks_only_principal() {
    let r = calculate_with_extra_payments(1000 * UNIT, 150 * PERCENT, 12, HashMap::new()).unwrap();
    assert_eq!(r.schedule.len(), 12);
    let r = calculate_with_extra_payments(1000 * UNIT, 5 * PERCENT, 0, HashMap::new()).unwrap();
    assert!(r.schedule.is_empty());
    assert_eq!(r.monthly_payment, 0);
    assert_eq!(r.total_paid, 1000 * UNIT as u128);
}

#[test]
fn tiny_balance_gets_one_standard_payment() {
    let r = calculate_amortization(1000, 5 * PERCENT, 12).unwrap();
    assert_eq!(r.schedule.len(), 1);
    assert_eq!(r.monthly_payment, 87);
    assert_eq!(r.schedule[0].interest_payment, 4);
    let r = calculate_with_extra_payments(1000, 5 * PERCENT, 12, HashMap::new()).unwrap();
    assert!(r.schedule.is_empty());
    assert_eq!(r.total_interest, 0);
}

#[test]
fn level_payment_formula() {
    assert_eq!(base_monthly_payment(100_000 * UNIT, 6 * PERCENT, 360), 599_550_526);
    assert_eq!(base_monthly_payment(10_000 * UNIT, 5 * PERCENT, 24), 438_713_898);
    assert_eq!(base_monthly_payment(1200 * UNIT, 0, 12), 100 * UNIT);
    assert_eq!(base_monthly_payment(1200 * UNIT, 0, 0), 0);
}
