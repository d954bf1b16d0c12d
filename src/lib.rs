//! Loan amortization schedules in exact integer arithmetic.
//!
//! Amounts of money are counted in micro-units (millionths of a currency
//! unit) and annual interest rates in millionths of a percent, so the
//! monthly rate `rate / RATE_DENOM` is an exact rational number.
pub mod amortization;
pub mod export;

pub use amortization::{
    base_monthly_payment, calculate_amortization, calculate_with_extra_payments,
    AmortizationResult, PaymentDetails, ValidationError, MAX_ANNUAL_RATE, MAX_PRINCIPAL,
    MICROS_PER_UNIT, PAYOFF_EPSILON,
};
pub use export::export_to_csv;
