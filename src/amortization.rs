use vstd::prelude::*;
use vstd::arithmetic::div_mod::{lemma_div_is_ordered, lemma_div_multiples_vanish, lemma_fundamental_div_mod};
use vstd::arithmetic::mul::lemma_mul_inequality;
use std::collections::HashMap;

verus! {

/// Micro-units in one unit of currency.
pub const MICROS_PER_UNIT: u64 = 1_000_000;

/// Largest principal that can be represented without overflow, in
/// micro-units (ten billion units of currency).
pub const MAX_PRINCIPAL: u64 = 10_000_000_000_000_000;

/// Largest annual rate that `calculate_amortization` accepts: 100 percent,
/// in millionths of a percent.
pub const MAX_ANNUAL_RATE: u32 = 100_000_000;

/// An annual rate in millionths of a percent divided by this is the monthly
/// rate as a fraction (100 for percent, 12 months, a million for micro).
pub const RATE_DENOM: u64 = 1_200_000_000;

/// Fixed-point one for the growth factor `(1 + r)^n`.
pub const GROWTH_ONE: u128 = 1_000_000_000_000;

/// The growth factor is capped here (`10^15` in real terms): beyond it
/// `f / (f - 1)` differs from one by less than the factor's own precision.
pub const GROWTH_CAP: u128 = 1_000_000_000_000_000_000_000_000_000;

/// A balance at or below this (0.001 units of currency) counts as repaid.
pub const PAYOFF_EPSILON: u64 = 1000;

/// `(1 + rate / RATE_DENOM)^n` in fixed point with `GROWTH_ONE` as one:
/// one multiplication per period, each rounded down, capped at `GROWTH_CAP`.
pub open spec fn growth(rate: nat, n: nat) -> nat
    decreases n,
{
    if n == 0 {
        GROWTH_ONE as nat
    } else {
        let g = growth(rate, (n - 1) as nat) * (RATE_DENOM + rate) / (RATE_DENOM as int);
        if g > GROWTH_CAP {
            GROWTH_CAP as nat
        } else {
            g as nat
        }
    }
}

/// `x / y` rounded up.
pub open spec fn ceil_div(x: nat, y: nat) -> nat
    recommends
        y > 0,
{
    ((x + y - 1) as nat) / y
}

/// The level monthly payment that retires `principal` over `n` months at
/// the monthly rate `r = rate / RATE_DENOM`, rounded up to a micro-unit.
/// At a zero rate it is `principal / n`; otherwise the annuity payment
/// `principal * r * f / (f - 1)` with `f = (1 + r)^n`, written as
/// `principal * r + principal * r / (f - 1)`. With no months there is no
/// payment.
pub open spec fn level_payment(principal: nat, rate: nat, n: nat) -> nat {
    if n == 0 {
        0
    } else if rate == 0 {
        ceil_div(principal, n)
    } else {
        ceil_div(principal * rate, RATE_DENOM as nat) + ceil_div(
            (principal * rate * GROWTH_ONE) as nat,
            (RATE_DENOM * (growth(rate, n) - GROWTH_ONE)) as nat,
        )
    }
}

/// One period of growth never shrinks the factor and loses less than one
/// fixed-point unit to rounding.
proof fn lemma_growth_step(f: int, rate: int)
    requires
        f >= 0,
        rate >= 0,
    ensures
        f <= f * (RATE_DENOM + rate) / (RATE_DENOM as int),
        f * (RATE_DENOM + rate) / (RATE_DENOM as int) * RATE_DENOM > f * RATE_DENOM + f * rate
            - RATE_DENOM,
{
    let d = RATE_DENOM as int;
    let x = f * (RATE_DENOM + rate);
    assert(x == f * d + f * rate) by (nonlinear_arith)
        requires
            x == f * (RATE_DENOM + rate),
            d == RATE_DENOM,
    ;
    assert(f * d <= x) by (nonlinear_arith)
        requires
            x == f * d + f * rate,
            f >= 0,
            rate >= 0,
    ;
    lemma_div_is_ordered(f * d, x, d);
    lemma_div_multiples_vanish(f, d);
    lemma_fundamental_div_mod(x, d);
    assert(x / d * d == d * (x / d)) by (nonlinear_arith)
        requires
            d > 0,
    ;
}

/// The growth factor never shrinks from one period to the next and stays
/// between one and the cap.
proof fn lemma_growth_bounds(rate: nat, n: nat)
    ensures
        GROWTH_ONE <= growth(rate, n) <= GROWTH_CAP,
        n > 0 ==> growth(rate, (n - 1) as nat) <= growth(rate, n),
    decreases n,
{
    if n > 0 {
        lemma_growth_bounds(rate, (n - 1) as nat);
        lemma_growth_step(growth(rate, (n - 1) as nat) as int, rate as int);
    }
}

/// One period of growth at a positive rate already lifts the factor enough
/// that `RATE_DENOM * (f - 1)` is at least half of `GROWTH_ONE * rate`.
proof fn lemma_growth_gap(rate: nat, n: nat)
    requires
        rate > 0,
        rate <= u32::MAX,
        n > 0,
    ensures
        2 * RATE_DENOM * (growth(rate, n) - GROWTH_ONE) >= GROWTH_ONE * rate,
    decreases n,
{
    lemma_growth_bounds(rate, n);
    let d = RATE_DENOM as int;
    let one = GROWTH_ONE as int;
    if n == 1 {
        lemma_growth_step(one, rate as int);
        let x = one * (RATE_DENOM + rate) / d;
        let g = growth(rate, 1);
        assert(g == if x > GROWTH_CAP { GROWTH_CAP as int } else { x });
        assert(x * d > one * d + one * rate - d);
        assert(one * rate <= one * u32::MAX) by (nonlinear_arith)
            requires
                rate <= u32::MAX,
                one > 0,
        ;
        if x > GROWTH_CAP {
            assert(2 * d * (g - one) >= one * rate);
        } else {
            assert(d * (x - one) > one * rate - d) by (nonlinear_arith)
                requires
                    x * d > one * d + one * rate - d,
            ;
            assert(one * rate >= 2 * d) by (nonlinear_arith)
                requires
                    rate >= 1,
                    one == GROWTH_ONE,
                    d == RATE_DENOM,
            ;
        }
    } else {
        lemma_growth_gap(rate, (n - 1) as nat);
        let a = growth(rate, (n - 1) as nat) as int;
        let b = growth(rate, n) as int;
        assert(2 * d * (b - one) >= 2 * d * (a - one)) by (nonlinear_arith)
            requires
                a <= b,
                d > 0,
        ;
    }
}

/// The fixed-point growth factor `growth(rate, n)`.
fn growth_factor(rate: u32, n: u32) -> (f: u128)
    ensures
        f == growth(rate as nat, n as nat),
        GROWTH_ONE <= f <= GROWTH_CAP,
{
    let mut f: u128 = GROWTH_ONE;
    let mut k: u32 = 0;
    while k < n
        invariant
            k <= n,
            f == growth(rate as nat, k as nat),
            GROWTH_ONE <= f <= GROWTH_CAP,
        decreases n - k,
    {
        proof {
            lemma_growth_bounds(rate as nat, (k + 1) as nat);
            assert(f * (RATE_DENOM + rate) <= GROWTH_CAP * (RATE_DENOM + u32::MAX))
                by (nonlinear_arith)
                requires
                    f <= GROWTH_CAP,
                    rate <= u32::MAX,
            ;
        }
        let g = f * (RATE_DENOM as u128 + rate as u128) / (RATE_DENOM as u128);
        f = if g > GROWTH_CAP {
            GROWTH_CAP
        } else {
            g
        };
        k = k + 1;
    }
    f
}

/// The monthly payment shared by both schedules: `level_payment` of the
/// loan, which at a zero rate is the principal spread evenly over the term.
pub fn base_monthly_payment(principal: u64, annual_rate: u32, term_months: u32) -> (pay: u64)
    requires
        principal <= MAX_PRINCIPAL,
    ensures
        pay == level_payment(principal as nat, annual_rate as nat, term_months as nat),
        term_months > 0 ==> pay >= principal as nat * annual_rate as nat / RATE_DENOM as nat,
{
    if term_months == 0 {
        0
    } else if annual_rate == 0 {
        let p = principal as u128;
        let n = term_months as u128;
        proof {
            let (pi, ni) = (p as int, n as int);
            assert((pi + ni - 1) / ni <= pi) by (nonlinear_arith)
                requires
                    ni >= 1,
                    pi >= 0,
            ;
            assert(pi * 0 / (RATE_DENOM as int) == 0);
        }
        ((p + n - 1) / n) as u64
    } else {
        let f = growth_factor(annual_rate, term_months);
        let p = principal as u128;
        let r = annual_rate as u128;
        let d = RATE_DENOM as u128;
        proof {
            lemma_growth_gap(r as nat, term_months as nat);
            lemma_payment_terms(p as int, r as int, f as int);
        }
        let interest_part = (p * r + d - 1) / d;
        let spread = d * (f - GROWTH_ONE);
        let excess = (p * r * GROWTH_ONE + spread - 1) / spread;
        assert(interest_part + excess >= (p as int) * (r as int) / (d as int));
        (interest_part + excess) as u64
    }
}

/// Bounds on the two terms of the annuity payment: neither overflows, the
/// first is at least the interest on the principal, and the sum fits a `u64`.
proof fn lemma_payment_terms(p: int, r: int, f: int)
    requires
        0 <= p <= MAX_PRINCIPAL,
        1 <= r <= u32::MAX,
        GROWTH_ONE <= f <= GROWTH_CAP,
        2 * RATE_DENOM * (f - GROWTH_ONE) >= GROWTH_ONE * r,
    ensures
        ({
            let d = RATE_DENOM as int;
            let spread = d * (f - GROWTH_ONE);
            let i = (p * r + d - 1) / d;
            let e = (p * r * GROWTH_ONE + spread - 1) / spread;
            &&& spread > 0
            &&& spread <= u128::MAX
            &&& p * r * GROWTH_ONE + spread <= u128::MAX
            &&& p * r + d <= u128::MAX
            &&& p * r / d <= i <= p * r / d + 1
            &&& 0 <= e <= 2 * p
            &&& i + e <= u64::MAX
        }),
{
    let d = RATE_DENOM as int;
    let spread = d * (f - GROWTH_ONE);
    let i = (p * r + d - 1) / d;
    let e = (p * r * GROWTH_ONE + spread - 1) / spread;
    assert(2 * spread >= GROWTH_ONE * r) by (nonlinear_arith)
        requires
            spread == d * (f - GROWTH_ONE),
            d == RATE_DENOM,
            2 * RATE_DENOM * (f - GROWTH_ONE) >= GROWTH_ONE * r,
    ;
    assert(p * r <= MAX_PRINCIPAL * u32::MAX) by (nonlinear_arith)
        requires
            0 <= p <= MAX_PRINCIPAL,
            1 <= r <= u32::MAX,
    ;
    assert(0 <= p * r) by (nonlinear_arith)
        requires
            0 <= p,
            1 <= r,
    ;
    assert(spread <= d * GROWTH_CAP) by (nonlinear_arith)
        requires
            spread == d * (f - GROWTH_ONE),
            f <= GROWTH_CAP,
            d > 0,
    ;
    assert(spread >= GROWTH_ONE / 2) by (nonlinear_arith)
        requires
            2 * spread >= GROWTH_ONE * r,
            r >= 1,
    ;
    assert(p * r / d <= i <= p * r / d + 1) by (nonlinear_arith)
        requires
            i == (p * r + d - 1) / d,
            d > 0,
            p * r >= 0,
    ;
    assert(p * r / d <= p * 4) by (nonlinear_arith)
        requires
            0 <= p,
            r <= u32::MAX,
            d == RATE_DENOM,
    ;
    assert(p * r * GROWTH_ONE <= 2 * p * spread) by (nonlinear_arith)
        requires
            2 * spread >= GROWTH_ONE * r,
            p >= 0,
    ;
    assert(0 <= e <= 2 * p) by (nonlinear_arith)
        requires
            e == (p * r * GROWTH_ONE + spread - 1) / spread,
            p * r * GROWTH_ONE <= 2 * p * spread,
            p * r >= 0,
            spread > 0,
    ;
}

/// One row of a schedule as the contracts see it.
pub struct PaymentView {
    pub number: nat,
    pub amount: int,
    pub principal: int,
    pub interest: int,
    pub remaining: int,
}

/// Everything that determines a schedule: the loan, its level payment, the
/// extra payments by payment number, and the number of months.
pub struct LoanTerms {
    pub principal: nat,
    pub rate: nat,
    pub payment: nat,
    pub extras: Map<u32, u64>,
    pub term: nat,
}

/// The extra amount paid with payment `k`; none is zero.
pub open spec fn extra_in(t: LoanTerms, k: nat) -> nat {
    if k <= u32::MAX && t.extras.contains_key(k as u32) {
        t.extras[k as u32] as nat
    } else {
        0
    }
}

/// A month's interest on `balance`, rounded down to a micro-unit.
pub open spec fn interest_on(balance: int, rate: nat) -> int {
    balance * rate / (RATE_DENOM as int)
}

/// The part of a payment `due` that goes to principal: all of a balance
/// smaller than `due`, else what is left of `due` after interest.
pub open spec fn principal_part(balance: int, interest: int, due: int) -> int {
    if balance < due {
        balance
    } else {
        due - interest
    }
}

/// The balance after `k` payments.
pub open spec fn balance_after(t: LoanTerms, k: nat) -> int
    decreases k,
{
    if k == 0 {
        t.principal as int
    } else {
        let b = balance_after(t, (k - 1) as nat);
        b - principal_part(b, interest_on(b, t.rate), (t.payment + extra_in(t, k)) as int)
    }
}

/// Payment number `k` (from one) of the schedule.
pub open spec fn record(t: LoanTerms, k: nat) -> PaymentView {
    let b = balance_after(t, (k - 1) as nat);
    let i = interest_on(b, t.rate);
    let p = principal_part(b, i, (t.payment + extra_in(t, k)) as int);
    PaymentView { number: k, amount: p + i, principal: p, interest: i, remaining: b - p }
}

/// The first count of payments, from `k` on, after which the schedule
/// stops: the balance is repaid or the term is over.
pub open spec fn stop_point(t: LoanTerms, k: nat) -> nat
    decreases t.term - k,
{
    if k >= t.term || balance_after(t, k) <= PAYOFF_EPSILON {
        k
    } else {
        stop_point(t, k + 1)
    }
}

/// The schedule: payments `1 ..= stop_point(t, first)`. With `first == 1`
/// the first payment is made whatever the balance.
pub open spec fn schedule_model(t: LoanTerms, first: nat) -> Seq<PaymentView> {
    Seq::new(stop_point(t, first), |i: int| record(t, (i + 1) as nat))
}

/// The interest paid over a sequence of rows.
pub open spec fn interest_total(s: Seq<PaymentView>) -> int
    decreases s.len(),
{
    if s.len() == 0 {
        0
    } else {
        interest_total(s.drop_last()) + s.last().interest
    }
}

/// The principal repaid over a sequence of rows.
pub open spec fn principal_total(s: Seq<PaymentView>) -> int
    decreases s.len(),
{
    if s.len() == 0 {
        0
    } else {
        principal_total(s.drop_last()) + s.last().principal
    }
}

/// One payment of a schedule, amounts in micro-units.
#[derive(Clone, Copy, Debug, PartialEq, Eq)]
pub struct PaymentDetails {
    pub payment_number: u32,
    pub payment_amount: u64,
    pub principal_payment: u64,
    pub interest_payment: u64,
    pub remaining_balance: u64,
}

impl View for PaymentDetails {
    type V = PaymentView;

    open spec fn view(&self) -> PaymentView {
        PaymentView {
            number: self.payment_number as nat,
            amount: self.payment_amount as int,
            principal: self.principal_payment as int,
            interest: self.interest_payment as int,
            remaining: self.remaining_balance as int,
        }
    }
}

/// The rows of a schedule as the contracts see them.
pub open spec fn rows(v: Seq<PaymentDetails>) -> Seq<PaymentView> {
    v.map_values(|r: PaymentDetails| r@)
}

/// With a payment that covers the interest on the whole principal, every
/// balance stays between zero and the principal and never grows, and every
/// row's interest and principal parts are non-negative.
pub proof fn lemma_balance_bounds(t: LoanTerms, k: nat)
    requires
        t.payment >= interest_on(t.principal as int, t.rate),
    ensures
        0 <= balance_after(t, k) <= t.principal,
        k > 0 ==> balance_after(t, k) <= balance_after(t, (k - 1) as nat),
        k > 0 ==> 0 <= record(t, k).interest <= interest_on(t.principal as int, t.rate),
        k > 0 ==> 0 <= record(t, k).principal,
    decreases k,
{
    if k > 0 {
        lemma_balance_bounds(t, (k - 1) as nat);
        let b = balance_after(t, (k - 1) as nat);
        let d = RATE_DENOM as int;
        lemma_mul_inequality(b, t.principal as int, t.rate as int);
        lemma_div_is_ordered(b * t.rate, (t.principal * t.rate) as int, d);
        assert(0 <= b * t.rate) by (nonlinear_arith)
            requires
                0 <= b,
        ;
        lemma_div_is_ordered(0, b * t.rate, d);
    }
}

/// Builds the schedule of `t` from payment one on, with `first` making the
/// first payment unconditional, and returns it with its total interest.
fn run_schedule(
    principal: u64,
    annual_rate: u32,
    term_months: u32,
    payment: u64,
    extras: &HashMap<u32, u64>,
    first: bool,
) -> (out: (Vec<PaymentDetails>, u128))
    requires
        principal <= MAX_PRINCIPAL,
        term_months > 0 ==> payment >= interest_on(principal as int, annual_rate as nat),
    ensures
        ({
            let t = LoanTerms {
                principal: principal as nat,
                rate: annual_rate as nat,
                payment: payment as nat,
                extras: extras@,
                term: term_months as nat,
            };
            let start: nat = if first && term_months >= 1 { 1 } else { 0 };
            &&& rows(out.0@) == schedule_model(t, start)
            &&& out.1 == interest_total(schedule_model(t, start))
            &&& out.1 <= u32::MAX * (MAX_PRINCIPAL * u32::MAX)
        }),
{
    broadcast use vstd::std_specs::hash::group_hash_axioms;

    let ghost t = LoanTerms {
        principal: principal as nat,
        rate: annual_rate as nat,
        payment: payment as nat,
        extras: extras@,
        term: term_months as nat,
    };
    let ghost start: nat = if first && term_months >= 1 { 1 } else { 0 };
    let mut schedule: Vec<PaymentDetails> = Vec::new();
    let mut balance: u64 = principal;
    let mut total_interest: u128 = 0;
    let mut k: u32 = 0;
    while k < term_months && ((first && k == 0) || balance > PAYOFF_EPSILON)
        invariant
            t == (LoanTerms {
                principal: principal as nat,
                rate: annual_rate as nat,
                payment: payment as nat,
                extras: extras@,
                term: term_months as nat,
            }),
            start == (if first && term_months >= 1 { 1nat } else { 0nat }),
            principal <= MAX_PRINCIPAL,
            term_months > 0 ==> payment >= interest_on(principal as int, annual_rate as nat),
            k <= term_months,
            balance == balance_after(t, k as nat),
            rows(schedule@) == Seq::new(k as nat, |i: int| record(t, (i + 1) as nat)),
            total_interest == interest_total(rows(schedule@)),
            total_interest <= k * (MAX_PRINCIPAL * u32::MAX),
            k == 0 || stop_point(t, start) == stop_point(t, k as nat),
        decreases term_months - k,
    {
        let number: u32 = k + 1;
        proof {
            lemma_balance_bounds(t, k as nat);
            lemma_balance_bounds(t, number as nat);
            assert(balance * annual_rate <= MAX_PRINCIPAL * u32::MAX) by (nonlinear_arith)
                requires
                    balance <= MAX_PRINCIPAL,
                    annual_rate <= u32::MAX,
            ;
            assert(k * (MAX_PRINCIPAL * u32::MAX) + MAX_PRINCIPAL * u32::MAX <= u128::MAX)
                by (nonlinear_arith)
                requires
                    k < u32::MAX,
            ;
            assert(interest_on(principal as int, annual_rate as nat) <= principal * 4)
                by (nonlinear_arith)
                requires
                    annual_rate <= u32::MAX,
            ;
        }
        let interest = ((balance as u128 * annual_rate as u128) / (RATE_DENOM as u128)) as u64;
        let extra: u64 = match extras.get(&number) {
            Some(e) => *e,
            None => 0,
        };
        let due = payment as u128 + extra as u128;
        let principal_payment: u64 = if (balance as u128) < due {
            balance
        } else {
            (due - interest as u128) as u64
        };
        proof {
            assert(extra == extra_in(t, number as nat));
            assert(principal_payment == record(t, number as nat).principal);
            assert(principal_payment <= balance);
        }
        let ghost old_rows = rows(schedule@);
        let row = PaymentDetails {
            payment_number: number,
            payment_amount: principal_payment + interest,
            principal_payment,
            interest_payment: interest,
            remaining_balance: balance - principal_payment,
        };
        balance = balance - principal_payment;
        total_interest = total_interest + interest as u128;
        schedule.push(row);
        proof {
            assert(row@ == record(t, number as nat));
            assert(rows(schedule@) =~= old_rows.push(row@));
            assert(rows(schedule@).drop_last() =~= old_rows);
            assert(rows(schedule@) =~= Seq::new(number as nat, |i: int| record(t, (i + 1) as nat)));
            assert(interest <= MAX_PRINCIPAL * u32::MAX) by (nonlinear_arith)
                requires
                    interest <= principal * 4,
                    principal <= MAX_PRINCIPAL,
            ;
            assert(number * (MAX_PRINCIPAL * u32::MAX) == k * (MAX_PRINCIPAL * u32::MAX) + (
            MAX_PRINCIPAL * u32::MAX)) by (nonlinear_arith)
                requires
                    number == k + 1,
            ;
        }
        k = number;
    }
    proof {
        if k > 0 {
            assert(stop_point(t, k as nat) == k);
        }
        assert(k * (MAX_PRINCIPAL * u32::MAX) <= u32::MAX * (MAX_PRINCIPAL * u32::MAX))
            by (nonlinear_arith)
            requires
                k <= u32::MAX,
        ;
    }
    (schedule, total_interest)
}

/// Why a loan was refused.
#[derive(Clone, Copy, Debug, PartialEq, Eq)]
pub enum ValidationError {
    PrincipalNotPositive,
    RateOutOfRange,
    TermNotPositive,
}

/// The message that comes with each refusal.
pub open spec fn message_text(e: ValidationError) -> Seq<char> {
    match e {
        ValidationError::PrincipalNotPositive => "Principal must be greater than 0"@,
        ValidationError::RateOutOfRange => "Interest rate must be between 0 and 100"@,
        ValidationError::TermNotPositive => "Term must be greater than 0"@,
    }
}

impl ValidationError {
    /// The reason, for people.
    pub fn message(&self) -> (r: &'static str)
        ensures
            r@ == message_text(*self),
    {
        match self {
            ValidationError::PrincipalNotPositive => "Principal must be greater than 0",
            ValidationError::RateOutOfRange => "Interest rate must be between 0 and 100",
            ValidationError::TermNotPositive => "Term must be greater than 0",
        }
    }
}

/// A computed schedule with its totals, amounts in micro-units.
#[derive(Debug)]
pub struct AmortizationResult {
    /// The level (base) monthly payment, before any extra payment.
    pub monthly_payment: u64,
    pub total_interest: u128,
    pub total_paid: u128,
    pub schedule: Vec<PaymentDetails>,
}

/// The terms of a loan without extra payments.
pub open spec fn standard_terms(principal: nat, rate: nat, term: nat) -> LoanTerms {
    LoanTerms {
        principal,
        rate,
        payment: level_payment(principal, rate, term),
        extras: Map::empty(),
        term,
    }
}

/// The terms of a loan with extra payments.
pub open spec fn extra_terms(principal: nat, rate: nat, term: nat, extras: Map<u32, u64>) -> LoanTerms {
    LoanTerms { principal, rate, payment: level_payment(principal, rate, term), extras, term }
}

/// `r` is the schedule of `t` whose first row is made from payment `first`
/// on, with its totals: the interest summed over the rows, and the
/// principal plus that interest.
pub open spec fn describes(r: AmortizationResult, t: LoanTerms, first: nat) -> bool {
    &&& r.monthly_payment == t.payment
    &&& rows(r.schedule@) == schedule_model(t, first)
    &&& r.total_interest == interest_total(rows(r.schedule@))
    &&& r.total_paid == t.principal + r.total_interest
}

/// From any count of payments within the term, the schedule stops at or
/// after it and no later than the term.
pub proof fn lemma_stop_point_bounds(t: LoanTerms, k: nat)
    requires
        k <= t.term,
    ensures
        k <= stop_point(t, k) <= t.term,
    decreases t.term - k,
{
    if k < t.term && balance_after(t, k) > PAYOFF_EPSILON {
        lemma_stop_point_bounds(t, k + 1);
    }
}

/// At a zero rate no payment carries interest.
proof fn lemma_zero_rate_interest(t: LoanTerms, k: nat)
    requires
        t.rate == 0,
        k >= 1,
    ensures
        record(t, k).interest == 0,
{
    assert(balance_after(t, (k - 1) as nat) * 0 == 0);
}

/// The amortization schedule of a loan of `principal` micro-units at
/// `annual_rate` millionths of a percent a year over `term_months` months.
pub fn calculate_amortization(principal: u64, annual_rate: u32, term_months: u32) -> (res: Result<
    AmortizationResult,
    ValidationError,
>)
    requires
        principal <= MAX_PRINCIPAL,
    ensures
        principal == 0 <==> res == Err::<AmortizationResult, ValidationError>(
            ValidationError::PrincipalNotPositive,
        ),
        principal > 0 && annual_rate > MAX_ANNUAL_RATE <==> res == Err::<
            AmortizationResult,
            ValidationError,
        >(ValidationError::RateOutOfRange),
        principal > 0 && annual_rate <= MAX_ANNUAL_RATE && term_months == 0 <==> res == Err::<
            AmortizationResult,
            ValidationError,
        >(ValidationError::TermNotPositive),
        res is Ok <==> principal > 0 && annual_rate <= MAX_ANNUAL_RATE && term_months > 0,
        res matches Ok(r) ==> {
            &&& describes(r, standard_terms(principal as nat, annual_rate as nat, term_months as nat), 1)
            &&& 1 <= r.schedule.len() <= term_months
            &&& annual_rate == 0 ==> r.monthly_payment == ceil_div(principal as nat, term_months as nat)
            &&& annual_rate == 0 ==> forall|i: int| 0 <= i < r.schedule.len() ==> #[trigger] r.schedule[i].interest_payment == 0
        },
{
    if principal == 0 {
        return Err(ValidationError::PrincipalNotPositive);
    }
    if annual_rate > MAX_ANNUAL_RATE {
        return Err(ValidationError::RateOutOfRange);
    }
    if term_months == 0 {
        return Err(ValidationError::TermNotPositive);
    }
    let monthly_payment = base_monthly_payment(principal, annual_rate, term_months);
    let no_extras: HashMap<u32, u64> = HashMap::new();
    let (schedule, total_interest) = run_schedule(
        principal,
        annual_rate,
        term_months,
        monthly_payment,
        &no_extras,
        true,
    );
    let ghost t = standard_terms(principal as nat, annual_rate as nat, term_months as nat);
    proof {
        assert(no_extras@ == Map::<u32, u64>::empty());
        lemma_stop_point_bounds(t, 1);
        assert(rows(schedule@).len() == schedule.len());
        if annual_rate == 0 {
            assert forall|i: int| 0 <= i < schedule.len() implies #[trigger] schedule[i].interest_payment == 0 by {
                lemma_zero_rate_interest(t, (i + 1) as nat);
                assert(rows(schedule@)[i] == schedule[i]@);
            }
        }
    }
    Ok(AmortizationResult {
        monthly_payment,
        total_interest,
        total_paid: principal as u128 + total_interest,
        schedule,
    })
}

/// The schedule of the same loan with `extra_payments[k]` added to payment
/// `k`. Only the principal is checked; the monthly payment reported is the
/// level payment without extras.
pub fn calculate_with_extra_payments(
    principal: u64,
    annual_rate: u32,
    term_months: u32,
    extra_payments: HashMap<u32, u64>,
) -> (res: Result<AmortizationResult, ValidationError>)
    requires
        principal <= MAX_PRINCIPAL,
    ensures
        principal == 0 <==> res == Err::<AmortizationResult, ValidationError>(
            ValidationError::PrincipalNotPositive,
        ),
        principal > 0 <==> res is Ok,
        res matches Ok(r) ==> {
            &&& describes(
                r,
                extra_terms(principal as nat, annual_rate as nat, term_months as nat, extra_payments@),
                0,
            )
            &&& r.schedule.len() <= term_months
        },
{
    if principal == 0 {
        return Err(ValidationError::PrincipalNotPositive);
    }
    let monthly_payment = base_monthly_payment(principal, annual_rate, term_months);
    let (schedule, total_interest) = run_schedule(
        principal,
        annual_rate,
        term_months,
        monthly_payment,
        &extra_payments,
        false,
    );
    let ghost t = extra_terms(principal as nat, annual_rate as nat, term_months as nat, extra_payments@);
    proof {
        lemma_stop_point_bounds(t, 0);
        assert(rows(schedule@).len() == schedule.len());
    }
    Ok(AmortizationResult {
        monthly_payment,
        total_interest,
        total_paid: principal as u128 + total_interest,
        schedule,
    })
}

/// The level payment covers at least the first month's interest.
pub proof fn lemma_payment_covers_interest(principal: nat, rate: nat, n: nat)
    requires
        n >= 1,
    ensures
        level_payment(principal, rate, n) >= interest_on(principal as int, rate),
{
    let d = RATE_DENOM as int;
    if rate == 0 {
        assert(principal * 0 == 0);
    } else {
        let x = (principal * rate) as int;
        assert((x + d - 1) / d >= x / d) by (nonlinear_arith)
            requires
                d > 0,
                x >= 0,
        ;
    }
}

/// The principal parts of the first `n` payments add up to the principal
/// less the balance after them.
proof fn lemma_principal_prefix(t: LoanTerms, n: nat)
    ensures
        principal_total(Seq::new(n, |i: int| record(t, (i + 1) as nat))) == t.principal
            - balance_after(t, n),
    decreases n,
{
    let s = Seq::new(n, |i: int| record(t, (i + 1) as nat));
    if n > 0 {
        lemma_principal_prefix(t, (n - 1) as nat);
        assert(s.drop_last() =~= Seq::new((n - 1) as nat, |i: int| record(t, (i + 1) as nat)));
    }
}

/// Balances never grow: after more payments the balance is no larger.
proof fn lemma_balance_monotone(t: LoanTerms, i: nat, j: nat)
    requires
        i <= j,
        t.payment >= interest_on(t.principal as int, t.rate),
    ensures
        balance_after(t, j) <= balance_after(t, i),
    decreases j - i,
{
    if i < j {
        lemma_balance_bounds(t, j);
        lemma_balance_monotone(t, i, (j - 1) as nat);
    }
}

/// At a zero rate with no extras, the balance after `k` payments of `c` is
/// what is left of the principal after `k * c`, or zero.
proof fn lemma_zero_rate_balance(t: LoanTerms, k: nat)
    requires
        t.rate == 0,
        t.extras == Map::<u32, u64>::empty(),
        t.payment >= 1,
    ensures
        balance_after(t, k) == if t.principal - k * t.payment > 0 {
            t.principal - k * t.payment
        } else {
            0
        },
    decreases k,
{
    if k > 0 {
        lemma_zero_rate_balance(t, (k - 1) as nat);
        let b = balance_after(t, (k - 1) as nat);
        assert(b * 0 == 0);
        assert(interest_on(b, t.rate) == 0);
        assert(extra_in(t, k) == 0);
        let km = (k - 1) as nat;
        assert(k * t.payment == km * t.payment + t.payment) by (nonlinear_arith)
            requires
                km == k - 1,
        ;
        let q = t.principal - km * t.payment;
        assert(b == if q > 0 { q } else { 0 });
        assert(balance_after(t, k) == b - principal_part(
            b,
            interest_on(b, t.rate),
            (t.payment + extra_in(t, k)) as int,
        ));
        assert(balance_after(t, k) == b - principal_part(b, 0, t.payment as int));
        let q2 = t.principal - k * t.payment;
        assert(q2 == q - t.payment);
    } else {
        assert(k * t.payment == 0) by (nonlinear_arith)
            requires
                k == 0,
        ;
    }
}

/// Over the schedule of `calculate_amortization`, the principal parts add
/// up to the principal less the balance left after the last payment, and
/// that balance is at most `PAYOFF_EPSILON` unless the term ran out first.
pub proof fn law_principal_repaid(principal: nat, annual_rate: nat, term_months: nat)
    requires
        0 < principal <= MAX_PRINCIPAL,
        annual_rate <= MAX_ANNUAL_RATE,
        1 <= term_months <= u32::MAX,
    ensures
        ({
            let s = schedule_model(standard_terms(principal, annual_rate, term_months), 1);
            &&& principal_total(s) + s.last().remaining == principal
            &&& s.len() < term_months ==> s.last().remaining <= PAYOFF_EPSILON
        }),
{
    let t = standard_terms(principal, annual_rate, term_months);
    let n = stop_point(t, 1);
    lemma_stop_point_bounds(t, 1);
    lemma_stop_point_ends(t, 1);
    lemma_principal_prefix(t, n);
    assert(schedule_model(t, 1) =~= Seq::new(n, |i: int| record(t, (i + 1) as nat)));
}

/// Where the schedule stops, the term is over or the balance is repaid.
proof fn lemma_stop_point_ends(t: LoanTerms, k: nat)
    requires
        k <= t.term,
    ensures
        stop_point(t, k) >= t.term || balance_after(t, stop_point(t, k)) <= PAYOFF_EPSILON,
    decreases t.term - k,
{
    if k < t.term && balance_after(t, k) > PAYOFF_EPSILON {
        lemma_stop_point_ends(t, k + 1);
    }
}

/// Along the schedule of `calculate_amortization` the remaining balance
/// never grows. The last one is at most `PAYOFF_EPSILON` when the schedule
/// ends before the term, and at a zero rate it is always: then it is zero
/// if the schedule runs the whole term.
pub proof fn law_balance_non_increasing(principal: nat, annual_rate: nat, term_months: nat)
    requires
        0 < principal <= MAX_PRINCIPAL,
        annual_rate <= MAX_ANNUAL_RATE,
        1 <= term_months <= u32::MAX,
    ensures
        ({
            let s = schedule_model(standard_terms(principal, annual_rate, term_months), 1);
            &&& forall|i: int, j: int|
                0 <= i <= j < s.len() ==> #[trigger] s[j].remaining <= #[trigger] s[i].remaining
            &&& s.len() < term_months ==> s.last().remaining <= PAYOFF_EPSILON
            &&& annual_rate == 0 ==> s.last().remaining <= PAYOFF_EPSILON
            &&& annual_rate == 0 && s.len() == term_months ==> s.last().remaining == 0
        }),
{
    let t = standard_terms(principal, annual_rate, term_months);
    let s = schedule_model(t, 1);
    lemma_payment_covers_interest(principal, annual_rate, term_months);
    lemma_stop_point_bounds(t, 1);
    lemma_stop_point_ends(t, 1);
    assert forall|i: int, j: int| 0 <= i <= j < s.len() implies #[trigger] s[j].remaining
        <= #[trigger] s[i].remaining by {
        lemma_balance_monotone(t, (i + 1) as nat, (j + 1) as nat);
    }
    if annual_rate == 0 {
        let c = t.payment as int;
        let n = term_months as int;
        let p = principal as int;
        assert(c * n >= p) by (nonlinear_arith)
            requires
                c == (p + n - 1) / n,
                n >= 1,
                p >= 0,
        ;
        assert(c >= 1) by (nonlinear_arith)
            requires
                c == (p + n - 1) / n,
                n >= 1,
                p >= 1,
        ;
        assert(c == ceil_div(principal, term_months));
        lemma_zero_rate_balance(t, term_months);
        assert(p - n * c <= 0) by (nonlinear_arith)
            requires
                c * n >= p,
        ;
    }
}

/// Over the schedule of `calculate_with_extra_payments`, the principal
/// parts add up to the principal less the balance left at the end, which is
/// at most `PAYOFF_EPSILON` unless the term ran out first; and the remaining
/// balance never grows from one payment to the next.
pub proof fn law_extra_payments_repay(
    principal: nat,
    annual_rate: nat,
    term_months: nat,
    extras: Map<u32, u64>,
)
    requires
        0 < principal <= MAX_PRINCIPAL,
        annual_rate <= u32::MAX,
        term_months <= u32::MAX,
    ensures
        ({
            let t = extra_terms(principal, annual_rate, term_months, extras);
            let s = schedule_model(t, 0);
            &&& principal_total(s) + balance_after(t, s.len()) == principal
            &&& s.len() < term_months ==> balance_after(t, s.len()) <= PAYOFF_EPSILON
            &&& forall|i: int, j: int|
                0 <= i <= j < s.len() ==> #[trigger] s[j].remaining <= #[trigger] s[i].remaining
        }),
{
    let t = extra_terms(principal, annual_rate, term_months, extras);
    let s = schedule_model(t, 0);
    let n = stop_point(t, 0);
    lemma_stop_point_bounds(t, 0);
    lemma_stop_point_ends(t, 0);
    lemma_principal_prefix(t, n);
    assert(s =~= Seq::new(n, |i: int| record(t, (i + 1) as nat)));
    if term_months >= 1 {
        lemma_payment_covers_interest(principal, annual_rate, term_months);
        assert forall|i: int, j: int| 0 <= i <= j < s.len() implies #[trigger] s[j].remaining
            <= #[trigger] s[i].remaining by {
            lemma_balance_monotone(t, (i + 1) as nat, (j + 1) as nat);
        }
    }
}

} // verus!
