use amortization_calculator::{calculate_amortization, export_to_csv, PaymentDetails};

const HEADER: &str = "Payment Number,Payment Amount,Principal,Interest,Remaining Balance\n";

#[test]
fn empty_schedule_exports_header_only() {
    assert_eq!(export_to_csv(&[]), HEADER);
}

#[test]
fn rows_have_two_decimals() {
    let row = PaymentDetails {
        payment_number: 1,
        payment_amount: 599_550_526,
        principal_payment: 99_550_526,
        interest_payment: 500_000_000,
        remaining_balance: 99_900_449_474,
    };
    let text = export_to_csv(&[row]);
    assert_eq!(text, format!("{}1,599.55,99.55,500.00,99900.45\n", HEADER));
}

#[test]
fn amounts_round_to_nearest_cent() {
    let row = PaymentDetails {
        payment_number: 12,
        payment_amount: 5_000,
        principal_payment: 4_999,
        interest_payment: 0,
        remaining_balance: 1_234_995_000,
    };
    let text = export_to_csv(&[row]);
    assert_eq!(text, format!("{}12,0.01,0.00,0.00,1235.00\n", HEADER));
}

#[test]
fn export_has_one_line_per_payment() {
    let r = calculate_amortization(1200 * 1_000_000, 0, 12).unwrap();
    let text = export_to_csv(&r.schedule);
    let lines: Vec<&str> = text.lines().collect();
    assert_eq!(lines.len(), 13);
    assert_eq!(lines[1], "1,100.00,100.00,0.00,1100.00");
    assert_eq!(lines[12], "12,100.00,100.00,0.00,0.00");
}
