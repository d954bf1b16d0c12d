use vstd::prelude::*;
use crate::amortization::PaymentDetails;

verus! {

/// The header line of the text export, newline included.
pub open spec fn header_text() -> Seq<char> {
    "Payment Number,Payment Amount,Principal,Interest,Remaining Balance\n"@
}

/// The character of a decimal digit.
pub open spec fn digit_char(d: nat) -> char {
    if d == 0 {
        '0'
    } else if d == 1 {
        '1'
    } else if d == 2 {
        '2'
    } else if d == 3 {
        '3'
    } else if d == 4 {
        '4'
    } else if d == 5 {
        '5'
    } else if d == 6 {
        '6'
    } else if d == 7 {
        '7'
    } else if d == 8 {
        '8'
    } else {
        '9'
    }
}

/// `n` in decimal, without leading zeros.
pub open spec fn decimal(n: nat) -> Seq<char>
    decreases n,
{
    if n < 10 {
        seq![digit_char(n)]
    } else {
        decimal(n / 10) + seq![digit_char(n % 10)]
    }
}

/// An amount of micro-units rounded to the nearest cent, halves up.
pub open spec fn cents(micros: nat) -> nat {
    (micros + 5000) / 10000
}

/// An amount of micro-units as currency with exactly two decimals.
pub open spec fn money_text(micros: nat) -> Seq<char> {
    let c = cents(micros);
    decimal(c / 100) + seq!['.', digit_char((c % 100) / 10), digit_char(c % 10)]
}

/// One line of the export: the payment number, then the amount, principal,
/// interest and remaining balance with two decimals, separated by commas.
pub open spec fn row_text(r: PaymentDetails) -> Seq<char> {
    decimal(r.payment_number as nat) + seq![','] + money_text(r.payment_amount as nat) + seq![
        ',',
    ] + money_text(r.principal_payment as nat) + seq![','] + money_text(
        r.interest_payment as nat,
    ) + seq![','] + money_text(r.remaining_balance as nat) + seq!['\n']
}

/// The lines of a sequence of payments, in order.
pub open spec fn rows_text(s: Seq<PaymentDetails>) -> Seq<char>
    decreases s.len(),
{
    if s.len() == 0 {
        Seq::empty()
    } else {
        rows_text(s.drop_last()) + row_text(s.last())
    }
}

/// The whole export of a schedule: the header, then one line per payment.
pub open spec fn export_text(s: Seq<PaymentDetails>) -> Seq<char> {
    header_text() + rows_text(s)
}

fn digit_str(d: u64) -> (r: &'static str)
    requires
        d < 10,
    ensures
        r@ == seq![digit_char(d as nat)],
{
    proof {
        reveal_strlit("0");
        reveal_strlit("1");
        reveal_strlit("2");
        reveal_strlit("3");
        reveal_strlit("4");
        reveal_strlit("5");
        reveal_strlit("6");
        reveal_strlit("7");
        reveal_strlit("8");
        reveal_strlit("9");
    }
    if d == 0 {
        "0"
    } else if d == 1 {
        "1"
    } else if d == 2 {
        "2"
    } else if d == 3 {
        "3"
    } else if d == 4 {
        "4"
    } else if d == 5 {
        "5"
    } else if d == 6 {
        "6"
    } else if d == 7 {
        "7"
    } else if d == 8 {
        "8"
    } else {
        "9"
    }
}

fn append_str(out: &mut String, s: &str)
    ensures
        final(out)@ == old(out)@ + s@,
{
    out.append(s);
}

fn append_decimal(out: &mut String, n: u64)
    ensures
        final(out)@ == old(out)@ + decimal(n as nat),
    decreases n,
{
    if n >= 10 {
        append_decimal(out, n / 10);
        append_str(out, digit_str(n % 10));
        assert(out@ =~= old(out)@ + decimal(n as nat));
    } else {
        append_str(out, digit_str(n));
    }
}

fn append_money(out: &mut String, micros: u64)
    ensures
        final(out)@ == old(out)@ + money_text(micros as nat),
{
    let c = (micros as u128 + 5000) / 10000;
    let whole = (c / 100) as u64;
    let frac = (c % 100) as u64;
    append_decimal(out, whole);
    append_str(out, ".");
    append_str(out, digit_str(frac / 10));
    append_str(out, digit_str(frac % 10));
    proof {
        reveal_strlit(".");
        assert(out@ =~= old(out)@ + money_text(micros as nat));
    }
}

fn append_row(out: &mut String, r: &PaymentDetails)
    ensures
        final(out)@ == old(out)@ + row_text(*r),
{
    proof {
        reveal_strlit(",");
        reveal_strlit("\n");
    }
    append_decimal(out, r.payment_number as u64);
    append_str(out, ",");
    append_money(out, r.payment_amount);
    append_str(out, ",");
    append_money(out, r.principal_payment);
    append_str(out, ",");
    append_money(out, r.interest_payment);
    append_str(out, ",");
    append_money(out, r.remaining_balance);
    append_str(out, "\n");
    assert(out@ =~= old(out)@ + row_text(*r));
}

/// The schedule as comma-separated text: a header line, then one line per
/// payment with its amounts to two decimals. An empty schedule gives the
/// header alone.
pub fn export_to_csv(schedule: &[PaymentDetails]) -> (text: String)
    ensures
        text@ == export_text(schedule@),
{
    let mut text = String::new();
    append_str(&mut text, "Payment Number,Payment Amount,Principal,Interest,Remaining Balance\n");
    proof {
        reveal_strlit("Payment Number,Payment Amount,Principal,Interest,Remaining Balance\n");
    }
    let mut i: usize = 0;
    while i < schedule.len()
        invariant
            i <= schedule@.len(),
            text@ == header_text() + rows_text(schedule@.subrange(0, i as int)),
        decreases schedule@.len() - i,
    {
        append_row(&mut text, &schedule[i]);
        proof {
            let s = schedule@.subrange(0, i as int + 1);
            assert(s.drop_last() =~= schedule@.subrange(0, i as int));
        }
        i = i + 1;
    }
    proof {
        assert(schedule@.subrange(0, i as int) =~= schedule@);
    }
    text
}

} // verus!
