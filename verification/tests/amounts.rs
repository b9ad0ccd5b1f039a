//! Tests for fixed-point amount parsing and rendering.

use payment_engine::amounts::{parse_amount, render_amount};
use payment_engine::clients::{ClientAccounts, ClientId};
use payment_engine::transactions::{
    MoneyOperation, MoneyOperationsRegister, OperationKind, TransactionId, TransactionOrder,
};

#[test]
fn deposit_precision_units() {
    // an input amount of 2.234235 is worth exactly 2.2342 once deposited
    let units = parse_amount(b"2.234235").unwrap();
    assert_eq!(units, 22_342);
    let mut accounts = ClientAccounts::new();
    let mut register = MoneyOperationsRegister::new();
    let order = TransactionOrder::MoneyOperation(MoneyOperation {
        client_id: ClientId(1),
        transaction_id: TransactionId(1),
        disputed: false,
        operation_kind: OperationKind::Deposit(units),
    });
    assert_eq!(order.process(&mut accounts, &mut register), Ok(()));
    let rows = accounts.snapshot();
    assert_eq!(rows.len(), 1);
    assert_eq!(rows[0].available, 22_342);
    assert_eq!(render_amount(rows[0].available), b"2.2342");
    assert_eq!(render_amount(rows[0].held), b"0.0");
}

#[test]
fn parse_whole_numbers() {
    assert_eq!(parse_amount(b"2"), Some(20_000));
    assert_eq!(parse_amount(b"2.0"), Some(20_000));
    assert_eq!(parse_amount(b"2."), Some(20_000));
    assert_eq!(parse_amount(b"0"), Some(0));
    assert_eq!(parse_amount(b"10"), Some(100_000));
}

#[test]
fn parse_fractions() {
    assert_eq!(parse_amount(b".5"), Some(5_000));
    assert_eq!(parse_amount(b"0.0001"), Some(1));
    assert_eq!(parse_amount(b"1.5"), Some(15_000));
    assert_eq!(parse_amount(b"1.2345"), Some(12_345));
}

#[test]
fn parse_rounds_half_away_from_zero() {
    assert_eq!(parse_amount(b"2.23425"), Some(22_343));
    assert_eq!(parse_amount(b"2.234249999"), Some(22_342));
    assert_eq!(parse_amount(b"0.00005"), Some(1));
    assert_eq!(parse_amount(b"0.000049"), Some(0));
}

#[test]
fn parse_rejects_malformed_fields() {
    assert_eq!(parse_amount(b""), None);
    assert_eq!(parse_amount(b"."), None);
    assert_eq!(parse_amount(b"1..2"), None);
    assert_eq!(parse_amount(b"1.2.3"), None);
    assert_eq!(parse_amount(b"-1"), None);
    assert_eq!(parse_amount(b"1,5"), None);
    assert_eq!(parse_amount(b"abc"), None);
    assert_eq!(parse_amount(b"1e5"), None);
    assert_eq!(parse_amount(b" 1"), None);
}

#[test]
fn parse_bounds_the_integer_digits() {
    assert_eq!(parse_amount(b"999999999999999"), Some(9_999_999_999_999_990_000));
    assert_eq!(parse_amount(b"1000000000000000"), None);
}

#[test]
fn render_trims_trailing_zeros() {
    assert_eq!(render_amount(22_342), b"2.2342");
    assert_eq!(render_amount(20_000), b"2.0");
    assert_eq!(render_amount(0), b"0.0");
    assert_eq!(render_amount(12_345), b"1.2345");
    assert_eq!(render_amount(123_456_789), b"12345.6789");
    assert_eq!(render_amount(10), b"0.001");
    assert_eq!(render_amount(5), b"0.0005");
    assert_eq!(render_amount(100), b"0.01");
}

#[test]
fn render_negative_amounts() {
    assert_eq!(render_amount(-10_000), b"-1.0");
    assert_eq!(render_amount(-15_000), b"-1.5");
    assert_eq!(render_amount(-5), b"-0.0005");
}
