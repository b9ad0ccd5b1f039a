//! End-to-end tests: whole CSV inputs in, rendered reports out.

use payment_engine::clients::ClientAccounts;
use payment_engine::records::{read_transactions, Error};
use payment_engine::transactions::{MoneyOperationsRegister, TransactionError, TransactionId};

/// Runs a whole input and renders the report the way the front end prints
/// it: a header, then one CSV row per account.
fn try_input(input: &str) -> String {
    let mut accounts = ClientAccounts::new();
    let mut register = MoneyOperationsRegister::new();
    read_transactions(input.as_bytes(), &mut accounts, &mut register);
    let rows = accounts.snapshot();
    if rows.is_empty() {
        return String::new();
    }
    let mut out = String::from("client,available,held,total,locked\n");
    for row in rows {
        out.push_str(&format!(
            "{},{},{},{},{}\n",
            row.client.0,
            amount_string(row.available),
            amount_string(row.held),
            amount_string(row.total),
            row.locked
        ));
    }
    out
}

fn amount_string(units: i128) -> String {
    String::from_utf8(payment_engine::amounts::render_amount(units)).unwrap()
}

#[test]
fn wrong_format() {
    let sample_operation = "type, \t\tclient,\ttx,\tamount\n        Deposit,\t1.0,\t1,\t2.0";
    let output = try_input(sample_operation);
    assert_eq!("", output);
}

#[test]
fn precision() {
    let sample_operation = "type, \t\tclient,\ttx,\tamount\n        deposit,\t1,\t1,\t2.234235";
    let output = try_input(sample_operation);
    assert_eq!("client,available,held,total,locked\n1,2.2342,0.0,2.2342,false\n", output);
}

#[test]
fn missing_reference() {
    let sample_operation =
        "type, \t\tclient,\ttx,\tamount\n        deposit,\t1,\t1,\t2.0\n        withdrawal, 2, 2, 1.0";
    let output = try_input(sample_operation);
    assert_eq!("client,available,held,total,locked\n1,2.0,0.0,2.0,false\n", output);
}

#[test]
fn not_enough_funds() {
    let sample_operation =
        "type, \t\tclient,\ttx,\tamount\n        deposit,\t1,\t1,\t2.0\n        withdrawal, 2, 2, 5.0";
    let output = try_input(sample_operation);
    assert_eq!("client,available,held,total,locked\n1,2.0,0.0,2.0,false\n", output);
}

#[test]
fn wrong_state() {
    let sample_operation =
        "type, \t\tclient,\ttx,\tamount\n        deposit,\t1,\t1,\t2.0\n        resolve, 1, 1,";
    let output = try_input(sample_operation);
    assert_eq!("client,available,held,total,locked\n1,2.0,0.0,2.0,false\n", output);
}

#[test]
fn reported_errors_come_in_input_order() {
    let input = "type,client,tx,amount\n\
        deposit,1,1,2.0\n\
        bogus,1,2,1.0\n\
        withdrawal,1,1,1.0\n\
        deposit,1,3";
    let mut accounts = ClientAccounts::new();
    let mut register = MoneyOperationsRegister::new();
    let errors = read_transactions(input.as_bytes(), &mut accounts, &mut register);
    assert_eq!(
        errors,
        vec![
            Error::MalformedRecord,
            Error::TransactionError(TransactionError::AlreadyExists(TransactionId(1))),
            Error::WrongArgument,
        ]
    );
}
