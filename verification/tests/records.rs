//! Tests for reading record fields.

use payment_engine::clients::ClientId;
use payment_engine::records::{parse_id, parse_kind, parse_record, split_fields, Error, TransactionKind};
use payment_engine::transactions::{
    ClientClaimKind, OperationKind, TransactionId, TransactionOrder,
};

#[test]
fn fields_are_split_and_trimmed() {
    let fields = split_fields(b" deposit ,\t1,2 , 3.5");
    assert_eq!(
        fields,
        vec![
            b"deposit".to_vec(),
            b"1".to_vec(),
            b"2".to_vec(),
            b"3.5".to_vec()
        ]
    );
    assert_eq!(split_fields(b""), vec![Vec::<u8>::new()]);
    assert_eq!(
        split_fields(b"a,,b"),
        vec![b"a".to_vec(), Vec::new(), b"b".to_vec()]
    );
}

#[test]
fn parses_whole_lines() {
    match parse_record(b"deposit,\t1,\t2,\t2.234235") {
        Ok(TransactionOrder::MoneyOperation(op)) => {
            assert_eq!(op.client_id, ClientId(1));
            assert_eq!(op.transaction_id, TransactionId(2));
            assert_eq!(op.operation_kind, OperationKind::Deposit(22_342));
        }
        other => panic!("unexpected order: {:?}", other),
    }
    match parse_record(b"resolve, 1, 1,") {
        Ok(TransactionOrder::ClientClaim(claim)) => {
            assert_eq!(claim.client_id, ClientId(1));
            assert_eq!(claim.transaction_id, TransactionId(1));
            assert_eq!(claim.claim_kind, ClientClaimKind::Resolve);
        }
        other => panic!("unexpected order: {:?}", other),
    }
}

#[test]
fn malformed_lines_are_rejected() {
    // a fractional client id, as in a record written for another layout
    assert_eq!(
        parse_record(b"Deposit,\t1.0,\t1,\t2.0"),
        Err(Error::MalformedRecord)
    );
    assert_eq!(parse_record(b"deposit,1"), Err(Error::MalformedRecord));
    assert_eq!(parse_record(b"transfer,1,1,2.0"), Err(Error::MalformedRecord));
    assert_eq!(parse_record(b"deposit,1,1,2.0.0"), Err(Error::MalformedRecord));
    // a money operation without an amount is a wrong argument
    assert_eq!(parse_record(b"deposit,1,1"), Err(Error::WrongArgument));
    assert_eq!(parse_record(b"withdrawal,1,1,"), Err(Error::WrongArgument));
}

#[test]
fn kinds_are_case_insensitive() {
    assert_eq!(parse_kind(b"deposit"), Some(TransactionKind::Deposit));
    assert_eq!(parse_kind(b"Deposit"), Some(TransactionKind::Deposit));
    assert_eq!(parse_kind(b"DEPOSIT"), Some(TransactionKind::Deposit));
    assert_eq!(parse_kind(b"withdrawal"), Some(TransactionKind::Withdrawal));
    assert_eq!(parse_kind(b"Resolve"), Some(TransactionKind::Resolve));
    assert_eq!(parse_kind(b"dispute"), Some(TransactionKind::Dispute));
    assert_eq!(parse_kind(b"chargeBack"), Some(TransactionKind::Chargeback));
}

#[test]
fn unknown_kinds_are_rejected() {
    assert_eq!(parse_kind(b""), None);
    assert_eq!(parse_kind(b"deposits"), None);
    assert_eq!(parse_kind(b"deposi"), None);
    assert_eq!(parse_kind(b"transfer"), None);
}

#[test]
fn ids_parse_as_plain_integers() {
    assert_eq!(parse_id(b"0"), Some(0));
    assert_eq!(parse_id(b"1"), Some(1));
    assert_eq!(parse_id(b"4294967295"), Some(u32::MAX));
}

#[test]
fn fractional_ids_are_rejected() {
    // a fractional client id is no client id; such a record is dropped at
    // the boundary and never reaches the processor
    assert_eq!(parse_id(b"1.0"), None);
    assert_eq!(parse_id(b""), None);
    assert_eq!(parse_id(b"-1"), None);
    assert_eq!(parse_id(b"4294967296"), None);
    assert_eq!(parse_id(b"00000000001"), None);
}

#[test]
fn money_operations_need_an_amount() {
    assert_eq!(
        TransactionOrder::from_parts(TransactionKind::Deposit, ClientId(1), TransactionId(2), None),
        Err(Error::WrongArgument)
    );
    assert_eq!(
        TransactionOrder::from_parts(
            TransactionKind::Withdrawal,
            ClientId(1),
            TransactionId(2),
            None
        ),
        Err(Error::WrongArgument)
    );
    match TransactionOrder::from_parts(
        TransactionKind::Deposit,
        ClientId(1),
        TransactionId(2),
        Some(20_000),
    ) {
        Ok(TransactionOrder::MoneyOperation(op)) => {
            assert_eq!(op.client_id, ClientId(1));
            assert_eq!(op.transaction_id, TransactionId(2));
            assert_eq!(op.operation_kind, OperationKind::Deposit(20_000));
            assert!(!op.disputed);
        }
        other => panic!("unexpected order: {:?}", other),
    }
}

#[test]
fn claims_ignore_the_amount() {
    match TransactionOrder::from_parts(
        TransactionKind::Chargeback,
        ClientId(7),
        TransactionId(9),
        Some(1),
    ) {
        Ok(TransactionOrder::ClientClaim(claim)) => {
            assert_eq!(claim.client_id, ClientId(7));
            assert_eq!(claim.transaction_id, TransactionId(9));
            assert_eq!(claim.claim_kind, ClientClaimKind::Chargeback);
        }
        other => panic!("unexpected order: {:?}", other),
    }
    assert!(matches!(
        TransactionOrder::from_parts(TransactionKind::Resolve, ClientId(1), TransactionId(1), None),
        Ok(TransactionOrder::ClientClaim(_))
    ));
    assert!(matches!(
        TransactionOrder::from_parts(TransactionKind::Dispute, ClientId(1), TransactionId(1), None),
        Ok(TransactionOrder::ClientClaim(_))
    ));
}
