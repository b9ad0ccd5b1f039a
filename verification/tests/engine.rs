//! Scenario tests for the transaction processor.

use payment_engine::clients::{AccountSummary, ClientAccounts, ClientId};
use payment_engine::transactions::{
    ClientClaim, ClientClaimKind, MoneyOperation, MoneyOperationsRegister, OperationKind,
    TransactionError, TransactionId, TransactionOrder,
};

fn deposit(client: u32, tx: u32, units: u64) -> TransactionOrder {
    TransactionOrder::MoneyOperation(MoneyOperation {
        client_id: ClientId(client),
        transaction_id: TransactionId(tx),
        disputed: false,
        operation_kind: OperationKind::Deposit(units),
    })
}

fn withdrawal(client: u32, tx: u32, units: u64) -> TransactionOrder {
    TransactionOrder::MoneyOperation(MoneyOperation {
        client_id: ClientId(client),
        transaction_id: TransactionId(tx),
        disputed: false,
        operation_kind: OperationKind::Withdrawal(units),
    })
}

fn claim(kind: ClientClaimKind, client: u32, tx: u32) -> TransactionOrder {
    TransactionOrder::ClientClaim(ClientClaim {
        client_id: ClientId(client),
        transaction_id: TransactionId(tx),
        claim_kind: kind,
    })
}

fn run(orders: Vec<TransactionOrder>) -> (ClientAccounts, Vec<Result<(), TransactionError>>) {
    let mut accounts = ClientAccounts::new();
    let mut register = MoneyOperationsRegister::new();
    let mut results = Vec::new();
    for order in orders {
        results.push(order.process(&mut accounts, &mut register));
    }
    (accounts, results)
}

fn row(accounts: &ClientAccounts, client: u32) -> AccountSummary {
    accounts
        .snapshot()
        .into_iter()
        .find(|row| row.client == ClientId(client))
        .expect("no row for this client")
}

#[test]
fn deposit_creates_account() {
    let (accounts, results) = run(vec![deposit(1, 1, 20_000)]);
    assert_eq!(results, vec![Ok(())]);
    let r = row(&accounts, 1);
    assert_eq!(r.available, 20_000);
    assert_eq!(r.held, 0);
    assert_eq!(r.total, 20_000);
    assert!(!r.locked);
}

#[test]
fn withdrawal_unknown_client() {
    // a withdrawal referencing a client that was never created is rejected
    // and reported for nobody
    let (accounts, results) = run(vec![deposit(1, 1, 20_000), withdrawal(2, 2, 10_000)]);
    assert_eq!(
        results,
        vec![Ok(()), Err(TransactionError::MissingClient(ClientId(2)))]
    );
    let rows = accounts.snapshot();
    assert_eq!(rows.len(), 1);
    let r = row(&accounts, 1);
    assert_eq!((r.available, r.held, r.total, r.locked), (20_000, 0, 20_000, false));
}

#[test]
fn withdrawal_insufficient_funds() {
    let (accounts, results) = run(vec![deposit(1, 1, 20_000), withdrawal(1, 2, 50_000)]);
    assert_eq!(results, vec![Ok(()), Err(TransactionError::NotEnoughFunds)]);
    let r = row(&accounts, 1);
    assert_eq!((r.available, r.held), (20_000, 0));
}

#[test]
fn resolve_without_dispute() {
    // a resolve without a prior dispute fails and changes nothing
    let (accounts, results) = run(vec![
        deposit(1, 1, 20_000),
        claim(ClientClaimKind::Resolve, 1, 1),
    ]);
    assert_eq!(
        results,
        vec![Ok(()), Err(TransactionError::WrongTransactionState)]
    );
    let r = row(&accounts, 1);
    assert_eq!((r.available, r.held, r.locked), (20_000, 0, false));
}

#[test]
fn duplicate_transaction_rejected() {
    // the second use of a transaction id fails, whatever its direction, and
    // the state stays what the first accepted use left
    let (accounts, results) = run(vec![
        deposit(1, 1, 20_000),
        deposit(1, 1, 30_000),
        withdrawal(1, 1, 10_000),
    ]);
    assert_eq!(
        results,
        vec![
            Ok(()),
            Err(TransactionError::AlreadyExists(TransactionId(1))),
            Err(TransactionError::AlreadyExists(TransactionId(1))),
        ]
    );
    let r = row(&accounts, 1);
    assert_eq!((r.available, r.held), (20_000, 0));
}

#[test]
fn balance_conservation() {
    // deposits minus accepted withdrawals; the rejected withdrawal counts
    // for nothing
    let (accounts, results) = run(vec![
        deposit(1, 1, 10_000),
        deposit(1, 2, 5_000),
        withdrawal(1, 3, 3_000),
        withdrawal(1, 4, 1_000_000),
    ]);
    assert_eq!(
        results,
        vec![Ok(()), Ok(()), Ok(()), Err(TransactionError::NotEnoughFunds)]
    );
    let r = row(&accounts, 1);
    assert_eq!((r.available, r.held, r.locked), (12_000, 0, false));
}

#[test]
fn dispute_resolve_deposit_round_trip() {
    let (after_dispute, results) = run(vec![
        deposit(1, 1, 20_000),
        claim(ClientClaimKind::Dispute, 1, 1),
    ]);
    assert_eq!(results, vec![Ok(()), Ok(())]);
    let r = row(&after_dispute, 1);
    assert_eq!((r.available, r.held, r.total), (0, 20_000, 20_000));

    let (after_resolve, results) = run(vec![
        deposit(1, 1, 20_000),
        claim(ClientClaimKind::Dispute, 1, 1),
        claim(ClientClaimKind::Resolve, 1, 1),
    ]);
    assert_eq!(results, vec![Ok(()), Ok(()), Ok(())]);
    let r = row(&after_resolve, 1);
    assert_eq!((r.available, r.held, r.locked), (20_000, 0, false));
}

#[test]
fn dispute_resolve_withdrawal_round_trip() {
    let (after_dispute, results) = run(vec![
        deposit(1, 1, 20_000),
        withdrawal(1, 2, 5_000),
        claim(ClientClaimKind::Dispute, 1, 2),
    ]);
    assert_eq!(results, vec![Ok(()), Ok(()), Ok(())]);
    let r = row(&after_dispute, 1);
    // disputing a withdrawal adds to held without touching available
    assert_eq!((r.available, r.held, r.total), (15_000, 5_000, 20_000));

    let (after_resolve, results) = run(vec![
        deposit(1, 1, 20_000),
        withdrawal(1, 2, 5_000),
        claim(ClientClaimKind::Dispute, 1, 2),
        claim(ClientClaimKind::Resolve, 1, 2),
    ]);
    assert_eq!(results, vec![Ok(()), Ok(()), Ok(()), Ok(())]);
    let r = row(&after_resolve, 1);
    assert_eq!((r.available, r.held), (15_000, 0));
}

#[test]
fn dispute_can_drive_available_negative() {
    // the deposited money was already withdrawn when the deposit is disputed
    let (accounts, results) = run(vec![
        deposit(1, 1, 20_000),
        withdrawal(1, 2, 15_000),
        claim(ClientClaimKind::Dispute, 1, 1),
    ]);
    assert_eq!(results, vec![Ok(()), Ok(()), Ok(())]);
    let r = row(&accounts, 1);
    assert_eq!((r.available, r.held, r.total), (-15_000, 20_000, 5_000));
}

#[test]
fn chargeback_requires_undisputed_operation() {
    // the engine accepts a chargeback only while the operation is not
    // disputed; held funds must come from disputing some other operation
    let (_, results) = run(vec![
        deposit(1, 1, 20_000),
        claim(ClientClaimKind::Dispute, 1, 1),
        claim(ClientClaimKind::Chargeback, 1, 1),
    ]);
    assert_eq!(
        results,
        vec![Ok(()), Ok(()), Err(TransactionError::WrongTransactionState)]
    );
}

#[test]
fn chargeback_without_held_funds_fails() {
    let (accounts, results) = run(vec![
        deposit(1, 1, 20_000),
        claim(ClientClaimKind::Chargeback, 1, 1),
    ]);
    assert_eq!(results, vec![Ok(()), Err(TransactionError::NotEnoughFunds)]);
    let r = row(&accounts, 1);
    assert_eq!((r.available, r.held, r.locked), (20_000, 0, false));
}

#[test]
fn chargeback_terminality() {
    // charge a deposit back (held funds coming from disputing the other
    // deposit), then watch every later record against the client fail
    let (accounts, results) = run(vec![
        deposit(1, 1, 20_000),
        deposit(1, 2, 20_000),
        claim(ClientClaimKind::Dispute, 1, 1),
        claim(ClientClaimKind::Chargeback, 1, 2),
        deposit(1, 3, 1_000),
        withdrawal(1, 4, 1_000),
        claim(ClientClaimKind::Resolve, 1, 1),
    ]);
    assert_eq!(
        results,
        vec![
            Ok(()),
            Ok(()),
            Ok(()),
            Ok(()),
            Err(TransactionError::LockedAccount(ClientId(1))),
            Err(TransactionError::LockedAccount(ClientId(1))),
            Err(TransactionError::LockedAccount(ClientId(1))),
        ]
    );
    let r = row(&accounts, 1);
    assert!(r.locked);
    assert_eq!((r.available, r.held), (20_000, 0));
}

#[test]
fn chargeback_of_withdrawal_releases_funds() {
    let (accounts, results) = run(vec![
        deposit(1, 1, 20_000),
        withdrawal(1, 2, 5_000),
        withdrawal(1, 3, 5_000),
        claim(ClientClaimKind::Dispute, 1, 2),
        claim(ClientClaimKind::Chargeback, 1, 3),
    ]);
    assert_eq!(results, vec![Ok(()), Ok(()), Ok(()), Ok(()), Ok(())]);
    let r = row(&accounts, 1);
    // the chargeback released the withdrawal's amount from held back to
    // available and locked the account
    assert_eq!((r.available, r.held, r.locked), (15_000, 0, true));
}

#[test]
fn claim_for_unknown_transaction() {
    let (_, results) = run(vec![
        deposit(1, 1, 20_000),
        claim(ClientClaimKind::Dispute, 1, 99),
    ]);
    assert_eq!(
        results,
        vec![
            Ok(()),
            Err(TransactionError::MissingOperation(TransactionId(99))),
        ]
    );
}

#[test]
fn claim_by_unknown_client() {
    let (_, results) = run(vec![
        deposit(1, 1, 20_000),
        claim(ClientClaimKind::Dispute, 2, 1),
    ]);
    assert_eq!(
        results,
        vec![Ok(()), Err(TransactionError::MissingClient(ClientId(2)))]
    );
}

#[test]
fn end_to_end_report() {
    // the second record withdraws from a client that was never created, so
    // the report holds one row, for client 1, untouched by the failure
    let lines: &[&[u8]] = &[b"deposit,\t1,\t1,\t2.0", b"withdrawal, 2, 2, 1.0"];
    let orders: Vec<TransactionOrder> = lines
        .iter()
        .map(|line| payment_engine::records::parse_record(line).unwrap())
        .collect();
    let mut accounts = ClientAccounts::new();
    let mut register = MoneyOperationsRegister::new();
    let results = payment_engine::transactions::process_all(orders, &mut accounts, &mut register);
    assert_eq!(
        results,
        vec![Ok(()), Err(TransactionError::MissingClient(ClientId(2)))]
    );
    let rows = accounts.snapshot();
    assert_eq!(rows.len(), 1);
    assert_eq!(rows[0].client, ClientId(1));
    assert_eq!(
        payment_engine::amounts::render_amount(rows[0].available),
        b"2.0"
    );
    assert_eq!(payment_engine::amounts::render_amount(rows[0].held), b"0.0");
    assert_eq!(
        payment_engine::amounts::render_amount(rows[0].total),
        b"2.0"
    );
    assert!(!rows[0].locked);
}

#[test]
fn claim_client_is_trusted() {
    // the claimed client id is not cross-checked against the operation's
    // own: the claim acts on the claiming client's account
    let (accounts, results) = run(vec![
        deposit(1, 1, 20_000),
        deposit(2, 2, 10_000),
        claim(ClientClaimKind::Dispute, 2, 1),
    ]);
    assert_eq!(results, vec![Ok(()), Ok(()), Ok(())]);
    let one = row(&accounts, 1);
    let two = row(&accounts, 2);
    assert_eq!((one.available, one.held), (20_000, 0));
    assert_eq!((two.available, two.held, two.total), (-10_000, 20_000, 10_000));
}
