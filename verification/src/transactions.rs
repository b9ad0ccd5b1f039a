//! The operation registry and the transaction processor.
//!
//! The meaning of every record is pinned down by the specification functions
//! [`step_money`] and [`step_claim`]: given the current ledger and registry
//! they return the next ledger, the next registry and the result the
//! processor reports. The executable `process` functions are proved to agree
//! with them exactly, so every behavioural question about the engine reduces
//! to these two definitions.

use vstd::prelude::*;

verus! {

use std::collections::HashMap;
use crate::clients::{Client, ClientAccounts, ClientId, MAX_BALANCE};

/// Identifies one money operation (deposit or withdrawal). Unique over the
/// registry's lifetime; claims reference an id but never consume one.
#[derive(Copy, Clone, Debug, Default, PartialEq, Eq, Structural, Hash)]
pub struct TransactionId(pub u32);

/// Every way one record can be rejected. Rejections are per record and leave
/// the ledger and the registry exactly as they were.
#[derive(Copy, Clone, Debug, PartialEq, Eq, Structural)]
pub enum TransactionError {
    /// A money operation reused an already registered transaction id.
    AlreadyExists(TransactionId),
    /// The account addressed by the record is locked.
    LockedAccount(ClientId),
    /// The record addressed a client account that was never created.
    MissingClient(ClientId),
    /// A claim referenced a transaction id the registry does not hold.
    MissingOperation(TransactionId),
    /// A withdrawal exceeded the available balance, or a resolve or
    /// chargeback asked to release more than is currently held.
    NotEnoughFunds,
    /// The claim's kind is incompatible with the operation's dispute state.
    WrongTransactionState,
    /// The record would push a balance beyond the representable range.
    BalanceOutOfRange,
}

/// The two families of input records: money operations carry an amount,
/// client claims reference an earlier money operation.
#[derive(Copy, Clone, Debug, PartialEq, Eq, Structural)]
pub enum TransactionOrder {
    MoneyOperation(MoneyOperation),
    ClientClaim(ClientClaim),
}

/// A recorded deposit or withdrawal. Immutable once registered, except for
/// the `disputed` flag, which the claim lifecycle toggles.
#[derive(Copy, Clone, Debug, PartialEq, Eq, Structural)]
pub struct MoneyOperation {
    pub client_id: ClientId,
    pub transaction_id: TransactionId,
    pub disputed: bool,
    pub operation_kind: OperationKind,
}

/// The direction of a money operation, with its amount in 1/10_000 units.
#[derive(Copy, Clone, Debug, PartialEq, Eq, Structural)]
pub enum OperationKind {
    Deposit(u64),
    Withdrawal(u64),
}

impl MoneyOperation {
    /// The operation's amount, whichever direction it has.
    pub open spec fn amount(self) -> u64 {
        match self.operation_kind {
            OperationKind::Deposit(a) => a,
            OperationKind::Withdrawal(a) => a,
        }
    }
}

/// A dispute, resolve or chargeback, referencing a registered operation.
#[derive(Copy, Clone, Debug, PartialEq, Eq, Structural)]
pub struct ClientClaim {
    pub client_id: ClientId,
    pub transaction_id: TransactionId,
    pub claim_kind: ClientClaimKind,
}

/// The three claim kinds.
#[derive(Copy, Clone, Debug, PartialEq, Eq, Structural)]
pub enum ClientClaimKind {
    Resolve,
    Dispute,
    Chargeback,
}

/// What processing a money operation does, as a function of the current
/// state: the next ledger, the next registry, and the reported result.
///
/// A reused transaction id, a locked account, a withdrawal against a missing
/// account or against insufficient funds, and a deposit that would overflow
/// the balance bound are each rejected without any state change; otherwise
/// the available balance moves by the amount (a first deposit creates the
/// account) and the operation is registered undisputed.
pub open spec fn step_money(
    accounts: Map<u32, Client>,
    register: Map<u32, MoneyOperation>,
    op: MoneyOperation,
) -> (Map<u32, Client>, Map<u32, MoneyOperation>, Result<(), TransactionError>) {
    let c = op.client_id.0;
    let t = op.transaction_id.0;
    let recorded = MoneyOperation { disputed: false, ..op };
    if register.contains_key(t) {
        (accounts, register, Err(TransactionError::AlreadyExists(op.transaction_id)))
    } else if accounts.contains_key(c) && accounts[c].locked {
        (accounts, register, Err(TransactionError::LockedAccount(op.client_id)))
    } else {
        match op.operation_kind {
            OperationKind::Deposit(a) => {
                if !accounts.contains_key(c) {
                    (
                        accounts.insert(
                            c,
                            (Client { funds: a as i128, held_funds: 0, locked: false }),
                        ),
                        register.insert(t, recorded),
                        Ok(()),
                    )
                } else if accounts[c].funds + a > MAX_BALANCE {
                    (accounts, register, Err(TransactionError::BalanceOutOfRange))
                } else {
                    (
                        accounts.insert(
                            c,
                            (Client { funds: (accounts[c].funds + a) as i128, ..accounts[c] }),
                        ),
                        register.insert(t, recorded),
                        Ok(()),
                    )
                }
            },
            OperationKind::Withdrawal(a) => {
                if !accounts.contains_key(c) {
                    (accounts, register, Err(TransactionError::MissingClient(op.client_id)))
                } else if accounts[c].funds < a {
                    (accounts, register, Err(TransactionError::NotEnoughFunds))
                } else {
                    (
                        accounts.insert(
                            c,
                            (Client { funds: (accounts[c].funds - a) as i128, ..accounts[c] }),
                        ),
                        register.insert(t, recorded),
                        Ok(()),
                    )
                }
            },
        }
    }
}

/// What processing a claim does, as a function of the current state.
///
/// The claim must reference a registered operation, and the claiming
/// client's account must exist and be unlocked. The claimed client id is
/// deliberately not cross-checked against the operation's own: the engine
/// trusts its input on this point, and the claim acts on the claiming
/// client's account. Then, writing `a` for the referenced operation's
/// amount:
///
/// - Dispute (only while undisputed): for a deposit, move `a` from available
///   to held; for a withdrawal, add `a` to held without touching available.
/// - Resolve (only while disputed): for a deposit, move `a` from held back to
///   available; for a withdrawal, clear `a` from held.
/// - Chargeback (only while undisputed): for a deposit, clear `a` from held;
///   for a withdrawal, move `a` from held back to available; then lock the
///   account for good.
///
/// A resolve or chargeback whose held balance does not cover `a` fails with
/// `NotEnoughFunds`; a transition that would push a balance beyond the
/// representable bound fails with `BalanceOutOfRange`; a claim in the wrong
/// dispute state fails with `WrongTransactionState`. Every failure leaves
/// both maps unchanged.
pub open spec fn step_claim(
    accounts: Map<u32, Client>,
    register: Map<u32, MoneyOperation>,
    claim: ClientClaim,
) -> (Map<u32, Client>, Map<u32, MoneyOperation>, Result<(), TransactionError>) {
    let c = claim.client_id.0;
    let t = claim.transaction_id.0;
    if !register.contains_key(t) {
        (accounts, register, Err(TransactionError::MissingOperation(claim.transaction_id)))
    } else if !accounts.contains_key(c) {
        (accounts, register, Err(TransactionError::MissingClient(claim.client_id)))
    } else if accounts[c].locked {
        (accounts, register, Err(TransactionError::LockedAccount(claim.client_id)))
    } else {
        let op = register[t];
        let acct = accounts[c];
        let a = op.amount();
        match claim.claim_kind {
            ClientClaimKind::Dispute => {
                if op.disputed {
                    (accounts, register, Err(TransactionError::WrongTransactionState))
                } else if acct.held_funds + a > MAX_BALANCE || (op.operation_kind
                    is Deposit && acct.funds - a < -MAX_BALANCE) {
                    (accounts, register, Err(TransactionError::BalanceOutOfRange))
                } else {
                    let held = (acct.held_funds + a) as i128;
                    let funds = if op.operation_kind is Deposit {
                        (acct.funds - a) as i128
                    } else {
                        acct.funds
                    };
                    (
                        accounts.insert(c, (Client { funds, held_funds: held, ..acct })),
                        register.insert(t, (MoneyOperation { disputed: true, ..op })),
                        Ok(()),
                    )
                }
            },
            ClientClaimKind::Resolve => {
                if !op.disputed {
                    (accounts, register, Err(TransactionError::WrongTransactionState))
                } else if acct.held_funds < a {
                    (accounts, register, Err(TransactionError::NotEnoughFunds))
                } else if op.operation_kind is Deposit && acct.funds + a > MAX_BALANCE {
                    (accounts, register, Err(TransactionError::BalanceOutOfRange))
                } else {
                    let held = (acct.held_funds - a) as i128;
                    let funds = if op.operation_kind is Deposit {
                        (acct.funds + a) as i128
                    } else {
                        acct.funds
                    };
                    (
                        accounts.insert(c, (Client { funds, held_funds: held, ..acct })),
                        register.insert(t, (MoneyOperation { disputed: false, ..op })),
                        Ok(()),
                    )
                }
            },
            ClientClaimKind::Chargeback => {
                if op.disputed {
                    (accounts, register, Err(TransactionError::WrongTransactionState))
                } else if acct.held_funds < a {
                    (accounts, register, Err(TransactionError::NotEnoughFunds))
                } else if op.operation_kind is Withdrawal && acct.funds + a > MAX_BALANCE {
                    (accounts, register, Err(TransactionError::BalanceOutOfRange))
                } else {
                    let held = (acct.held_funds - a) as i128;
                    let funds = if op.operation_kind is Withdrawal {
                        (acct.funds + a) as i128
                    } else {
                        acct.funds
                    };
                    (
                        accounts.insert(c, (Client { funds, held_funds: held, locked: true })),
                        register.insert(t, (MoneyOperation { disputed: false, ..op })),
                        Ok(()),
                    )
                }
            },
        }
    }
}

/// What processing any one record does: dispatch on the record's family.
pub open spec fn step(
    accounts: Map<u32, Client>,
    register: Map<u32, MoneyOperation>,
    order: TransactionOrder,
) -> (Map<u32, Client>, Map<u32, MoneyOperation>, Result<(), TransactionError>) {
    match order {
        TransactionOrder::MoneyOperation(op) => step_money(accounts, register, op),
        TransactionOrder::ClientClaim(claim) => step_claim(accounts, register, claim),
    }
}

impl TransactionOrder {
    /// Applies one record atomically to the ledger and the registry,
    /// returning exactly what [`step`] prescribes; on an `Err` nothing has
    /// changed.
    pub fn process(
        self,
        clients_map: &mut ClientAccounts,
        operations_register: &mut MoneyOperationsRegister,
    ) -> (res: Result<(), TransactionError>)
        requires
            old(clients_map).wf(),
        ensures
            final(clients_map).wf(),
            final(clients_map)@ == step(old(clients_map)@, old(operations_register)@, self).0,
            final(operations_register)@ == step(
                old(clients_map)@,
                old(operations_register)@,
                self,
            ).1,
            res == step(old(clients_map)@, old(operations_register)@, self).2,
    {
        match self {
            TransactionOrder::MoneyOperation(money_operation) => money_operation.process(
                clients_map,
                operations_register,
            ),
            TransactionOrder::ClientClaim(client_claim) => client_claim.process(
                clients_map,
                operations_register,
            ),
        }
    }
}

impl MoneyOperation {
    /// Applies one deposit or withdrawal, returning exactly what
    /// [`step_money`] prescribes; on an `Err` nothing has changed.
    pub fn process(
        self,
        clients_map: &mut ClientAccounts,
        operations_register: &mut MoneyOperationsRegister,
    ) -> (res: Result<(), TransactionError>)
        requires
            old(clients_map).wf(),
        ensures
            final(clients_map).wf(),
            final(clients_map)@ == step_money(
                old(clients_map)@,
                old(operations_register)@,
                self,
            ).0,
            final(operations_register)@ == step_money(
                old(clients_map)@,
                old(operations_register)@,
                self,
            ).1,
            res == step_money(old(clients_map)@, old(operations_register)@, self).2,
    {
        if operations_register.contains(&self.transaction_id) {
            return Err(TransactionError::AlreadyExists(self.transaction_id));
        }
        let account = clients_map.get_account(self.client_id);
        if let Some(client) = account {
            if client.locked {
                return Err(TransactionError::LockedAccount(self.client_id));
            }
        }
        let recorded = MoneyOperation { disputed: false, ..self };
        match (self.operation_kind, account) {
            (OperationKind::Withdrawal(_), None) => Err(
                TransactionError::MissingClient(self.client_id),
            ),
            (OperationKind::Withdrawal(amount), Some(mut client)) => {
                if !client.has_enough_funds(amount) {
                    return Err(TransactionError::NotEnoughFunds);
                }
                client.decrease_funds(amount);
                clients_map.update_account(self.client_id, client);
                operations_register.insert(self.transaction_id, recorded);
                Ok(())
            },
            (OperationKind::Deposit(amount), Some(mut client)) => {
                if !client.can_credit(amount) {
                    return Err(TransactionError::BalanceOutOfRange);
                }
                client.increase_funds(amount);
                clients_map.update_account(self.client_id, client);
                operations_register.insert(self.transaction_id, recorded);
                Ok(())
            },
            (OperationKind::Deposit(amount), None) => {
                clients_map.create_client(self.client_id, amount);
                operations_register.insert(self.transaction_id, recorded);
                Ok(())
            },
        }
    }
}

/// Processes a whole batch of records in input order, one at a time, each
/// applied atomically before the next. The final state is exactly what
/// folding [`step`] over the batch ([`crate::laws::run`]) prescribes, and
/// the result reported for each record is what [`step`] prescribed at the
/// state the records before it had built; a rejected record never stops the
/// run or touches the state.
pub fn process_all(
    orders: Vec<TransactionOrder>,
    clients_map: &mut ClientAccounts,
    operations_register: &mut MoneyOperationsRegister,
) -> (results: Vec<Result<(), TransactionError>>)
    requires
        old(clients_map).wf(),
    ensures
        final(clients_map).wf(),
        (final(clients_map)@, final(operations_register)@) == crate::laws::run(
            old(clients_map)@,
            old(operations_register)@,
            orders@,
        ),
        results@.len() == orders@.len(),
        forall|i: int|
            0 <= i < orders@.len() ==> results@[i] == ({
                let before = crate::laws::run(
                    old(clients_map)@,
                    old(operations_register)@,
                    orders@.take(i),
                );
                step(before.0, before.1, orders@[i]).2
            }),
{
    let ghost accounts0 = clients_map@;
    let ghost register0 = operations_register@;
    let mut results: Vec<Result<(), TransactionError>> = Vec::new();
    let mut n: usize = 0;
    proof {
        assert(orders@.take(0) =~= Seq::<TransactionOrder>::empty());
    }
    while n < orders.len()
        invariant
            n <= orders@.len(),
            clients_map.wf(),
            (clients_map@, operations_register@) == crate::laws::run(
                accounts0,
                register0,
                orders@.take(n as int),
            ),
            results@.len() == n,
            forall|i: int|
                0 <= i < n ==> results@[i] == ({
                    let before = crate::laws::run(accounts0, register0, orders@.take(i));
                    step(before.0, before.1, orders@[i]).2
                }),
        decreases orders@.len() - n,
    {
        let order = orders[n];
        let res = order.process(clients_map, operations_register);
        results.push(res);
        proof {
            crate::laws::lemma_run_unfolds(accounts0, register0, orders@, n as int);
        }
        n = n + 1;
    }
    proof {
        assert(orders@.take(orders@.len() as int) =~= orders@);
    }
    results
}

/// The registry: owns every recorded money operation, keyed by transaction
/// id.
pub struct MoneyOperationsRegister {
    inner: HashMap<u32, MoneyOperation>,
}

impl MoneyOperationsRegister {
    /// The registry as a map from transaction id to operation.
    pub closed spec fn view(&self) -> Map<u32, MoneyOperation> {
        self.inner@
    }

    /// An empty registry.
    pub fn new() -> (r: Self)
        ensures
            r@ == Map::<u32, MoneyOperation>::empty(),
    {
        Self { inner: HashMap::new() }
    }

    /// True when `id` is already registered.
    pub fn contains(&self, id: &TransactionId) -> (r: bool)
        ensures
            r == self@.contains_key(id.0),
    {
        self.inner.get(&id.0).is_some()
    }

    /// Looks the operation registered under `id` up.
    pub fn get_operation(&self, id: TransactionId) -> (r: Option<MoneyOperation>)
        ensures
            match r {
                Some(op) => self@.contains_key(id.0) && op == self@[id.0],
                None => !self@.contains_key(id.0),
            },
    {
        match self.inner.get(&id.0) {
            Some(op) => Some(*op),
            None => None,
        }
    }

    /// Registers `operation` under `id`, silently overwriting: keeping ids
    /// unique is the processor's responsibility, which it meets by checking
    /// [`Self::contains`] first.
    pub fn insert(&mut self, id: TransactionId, operation: MoneyOperation)
        ensures
            final(self)@ == old(self)@.insert(id.0, operation),
    {
        self.inner.insert(id.0, operation);
    }
}

impl ClientClaim {
    /// Applies one dispute, resolve or chargeback, returning exactly what
    /// [`step_claim`] prescribes; on an `Err` nothing has changed. All
    /// validation happens strictly before any mutation.
    pub fn process(
        self,
        clients_map: &mut ClientAccounts,
        operations_register: &mut MoneyOperationsRegister,
    ) -> (res: Result<(), TransactionError>)
        requires
            old(clients_map).wf(),
        ensures
            final(clients_map).wf(),
            final(clients_map)@ == step_claim(
                old(clients_map)@,
                old(operations_register)@,
                self,
            ).0,
            final(operations_register)@ == step_claim(
                old(clients_map)@,
                old(operations_register)@,
                self,
            ).1,
            res == step_claim(old(clients_map)@, old(operations_register)@, self).2,
    {
        let mut operation = match operations_register.get_operation(self.transaction_id) {
            None => {
                return Err(TransactionError::MissingOperation(self.transaction_id));
            },
            Some(op) => op,
        };
        let mut client = match clients_map.get_account(self.client_id) {
            None => {
                return Err(TransactionError::MissingClient(self.client_id));
            },
            Some(c) => c,
        };
        if client.locked {
            return Err(TransactionError::LockedAccount(self.client_id));
        }
        match self.claim_kind {
            ClientClaimKind::Dispute => {
                if operation.disputed {
                    return Err(TransactionError::WrongTransactionState);
                }
                match operation.operation_kind {
                    OperationKind::Deposit(amount) => {
                        if !client.can_hold(amount) || !client.can_debit(amount) {
                            return Err(TransactionError::BalanceOutOfRange);
                        }
                        client.hold_funds(amount);
                    },
                    OperationKind::Withdrawal(amount) => {
                        if !client.can_hold(amount) {
                            return Err(TransactionError::BalanceOutOfRange);
                        }
                        client.increase_held_funds(amount);
                    },
                }
                operation.disputed = true;
            },
            ClientClaimKind::Resolve => {
                if !operation.disputed {
                    return Err(TransactionError::WrongTransactionState);
                }
                match operation.operation_kind {
                    OperationKind::Deposit(amount) => {
                        client.release_funds(amount)?;
                    },
                    OperationKind::Withdrawal(amount) => {
                        client.clear_held_funds(amount)?;
                    },
                }
                operation.disputed = false;
            },
            ClientClaimKind::Chargeback => {
                if operation.disputed {
                    return Err(TransactionError::WrongTransactionState);
                }
                match operation.operation_kind {
                    OperationKind::Deposit(amount) => {
                        client.clear_held_funds(amount)?;
                    },
                    OperationKind::Withdrawal(amount) => {
                        client.release_funds(amount)?;
                    },
                }
                operation.disputed = false;
                client.lock();
            },
        }
        clients_map.update_account(self.client_id, client);
        operations_register.insert(self.transaction_id, operation);
        Ok(())
    }
}

} // verus!
