//! Engine-wide guarantees, stated and proved over the step functions that
//! [`crate::transactions`] pins the processor to.

use vstd::prelude::*;

verus! {

use crate::clients::{Client, ClientId};
use crate::transactions::{
    step, step_claim, step_money, ClientClaim, ClientClaimKind, MoneyOperation, OperationKind,
    TransactionError, TransactionId, TransactionOrder,
};

/// The ledger and registry after processing `orders` in input order, one
/// record at a time, starting from the given state.
pub open spec fn run(
    accounts: Map<u32, Client>,
    register: Map<u32, MoneyOperation>,
    orders: Seq<TransactionOrder>,
) -> (Map<u32, Client>, Map<u32, MoneyOperation>)
    decreases orders.len(),
{
    if orders.len() == 0 {
        (accounts, register)
    } else {
        let next = step(accounts, register, orders[0]);
        run(next.0, next.1, orders.drop_first())
    }
}

/// True when `orders` holds money operations only, no claims.
pub open spec fn money_operations_only(orders: Seq<TransactionOrder>) -> bool {
    forall|i: int| 0 <= i < orders.len() ==> (#[trigger] orders[i]) is MoneyOperation
}

/// The net amount that processing `orders` from the given state moves into
/// client `c`'s available balance: each accepted deposit of `c` counts with
/// its amount, each accepted withdrawal of `c` with the negated amount, and
/// every rejected record and every record of another client counts zero.
pub open spec fn accepted_net(
    accounts: Map<u32, Client>,
    register: Map<u32, MoneyOperation>,
    orders: Seq<TransactionOrder>,
    c: u32,
) -> int
    decreases orders.len(),
{
    if orders.len() == 0 {
        0
    } else {
        let next = step(accounts, register, orders[0]);
        let here: int = match orders[0] {
            TransactionOrder::MoneyOperation(m) => {
                if next.2 is Ok && m.client_id.0 == c {
                    match m.operation_kind {
                        OperationKind::Deposit(a) => a as int,
                        OperationKind::Withdrawal(a) => -(a as int),
                    }
                } else {
                    0
                }
            },
            TransactionOrder::ClientClaim(_) => 0,
        };
        here + accepted_net(next.0, next.1, orders.drop_first(), c)
    }
}

/// Running one record more means stepping once from where the run before it
/// ended.
pub proof fn lemma_run_unfolds(
    accounts: Map<u32, Client>,
    register: Map<u32, MoneyOperation>,
    orders: Seq<TransactionOrder>,
    n: int,
)
    requires
        0 <= n < orders.len(),
    ensures
        run(accounts, register, orders.take(n + 1)) == ({
            let before = run(accounts, register, orders.take(n));
            let stepped = step(before.0, before.1, orders[n]);
            (stepped.0, stepped.1)
        }),
    decreases n,
{
    if n == 0 {
        assert(orders.take(1).drop_first() =~= Seq::<TransactionOrder>::empty());
        assert(orders.take(0) =~= Seq::<TransactionOrder>::empty());
        assert(orders.take(1)[0] == orders[0]);
        let s1 = step(accounts, register, orders[0]);
        assert(run(accounts, register, orders.take(1)) == run(s1.0, s1.1, orders.take(1).drop_first()));
        assert(run(accounts, register, orders.take(0)) == (accounts, register));
    } else {
        let first = orders[0];
        let s1 = step(accounts, register, first);
        lemma_run_unfolds(s1.0, s1.1, orders.drop_first(), n - 1);
        assert(orders.drop_first().take(n - 1) =~= orders.take(n).drop_first());
        assert(orders.drop_first().take(n) =~= orders.take(n + 1).drop_first());
        assert(orders.take(n + 1)[0] == first);
        assert(orders.take(n)[0] == first);
        assert(orders.drop_first()[n - 1] == orders[n]);
        assert(run(accounts, register, orders.take(n + 1)) == run(
            s1.0,
            s1.1,
            orders.drop_first().take(n),
        ));
        assert(run(accounts, register, orders.take(n)) == run(
            s1.0,
            s1.1,
            orders.drop_first().take(n - 1),
        ));
    }
}

/// No step ever removes a transaction id from the registry.
pub proof fn lemma_register_ids_persist(
    accounts: Map<u32, Client>,
    register: Map<u32, MoneyOperation>,
    orders: Seq<TransactionOrder>,
    t: u32,
)
    requires
        register.contains_key(t),
    ensures
        run(accounts, register, orders).1.contains_key(t),
    decreases orders.len(),
{
    if orders.len() > 0 {
        let next = step(accounts, register, orders[0]);
        lemma_register_ids_persist(next.0, next.1, orders.drop_first(), t);
    }
}

/// An accepted money operation registers its transaction id.
pub proof fn lemma_accepted_operation_registers(
    accounts: Map<u32, Client>,
    register: Map<u32, MoneyOperation>,
    op: MoneyOperation,
)
    requires
        step_money(accounts, register, op).2 is Ok,
    ensures
        step_money(accounts, register, op).1.contains_key(op.transaction_id.0),
{
}

/// A money operation whose transaction id is registered is rejected as
/// `AlreadyExists`, and the state does not change.
pub proof fn lemma_duplicate_rejected(
    accounts: Map<u32, Client>,
    register: Map<u32, MoneyOperation>,
    op: MoneyOperation,
)
    requires
        register.contains_key(op.transaction_id.0),
    ensures
        step_money(accounts, register, op) == (
            accounts,
            register,
            Err::<(), TransactionError>(TransactionError::AlreadyExists(op.transaction_id)),
        ),
{
}

/// Law: duplicate rejection is idempotent. Once a money operation was
/// accepted, every later money operation reusing its transaction id —
/// whatever was processed in between — is rejected as `AlreadyExists`, and
/// the state stays exactly the state after the records processed so far.
pub proof fn lemma_idempotent_duplicate_rejection(
    accounts: Map<u32, Client>,
    register: Map<u32, MoneyOperation>,
    first: MoneyOperation,
    between: Seq<TransactionOrder>,
    second: MoneyOperation,
)
    requires
        step_money(accounts, register, first).2 is Ok,
        second.transaction_id == first.transaction_id,
    ensures
        ({
            let after_first = step_money(accounts, register, first);
            let later = run(after_first.0, after_first.1, between);
            step_money(later.0, later.1, second) == (
                later.0,
                later.1,
                Err::<(), TransactionError>(TransactionError::AlreadyExists(second.transaction_id)),
            )
        }),
{
    let after_first = step_money(accounts, register, first);
    lemma_accepted_operation_registers(accounts, register, first);
    lemma_register_ids_persist(after_first.0, after_first.1, between, first.transaction_id.0);
    let later = run(after_first.0, after_first.1, between);
    lemma_duplicate_rejected(later.0, later.1, second);
}

/// Law: balance conservation, generalized to any starting state. Over money
/// operations alone, a client's available balance moves by exactly the net of
/// the accepted amounts, the held balance and the lock flag never change, and
/// an account created along the way starts from zero, unheld and unlocked.
pub proof fn lemma_balance_conservation_from(
    accounts: Map<u32, Client>,
    register: Map<u32, MoneyOperation>,
    orders: Seq<TransactionOrder>,
    c: u32,
)
    requires
        money_operations_only(orders),
    ensures
        ({
            let after = run(accounts, register, orders).0;
            let net = accepted_net(accounts, register, orders, c);
            &&& (after.contains_key(c) && accounts.contains_key(c)) ==> after[c].funds
                == accounts[c].funds + net && after[c].held_funds == accounts[c].held_funds
                && after[c].locked == accounts[c].locked
            &&& (after.contains_key(c) && !accounts.contains_key(c)) ==> after[c].funds == net
                && after[c].held_funds == 0 && !after[c].locked
            &&& !after.contains_key(c) ==> !accounts.contains_key(c) && net == 0
        }),
    decreases orders.len(),
{
    if orders.len() > 0 {
        let next = step(accounts, register, orders[0]);
        assert(money_operations_only(orders.drop_first())) by {
            assert(forall|i: int|
                0 <= i < orders.drop_first().len() ==> orders.drop_first()[i] == orders[i + 1]);
        }
        lemma_balance_conservation_from(next.0, next.1, orders.drop_first(), c);
    }
}

/// Law: balance conservation. For any sequence of deposits and withdrawals
/// with no claims, processed from an empty engine, a client's final available
/// balance equals the sum of its accepted deposits minus the sum of its
/// accepted withdrawals (rejected records contribute nothing), nothing is
/// held, and no account is locked.
pub proof fn lemma_balance_conservation(orders: Seq<TransactionOrder>, c: u32)
    requires
        money_operations_only(orders),
    ensures
        ({
            let after = run(Map::empty(), Map::empty(), orders).0;
            let net = accepted_net(Map::empty(), Map::empty(), orders, c);
            &&& after.contains_key(c) ==> after[c].funds == net && after[c].held_funds == 0
                && !after[c].locked
            &&& !after.contains_key(c) ==> net == 0
        }),
{
    lemma_balance_conservation_from(Map::empty(), Map::empty(), orders, c);
}

/// Law: dispute round-trip. When a dispute of a registered operation is
/// accepted, the resolve by the same client on the same transaction is
/// accepted too, and it restores the ledger and the registry exactly: for a
/// deposit both balances return to their pre-dispute values, for a withdrawal
/// the held amount returns to its pre-dispute value with the available
/// balance never touched.
pub proof fn lemma_dispute_resolve_round_trip(
    accounts: Map<u32, Client>,
    register: Map<u32, MoneyOperation>,
    claim_client: ClientId,
    t: TransactionId,
)
    requires
        forall|k: u32| accounts.contains_key(k) ==> (#[trigger] accounts[k]).valid(),
        ({
            let dispute = ClientClaim {
                client_id: claim_client,
                transaction_id: t,
                claim_kind: ClientClaimKind::Dispute,
            };
            step_claim(accounts, register, dispute).2 is Ok
        }),
    ensures
        ({
            let dispute = ClientClaim {
                client_id: claim_client,
                transaction_id: t,
                claim_kind: ClientClaimKind::Dispute,
            };
            let resolve = ClientClaim {
                client_id: claim_client,
                transaction_id: t,
                claim_kind: ClientClaimKind::Resolve,
            };
            let disputed = step_claim(accounts, register, dispute);
            let resolved = step_claim(disputed.0, disputed.1, resolve);
            &&& resolved.2 is Ok
            &&& resolved.0 == accounts
            &&& resolved.1 == register
        }),
{
    let dispute = ClientClaim {
        client_id: claim_client,
        transaction_id: t,
        claim_kind: ClientClaimKind::Dispute,
    };
    let resolve = ClientClaim {
        client_id: claim_client,
        transaction_id: t,
        claim_kind: ClientClaimKind::Resolve,
    };
    let disputed = step_claim(accounts, register, dispute);
    let resolved = step_claim(disputed.0, disputed.1, resolve);
    assert(accounts[claim_client.0].valid());
    assert(resolved.2 is Ok);
    assert(resolved.0 =~= accounts);
    assert(resolved.1 =~= register);
}

/// An accepted chargeback locks the claiming client's account.
pub proof fn lemma_chargeback_locks(
    accounts: Map<u32, Client>,
    register: Map<u32, MoneyOperation>,
    claim: ClientClaim,
)
    requires
        claim.claim_kind is Chargeback,
        step_claim(accounts, register, claim).2 is Ok,
    ensures
        ({
            let after = step_claim(accounts, register, claim).0;
            after.contains_key(claim.client_id.0) && after[claim.client_id.0].locked
        }),
{
}

/// A locked account is never touched again: whatever is processed, it stays
/// exactly as it is, locked.
pub proof fn lemma_lock_is_permanent(
    accounts: Map<u32, Client>,
    register: Map<u32, MoneyOperation>,
    orders: Seq<TransactionOrder>,
    c: u32,
)
    requires
        accounts.contains_key(c),
        accounts[c].locked,
    ensures
        ({
            let after = run(accounts, register, orders).0;
            after.contains_key(c) && after[c] == accounts[c]
        }),
    decreases orders.len(),
{
    if orders.len() > 0 {
        let next = step(accounts, register, orders[0]);
        lemma_lock_is_permanent(next.0, next.1, orders.drop_first(), c);
    }
}

/// A money operation with a fresh transaction id against a locked account is
/// rejected as `LockedAccount`, and the state does not change.
pub proof fn lemma_locked_rejects_money_operation(
    accounts: Map<u32, Client>,
    register: Map<u32, MoneyOperation>,
    op: MoneyOperation,
)
    requires
        accounts.contains_key(op.client_id.0),
        accounts[op.client_id.0].locked,
        !register.contains_key(op.transaction_id.0),
    ensures
        step_money(accounts, register, op) == (
            accounts,
            register,
            Err::<(), TransactionError>(TransactionError::LockedAccount(op.client_id)),
        ),
{
}

/// A claim referencing a registered operation, made by a locked client, is
/// rejected as `LockedAccount`, and the state does not change.
pub proof fn lemma_locked_rejects_claim(
    accounts: Map<u32, Client>,
    register: Map<u32, MoneyOperation>,
    claim: ClientClaim,
)
    requires
        accounts.contains_key(claim.client_id.0),
        accounts[claim.client_id.0].locked,
        register.contains_key(claim.transaction_id.0),
    ensures
        step_claim(accounts, register, claim) == (
            accounts,
            register,
            Err::<(), TransactionError>(TransactionError::LockedAccount(claim.client_id)),
        ),
{
}

/// Law: chargeback terminality. After an accepted chargeback, the client's
/// account is locked for good, and — whatever was processed in between —
/// every later money operation with a fresh transaction id and every later
/// claim referencing a registered operation, made by that client, fails with
/// `LockedAccount` and changes nothing.
pub proof fn lemma_chargeback_terminality(
    accounts: Map<u32, Client>,
    register: Map<u32, MoneyOperation>,
    chargeback: ClientClaim,
    between: Seq<TransactionOrder>,
    order: TransactionOrder,
)
    requires
        chargeback.claim_kind is Chargeback,
        step_claim(accounts, register, chargeback).2 is Ok,
        ({
            let after = step_claim(accounts, register, chargeback);
            let later = run(after.0, after.1, between);
            match order {
                TransactionOrder::MoneyOperation(op) => op.client_id == chargeback.client_id
                    && !later.1.contains_key(op.transaction_id.0),
                TransactionOrder::ClientClaim(claim) => claim.client_id == chargeback.client_id
                    && later.1.contains_key(claim.transaction_id.0),
            }
        }),
    ensures
        ({
            let after = step_claim(accounts, register, chargeback);
            let later = run(after.0, after.1, between);
            step(later.0, later.1, order) == (
                later.0,
                later.1,
                Err::<(), TransactionError>(
                    TransactionError::LockedAccount(chargeback.client_id),
                ),
            )
        }),
{
    let after = step_claim(accounts, register, chargeback);
    let c = chargeback.client_id.0;
    lemma_chargeback_locks(accounts, register, chargeback);
    lemma_lock_is_permanent(after.0, after.1, between, c);
    let later = run(after.0, after.1, between);
    match order {
        TransactionOrder::MoneyOperation(op) => {
            lemma_locked_rejects_money_operation(later.0, later.1, op);
        },
        TransactionOrder::ClientClaim(claim) => {
            lemma_locked_rejects_claim(later.0, later.1, claim);
        },
    }
}

} // verus!

