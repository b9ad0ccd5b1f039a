//! The account ledger: one `Client` per client id, each with available funds,
//! held funds and a lock flag.

use vstd::prelude::*;

verus! {

use std::collections::HashMap;
use crate::transactions::TransactionError;

/// Every balance and amount is a count of these fixed-point units, so four
/// decimal digits of a currency amount are represented exactly.
pub const UNITS_PER_WHOLE: u64 = 10_000;

/// Bound the ledger keeps every balance within. An operation that would push
/// `funds` or `held_funds` of some account beyond this bound is rejected
/// before any state changes, so the fixed-width arithmetic below never
/// overflows.
pub const MAX_BALANCE: i128 = 1_000_000_000_000_000_000_000_000_000_000_000_000;

/// Identifies one client account.
#[derive(Copy, Clone, Debug, PartialEq, Eq, Structural, Hash)]
pub struct ClientId(pub u32);

/// One client account.
///
/// `funds` is the available balance, `held_funds` the balance frozen by open
/// disputes; both are counts of 1/10_000 currency units. `funds` may go
/// negative as an artifact of disputing an operation whose money already
/// moved; `held_funds` never does. Once `locked` is set (by a chargeback) the
/// account rejects every further operation and claim.
#[derive(Copy, Clone, Debug)]
pub struct Client {
    pub funds: i128,
    pub held_funds: i128,
    pub locked: bool,
}

impl Client {
    /// The balance invariant every account in a well-formed ledger satisfies.
    pub open spec fn valid(self) -> bool {
        &&& -MAX_BALANCE <= self.funds <= MAX_BALANCE
        &&& 0 <= self.held_funds <= MAX_BALANCE
    }

    /// True when crediting `amount` to the available balance stays in bounds.
    pub fn can_credit(&self, amount: u64) -> (r: bool)
        ensures
            r == (self.funds + amount <= MAX_BALANCE),
    {
        self.funds <= MAX_BALANCE - amount as i128
    }

    /// True when debiting `amount` from the available balance stays in bounds.
    pub fn can_debit(&self, amount: u64) -> (r: bool)
        ensures
            r == (self.funds - amount >= -MAX_BALANCE),
    {
        self.funds >= -MAX_BALANCE + amount as i128
    }

    /// True when adding `amount` to the held balance stays in bounds.
    pub fn can_hold(&self, amount: u64) -> (r: bool)
        ensures
            r == (self.held_funds + amount <= MAX_BALANCE),
    {
        self.held_funds <= MAX_BALANCE - amount as i128
    }

    /// Credits `amount` to the available balance. Bounds checking is the
    /// caller's responsibility.
    pub fn increase_funds(&mut self, amount: u64)
        requires
            old(self).valid(),
            old(self).funds + amount <= MAX_BALANCE,
        ensures
            final(self).funds == old(self).funds + amount,
            final(self).held_funds == old(self).held_funds,
            final(self).locked == old(self).locked,
    {
        self.funds = self.funds + amount as i128;
    }

    /// Debits `amount` from the available balance. Bounds checking is the
    /// caller's responsibility.
    pub fn decrease_funds(&mut self, amount: u64)
        requires
            old(self).valid(),
            old(self).funds - amount >= -MAX_BALANCE,
        ensures
            final(self).funds == old(self).funds - amount,
            final(self).held_funds == old(self).held_funds,
            final(self).locked == old(self).locked,
    {
        self.funds = self.funds - amount as i128;
    }

    /// True when the available balance covers `amount`.
    pub fn has_enough_funds(&self, amount: u64) -> (r: bool)
        ensures
            r == (self.funds >= amount),
    {
        self.funds >= amount as i128
    }

    /// Moves `amount` from the available balance to the held balance; the
    /// available balance may go negative here by design (disputing a deposit
    /// whose money was already withdrawn). Bounds checking is the caller's
    /// responsibility.
    pub fn hold_funds(&mut self, amount: u64)
        requires
            old(self).valid(),
            old(self).funds - amount >= -MAX_BALANCE,
            old(self).held_funds + amount <= MAX_BALANCE,
        ensures
            final(self).funds == old(self).funds - amount,
            final(self).held_funds == old(self).held_funds + amount,
            final(self).locked == old(self).locked,
    {
        self.funds = self.funds - amount as i128;
        self.held_funds = self.held_funds + amount as i128;
    }

    /// Adds `amount` to the held balance without touching the available
    /// balance (disputing a withdrawal reclaims money that already left).
    /// Bounds checking is the caller's responsibility.
    pub fn increase_held_funds(&mut self, amount: u64)
        requires
            old(self).valid(),
            old(self).held_funds + amount <= MAX_BALANCE,
        ensures
            final(self).funds == old(self).funds,
            final(self).held_funds == old(self).held_funds + amount,
            final(self).locked == old(self).locked,
    {
        self.held_funds = self.held_funds + amount as i128;
    }

    /// Removes `amount` from the held balance without crediting it back
    /// (chargeback of a deposit, resolve of a withdrawal). Fails, mutating
    /// nothing, when the held balance does not cover `amount`.
    pub fn clear_held_funds(&mut self, amount: u64) -> (r: Result<(), TransactionError>)
        requires
            old(self).valid(),
        ensures
            match r {
                Ok(()) => {
                    &&& old(self).held_funds >= amount
                    &&& final(self).funds == old(self).funds
                    &&& final(self).held_funds == old(self).held_funds - amount
                    &&& final(self).locked == old(self).locked
                },
                Err(e) => {
                    &&& e == TransactionError::NotEnoughFunds
                    &&& old(self).held_funds < amount
                    &&& *final(self) == *old(self)
                },
            },
    {
        if self.held_funds < amount as i128 {
            return Err(TransactionError::NotEnoughFunds);
        }
        self.held_funds = self.held_funds - amount as i128;
        Ok(())
    }

    /// Moves `amount` from the held balance back to the available balance
    /// (resolve of a deposit, chargeback of a withdrawal). Fails, mutating
    /// nothing, when the held balance does not cover `amount`, or when the
    /// credited balance would leave the representable range.
    pub fn release_funds(&mut self, amount: u64) -> (r: Result<(), TransactionError>)
        requires
            old(self).valid(),
        ensures
            match r {
                Ok(()) => {
                    &&& old(self).held_funds >= amount
                    &&& old(self).funds + amount <= MAX_BALANCE
                    &&& final(self).funds == old(self).funds + amount
                    &&& final(self).held_funds == old(self).held_funds - amount
                    &&& final(self).locked == old(self).locked
                },
                Err(e) => {
                    &&& *final(self) == *old(self)
                    &&& (e == TransactionError::NotEnoughFunds || e
                        == TransactionError::BalanceOutOfRange)
                    &&& (e == TransactionError::NotEnoughFunds <==> old(self).held_funds < amount)
                    &&& (e == TransactionError::BalanceOutOfRange <==> old(self).held_funds
                        >= amount && old(self).funds + amount > MAX_BALANCE)
                },
            },
    {
        if self.held_funds < amount as i128 {
            return Err(TransactionError::NotEnoughFunds);
        }
        if !self.can_credit(amount) {
            return Err(TransactionError::BalanceOutOfRange);
        }
        self.held_funds = self.held_funds - amount as i128;
        self.funds = self.funds + amount as i128;
        Ok(())
    }

    /// Locks the account; nothing ever unlocks it.
    pub fn lock(&mut self)
        ensures
            final(self).funds == old(self).funds,
            final(self).held_funds == old(self).held_funds,
            final(self).locked,
    {
        self.locked = true;
    }
}

/// One row of the final report: a client id with the account's balances.
/// `total` is always `available + held`.
#[derive(Copy, Clone, Debug)]
pub struct AccountSummary {
    pub client: ClientId,
    pub available: i128,
    pub held: i128,
    pub total: i128,
    pub locked: bool,
}

/// The ledger: owns every client account, keyed by client id.
pub struct ClientAccounts {
    inner: HashMap<u32, Client>,
    ids: Vec<u32>,
}

impl ClientAccounts {
    /// The ledger as a map from client id to account.
    pub closed spec fn view(&self) -> Map<u32, Client> {
        self.inner@
    }

    /// Well-formedness: every account satisfies the balance invariant (the
    /// rest is bookkeeping for iteration).
    pub closed spec fn wf(&self) -> bool {
        &&& self.ids@.no_duplicates()
        &&& (forall|i: int|
            0 <= i < self.ids@.len() ==> self.inner@.contains_key(#[trigger] self.ids@[i]))
        &&& (forall|k: u32| #[trigger] self.inner@.contains_key(k) ==> self.ids@.contains(k))
        &&& (forall|k: u32|
            self.inner@.contains_key(k) ==> (#[trigger] self.inner@[k]).valid())
    }

    /// An empty ledger.
    pub fn new() -> (r: ClientAccounts)
        ensures
            r.wf(),
            r@ == Map::<u32, Client>::empty(),
    {
        ClientAccounts { inner: HashMap::new(), ids: Vec::new() }
    }

    /// Looks the account of `client_id` up; absence is not an error by
    /// itself, callers decide.
    pub fn get_account(&self, client_id: ClientId) -> (r: Option<Client>)
        ensures
            match r {
                Some(c) => self@.contains_key(client_id.0) && c == self@[client_id.0] && (self.wf()
                    ==> c.valid()),
                None => !self@.contains_key(client_id.0),
            },
    {
        match self.inner.get(&client_id.0) {
            Some(c) => Some(*c),
            None => None,
        }
    }

    /// Creates the account of a new client with `funds` available, nothing
    /// held and no lock. Calling it for an existing id is the caller's
    /// mistake, so it is ruled out here.
    pub fn create_client(&mut self, id: ClientId, funds: u64)
        requires
            old(self).wf(),
            !old(self)@.contains_key(id.0),
        ensures
            final(self).wf(),
            final(self)@ == old(self)@.insert(
                id.0,
                (Client { funds: funds as i128, held_funds: 0, locked: false }),
            ),
    {
        assert(funds as i128 <= MAX_BALANCE) by {
            assert(u64::MAX < MAX_BALANCE);
        };
        self.inner.insert(id.0, Client { funds: funds as i128, held_funds: 0, locked: false });
        self.ids.push(id.0);
        proof {
            assert forall|k: u32| #[trigger] self.inner@.contains_key(k) implies self
                .ids@.contains(k) by {
                if k == id.0 {
                    assert(self.ids@[self.ids@.len() - 1] == id.0);
                } else {
                    assert(old(self).ids@.contains(k));
                    let i = choose|i: int| 0 <= i < old(self).ids@.len() && old(self).ids@[i] == k;
                    assert(self.ids@[i] == k);
                }
            }
            assert forall|i: int|
                0 <= i < self.ids@.len() implies self.inner@.contains_key(
                #[trigger] self.ids@[i],
            ) by {
                if i < old(self).ids@.len() {
                    assert(old(self).inner@.contains_key(old(self).ids@[i]));
                }
            }
            assert forall|i: int, j: int|
                0 <= i < self.ids@.len() && 0 <= j < self.ids@.len() && i != j implies self.ids@[i]
                != self.ids@[j] by {
                if i < old(self).ids@.len() && j < old(self).ids@.len() {
                } else if i == old(self).ids@.len() as int {
                    assert(old(self).ids@.contains(self.ids@[j])
                        ==> old(self).inner@.contains_key(self.ids@[j]));
                } else if j == old(self).ids@.len() as int {
                    assert(old(self).ids@.contains(self.ids@[i])
                        ==> old(self).inner@.contains_key(self.ids@[i]));
                }
            }
            assert(self.ids@.no_duplicates());
        }
    }

    /// Stores the new state of an existing account.
    pub fn update_account(&mut self, id: ClientId, account: Client)
        requires
            old(self).wf(),
            old(self)@.contains_key(id.0),
            account.valid(),
        ensures
            final(self).wf(),
            final(self)@ == old(self)@.insert(id.0, account),
    {
        self.inner.insert(id.0, account);
        proof {
            assert forall|i: int|
                0 <= i < self.ids@.len() implies self.inner@.contains_key(
                #[trigger] self.ids@[i],
            ) by {
                assert(old(self).inner@.contains_key(old(self).ids@[i]));
            }
        }
    }

    /// The final report: one row per account, in no promised order, with
    /// `total = available + held`. Every account appears exactly once.
    pub fn snapshot(&self) -> (r: Vec<AccountSummary>)
        requires
            self.wf(),
        ensures
            forall|i: int|
                0 <= i < r@.len() ==> {
                    let row = #[trigger] r@[i];
                    &&& self@.contains_key(row.client.0)
                    &&& row.available == self@[row.client.0].funds
                    &&& row.held == self@[row.client.0].held_funds
                    &&& row.total == self@[row.client.0].funds + self@[row.client.0].held_funds
                    &&& row.locked == self@[row.client.0].locked
                },
            forall|k: u32|
                self@.contains_key(k) ==> exists|i: int|
                    0 <= i < r@.len() && (#[trigger] r@[i]).client.0 == k,
            forall|i: int, j: int|
                0 <= i < r@.len() && 0 <= j < r@.len() && i != j ==> (#[trigger] r@[i]).client.0
                    != (#[trigger] r@[j]).client.0,
    {
        let mut rows: Vec<AccountSummary> = Vec::new();
        let mut n: usize = 0;
        while n < self.ids.len()
            invariant
                self.wf(),
                n <= self.ids@.len(),
                rows@.len() == n,
                forall|i: int|
                    0 <= i < n ==> (#[trigger] rows@[i]).client.0 == self.ids@[i],
                forall|i: int|
                    0 <= i < rows@.len() ==> {
                        let row = #[trigger] rows@[i];
                        &&& self@.contains_key(row.client.0)
                        &&& row.available == self@[row.client.0].funds
                        &&& row.held == self@[row.client.0].held_funds
                        &&& row.total == self@[row.client.0].funds + self@[row.client.0].held_funds
                        &&& row.locked == self@[row.client.0].locked
                    },
            decreases self.ids@.len() - n,
        {
            let id = self.ids[n];
            assert(self.inner@.contains_key(id));
            let account = *self.inner.get(&id).unwrap();
            assert(account.valid());
            rows.push(
                AccountSummary {
                    client: ClientId(id),
                    available: account.funds,
                    held: account.held_funds,
                    total: account.funds + account.held_funds,
                    locked: account.locked,
                },
            );
            n = n + 1;
        }
        proof {
            assert forall|k: u32| self@.contains_key(k) implies exists|i: int|
                0 <= i < rows@.len() && (#[trigger] rows@[i]).client.0 == k by {
                assert(self.ids@.contains(k));
                let i = choose|i: int| 0 <= i < self.ids@.len() && self.ids@[i] == k;
                assert(rows@[i].client.0 == k);
            }
            assert forall|i: int, j: int|
                0 <= i < rows@.len() && 0 <= j < rows@.len() && i != j implies (
            #[trigger] rows@[i]).client.0 != (#[trigger] rows@[j]).client.0 by {
                assert(self.ids@[i] != self.ids@[j]);
            }
        }
        rows
    }
}

} // verus!
