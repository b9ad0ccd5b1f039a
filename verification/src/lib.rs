//! A small payment engine: it consumes an ordered sequence of transaction
//! records (deposits, withdrawals, and claims against earlier operations:
//! dispute, resolve, chargeback) and maintains per-client accounts with
//! available and held funds, rejecting invalid records with typed errors.
//!
//! All money is held in fixed-point units of 1/10_000 of a currency unit, so
//! four decimal digits are always exact.

pub mod amounts;
pub mod clients;
pub mod laws;
pub mod records;
pub mod transactions;

pub use clients::ClientAccounts;
pub use transactions::MoneyOperationsRegister;
