//! A verified ledger engine: fixed-precision money, typed transaction
//! records, per-client account balances with a two-phase dispute
//! lifecycle, and a store that enforces transaction validity,
//! idempotent replay handling, and dispute-state invariants.

pub mod accounts;
pub mod digits;
pub mod laws;
pub mod money;
pub mod transactions;

pub use money::Money;
pub use money::MoneyParseError;
