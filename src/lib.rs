//! Settlement of multi-input, multi-output token transfers with per-denomination
//! burn and commission fees.
//!
//! [`calculate_balance_changes`] checks that a transfer balances in every
//! denomination, charges each fee-paying sender its rounded-up share of the burn
//! and commission of each denomination, rejects the transfer if a sender cannot
//! cover an input coin and its fees, and otherwise returns the net change of
//! every address. Its contract is stated over the model in [`model`]; the laws
//! that follow from it are proved in [`laws`].
pub mod arith;
pub mod laws;
pub mod ledger;
pub mod model;
pub mod settlement;
pub mod sums;
pub mod types;

pub use arith::{evaluate_rate, min, roundup};
pub use ledger::{DenomTotals, TxData};
pub use settlement::calculate_balance_changes;
pub use types::{Balance, Coin, DenomDefinition, MultiSend, Rate, SettlementError, MAX_TOTAL};
