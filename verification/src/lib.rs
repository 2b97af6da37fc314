//! A staking and delegation ledger built on a minimal balance ledger.
//!
//! The crate has three layers:
//! - [`storage`]: a small key-value store keyed by account identifier, the
//!   shared backing for every persisted map;
//! - [`currency`]: an account-balance ledger with a running total issuance,
//!   exposing `mint` and `transfer`;
//! - [`staking`]: validator registration, one-shot delegation, and the
//!   era-triggered selection of the active validator set.

pub mod currency;
pub mod staking;
pub mod storage;
