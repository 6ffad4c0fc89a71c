//! Stake-weighted candidacy and delegation accounting for a
//! delegated-proof-of-stake scheme.
//!
//! The crate keeps a pool of validator candidates (each backed by a bonded
//! amount of collateral), a ledger of per-(delegator, candidate) stake
//! allocations with its derived indices, and a custody ledger of free and
//! held funds. At period boundaries it produces a deterministic
//! [`snapshot::EpochSnapshot`] of validator self-bonds and delegation
//! amounts for a downstream selection and reward process.

pub mod balance;
pub mod candidate;
pub mod engine;
pub mod errors;
pub mod laws;
pub mod snapshot;
