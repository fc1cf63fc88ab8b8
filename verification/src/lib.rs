//! Event-driven payout engine for a coin wallet.
//!
//! On every new-block notification the engine checks the wallet's spendable
//! balance and, once it exceeds a fixed threshold, distributes a fixed
//! percentage split of the surplus (after a flat fee) to a fixed set of
//! recipient addresses through the wallet's JSON-RPC interface.
//!
//! All monetary amounts are held as nonnegative fixed-point integers in
//! minor units (eight decimal places), so that arithmetic and serialization
//! are exact and deterministic. Rounding, where sub-minor precision arises,
//! is round-half-up; see [`money`].

pub mod engine;
pub mod money;
pub mod rpc;
pub mod text;
