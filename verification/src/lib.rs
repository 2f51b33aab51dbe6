//! The default worker-selection policy of a KV-cache-aware request router.
//!
//! Each eligible worker gets a cost from its cache overlap and its load, and the policy picks
//! a worker by cost: the lowest, ties broken at random, or, at a positive temperature, one
//! drawn by softmax. Costs are `binary64` numbers; see [`binary64`] for how they are computed
//! and what is proved of them.

pub mod binary64;
pub mod config;
pub mod cost;
pub mod inputs;
pub mod laws;
pub mod parameters;
pub mod picker;
pub mod policy;
pub mod scorer;
pub mod softmax;
pub mod stream;
