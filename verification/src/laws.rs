//! What holds of the policy as a whole.

pub mod choices;
pub mod costs;
pub mod counting;
pub mod drawing;
pub mod pricing;
pub mod sampling;
pub mod settings;
pub mod tradeoffs;
pub mod weights;
