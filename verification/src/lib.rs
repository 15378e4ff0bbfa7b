//! Access-pattern-driven storage tiering: the event model, the policy
//! contract, and a multi-tier LRU-2Q tiering engine.

pub mod policy_engine;
pub mod policies;
