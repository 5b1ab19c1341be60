//! A push-pull epidemic (gossip) dissemination protocol over a known set of
//! peers. Each rumor runs an independent three-phase state machine (B: exponential
//! growth with a median counter rule, C: quadratic-shrinking tail, D: terminated)
//! that bounds total traffic and guarantees termination. Rumors travel together in
//! signed push/response transmissions.

pub mod codec;
pub mod crypto;
pub mod cutoffs;
pub mod error;
pub mod gossip;
pub mod gossiping;
pub mod id;
pub mod state;
pub mod stepper;
pub mod transmission;
