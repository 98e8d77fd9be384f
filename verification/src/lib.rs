//! Wire: a communication fabric for AI-to-AI exchange. Ephemeral frames are
//! sealed end to end and dropped after delivery; commitment events (membership,
//! bilateral receipts, identity shares, revocations) go on a per-channel signed
//! hash log that a third party can check offline.
#![allow(unused_imports)]

pub mod error;
pub mod codec;
pub mod text;
pub mod crypto;
pub mod model;
pub mod chain;
pub mod net;
pub mod metrics;
pub mod relay;
pub mod talk;
pub mod pack;
pub mod plugin;
pub mod explain;
pub mod ops;
pub mod node;
