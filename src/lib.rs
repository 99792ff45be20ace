//! A publish/subscribe relay core: a registry of per-key delivery queues
//! served round-robin, and the per-connection subscription session.

pub mod channel;
pub mod queue;
pub mod registry;
pub mod request;
pub mod session;
pub mod laws;
