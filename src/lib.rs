//! A stateless watcher contract: it forwards watch-list requests for outbound
//! transactions to the core module and answers tracker queries with the core
//! module's snapshot, over a canonical JSON wire format.

pub mod codec;
pub mod contract;
pub mod json;
pub mod msg;
