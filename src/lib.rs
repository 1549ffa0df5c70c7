//! Service-discovery registry: a consistent-hash ring per namespace, with
//! health tracking driven by heartbeats and failure reports.

pub mod consistent_hash;
pub mod data;
pub mod decimal;
pub mod error;
pub mod hash;
pub mod pool;
pub mod service_discovery;
