//! Classifier for TCP/443 connection-tracking entries whose byte counts show a
//! large client payload answered by a tiny reply, with cross-cycle
//! deduplication and batching of firewall set updates.

pub mod text;
pub mod address;
pub mod conntrack;
pub mod cycle;
