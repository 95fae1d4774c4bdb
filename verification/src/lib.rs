//! Core of a streaming-channel monitor.
//!
//! A registry of watched channels is kept in insertion order; a poll cycle
//! reconciles the remotely reported live set into it, detecting offline-to-live
//! transitions and deciding which channels to open exactly once per live
//! session; a persistence codec turns the registry into the durable snapshot
//! file and back.  All I/O (network, files, the browser) stays outside this
//! crate: callers hand in plain bytes and live-name lists and carry the
//! returned snapshots and open requests out.

pub mod entry;
pub mod registry;
pub mod store;
pub mod monitor;
pub mod history;
