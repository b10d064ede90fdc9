//! The in-process message fabric of a telemetry relay.
//!
//! Records arrive from brokers, get gap-free per-unit ids and a bounded
//! retention window in the store, and fan out to authenticated WebSocket
//! clients, each restricted to the units its workspace lists. The three
//! actors — ingest and retention, routing, and the per-connection
//! coalescing mailbox — live here as verified state machines; the sockets,
//! timers and channels around them are the caller's business.

pub mod comm;
pub mod config;
pub mod conn;
pub mod dataflow;
pub mod db;
pub mod dist;
pub mod idmap;
pub mod mailbox;
pub mod pairmap;
pub mod repo;
pub mod server_model;
pub mod session;
pub mod smap;
pub mod sql;
pub mod user;
pub mod wplace;

pub use smap::StrMap;
pub use smap::StrSet;
