//! Real-time presence and cursor-sharing service, verified with Verus.
//!
//! The crate holds the service's logic: the binary wire codec, the
//! per-connection session registry, the per-room membership and short-id
//! allocator, the connection manager that routes events and fans frames out,
//! the envelope format used on the inter-instance bus, the configuration
//! rules, and the input checks of the Kanban collaborator. Transport and
//! broker I/O live outside the library and hand it plain values.

pub mod bus;
pub mod codec;
pub mod config;
pub mod kanban;
pub mod manager;
pub mod room;
pub mod session;
