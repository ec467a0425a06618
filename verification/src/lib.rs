//! Protocol decoding core of a capture proxy for a voxel-game datagram
//! protocol: a schema-driven binary decoder, the framing of the capture log,
//! the structural differ over decoded packets, and the bookkeeping of capture
//! sessions and packet filters.
//!
//! The modules, leaves first:
//!
//! - `text`, `value`, `types`, `wire`: the building blocks: text helpers,
//!   the tree of decoded values, the tree of wire types, the byte cursor.
//! - `schema`, `resolver`, `protocol`: the protocol document, the resolving of
//!   its type expressions, and the packet dispatcher.
//! - `decoder`: one decoded value per node of a wire type.
//! - `diff`, `render`: the structural differ and its display lines.
//! - `packet_logger`, `session_log`: capture records, their framing in the
//!   append log, and the reading of a log.
//! - `session`, `proxy`: capture sessions and the decisions of the relay.
//! - `db`, `filter`, `viewer`: the store's records and queries, packet
//!   filters, and what the inspector computes.

pub mod db;
pub mod decoder;
pub mod diff;
pub mod filter;
pub mod packet_logger;
pub mod protocol;
pub mod proxy;
pub mod render;
pub mod resolver;
pub mod schema;
pub mod session;
pub mod session_log;
pub mod text;
pub mod types;
pub mod value;
pub mod viewer;
pub mod wire;

pub use packet_logger::{PacketDirection, PacketEntry};
