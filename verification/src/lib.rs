//! A four-replica HotStuff order-book node: its key-value store, the order
//! book kept in the replicated application state, the wire framing between
//! peers, and the small rules of node start-up.
pub mod bytes;
pub mod sort;
pub mod kv;
pub mod codec;
pub mod orders;
pub mod app;
pub mod api;
pub mod book;
pub mod net;
pub mod node;
pub mod ticker;
