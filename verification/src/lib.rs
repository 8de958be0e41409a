//! A small in-memory key-value server library: an AVL tree of `u32`
//! values, a chained hash map with incremental resizing, and the request
//! and response wire formats spoken between the server and its clients.

pub mod avl;
pub mod hashtable;
pub mod wire;
pub mod server;
pub mod client;
pub mod stats;
pub mod conn;
