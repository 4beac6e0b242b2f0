//! kvstore: a persistent key-value store served over a line protocol and a
//! small web page.

pub mod client;
pub mod clock;
pub mod parser;
pub mod persistence;
pub mod protocol;
pub mod server;
pub mod store;
pub mod text;
pub mod web;
pub mod webpage;
