//! A stock-quote subscription engine: the quote wire codec, the ticker
//! catalog, the control-command grammar, the subscriber registry with its
//! keepalive rules, the quote generator and the client-side ping policy.

pub mod catalog;
pub mod client;
pub mod command;
pub mod decimal;
pub mod error;
pub mod generator;
pub mod quote;
pub mod registry;
pub mod server;
pub mod text;
