//! A small server for the RESP wire protocol: an incremental decoder, an
//! encoder, a command dispatcher and a shared key-value store with expiry.
pub mod buf;
pub mod parser;
pub mod wire;
pub mod roundtrip;
pub mod store;
pub mod command;
