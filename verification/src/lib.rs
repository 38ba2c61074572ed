//! A small key/value database library speaking the RESP wire format.
//!
//! The crate is organised around three verified subsystems:
//! a streaming frame codec (`frame`), a command parser and dispatcher
//! (`parser`, `cmd`), and two storage engines (`mini_redis`,
//! `simple_store`) selected through `key_value_store`.

pub mod cmd;
pub mod connection;
pub mod error;
pub mod frame;
pub mod key_value_store;
pub mod mini_redis;
pub mod parser;
pub mod simple_store;
