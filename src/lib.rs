//! An in-memory key-value server core: the wire codec, command parsing,
//! the store with lazy expiry, and the command executor.
pub mod command;
pub mod command_handler;
pub mod decimal;
pub mod handler;
pub mod resp;
pub mod resp_handler;
pub mod resp_string;
pub mod storage;
pub mod table;
