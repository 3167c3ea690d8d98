//! A small key-value server speaking a subset of the RESP wire protocol,
//! with its parsers, encoders, command interpreter and dump format verified.
pub mod decimal;
pub mod text;
pub mod protocol;
pub mod parser;
pub mod resp;
pub mod resp_laws;
pub mod store;
pub mod db;
pub mod db_laws;
pub mod cli;
pub mod server;
pub mod split_laws;
