//! A minimal in-memory key/value engine in the style of a RESP server: a
//! keyspace of scalar and list entries with lazy millisecond expiry, a
//! command executor, a blocking-pop scan, a RESP reply encoder, and a RESP
//! command parser.

pub mod bytes;
pub mod command;
pub mod exec;
pub mod laws;
pub mod parser;
pub mod resp;
pub mod store;
