//! The logic of a log driver plugin for a container engine: it reads the
//! records that the engine writes to a named pipe, makes a log message of
//! each and has it sent to an ingest endpoint, until the engine asks it to
//! stop.
//!
//! The library decides and computes; it does no input or output. Opening
//! and reading the pipe, serving the engine's requests and sending the
//! messages are done by its caller, which tells the library what has
//! happened and is told what to do next.

pub mod api;
pub mod client;
pub mod config;
pub mod error;
pub mod json;
pub mod log;
pub mod protobuf;
pub mod reader;
pub mod server;
pub mod signal;
pub mod task;
pub mod text;
pub mod wire;
