//! A small Redis-like key-value server library: the RESP wire format, the
//! command layer and the in-memory store, with the decisions of the network
//! loops written as step functions.

pub mod acceptor;
pub mod byte_buf;
pub mod command;
pub mod config;
pub mod connection;
pub mod cursor;
pub mod database;
pub mod frame;
pub mod handler;
pub mod laws;
pub mod metrics;
pub mod parse;
pub mod requester;
pub mod text;
pub mod wire_laws;
