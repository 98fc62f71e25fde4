//! A minimal HTTP/1.x server core: route patterns, a route trie, a handler
//! registry, request parsing, response serialization, the per-connection
//! read state machine, and the argument-extraction combinator.
//!
//! The networking edge (sockets, the accept loop, handler invocation) lives
//! outside this crate; everything here is plain data in, plain data out.

pub mod body;
pub mod builder;
pub mod compression;
pub mod connection;
pub mod errors;
pub mod extract;
pub mod extractors;
pub mod futures;
pub mod handlers;
pub mod headers;
pub mod method;
pub mod params;
pub mod request;
pub mod response;
pub mod route;
pub mod state;
pub mod text;
pub mod wire;
