//! A minimal single-room chat server core: an HTTP/1.1 message parser and
//! serializer working on raw request text, a response builder with documented
//! defaults, a router from parsed requests to handler actions, and a listener
//! registry that fans a posted chat message out to every connection waiting
//! for it.
pub mod chat;
pub mod error;
pub mod handler;
pub mod http;
pub mod laws;
pub mod opts;
pub mod qr;
pub mod routes;
pub mod strutil;
