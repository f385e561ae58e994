//! The verified core of a small HTTP redirect service. A request names a
//! "bang command": a key that selects a configured URL template, followed by
//! a query that is percent-encoded and spliced into the template. The core
//! covers the rule store and the resolver, percent-encoding and -decoding,
//! the minimal first-line request parser, the capability-typed route table,
//! response framing, and the pure decisions of the host/mirror configuration
//! synchronisation protocol. Sockets, files, threads and the shared lock
//! live outside and feed these functions plain values.
pub mod bytes;
pub mod config;
pub mod encoding;
pub mod http;
pub mod response;
pub mod server;
