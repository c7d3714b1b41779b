//! Discovery of locally running legacy game servers.
//!
//! The crate decodes the binary reply of the legacy "server list ping"
//! protocol into structured metadata, filters the host's socket table down
//! to listening TCP endpoints, aggregates the outcomes of a scan pass, and
//! tracks the port mappings a gateway session has opened so they can be
//! released together. All I/O (the probes themselves, the socket-table
//! query, the gateway requests) is left to the caller, which feeds the
//! results back in as plain values.

pub mod packets;
pub mod port_forwarding;
pub mod server_scanner;
