//! Verified core of a TCP port scanner: target and port parsing, packet
//! layouts, reply classification, host-discovery bookkeeping, DNS PTR
//! handling, TLS/HTTP probe parsing, scan diffing and report formatting.

pub mod text;
pub mod ports;
pub mod diff;
pub mod targets;
pub mod dns;
pub mod date;
pub mod probe;
pub mod packet;
pub mod scanner;
pub mod services;
pub mod report;
