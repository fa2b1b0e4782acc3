//! A forwarding DNS resolver core: a live routing catalog keyed by DNS
//! name, reconciled from a directory of zone-configuration files, with
//! longest-suffix query routing.
//!
//! This crate holds the verified logic: name handling, config parsing
//! and validation, the routing catalog, the reconciler, and the query
//! handling decisions. Sockets, filesystem watching, and the DNS wire
//! framework live outside it and hand plain values in and out.

pub mod bytes;
pub mod catalog;
pub mod config;
pub mod config_text;
pub mod dns_name;
pub mod forwarder;
pub mod ip_addr;
pub mod laws;
pub mod listener;
pub mod resolver;
