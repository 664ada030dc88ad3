//! Heuristic text classification: strict IPv4/IPv6 address and CIDR range
//! validation, extraction of addresses embedded in free-form text, and
//! structural classifiers for registry-style paths, SQL statements,
//! pattern expressions and filesystem paths.

pub mod chars;
pub mod ipv4;
pub mod cidr;
pub mod filepath;
pub mod ipv6;
pub mod network;
pub mod pattern;
pub mod registry;
pub mod sql;
