//! An in-memory IP-to-ASN database: given an IPv4 or IPv6 address, find the
//! Autonomous System that announces the range containing it, together with
//! its country tag and description.
//!
//! The database is populated once, either from a tab-separated dump or from
//! a compact binary snapshot, and is read-only afterwards.

pub mod wire;
pub mod ranges;
pub mod asn;
pub mod stringpool;
pub mod ipparse;
pub mod tsv;
pub mod codec;
pub mod db;
