//! Inventory of running processes classified by one environment variable.
//!
//! The library holds the logic of the scan: parsing a NUL-delimited
//! environment record, classifying the outcome per process, normalizing a
//! raw command-line record, and aggregating the classified records either
//! as a histogram (grouped by classification, smallest groups first) or as
//! a flat listing (sorted by classification, then process id).
//! Reading `/proc` itself, argument handling and printing live outside.

pub mod aggregate;
pub mod classify;
pub mod cmdline;
pub mod envrec;
pub mod order;
pub mod pid;
