//! State-management core of a desktop reconnaissance-tracking tool.
//!
//! The library keeps a hierarchical inventory of workspaces, machines,
//! ports and notes, ingests results from an external network-scanning
//! service, and encodes the whole store as a JSON document for durable
//! persistence.  All logic is verified; the surrounding process (file
//! and network I/O, the exclusive lock) lives outside the library and
//! hands plain values in and out.

pub mod codec;
pub mod commands;
pub mod errors;
pub mod ingest;
pub mod json;
pub mod laws;
pub mod ops;
pub mod parse;
pub mod store;

pub use store::Store;
