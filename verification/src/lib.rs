//! Plumbing of a small content-addressed version-control store: the binary
//! framing of blobs, trees and commits, their identifiers, and the decisions
//! behind writing, reading and walking them.
//!
//! The library does no input or output. Where an operation needs the file
//! system, the library says what to ask of it and takes the answer as a value.

pub mod byte_seq;
pub mod commit;
pub mod decimal;
pub mod error;
pub mod hashing_values;
pub mod history;
pub mod object;
pub mod refs;
pub mod snapshot;
pub mod store;
pub mod text;
pub mod tree;
pub mod tree_entry;
pub mod tree_order;
pub mod walk;
