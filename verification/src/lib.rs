//! A content-addressed checkout accelerator.
//!
//! The library holds the verified core of a fast clone tool: a
//! content-addressed object store, the reference-resolution rule that
//! turns a branch or tag name into an object hash, the tree-listing
//! parser, and the planning logic that materializes a tree into a
//! target directory by hard-linking store entries.
//!
//! All text crossing the backend boundary (command output, hashes,
//! paths) is handled as raw bytes. Everything that touches the real
//! filesystem or spawns the backend lives outside this crate's
//! verified core and only feeds plain values into it.

pub mod checkout;
pub mod errors;
pub mod mode;
pub mod paths;
pub mod refs;
pub mod store;
pub mod text;
pub mod tree;
pub mod walk;
