//! Resolver for native shared-library dependencies of a vendor image.
//!
//! A registry (flat text, one `path;deps` record per line) describes each
//! library and the dependencies it declares.  The crate parses the registry
//! into a graph of library records, resolves each declared dependency to a
//! record with a bitness-aware lookup rule, computes the transitive closure
//! of a set of query names or paths, and classifies every closure member
//! against a list of libraries already present in a target tree.

pub mod strutil;
pub mod types;
pub mod utils;
pub mod parse;
pub mod closure;
pub mod report;
