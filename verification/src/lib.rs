//! Reorders the name-server directives of a resolver configuration file so
//! that preferred-family (colon-separated) addresses come first, leaving every
//! other line untouched, and maintains a two-line marker header at the top.

pub mod header;
pub mod laws;
pub mod order;
pub mod pipeline;
pub mod rewrite;
pub mod scan;
pub mod text;
