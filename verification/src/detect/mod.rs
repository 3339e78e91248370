//! Relationship detectors: each turns section text (or the corpus structure)
//! into typed, weighted edges between documents, resolving every target
//! against the corpus table and counting what it could not resolve.

pub mod corpus;
pub mod section;
pub mod mdlink;
pub mod wikilink;
pub mod samedir;
pub mod sequence;
pub mod pathcite;
pub mod href;
pub mod cratecite;
pub mod sharedterm;
pub mod termlinks;
pub mod linkbudget;
pub mod termgraph;
