//! Call-graph analysis and transformation library.
//!
//! The crate models whole-program call graphs as dense, index-addressed
//! directed graphs ([`graph::TypedGraph`]), links several object-file-like
//! symbol tables into one ([`linker::object_file::ObjectFile`]), and rewrites
//! graphs through an ordered pipeline of passes ([`linker::pass`]).

pub mod graph;
pub mod linker;
