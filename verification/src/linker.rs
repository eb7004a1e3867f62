//! Symbol model, the object-file linker, pattern support and the pass
//! pipeline.

pub mod config;
pub mod conversion;
pub mod graph_link;
pub mod object_file;
pub mod pass;
pub mod pattern;
pub mod symbol;
pub mod text;
