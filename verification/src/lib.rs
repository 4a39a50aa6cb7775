//! Resolver for the set of HDL source files needed to elaborate a top-level
//! design unit.
//!
//! A project is handed in as a list of [`SourceFile`] values (a path and the
//! file's bytes); building the list and reading the files is the caller's
//! business. The library scans each file with a recognized extension for
//! module declarations, builds a name-to-file index, and walks the
//! instantiation graph from a requested top module to produce the
//! deduplicated list of files required to build it, bottom-up (each file
//! after the files of the modules it instantiates).

use vstd::prelude::*;

pub mod index;
pub mod resolve;
pub mod scan;
pub mod table;

pub use index::build_module_map;
pub use resolve::resolve_filelist;
pub use resolve::resolve_project;
pub use scan::extract_instantiated_modules;
pub use scan::extract_module_decls;

verus! {

/// One source file of the project: its path and its full content, both as
/// byte strings. Paths that are not valid text are carried lossily; content
/// of an unreadable file is by convention empty.
pub struct SourceFile {
    /// The file's path.
    pub path: Vec<u8>,
    /// The file's full text.
    pub content: Vec<u8>,
}

} // verus!
