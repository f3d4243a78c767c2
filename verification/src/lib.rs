//! The core of a language server for Devicetree sources: an index of the
//! labels, references, macros and file links of a set of files, and the
//! answers to the requests an editor makes of it.

pub mod assoc;
pub mod backend;
pub mod captures;
pub mod data;
pub mod edit;
pub mod file_depot;
pub mod graph;
pub mod includes_depot;
pub mod index_laws;
pub mod labels_depot;
pub mod laws;
pub mod loader;
pub mod reach;
pub mod references_depot;
pub mod rename;
pub mod request_laws;
pub mod soundness;
pub mod symbols;
pub mod syntax;
pub mod text;
pub mod text_laws;
pub mod tracking;
pub mod types;
pub mod undo;
pub mod url;
pub mod utils;
