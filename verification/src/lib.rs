//! Sorting of `Cargo.toml` manifests: dependency tables, workspace arrays and
//! table headers.
pub mod array;
pub mod content_laws;
pub mod document_laws;
pub mod group;
pub mod heading;
pub mod laws;
pub mod model;
pub mod numbering_laws;
pub mod order;
pub mod position;
pub mod sort;
pub mod table;
pub mod toml;
