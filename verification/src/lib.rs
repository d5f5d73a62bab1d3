//! Verified core of a terminal disk-usage analyzer: the directory tree with its
//! aggregated sizes, ordering and filtering of a directory's entries, the
//! navigation and key-handling state machine of the browser, the assembly of a
//! scanned directory, paths read component by component, and the parsing of
//! the mount table.
pub mod app;
pub mod browse;
pub mod layout;
pub mod mounts;
pub mod paths;
pub mod scan;
pub mod sort;
pub mod text;
pub mod tree;
