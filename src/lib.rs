//! Position tracking for a text editor: a marker index of line anchors, and a
//! manager that converts between line numbers and byte offsets through it,
//! scanning a bounded window and estimating beyond it. Diagnostics from a
//! language server are reconciled into overlays on top of the same positions.
pub mod buffer;
pub mod config;
pub mod diagnostics;
pub mod laws;
pub mod line_anchor;
pub mod marker;
pub mod text;
