//! The shared summary/shaping library: graph projections of an analysis run, findings shaping and
//! the reply legends, each function stated over plain values and proved.
pub mod graph;
pub mod json;
pub mod manifest;
pub mod module_map;
pub mod output;
pub mod sort;
pub mod text;
