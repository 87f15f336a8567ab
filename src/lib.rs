//! Sequence-graph (GFA) manipulation, centred on the contraction of spurious
//! breakpoints: node pairs that were split without need and can be merged back.
pub mod adjacency;
pub mod anchor;
pub mod classify;
pub mod contraction;
pub mod converter;
pub mod graph;
pub mod index_gfa_file;
pub mod mapping;
pub mod mask_paths;
pub mod optimize;
pub mod remove_loops;
pub mod rewrite;
pub mod sharepg;
pub mod simplify_graph;
pub mod spurious;
pub mod text;
