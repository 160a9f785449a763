//! MarkovJunior: probabilistic rewrite-rule procedural generation on voxel grids,
//! with its grid model, rule matching, distance fields, observation potentials,
//! execution nodes, model loading and simulation recording.
pub mod all_node;
pub mod context;
pub mod convchain_node;
pub mod convolution_node;
pub mod field;
pub mod geom;
pub mod grid;
pub mod grid_ops;
pub mod grid_view;
pub mod helper;
pub mod interpreter;
pub mod loader;
pub mod map_node;
pub mod model;
pub mod models_list;
pub mod matching;
pub mod node;
pub mod observation;
pub mod one_node;
pub mod parallel_node;
pub mod path_node;
pub mod polar_grid;
pub mod pattern;
pub mod recording;
pub mod rule_node;
pub mod rule_symmetry;
pub mod rng;
pub mod rule;
pub mod symmetry;
pub mod text;
pub mod vecs;
pub mod xml;
