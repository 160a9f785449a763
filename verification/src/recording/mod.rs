//! Recording of simulation frames into a binary archive format.
pub mod archive;
pub mod grid_type;
pub mod recorder;
pub mod traits;
pub mod video;
