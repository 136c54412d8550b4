//! The portable core of a tiled renderer.
pub mod bench;
pub mod bytes;
pub mod diff;
pub mod error;
pub mod hash;
pub mod host;
pub mod host_vec;
pub mod info;
pub mod info_laws;
pub mod labels;
pub mod num;
pub mod png;
pub mod raster;
pub mod resource;
pub mod rounding;
pub mod scene;
pub mod seqs;
pub mod shadow;
pub mod text;
