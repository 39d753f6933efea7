pub mod compose;
pub mod errors;
pub mod grid;
pub mod index;
pub mod matcher;
pub mod orchestrator;
pub mod raster;
pub mod rng;
pub mod score;
