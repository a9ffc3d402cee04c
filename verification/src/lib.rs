pub mod model;
pub mod rng;
pub mod oram;
pub mod tree;
