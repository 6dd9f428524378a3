pub mod bounds;
pub mod config;
pub mod graph;
pub mod heaviest;
pub mod laws;
pub mod matrix;
pub mod model;
pub mod order;
pub mod perm;
pub mod solver;
pub mod sums;
pub mod superpixel_config;
