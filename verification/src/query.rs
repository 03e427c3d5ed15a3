pub mod arith;
pub mod path_length;
pub mod diameter;
pub mod center;
pub mod farthest_vertex;
pub mod median;
