pub mod branch_bound;
pub mod distance_map;
pub mod errors;
pub mod greedy;
pub mod point;
pub mod priority_bnb;
pub mod priority_queue_structs;
pub mod query;
pub mod solution;
pub mod solver;
pub mod tour;
pub mod two_opt;
