pub mod counter;
pub mod solution;
pub mod solver;
pub mod tower;
