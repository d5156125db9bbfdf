pub mod math;
pub mod statistics;
