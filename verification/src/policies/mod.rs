pub mod factory;
pub mod round_robin;
pub mod smooth;
pub mod weighted_round_robin;
pub mod weighted_round_robin2;

pub use round_robin::RoundRobin;
pub use weighted_round_robin::WeightedRoundRobin;
pub use weighted_round_robin2::WeightedRoundRobin2;
