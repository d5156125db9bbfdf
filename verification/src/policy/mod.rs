pub mod dynamic_weighted_round_robin;
pub mod factory;
pub mod least_connections;

use vstd::prelude::*;

use crate::host::HostState;

pub use crate::policies::{RoundRobin, WeightedRoundRobin};
pub use dynamic_weighted_round_robin::DynamicWeightedRoundRobin;
pub use least_connections::LeastConnections;

verus! {

/// A way of choosing which of its hosts serves the next request.
pub trait BalancerPolicy {
    /// The hosts the policy chooses from, in order.
    spec fn policy_hosts(&self) -> Seq<HostState>;

    /// The policy's internal state is consistent, and its weights are small enough for the
    /// arithmetic of a selection.
    spec fn policy_wf(&self) -> bool;

    /// Chooses the host, by its position among the policy's hosts, that serves the next request.
    fn next(&mut self) -> (res: Option<usize>)
        requires
            old(self).policy_wf(),
            old(self).policy_hosts().len() > 0,
        ensures
            final(self).policy_wf(),
            final(self).policy_hosts() == old(self).policy_hosts(),
            res matches Some(i) && i < old(self).policy_hosts().len(),
    ;
}

} // verus!
