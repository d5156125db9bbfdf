use vstd::prelude::*;

use crate::host::HostState;
use crate::policies::smooth::{pick, step, sum, zeros};
use crate::policies::weighted_round_robin::weights_of;
use crate::policies::weighted_round_robin2::interleaved_select;
use crate::policy::least_connections::is_least_loaded;
use crate::policy::BalancerPolicy;
use crate::policies::weighted_round_robin::fits_weights;
use crate::policies::weighted_round_robin2::{config_weights, max_weight_of};
use crate::policies::{RoundRobin, WeightedRoundRobin, WeightedRoundRobin2};
use crate::policy::LeastConnections;
use crate::utils::math::gcd_seq;

verus! {

/// The balancing policies of the static kind.
#[derive(Clone, Copy)]
pub enum PolicyType {
    RoundRobin,
    WeightedRoundRobin,
    WeightedRoundRobin2,
    LeastConnections,
}

/// A policy of any of the static kinds.
pub enum AnyPolicy {
    RoundRobin(RoundRobin),
    WeightedRoundRobin(WeightedRoundRobin),
    WeightedRoundRobin2(WeightedRoundRobin2),
    LeastConnections(LeastConnections),
}

/// A policy of kind `policy` can be made over `hosts`: weighted round robin adds the weights
/// up in a `usize`, and interleaved weighted round robin needs a host.
pub open spec fn make_accepts(policy: PolicyType, hosts: Seq<HostState>) -> bool {
    match policy {
        PolicyType::WeightedRoundRobin => sum(weights_of(hosts)) <= usize::MAX,
        PolicyType::WeightedRoundRobin2 => hosts.len() > 0,
        _ => true,
    }
}

/// A policy of kind `policy` over `hosts` can select: the weighted kinds need weights small
/// enough for their arithmetic, and interleaved weighted round robin needs a host.
pub open spec fn policy_accepts(policy: PolicyType, hosts: Seq<HostState>) -> bool {
    match policy {
        PolicyType::WeightedRoundRobin => fits_weights(hosts),
        PolicyType::WeightedRoundRobin2 => hosts.len() > 0 && max_weight_of(config_weights(hosts))
            + gcd_seq(config_weights(hosts)) <= usize::MAX,
        _ => true,
    }
}

impl AnyPolicy {
    pub open spec fn spec_hosts(&self) -> Seq<HostState> {
        match self {
            AnyPolicy::RoundRobin(p) => p.spec_hosts(),
            AnyPolicy::WeightedRoundRobin(p) => p.spec_hosts(),
            AnyPolicy::WeightedRoundRobin2(p) => p.spec_hosts(),
            AnyPolicy::LeastConnections(p) => p.spec_hosts(),
        }
    }

    pub open spec fn wf(&self) -> bool {
        match self {
            AnyPolicy::RoundRobin(_) => true,
            AnyPolicy::WeightedRoundRobin(p) => p.wf(),
            AnyPolicy::WeightedRoundRobin2(p) => p.wf(),
            AnyPolicy::LeastConnections(_) => true,
        }
    }

    /// The policy can select: its weights are small enough for its arithmetic.
    pub open spec fn runnable(&self) -> bool {
        match self {
            AnyPolicy::WeightedRoundRobin(p) => fits_weights(p.spec_hosts()),
            AnyPolicy::WeightedRoundRobin2(p) => p.max_weight() + p.gcd_weight() <= usize::MAX,
            _ => true,
        }
    }
}

/// What one selection does to a policy of each kind, and which host it picks.
pub open spec fn next_outcome(before: AnyPolicy, after: AnyPolicy, res: Option<usize>) -> bool {
    match (before, after) {
        (AnyPolicy::RoundRobin(p), AnyPolicy::RoundRobin(q)) => {
            &&& res == Some(((p.counter() as int) % (p.spec_hosts().len() as int)) as usize)
            &&& q.counter() == vstd::wrapping::usize_specs::wrapping_add(p.counter(), 1)
        },
        (AnyPolicy::WeightedRoundRobin(p), AnyPolicy::WeightedRoundRobin(q)) => {
            &&& res == Some(pick(p.current(), weights_of(p.spec_hosts())) as usize)
            &&& q.current() == step(p.current(), weights_of(p.spec_hosts()))
        },
        (AnyPolicy::WeightedRoundRobin2(p), AnyPolicy::WeightedRoundRobin2(q)) => {
            let sel = interleaved_select(
                config_weights(p.spec_hosts()),
                p.max_weight(),
                p.gcd_weight(),
                p.index(),
                p.threshold(),
            );
            &&& res == Some(sel.0 as usize)
            &&& q.index() == sel.1
            &&& q.threshold() == sel.2
            &&& q.max_weight() == p.max_weight()
            &&& q.gcd_weight() == p.gcd_weight()
        },
        (AnyPolicy::LeastConnections(p), AnyPolicy::LeastConnections(q)) => {
            res matches Some(k) && is_least_loaded(p.spec_hosts(), k as int)
        },
        _ => false,
    }
}

impl AnyPolicy {
    pub fn hosts(&self) -> (res: &Vec<HostState>)
        ensures
            res@ == self.spec_hosts(),
    {
        match self {
            AnyPolicy::RoundRobin(p) => p.hosts(),
            AnyPolicy::WeightedRoundRobin(p) => p.hosts(),
            AnyPolicy::WeightedRoundRobin2(p) => p.hosts(),
            AnyPolicy::LeastConnections(p) => p.hosts(),
        }
    }

    /// Chooses the host that serves the next request, by its position among the policy's hosts.
    pub fn next(&mut self) -> (res: Option<usize>)
        requires
            old(self).wf(),
            old(self).runnable(),
            old(self).spec_hosts().len() > 0,
        ensures
            final(self).wf(),
            final(self).runnable(),
            final(self).spec_hosts() == old(self).spec_hosts(),
            res matches Some(i) && i < old(self).spec_hosts().len(),
            next_outcome(*old(self), *final(self), res),
    {
        match self {
            AnyPolicy::RoundRobin(p) => RoundRobin::next(p),
            AnyPolicy::WeightedRoundRobin(p) => WeightedRoundRobin::next(p),
            AnyPolicy::WeightedRoundRobin2(p) => WeightedRoundRobin2::next(p),
            AnyPolicy::LeastConnections(p) => LeastConnections::next(p),
        }
    }
}

impl BalancerPolicy for AnyPolicy {
    open spec fn policy_hosts(&self) -> Seq<HostState> {
        self.spec_hosts()
    }

    open spec fn policy_wf(&self) -> bool {
        self.wf() && self.runnable()
    }

    fn next(&mut self) -> (res: Option<usize>)
        ensures
            next_outcome(*old(self), *final(self), res),
    {
        AnyPolicy::next(self)
    }
}

/// `p` is a freshly made policy of kind `policy` over `hosts`.
pub open spec fn is_fresh_policy(p: AnyPolicy, policy: PolicyType, hosts: Seq<HostState>) -> bool {
    &&& p.wf()
    &&& p.spec_hosts() == hosts
    &&& match (policy, p) {
        (PolicyType::RoundRobin, AnyPolicy::RoundRobin(q)) => q.counter() == 0,
        (PolicyType::WeightedRoundRobin, AnyPolicy::WeightedRoundRobin(q)) => q.current() == zeros(hosts.len()),
        (PolicyType::WeightedRoundRobin2, AnyPolicy::WeightedRoundRobin2(q)) => q.index() == 0 && q.threshold() == 0
            && q.max_weight() == max_weight_of(config_weights(hosts)) && q.gcd_weight() == gcd_seq(config_weights(hosts)),
        (PolicyType::LeastConnections, AnyPolicy::LeastConnections(_)) => true,
        _ => false,
    }
}

/// Makes policies.
pub struct PolicyFactory;

impl PolicyFactory {
    /// A fresh policy of kind `policy` over `hosts`.
    pub fn make(policy: PolicyType, hosts: Vec<HostState>) -> (res: AnyPolicy)
        requires
            make_accepts(policy, hosts@),
        ensures
            is_fresh_policy(res, policy, hosts@),
            res.runnable() == policy_accepts(policy, hosts@),
    {
        match policy {
            PolicyType::RoundRobin => {
                let mut policy = RoundRobin::new();
                policy.set_hosts(hosts);
                AnyPolicy::RoundRobin(policy)
            },
            PolicyType::WeightedRoundRobin => {
                let mut policy = WeightedRoundRobin::new();
                policy.set_hosts(hosts);
                AnyPolicy::WeightedRoundRobin(policy)
            },
            PolicyType::WeightedRoundRobin2 => {
                let mut policy = WeightedRoundRobin2::new();
                policy.set_hosts(hosts);
                AnyPolicy::WeightedRoundRobin2(policy)
            },
            PolicyType::LeastConnections => {
                let mut policy = LeastConnections::new();
                policy.set_hosts(hosts);
                AnyPolicy::LeastConnections(policy)
            },
        }
    }
}

} // verus!
