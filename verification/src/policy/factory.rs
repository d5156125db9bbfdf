use vstd::prelude::*;

use crate::host::HostState;
use crate::policies::smooth::{pick, step, sum, zeros};
use crate::policies::weighted_round_robin::{fits_weights, weights_of};
use crate::policy::dynamic_weighted_round_robin::{
    dynamic_weights, fits_dynamic_weights, ones, WEIGHTS_UPDATE_INTERVAL_SECS,
};
use crate::policy::{
    BalancerPolicy, DynamicWeightedRoundRobin, LeastConnections, RoundRobin, WeightedRoundRobin,
};
use crate::policy::least_connections::is_least_loaded;

verus! {

/// The balancing policies a balancer can be configured with.
#[derive(Clone, Copy)]
pub enum PolicyType {
    RoundRobin,
    WeightedRoundRobin,
    DynamicWeightedRoundRobin,
    LeastConnections,
}

/// A policy of any of the configurable kinds.
pub enum AnyPolicy {
    RoundRobin(RoundRobin),
    WeightedRoundRobin(WeightedRoundRobin),
    DynamicWeightedRoundRobin(DynamicWeightedRoundRobin),
    LeastConnections(LeastConnections),
}

/// A policy of kind `policy` can be made over `hosts`: weighted round robin adds the weights
/// up in a `usize`.
pub open spec fn make_accepts(policy: PolicyType, hosts: Seq<HostState>) -> bool {
    match policy {
        PolicyType::WeightedRoundRobin => sum(weights_of(hosts)) <= usize::MAX,
        _ => true,
    }
}

/// A policy of kind `policy` over `hosts` can select: the weighted kinds need weights small
/// enough for their arithmetic.
pub open spec fn policy_accepts(policy: PolicyType, hosts: Seq<HostState>) -> bool {
    match policy {
        PolicyType::WeightedRoundRobin => fits_weights(hosts),
        PolicyType::DynamicWeightedRoundRobin => fits_dynamic_weights(hosts),
        _ => true,
    }
}

/// `p` is a freshly made policy of kind `policy` over `hosts`.
pub open spec fn is_fresh_policy(p: AnyPolicy, policy: PolicyType, hosts: Seq<HostState>) -> bool {
    &&& p.wf()
    &&& p.spec_hosts() == hosts
    &&& match (policy, p) {
        (PolicyType::RoundRobin, AnyPolicy::RoundRobin(q)) => q.counter() == 0,
        (PolicyType::WeightedRoundRobin, AnyPolicy::WeightedRoundRobin(q)) => q.current() == zeros(hosts.len()),
        (PolicyType::DynamicWeightedRoundRobin, AnyPolicy::DynamicWeightedRoundRobin(q)) => q.current() == zeros(hosts.len())
            && q.weights() == ones(hosts.len()) && q.last_update() == 0,
        (PolicyType::LeastConnections, AnyPolicy::LeastConnections(_)) => true,
        _ => false,
    }
}

/// What one selection does to a policy of each kind, and which host it picks.
pub open spec fn next_outcome(before: AnyPolicy, after: AnyPolicy, res: Option<usize>) -> bool {
    match (before, after) {
        (AnyPolicy::RoundRobin(p), AnyPolicy::RoundRobin(q)) => {
            &&& res == Some(((p.counter() as int) % (p.spec_hosts().len() as int)) as usize)
            &&& q.counter() == vstd::wrapping::usize_specs::wrapping_add(p.counter(), 1)
        },
        (AnyPolicy::WeightedRoundRobin(p), AnyPolicy::WeightedRoundRobin(q)) => {
            &&& res == Some(pick(p.current(), weights_of(p.spec_hosts())) as usize)
            &&& q.current() == step(p.current(), weights_of(p.spec_hosts()))
        },
        (AnyPolicy::DynamicWeightedRoundRobin(p), AnyPolicy::DynamicWeightedRoundRobin(q)) => {
            &&& q.weights() == p.weights() && q.last_update() == p.last_update()
                || q.weights() == dynamic_weights(p.spec_hosts())
                && q.last_update() >= p.last_update() + WEIGHTS_UPDATE_INTERVAL_SECS
            &&& res == Some(pick(p.current(), q.weights()) as usize)
            &&& q.current() == step(p.current(), q.weights())
        },
        (AnyPolicy::LeastConnections(p), AnyPolicy::LeastConnections(q)) => {
            res matches Some(k) && is_least_loaded(p.spec_hosts(), k as int)
        },
        _ => false,
    }
}

/// The balancing state of `after` is that of `before`; only the state kept about hosts may differ.
pub open spec fn same_balancing_state(before: AnyPolicy, after: AnyPolicy) -> bool {
    match (before, after) {
        (AnyPolicy::RoundRobin(p), AnyPolicy::RoundRobin(q)) => q.counter() == p.counter(),
        (AnyPolicy::WeightedRoundRobin(p), AnyPolicy::WeightedRoundRobin(q)) => q.current() == p.current(),
        (AnyPolicy::DynamicWeightedRoundRobin(p), AnyPolicy::DynamicWeightedRoundRobin(q)) => q.current()
            == p.current() && q.weights() == p.weights() && q.last_update() == p.last_update(),
        (AnyPolicy::LeastConnections(_), AnyPolicy::LeastConnections(_)) => true,
        _ => false,
    }
}

/// Two policies are of the same kind, over the same hosts, in the same balancing state (for
/// the dynamic kind: the same current weights and weights).
pub open spec fn same_state(a: AnyPolicy, b: AnyPolicy) -> bool {
    &&& a.spec_hosts() == b.spec_hosts()
    &&& match (a, b) {
        (AnyPolicy::RoundRobin(p), AnyPolicy::RoundRobin(q)) => q.counter() == p.counter(),
        (AnyPolicy::WeightedRoundRobin(p), AnyPolicy::WeightedRoundRobin(q)) => q.current() == p.current(),
        (AnyPolicy::DynamicWeightedRoundRobin(p), AnyPolicy::DynamicWeightedRoundRobin(q)) => q.current()
            == p.current() && q.weights() == p.weights(),
        (AnyPolicy::LeastConnections(_), AnyPolicy::LeastConnections(_)) => true,
        _ => false,
    }
}

/// The dynamic kind kept or recomputed its weights alike in both (the same clock); true for
/// the other kinds.
pub open spec fn same_weights(a: AnyPolicy, b: AnyPolicy) -> bool {
    match (a, b) {
        (AnyPolicy::DynamicWeightedRoundRobin(p), AnyPolicy::DynamicWeightedRoundRobin(q)) => p.weights() == q.weights(),
        _ => true,
    }
}

/// Policies in the same state answer alike: one selection on each picks the same host and
/// leaves them in the same state again (for the dynamic kind, given the same clock). As
/// `PolicyFactory::make` leaves a policy in the state that `new()` followed by `set_hosts`
/// gives, a made policy answers every sequence of selections as that one does.
pub proof fn lemma_same_state_same_answers(
    a: AnyPolicy,
    a2: AnyPolicy,
    ra: Option<usize>,
    b: AnyPolicy,
    b2: AnyPolicy,
    rb: Option<usize>,
)
    requires
        same_state(a, b),
        next_outcome(a, a2, ra),
        next_outcome(b, b2, rb),
        a2.spec_hosts() == a.spec_hosts(),
        b2.spec_hosts() == b.spec_hosts(),
        same_weights(a2, b2),
    ensures
        ra == rb,
        same_state(a2, b2),
{
    if let (AnyPolicy::LeastConnections(p), AnyPolicy::LeastConnections(q)) = (a, b) {
        let h = p.spec_hosts();
        let k1 = ra->0 as int;
        let k2 = rb->0 as int;
        if k1 < k2 {
            assert(h[k1].connections <= h[k2].connections);
            assert(h[k2].connections < h[k1].connections);
        }
        if k2 < k1 {
            assert(h[k2].connections <= h[k1].connections);
            assert(h[k1].connections < h[k2].connections);
        }
    }
}

/// What one call of `next` does: over the same hosts, the outcome of the policy's kind.
pub open spec fn policy_call(before: AnyPolicy, after: AnyPolicy, res: Option<usize>) -> bool {
    &&& after.spec_hosts() == before.spec_hosts()
    &&& next_outcome(before, after, res)
}

/// `states` are the states a policy goes through over successive calls of `next`, and
/// `results` what those calls return.
pub open spec fn policy_calls(states: Seq<AnyPolicy>, results: Seq<Option<usize>>) -> bool {
    &&& states.len() == results.len() + 1
    &&& forall|i: int| 0 <= i < results.len() ==> #[trigger] policy_call(states[i], states[i + 1], results[i])
}

/// Two fresh policies of the same kind over the same hosts are in the same state.
pub proof fn lemma_fresh_same_state(a: AnyPolicy, b: AnyPolicy, policy: PolicyType, hosts: Seq<HostState>)
    requires
        is_fresh_policy(a, policy, hosts),
        is_fresh_policy(b, policy, hosts),
    ensures
        same_state(a, b),
{
}

proof fn lemma_runs_in_same_state(
    sa: Seq<AnyPolicy>,
    ra: Seq<Option<usize>>,
    sb: Seq<AnyPolicy>,
    rb: Seq<Option<usize>>,
    i: nat,
)
    requires
        policy_calls(sa, ra),
        policy_calls(sb, rb),
        ra.len() == rb.len(),
        same_state(sa[0], sb[0]),
        forall|j: int| 0 <= j < ra.len() ==> #[trigger] same_weights(sa[j + 1], sb[j + 1]),
        i <= ra.len(),
    ensures
        same_state(sa[i as int], sb[i as int]),
        forall|j: int| 0 <= j < i ==> ra[j] == rb[j],
    decreases i,
{
    if i > 0 {
        let j = (i - 1) as int;
        lemma_runs_in_same_state(sa, ra, sb, rb, (i - 1) as nat);
        assert(policy_call(sa[j], sa[j + 1], ra[j]));
        assert(policy_call(sb[j], sb[j + 1], rb[j]));
        assert(same_weights(sa[j + 1], sb[j + 1]));
        lemma_same_state_same_answers(sa[j], sa[j + 1], ra[j], sb[j], sb[j + 1], rb[j]);
    }
}

/// A policy made by `PolicyFactory::make` behaves exactly as one of the same kind made by
/// `new()` and `set_hosts` over the same hosts: two runs of calls of `next` that start from
/// fresh policies of the same kind over the same hosts return the same hosts call for call,
/// given the same clock for the dynamic kind (at each call both keep, or both recompute,
/// their weights).
pub proof fn lemma_fresh_runs_answer_alike(
    policy: PolicyType,
    hosts: Seq<HostState>,
    sa: Seq<AnyPolicy>,
    ra: Seq<Option<usize>>,
    sb: Seq<AnyPolicy>,
    rb: Seq<Option<usize>>,
)
    requires
        is_fresh_policy(sa[0], policy, hosts),
        is_fresh_policy(sb[0], policy, hosts),
        policy_calls(sa, ra),
        policy_calls(sb, rb),
        ra.len() == rb.len(),
        forall|j: int| 0 <= j < ra.len() ==> #[trigger] same_weights(sa[j + 1], sb[j + 1]),
    ensures
        ra == rb,
{
    lemma_fresh_same_state(sa[0], sb[0], policy, hosts);
    lemma_runs_in_same_state(sa, ra, sb, rb, ra.len());
    assert(ra =~= rb);
}

impl AnyPolicy {
    pub open spec fn spec_hosts(&self) -> Seq<HostState> {
        match self {
            AnyPolicy::RoundRobin(p) => p.spec_hosts(),
            AnyPolicy::WeightedRoundRobin(p) => p.spec_hosts(),
            AnyPolicy::DynamicWeightedRoundRobin(p) => p.spec_hosts(),
            AnyPolicy::LeastConnections(p) => p.spec_hosts(),
        }
    }

    pub open spec fn wf(&self) -> bool {
        match self {
            AnyPolicy::RoundRobin(_) => true,
            AnyPolicy::WeightedRoundRobin(p) => p.wf(),
            AnyPolicy::DynamicWeightedRoundRobin(p) => p.wf(),
            AnyPolicy::LeastConnections(_) => true,
        }
    }

    /// The policy can select: its weights are small enough for its arithmetic.
    pub open spec fn runnable(&self) -> bool {
        match self {
            AnyPolicy::WeightedRoundRobin(p) => fits_weights(p.spec_hosts()),
            AnyPolicy::DynamicWeightedRoundRobin(p) => fits_dynamic_weights(p.spec_hosts()),
            _ => true,
        }
    }

    pub fn hosts(&self) -> (res: &Vec<HostState>)
        ensures
            res@ == self.spec_hosts(),
    {
        match self {
            AnyPolicy::RoundRobin(p) => p.hosts(),
            AnyPolicy::WeightedRoundRobin(p) => p.hosts(),
            AnyPolicy::DynamicWeightedRoundRobin(p) => p.hosts(),
            AnyPolicy::LeastConnections(p) => p.hosts(),
        }
    }

    /// Chooses the host that serves the next request, by its position among the policy's hosts.
    pub fn next(&mut self) -> (res: Option<usize>)
        requires
            old(self).wf(),
            old(self).runnable(),
            old(self).spec_hosts().len() > 0,
        ensures
            final(self).wf(),
            final(self).runnable(),
            final(self).spec_hosts() == old(self).spec_hosts(),
            res matches Some(i) && i < old(self).spec_hosts().len(),
            next_outcome(*old(self), *final(self), res),
    {
        match self {
            AnyPolicy::RoundRobin(p) => RoundRobin::next(p),
            AnyPolicy::WeightedRoundRobin(p) => WeightedRoundRobin::next(p),
            AnyPolicy::DynamicWeightedRoundRobin(p) => DynamicWeightedRoundRobin::next(p),
            AnyPolicy::LeastConnections(p) => LeastConnections::next(p),
        }
    }

    /// Replaces the state kept about the host at `index` by `host`, which has the same configuration.
    pub fn set_host(&mut self, index: usize, host: HostState)
        requires
            old(self).wf(),
            index < old(self).spec_hosts().len(),
            host.config == old(self).spec_hosts()[index as int].config,
        ensures
            final(self).wf(),
            final(self).runnable() == old(self).runnable(),
            final(self).spec_hosts() == old(self).spec_hosts().update(index as int, host),
            same_balancing_state(*old(self), *final(self)),
    {
        proof {
            let h0 = old(self).spec_hosts();
            let h1 = h0.update(index as int, host);
            assert(weights_of(h1) =~= weights_of(h0));
            assert(crate::policy::dynamic_weighted_round_robin::weight_caps(h1)
                =~= crate::policy::dynamic_weighted_round_robin::weight_caps(h0));
        }
        match self {
            AnyPolicy::RoundRobin(p) => p.set_host(index, host),
            AnyPolicy::WeightedRoundRobin(p) => p.set_host(index, host),
            AnyPolicy::DynamicWeightedRoundRobin(p) => p.set_host(index, host),
            AnyPolicy::LeastConnections(p) => p.set_host(index, host),
        }
    }
}

impl BalancerPolicy for AnyPolicy {
    open spec fn policy_hosts(&self) -> Seq<HostState> {
        self.spec_hosts()
    }

    open spec fn policy_wf(&self) -> bool {
        self.wf() && self.runnable()
    }

    fn next(&mut self) -> (res: Option<usize>)
        ensures
            next_outcome(*old(self), *final(self), res),
    {
        AnyPolicy::next(self)
    }
}

/// Makes policies.
pub struct PolicyFactory;

impl PolicyFactory {
    /// A fresh policy of kind `policy` over `hosts`.
    pub fn make(policy: PolicyType, hosts: Vec<HostState>) -> (res: AnyPolicy)
        requires
            make_accepts(policy, hosts@),
        ensures
            is_fresh_policy(res, policy, hosts@),
            res.runnable() == policy_accepts(policy, hosts@),
    {
        match policy {
            PolicyType::RoundRobin => {
                let mut policy = RoundRobin::new();
                policy.set_hosts(hosts);
                AnyPolicy::RoundRobin(policy)
            },
            PolicyType::WeightedRoundRobin => {
                let mut policy = WeightedRoundRobin::new();
                policy.set_hosts(hosts);
                AnyPolicy::WeightedRoundRobin(policy)
            },
            PolicyType::DynamicWeightedRoundRobin => {
                let mut policy = DynamicWeightedRoundRobin::new();
                policy.set_hosts(hosts);
                AnyPolicy::DynamicWeightedRoundRobin(policy)
            },
            PolicyType::LeastConnections => {
                let mut policy = LeastConnections::new();
                policy.set_hosts(hosts);
                AnyPolicy::LeastConnections(policy)
            },
        }
    }
}

} // verus!
