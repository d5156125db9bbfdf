use vstd::prelude::*;

use crate::host::HostState;
use crate::policy::BalancerPolicy;
use crate::policies::smooth::{
    ints, lemma_run_scale, picks, scale, lemma_sum_monotone, lemma_sum_non_negative, lemma_sum_prefix, lemma_sum_prefix_le,
    lemma_sum_zeros, pick, selectable, smooth_select, step, sum, total_of, uints, zeros,
};
use crate::policies::weighted_round_robin::{weights_of, zero_weights};
use crate::utils::statistics::mean;

verus! {

/// How much one configured weight unit counts for a host that answers in one millisecond.
pub const WEIGHT_SCALE: usize = 10_000;

/// How often, in seconds, the weights are recomputed from the measured latencies.
pub const WEIGHTS_UPDATE_INTERVAL_SECS: u64 = 5;

/// A host's weight from its configured weight and its mean latency: the configured weight,
/// scaled, divided by the latency in milliseconds (taken as at least 1).
pub open spec fn dynamic_weight(config_weight: usize, latency_ms: usize) -> int {
    (config_weight * WEIGHT_SCALE) / if latency_ms == 0 { 1 } else { latency_ms as int }
}

/// The weights recomputed from the hosts' configured weights and mean latencies.
pub open spec fn dynamic_weights(hosts: Seq<HostState>) -> Seq<int> {
    Seq::new(
        hosts.len(),
        |i: int| dynamic_weight(hosts[i].config.weight, mean(hosts[i].latency_ms@.0, hosts[i].latency_ms@.1)),
    )
}

/// The largest weight a host can ever have: its scaled configured weight, or the initial 1.
pub open spec fn weight_cap(h: HostState) -> int {
    if h.config.weight * WEIGHT_SCALE >= 1 {
        h.config.weight * WEIGHT_SCALE
    } else {
        1
    }
}

pub open spec fn weight_caps(hosts: Seq<HostState>) -> Seq<int> {
    Seq::new(hosts.len(), |i: int| weight_cap(hosts[i]))
}

/// Every host's configured weight can be scaled by `WEIGHT_SCALE` within a `usize`, as
/// recomputing the weights does.
pub open spec fn weights_scalable(hosts: Seq<HostState>) -> bool {
    forall|i: int| 0 <= i < hosts.len() ==> #[trigger] hosts[i].config.weight * WEIGHT_SCALE <= usize::MAX
}

/// The hosts' weights are small enough for the policy to run in `isize` arithmetic whatever
/// latencies are measured: one more than the number of hosts, times the largest possible
/// total weight, fits.
pub open spec fn fits_dynamic_weights(hosts: Seq<HostState>) -> bool {
    (hosts.len() + 1) * sum(weight_caps(hosts)) <= isize::MAX
}

/// The weights are due for recomputation: at least the update interval has passed since the
/// last recomputation. A clock reading earlier than the last recomputation counts as no time
/// having passed.
pub open spec fn update_due(last_update_secs: u64, now_secs: u64) -> bool {
    now_secs >= last_update_secs && now_secs - last_update_secs >= WEIGHTS_UPDATE_INTERVAL_SECS
}

pub open spec fn ones(n: nat) -> Seq<int> {
    Seq::new(n, |i: int| 1)
}

/// Smooth weighted round robin whose weights follow the hosts' measured latencies: every
/// few seconds each host's weight becomes its scaled configured weight divided by its mean
/// latency. Until the first recomputation every host weighs 1.
pub struct DynamicWeightedRoundRobin {
    hosts: Vec<HostState>,
    weights: Vec<usize>,
    current_weights: Vec<isize>,
    last_weights_update_time: u64,
}

/// A clock reading.
#[verifier::external_type_specification]
#[verifier::external_body]
pub struct ExSystemTime(std::time::SystemTime);

/// Reads the system clock (`SystemTime::now`). Nothing is claimed of the reading.
#[verifier::external_body]
fn system_time_now() -> std::time::SystemTime {
    std::time::SystemTime::now()
}

/// The time from the Unix epoch to `t` (`SystemTime::duration_since` the epoch), or `None`
/// for a time before the epoch. Nothing is claimed of the duration.
#[verifier::external_body]
fn since_unix_epoch(t: std::time::SystemTime) -> Option<std::time::Duration> {
    match t.duration_since(std::time::UNIX_EPOCH) {
        Ok(d) => Some(d),
        Err(_) => None,
    }
}

/// The whole seconds of `d` (`Duration::as_secs`). Nothing is claimed of the value.
#[verifier::external_body]
fn whole_secs(d: std::time::Duration) -> u64 {
    d.as_secs()
}

fn calculate_weight(config_weight: usize, latency_ms: usize) -> (res: usize)
    requires
        config_weight * WEIGHT_SCALE <= usize::MAX,
    ensures
        res == dynamic_weight(config_weight, latency_ms),
{
    let latency_ms = if latency_ms > 1 { latency_ms } else { 1 };
    config_weight * WEIGHT_SCALE / latency_ms
}

impl DynamicWeightedRoundRobin {
    pub closed spec fn spec_hosts(&self) -> Seq<HostState> {
        self.hosts@
    }

    /// The weight each host is balanced by at present.
    pub closed spec fn weights(&self) -> Seq<int> {
        uints(self.weights@)
    }

    /// The current weight of each host.
    pub closed spec fn current(&self) -> Seq<int> {
        ints(self.current_weights@)
    }

    /// When the weights were last recomputed, in seconds since the Unix epoch.
    pub closed spec fn last_update(&self) -> u64 {
        self.last_weights_update_time
    }

    pub closed spec fn wf(&self) -> bool {
        &&& self.weights@.len() == self.hosts@.len()
        &&& forall|i: int| 0 <= i < self.hosts@.len() ==> self.weights@[i] <= weight_cap(#[trigger] self.hosts@[i])
        &&& selectable(self.current_weights@, self.weights@, sum(weight_caps(self.hosts@)))
    }

    pub fn new() -> (res: Self)
        ensures
            res.wf(),
            res.spec_hosts() == Seq::<HostState>::empty(),
            res.weights() == Seq::<int>::empty(),
            res.current() == Seq::<int>::empty(),
            res.last_update() == 0,
    {
        let res = DynamicWeightedRoundRobin {
            hosts: Vec::new(),
            weights: Vec::new(),
            current_weights: Vec::new(),
            last_weights_update_time: 0,
        };
        proof {
            assert(weight_caps(res.hosts@) =~= Seq::<int>::empty());
            assert(uints(res.weights@) =~= Seq::<int>::empty());
            assert(ints(res.current_weights@) =~= Seq::<int>::empty());
        }
        res
    }

    /// Balances over `hosts` from now on: every host weighs 1 and every current weight is zero.
    pub fn set_hosts(&mut self, hosts: Vec<HostState>)
        ensures
            final(self).wf(),
            final(self).spec_hosts() == hosts@,
            final(self).weights() == ones(hosts@.len()),
            final(self).current() == zeros(hosts@.len()),
            final(self).last_update() == old(self).last_update(),
    {
        let n = hosts.len();
        let ghost caps = weight_caps(hosts@);
        let mut weights: Vec<usize> = Vec::new();
        let mut i: usize = 0;
        while i < n
            invariant
                n == hosts@.len(),
                0 <= i <= n,
                weights@.len() == i,
                forall|j: int| 0 <= j < i ==> weights@[j] == 1,
            decreases n - i,
        {
            weights.push(1);
            i = i + 1;
        }
        proof {
            assert(uints(weights@) =~= ones(n as nat));
            lemma_sum_ones(n as nat);
            assert forall|j: int| 0 <= j < n implies caps[j] >= 1 by {}
            lemma_sum_monotone(ones(n as nat), caps);
        }
        let current = zero_weights(n);
        proof {
            lemma_sum_zeros(n as nat);
            assert forall|j: int| 0 <= j < n implies current@[j] == 0 by {
                assert(ints(current@)[j] == zeros(n as nat)[j]);
            }
        }
        self.hosts = hosts;
        self.weights = weights;
        self.current_weights = current;
    }

    pub fn hosts(&self) -> (res: &Vec<HostState>)
        ensures
            res@ == self.spec_hosts(),
    {
        &self.hosts
    }

    /// Recomputes every host's weight from its configured weight and mean latency.
    pub fn update_weights(&mut self)
        requires
            old(self).wf(),
            weights_scalable(old(self).spec_hosts()),
        ensures
            final(self).wf(),
            final(self).spec_hosts() == old(self).spec_hosts(),
            final(self).weights() == dynamic_weights(old(self).spec_hosts()),
            final(self).current() == old(self).current(),
            final(self).last_update() == old(self).last_update(),
    {
        let n = self.hosts.len();
        let ghost caps = weight_caps(self.hosts@);
        let ghost target = dynamic_weights(self.hosts@);
        let mut i: usize = 0;
        while i < n
            invariant
                n == self.hosts@.len(),
                n == self.weights@.len(),
                self.hosts@ == old(self).hosts@,
                self.current_weights@ == old(self).current_weights@,
                self.last_weights_update_time == old(self).last_weights_update_time,
                weights_scalable(self.hosts@),
                caps == weight_caps(self.hosts@),
                target == dynamic_weights(self.hosts@),
                0 <= i <= n,
                forall|j: int| 0 <= j < n ==> self.weights@[j] <= #[trigger] caps[j],
                forall|j: int| 0 <= j < i ==> self.weights@[j] == #[trigger] target[j],
            decreases n - i,
        {
            let config_weight = self.hosts[i].config.weight;
            let latency_ms = self.hosts[i].latency();
            proof {
                assert(self.hosts@[i as int].config.weight * WEIGHT_SCALE <= usize::MAX);
            }
            let weight = calculate_weight(config_weight, latency_ms);
            proof {
                let lat = if latency_ms > 1 { latency_ms as int } else { 1 };
                let scaled = config_weight * WEIGHT_SCALE;
                assert(scaled / lat <= scaled) by (nonlinear_arith)
                    requires
                        lat >= 1,
                        scaled >= 0,
                ;
                assert(weight <= caps[i as int]);
            }
            self.weights.set(i, weight);
            i = i + 1;
        }
        proof {
            assert(uints(self.weights@) =~= target);
            lemma_sum_monotone(uints(self.weights@), caps);
            assert forall|j: int| 0 <= j < n implies self.weights@[j] <= weight_cap(#[trigger] self.hosts@[j]) by {
                assert(caps[j] == weight_cap(self.hosts@[j]));
            }
        }
    }

    /// Recomputes the weights if the update interval has passed since the last recomputation
    /// at clock reading `now_secs`, and then records `now_secs` as the last recomputation.
    pub fn update_weights_if_needed(&mut self, now_secs: u64)
        requires
            old(self).wf(),
            weights_scalable(old(self).spec_hosts()),
        ensures
            final(self).wf(),
            final(self).spec_hosts() == old(self).spec_hosts(),
            final(self).current() == old(self).current(),
            update_due(old(self).last_update(), now_secs) ==> final(self).weights() == dynamic_weights(old(self).spec_hosts())
                && final(self).last_update() == now_secs,
            !update_due(old(self).last_update(), now_secs) ==> final(self).weights() == old(self).weights()
                && final(self).last_update() == old(self).last_update(),
    {
        if now_secs < self.last_weights_update_time
            || now_secs - self.last_weights_update_time < WEIGHTS_UPDATE_INTERVAL_SECS {
            return;
        }
        self.update_weights();
        self.last_weights_update_time = now_secs;
    }

    /// Picks the next host as smooth weighted round robin does, after recomputing the
    /// weights if they are due at clock reading `now_secs`.
    pub fn next_at(&mut self, now_secs: u64) -> (res: Option<usize>)
        requires
            old(self).wf(),
            fits_dynamic_weights(old(self).spec_hosts()),
        ensures
            final(self).wf(),
            final(self).spec_hosts() == old(self).spec_hosts(),
            update_due(old(self).last_update(), now_secs) ==> final(self).weights() == dynamic_weights(old(self).spec_hosts())
                && final(self).last_update() == now_secs,
            !update_due(old(self).last_update(), now_secs) ==> final(self).weights() == old(self).weights()
                && final(self).last_update() == old(self).last_update(),
            res matches Some(i) ==> i < old(self).spec_hosts().len(),
            old(self).spec_hosts().len() == 0 ==> res is None && final(self).current() == old(self).current(),
            old(self).spec_hosts().len() > 0 ==> res == Some(pick(old(self).current(), final(self).weights()) as usize)
                && final(self).current() == step(old(self).current(), final(self).weights()),
    {
        proof {
            lemma_fits_scalable(self.hosts@);
        }
        self.update_weights_if_needed(now_secs);
        if self.hosts.len() == 0 {
            return None;
        }
        let ghost bound = sum(weight_caps(self.hosts@));
        proof {
            lemma_fits_scalable(self.hosts@);
            lemma_sum_non_negative(uints(self.weights@));
        }
        let total = total_of(&self.weights);
        let picked = smooth_select(&mut self.current_weights, &self.weights, total, Ghost(bound));
        Some(picked)
    }

    /// Picks the next host at the present time of the system clock: the weights are first
    /// recomputed if they are due. A clock reading before the Unix epoch counts as no time
    /// having passed since the last recomputation.
    pub fn next(&mut self) -> (res: Option<usize>)
        requires
            old(self).wf(),
            fits_dynamic_weights(old(self).spec_hosts()),
        ensures
            final(self).wf(),
            final(self).spec_hosts() == old(self).spec_hosts(),
            final(self).weights() == old(self).weights() && final(self).last_update() == old(self).last_update()
                || final(self).weights() == dynamic_weights(old(self).spec_hosts())
                && final(self).last_update() >= old(self).last_update() + WEIGHTS_UPDATE_INTERVAL_SECS,
            res matches Some(i) ==> i < old(self).spec_hosts().len(),
            old(self).spec_hosts().len() == 0 ==> res is None && final(self).current() == old(self).current(),
            old(self).spec_hosts().len() > 0 ==> res == Some(pick(old(self).current(), final(self).weights()) as usize)
                && final(self).current() == step(old(self).current(), final(self).weights()),
    {
        let now = since_unix_epoch(system_time_now());
        let now_secs = match now {
            Some(d) => whole_secs(d),
            None => self.last_weights_update_time,
        };
        self.next_at(now_secs)
    }

    /// Replaces the state kept about the host at `index` by `host`, which has the same
    /// configuration; weights and current weights are untouched.
    pub fn set_host(&mut self, index: usize, host: HostState)
        requires
            old(self).wf(),
            index < old(self).spec_hosts().len(),
            host.config == old(self).spec_hosts()[index as int].config,
        ensures
            final(self).wf(),
            final(self).spec_hosts() == old(self).spec_hosts().update(index as int, host),
            final(self).weights() == old(self).weights(),
            final(self).current() == old(self).current(),
            final(self).last_update() == old(self).last_update(),
    {
        self.hosts.set(index, host);
        proof {
            assert(weight_caps(self.hosts@) =~= weight_caps(old(self).hosts@));
            assert forall|i: int| 0 <= i < self.hosts@.len() implies self.weights@[i] <= weight_cap(#[trigger] self.hosts@[i]) by {
                assert(weight_caps(self.hosts@)[i] == weight_caps(old(self).hosts@)[i]);
            }
        }
    }
}

/// While no host has a mean latency above one millisecond, the recomputed weights are the
/// configured weights scaled by `WEIGHT_SCALE`; so, from all-zero current weights, the
/// policy picks the hosts exactly as weighted round robin over the configured weights does.
pub proof fn lemma_unmeasured_like_weighted(hosts: Seq<HostState>, t: nat)
    requires
        hosts.len() > 0,
        forall|i: int| 0 <= i < hosts.len() ==> mean(#[trigger] hosts[i].latency_ms@.0, hosts[i].latency_ms@.1) <= 1,
    ensures
        dynamic_weights(hosts) == scale(weights_of(hosts), WEIGHT_SCALE as int),
        picks(zeros(hosts.len()), dynamic_weights(hosts), t) == picks(zeros(hosts.len()), weights_of(hosts), t),
{
    assert forall|i: int| 0 <= i < hosts.len() implies #[trigger] dynamic_weights(hosts)[i]
        == scale(weights_of(hosts), WEIGHT_SCALE as int)[i] by {
        let lat = mean(hosts[i].latency_ms@.0, hosts[i].latency_ms@.1);
        let x = hosts[i].config.weight * WEIGHT_SCALE;
        assert(x / 1 == x) by (nonlinear_arith);
        let w = hosts[i].config.weight as int;
        let k = WEIGHT_SCALE as int;
        assert(k * w == w * k) by (nonlinear_arith);
    }
    assert(dynamic_weights(hosts) =~= scale(weights_of(hosts), WEIGHT_SCALE as int));
    assert(weights_of(hosts).len() == hosts.len());
    lemma_run_scale(weights_of(hosts), WEIGHT_SCALE as int, t);
}

/// Weights small enough for the policy's arithmetic can be scaled, and the largest total
/// weight, one more than the number of hosts times over, fits in an `isize`.
pub proof fn lemma_fits_scalable(hosts: Seq<HostState>)
    requires
        fits_dynamic_weights(hosts),
    ensures
        weights_scalable(hosts),
        0 <= sum(weight_caps(hosts)) <= isize::MAX,
        (hosts.len() + 1) * sum(weight_caps(hosts)) <= isize::MAX,
{
    let caps = weight_caps(hosts);
    assert forall|j: int| 0 <= j < caps.len() implies caps[j] >= 0 by {}
    lemma_sum_non_negative(caps);
    let n = hosts.len();
    assert(sum(caps) <= (n + 1) * sum(caps)) by (nonlinear_arith)
        requires
            sum(caps) >= 0,
    ;
    assert forall|i: int| 0 <= i < hosts.len() implies #[trigger] hosts[i].config.weight * WEIGHT_SCALE <= usize::MAX by {
        crate::policies::smooth::lemma_element_le_sum(caps, i);
        assert(caps[i] == weight_cap(hosts[i]));
    }
}

/// The weights `update_weights` recomputes: each host's configured weight times 10000,
/// divided by its mean latency in milliseconds and rounded down; a host with no latency
/// measured yet (mean 0) counts as answering in one millisecond.
pub proof fn lemma_dynamic_weights_round_down(hosts: Seq<HostState>, i: int)
    requires
        0 <= i < hosts.len(),
    ensures
        ({
            let latency = mean(hosts[i].latency_ms@.0, hosts[i].latency_ms@.1);
            let scaled = hosts[i].config.weight * 10000;
            let w = dynamic_weights(hosts)[i];
            &&& dynamic_weights(hosts).len() == hosts.len()
            &&& latency >= 1 ==> w * latency <= scaled < (w + 1) * latency
            &&& latency == 0 ==> w == scaled
        }),
{
    let latency = mean(hosts[i].latency_ms@.0, hosts[i].latency_ms@.1);
    let scaled = hosts[i].config.weight * 10000;
    let w = dynamic_weights(hosts)[i];
    if latency >= 1 {
        vstd::arithmetic::div_mod::lemma_fundamental_div_mod(scaled as int, latency as int);
        vstd::arithmetic::div_mod::lemma_mod_bound(scaled as int, latency as int);
        assert(w == scaled / (latency as int));
        assert(w * latency <= scaled < (w + 1) * latency) by (nonlinear_arith)
            requires
                scaled == latency * w + scaled % (latency as int),
                0 <= scaled % (latency as int) < latency,
        ;
    } else {
        assert(scaled / 1 == scaled) by (nonlinear_arith);
    }
}

pub proof fn lemma_sum_ones(n: nat)
    ensures
        sum(ones(n)) == n,
    decreases n,
{
    if n > 0 {
        assert(ones(n).drop_last() =~= ones((n - 1) as nat));
        lemma_sum_ones((n - 1) as nat);
    }
}

impl BalancerPolicy for DynamicWeightedRoundRobin {
    open spec fn policy_hosts(&self) -> Seq<HostState> {
        self.spec_hosts()
    }

    open spec fn policy_wf(&self) -> bool {
        self.wf() && fits_dynamic_weights(self.spec_hosts())
    }

    fn next(&mut self) -> (res: Option<usize>)
        ensures
            final(self).weights() == old(self).weights() && final(self).last_update() == old(self).last_update()
                || final(self).weights() == dynamic_weights(old(self).spec_hosts())
                && final(self).last_update() >= old(self).last_update() + WEIGHTS_UPDATE_INTERVAL_SECS,
            res == Some(pick(old(self).current(), final(self).weights()) as usize),
            final(self).current() == step(old(self).current(), final(self).weights()),
    {
        DynamicWeightedRoundRobin::next(self)
    }
}

} // verus!
