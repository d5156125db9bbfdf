use vstd::prelude::*;

use crate::host::{elapsed_ms, finished, started, HostConfig, HostState, HostTracker};
use crate::policies::smooth::{
    lemma_element_le_sum, lemma_sum_monotone, lemma_sum_non_negative, lemma_sum_prefix,
    lemma_sum_prefix_le, sum,
};
use crate::policies::weighted_round_robin::{fits_weights, weights_of};
use crate::policy::dynamic_weighted_round_robin::{fits_dynamic_weights, weight_caps, WEIGHT_SCALE};
use crate::policy::factory::{
    is_fresh_policy, make_accepts, next_outcome, policy_accepts, same_balancing_state, AnyPolicy,
    PolicyFactory, PolicyType,
};

verus! {

/// How the balancer balances.
pub struct Config {
    pub policy: PolicyType,
}

impl Clone for Config {
    fn clone(&self) -> (res: Self)
        ensures
            res == *self,
    {
        Config { policy: self.policy }
    }
}

/// The positions, in order, of the hosts that are alive.
pub open spec fn alive_indices(hosts: Seq<HostState>) -> Seq<usize>
    decreases hosts.len(),
{
    if hosts.len() == 0 {
        Seq::empty()
    } else {
        let before = alive_indices(hosts.drop_last());
        if hosts.last().alive {
            before.push((hosts.len() - 1) as usize)
        } else {
            before
        }
    }
}

/// The hosts at the given positions, in order.
pub open spec fn select_hosts(hosts: Seq<HostState>, indices: Seq<usize>) -> Seq<HostState> {
    Seq::new(indices.len(), |k: int| hosts[indices[k] as int])
}

pub open spec fn strictly_increasing(s: Seq<usize>) -> bool {
    forall|a: int, b: int| 0 <= a < b < s.len() ==> s[a] < s[b]
}

/// A value per host.
pub open spec fn host_values(hosts: Seq<HostState>, f: spec_fn(HostState) -> int) -> Seq<int> {
    Seq::new(hosts.len(), |i: int| f(hosts[i]))
}

/// The fresh state of each configured host.
pub open spec fn fresh_hosts(configs: Seq<HostConfig>) -> Seq<HostState> {
    Seq::new(configs.len(), |i: int| HostState {
        config: configs[i],
        alive: true,
        latency_ms: crate::utils::statistics::Avg::empty_spec(),
        connections: 0,
    })
}

pub proof fn lemma_alive_indices(hosts: Seq<HostState>)
    requires
        hosts.len() <= usize::MAX,
    ensures
        strictly_increasing(alive_indices(hosts)),
        alive_indices(hosts).len() <= hosts.len(),
        forall|k: int| 0 <= k < alive_indices(hosts).len() ==> #[trigger] alive_indices(hosts)[k] < hosts.len()
            && hosts[alive_indices(hosts)[k] as int].alive,
        forall|i: int| 0 <= i < hosts.len() && #[trigger] hosts[i].alive ==> alive_indices(hosts).contains(i as usize),
    decreases hosts.len(),
{
    if hosts.len() > 0 {
        let p = hosts.drop_last();
        lemma_alive_indices(p);
        let a = alive_indices(p);
        let r = alive_indices(hosts);
        let last = (hosts.len() - 1) as usize;
        if hosts.last().alive {
            assert(r == a.push(last));
        } else {
            assert(r == a);
        }
        assert forall|k: int| 0 <= k < a.len() implies a[k] < p.len() && hosts[a[k] as int].alive by {
            assert(p[a[k] as int] == hosts[a[k] as int]);
        }
        assert forall|k: int| 0 <= k < r.len() implies #[trigger] r[k] < hosts.len() && hosts[r[k] as int].alive by {
            if k < a.len() {
                assert(r[k] == a[k]);
            }
        }
        assert forall|x: int, y: int| 0 <= x < y < r.len() implies r[x] < r[y] by {
            assert(r[x] == a[x]);
            if y < a.len() {
                assert(r[y] == a[y]);
            }
        }
        assert forall|i: int| 0 <= i < hosts.len() && #[trigger] hosts[i].alive implies r.contains(i as usize) by {
            if i < p.len() {
                assert(p[i] == hosts[i]);
                let k = choose|k: int| 0 <= k < a.len() && a[k] == i as usize;
                assert(r[k] == i as usize);
            } else {
                assert(r[a.len() as int] == i as usize);
            }
        }
    }
}

/// Restricting the hosts to those alive does not increase the sum of a non-negative value
/// per host.
pub proof fn lemma_alive_sum_le(hosts: Seq<HostState>, f: spec_fn(HostState) -> int)
    requires
        hosts.len() <= usize::MAX,
        forall|h: HostState| #[trigger] f(h) >= 0,
    ensures
        sum(host_values(select_hosts(hosts, alive_indices(hosts)), f)) <= sum(host_values(hosts, f)),
    decreases hosts.len(),
{
    if hosts.len() > 0 {
        let p = hosts.drop_last();
        lemma_alive_sum_le(p, f);
        lemma_alive_indices(p);
        let a = alive_indices(p);
        let sp = select_hosts(p, a);
        assert(select_hosts(hosts, a) =~= sp);
        let vh = host_values(hosts, f);
        assert(vh.drop_last() =~= host_values(p, f));
        assert(vh.last() == f(hosts.last()));
        assert(f(hosts.last()) >= 0);
        assert(sum(vh) == sum(host_values(p, f)) + f(hosts.last()));
        let s = select_hosts(hosts, alive_indices(hosts));
        if hosts.last().alive {
            assert(alive_indices(hosts) == a.push((hosts.len() - 1) as usize));
            assert(s.drop_last() =~= sp);
            let vs = host_values(s, f);
            assert(vs.drop_last() =~= host_values(sp, f));
            assert(s.last() == hosts.last());
            assert(sum(vs) == sum(host_values(sp, f)) + f(hosts.last()));
        } else {
            assert(s =~= sp);
        }
    }
}

/// Whatever the weighted policies accept for all hosts, they accept for the alive ones.
pub proof fn lemma_accepts_alive(policy: PolicyType, hosts: Seq<HostState>)
    requires
        hosts.len() <= usize::MAX,
        policy_accepts(policy, hosts),
    ensures
        policy_accepts(policy, select_hosts(hosts, alive_indices(hosts))),
{
    let alive = select_hosts(hosts, alive_indices(hosts));
    lemma_alive_indices(hosts);
    let n = hosts.len() as int;
    let m = alive.len() as int;
    match policy {
        PolicyType::WeightedRoundRobin => {
            let f = |h: HostState| h.config.weight as int;
            lemma_alive_sum_le(hosts, f);
            assert(host_values(hosts, f) =~= weights_of(hosts));
            assert(host_values(alive, f) =~= weights_of(alive));
            let s = sum(weights_of(hosts));
            let sa = sum(weights_of(alive));
            lemma_sum_non_negative(weights_of(alive));
            assert((m + 1) * sa <= (n + 1) * s) by (nonlinear_arith)
                requires
                    0 <= m <= n,
                    0 <= sa <= s,
            ;
        },
        PolicyType::DynamicWeightedRoundRobin => {
            let f = |h: HostState| crate::policy::dynamic_weighted_round_robin::weight_cap(h);
            lemma_alive_sum_le(hosts, f);
            assert(host_values(hosts, f) =~= weight_caps(hosts));
            assert(host_values(alive, f) =~= weight_caps(alive));
            let s = sum(weight_caps(hosts));
            let sa = sum(weight_caps(alive));
            assert forall|j: int| 0 <= j < alive.len() implies weight_caps(alive)[j] >= 0 by {}
            lemma_sum_non_negative(weight_caps(alive));
            assert((m + 1) * sa <= (n + 1) * s) by (nonlinear_arith)
                requires
                    0 <= m <= n,
                    0 <= sa <= s,
            ;
        },
        _ => {},
    }
}

/// Whatever policy can be made over all hosts can be made over the alive ones.
pub proof fn lemma_makes_alive(policy: PolicyType, hosts: Seq<HostState>)
    requires
        hosts.len() <= usize::MAX,
        make_accepts(policy, hosts),
    ensures
        make_accepts(policy, select_hosts(hosts, alive_indices(hosts))),
{
    let alive = select_hosts(hosts, alive_indices(hosts));
    if policy is WeightedRoundRobin {
        let f = |h: HostState| h.config.weight as int;
        lemma_alive_sum_le(hosts, f);
        assert(host_values(hosts, f) =~= weights_of(hosts));
        assert(host_values(alive, f) =~= weights_of(alive));
    }
}

/// The values whose sum bounds a weighted policy's arithmetic: the configured weights, or,
/// when `scaled`, the largest weights the dynamic policy can give the hosts.
pub open spec fn fit_values(hosts: Seq<HostConfig>, scaled: bool) -> Seq<int> {
    Seq::new(hosts.len(), |i: int| if scaled {
        if hosts[i].weight * WEIGHT_SCALE >= 1 { hosts[i].weight * WEIGHT_SCALE } else { 1 }
    } else {
        hosts[i].weight as int
    })
}

/// Whether one more than the number of hosts, times the sum of their `fit_values`, fits in an `isize`.
fn total_fits(hosts: &Vec<HostConfig>, scaled: bool) -> (res: bool)
    ensures
        res == ((hosts@.len() + 1) * sum(fit_values(hosts@, scaled)) <= isize::MAX),
{
    let ghost vals = fit_values(hosts@, scaled);
    let n = hosts.len();
    let mut total: usize = 0;
    let mut i: usize = 0;
    proof {
        assert forall|j: int| 0 <= j < vals.len() implies vals[j] >= 0 by {}
        lemma_sum_non_negative(vals);
        assert(vals.take(0) =~= Seq::<int>::empty());
    }
    while i < n
        invariant
            n == hosts@.len(),
            vals == fit_values(hosts@, scaled),
            forall|j: int| 0 <= j < vals.len() ==> vals[j] >= 0,
            sum(vals) >= 0,
            0 <= i <= n,
            total == sum(vals.take(i as int)),
        decreases n - i,
    {
        proof {
            lemma_sum_prefix(vals, i as int);
            lemma_sum_prefix_le(vals, i + 1);
            lemma_element_le_sum(vals, i as int);
        }
        let weight = hosts[i].weight;
        let value = if scaled {
            match weight.checked_mul(WEIGHT_SCALE) {
                Some(x) => if x >= 1 { x } else { 1 },
                None => {
                    proof {
                        assert(sum(vals) <= (n + 1) * sum(vals)) by (nonlinear_arith)
                            requires
                                sum(vals) >= 0,
                        ;
                    }
                    return false;
                },
            }
        } else {
            weight
        };
        total = match total.checked_add(value) {
            Some(t) => t,
            None => {
                proof {
                    assert(sum(vals) <= (n + 1) * sum(vals)) by (nonlinear_arith)
                        requires
                            sum(vals) >= 0,
                    ;
                }
                return false;
            },
        };
        i = i + 1;
    }
    proof {
        assert(vals.take(n as int) =~= vals);
    }
    let limit = isize::MAX as usize;
    assert(limit == isize::MAX);
    match n.checked_add(1) {
        Some(m) => match m.checked_mul(total) {
            Some(p) => {
                assert(p == (n + 1) * sum(vals));
                p <= limit
            },
            None => {
                assert((n + 1) * sum(vals) > usize::MAX);
                false
            },
        },
        None => {
            proof {
                if total > 0 {
                    assert((n + 1) * sum(vals) >= n + 1) by (nonlinear_arith)
                        requires
                            sum(vals) >= 1,
                            n + 1 >= 1,
                    ;
                } else {
                    assert((n + 1) * sum(vals) == 0) by (nonlinear_arith)
                        requires
                            sum(vals) == 0,
                    ;
                }
            }
            total == 0
        },
    }
}

/// Whether a balancer with policy `policy` over the configured `hosts` can select hosts: the
/// weighted policies need weights small enough for their arithmetic (which also lets the
/// balancer be made).
pub fn hosts_fit(policy: PolicyType, hosts: &Vec<HostConfig>) -> (res: bool)
    ensures
        res == policy_accepts(policy, fresh_hosts(hosts@)),
        res ==> make_accepts(policy, fresh_hosts(hosts@)),
{
    let ghost fresh = fresh_hosts(hosts@);
    match policy {
        PolicyType::WeightedRoundRobin => {
            proof {
                assert(fit_values(hosts@, false) =~= weights_of(fresh));
                let s = sum(weights_of(fresh));
                let n = fresh.len();
                lemma_sum_non_negative(weights_of(fresh));
                assert(s <= (n + 1) * s) by (nonlinear_arith)
                    requires
                        s >= 0,
                ;
            }
            total_fits(hosts, false)
        },
        PolicyType::DynamicWeightedRoundRobin => {
            proof {
                assert(fit_values(hosts@, true) =~= weight_caps(fresh));
            }
            total_fits(hosts, true)
        },
        _ => true,
    }
}

/// Chooses the upstream host for each request, among the hosts found alive by the last
/// health check.
pub struct Balancer {
    config: Config,
    hosts: Vec<HostState>,
    policy: AnyPolicy,
    active: Vec<usize>,
}

impl Balancer {
    pub closed spec fn spec_config(&self) -> Config {
        self.config
    }

    /// Every upstream host, alive or not.
    pub closed spec fn spec_hosts(&self) -> Seq<HostState> {
        self.hosts@
    }

    /// The positions of the hosts the current policy chooses from, in order.
    pub closed spec fn served(&self) -> Seq<usize> {
        self.active@
    }

    /// The current policy.
    pub closed spec fn policy(&self) -> AnyPolicy {
        self.policy
    }

    /// The policy keeps, for each host it serves, the balancer's state of that host; it
    /// serves each host at most once; the configured policy can be made over all the hosts;
    /// and where its arithmetic fits all the hosts, the policy can select.
    pub closed spec fn wf(&self) -> bool {
        &&& self.hosts@.len() <= usize::MAX
        &&& self.policy.wf()
        &&& self.active@.len() == self.policy.spec_hosts().len()
        &&& strictly_increasing(self.active@)
        &&& forall|k: int| 0 <= k < self.active@.len() ==> #[trigger] self.active@[k] < self.hosts@.len()
        &&& forall|k: int| 0 <= k < self.active@.len() ==> #[trigger] self.policy.spec_hosts()[k]
            == self.hosts@[self.active@[k] as int]
        &&& make_accepts(self.config.policy, self.hosts@)
        &&& policy_accepts(self.config.policy, self.hosts@) ==> self.policy.runnable()
    }

    /// The hosts served are exactly those alive.
    pub open spec fn serves_alive(&self) -> bool {
        self.served() == alive_indices(self.spec_hosts())
    }

    /// A balancer over the configured hosts, all of them taken to be alive.
    pub fn new(config: Config, hosts: Vec<HostConfig>) -> (res: Self)
        requires
            make_accepts(config.policy, fresh_hosts(hosts@)),
        ensures
            res.wf(),
            res.spec_config() == config,
            res.spec_hosts() == fresh_hosts(hosts@),
            res.serves_alive(),
            is_fresh_policy(res.policy(), config.policy, fresh_hosts(hosts@)),
    {
        let mut states: Vec<HostState> = Vec::new();
        let mut active: Vec<usize> = Vec::new();
        let mut i: usize = 0;
        while i < hosts.len()
            invariant
                0 <= i <= hosts@.len(),
                states@ == fresh_hosts(hosts@).take(i as int),
                active@.len() == i,
                forall|k: int| 0 <= k < i ==> active@[k] == k,
            decreases hosts@.len() - i,
        {
            let state = HostState::new(hosts[i].clone());
            states.push(state);
            active.push(i);
            i = i + 1;
            proof {
                assert(states@ =~= fresh_hosts(hosts@).take(i as int));
            }
        }
        proof {
            assert(states@ =~= fresh_hosts(hosts@));
        }
        let policy = PolicyFactory::make(config.policy, clone_hosts(&states));
        let res = Balancer { config, hosts: states, policy, active };
        proof {
            lemma_all_alive_indices(res.hosts@);
            assert(res.active@ =~= alive_indices(res.hosts@));
        }
        res
    }

    pub fn hosts(&self) -> (res: &Vec<HostState>)
        ensures
            res@ == self.spec_hosts(),
    {
        &self.hosts
    }

    /// The position of the host that serves the next request, or `None` when the policy has
    /// no host to choose from. The weighted policies need weights small enough for their
    /// arithmetic.
    pub fn next_host(&mut self) -> (res: Option<usize>)
        requires
            old(self).wf(),
            policy_accepts(old(self).spec_config().policy, old(self).spec_hosts()),
        ensures
            final(self).wf(),
            final(self).spec_hosts() == old(self).spec_hosts(),
            final(self).served() == old(self).served(),
            final(self).spec_config() == old(self).spec_config(),
            res is None <==> old(self).served().len() == 0,
            old(self).served().len() == 0 ==> final(self).policy() == old(self).policy(),
            old(self).served().len() > 0 ==> exists|k: usize|
                k < old(self).served().len() && res == Some(old(self).served()[k as int])
                    && #[trigger] next_outcome(old(self).policy(), final(self).policy(), Some(k)),
            res matches Some(id) ==> old(self).served().contains(id) && id < old(self).spec_hosts().len(),
            old(self).serves_alive() ==> (res matches Some(id) ==> old(self).spec_hosts()[id as int].alive),
    {
        if self.active.len() == 0 {
            return None;
        }
        let k = self.policy.next().unwrap();
        let id = self.active[k];
        proof {
            assert(next_outcome(old(self).policy, self.policy, Some(k)));
            assert(self.active@[k as int] == id);
            if old(self).serves_alive() {
                lemma_alive_indices(self.hosts@);
            }
        }
        Some(id)
    }

    /// The positions and states of the hosts that are alive.
    fn alive_hosts(&self) -> (res: (Vec<usize>, Vec<HostState>))
        ensures
            res.0@ == alive_indices(self.hosts@),
            res.1@ == select_hosts(self.hosts@, alive_indices(self.hosts@)),
    {
        let mut indices: Vec<usize> = Vec::new();
        let mut alive: Vec<HostState> = Vec::new();
        let mut i: usize = 0;
        while i < self.hosts.len()
            invariant
                0 <= i <= self.hosts@.len(),
                indices@ == alive_indices(self.hosts@.take(i as int)),
                alive@ == select_hosts(self.hosts@, indices@),
            decreases self.hosts@.len() - i,
        {
            proof {
                assert(self.hosts@.take(i + 1).drop_last() =~= self.hosts@.take(i as int));
                lemma_alive_indices(self.hosts@.take(i as int));
            }
            if self.hosts[i].is_alive() {
                let h = self.hosts[i].clone();
                indices.push(i);
                alive.push(h);
            }
            i = i + 1;
            proof {
                assert(alive@ =~= select_hosts(self.hosts@, indices@));
            }
        }
        proof {
            assert(self.hosts@.take(i as int) =~= self.hosts@);
        }
        (indices, alive)
    }

    /// Makes a fresh policy of the configured kind over the hosts that are alive now.
    pub fn update_alive_hosts(&mut self)
        requires
            old(self).wf(),
        ensures
            final(self).wf(),
            final(self).spec_hosts() == old(self).spec_hosts(),
            final(self).spec_config() == old(self).spec_config(),
            final(self).serves_alive(),
            is_fresh_policy(
                final(self).policy(),
                old(self).spec_config().policy,
                select_hosts(old(self).spec_hosts(), alive_indices(old(self).spec_hosts())),
            ),
    {
        let (indices, alive) = self.alive_hosts();
        proof {
            if policy_accepts(self.config.policy, self.hosts@) {
                lemma_accepts_alive(self.config.policy, self.hosts@);
            }
            lemma_makes_alive(self.config.policy, self.hosts@);
            lemma_alive_indices(self.hosts@);
        }
        let policy = PolicyFactory::make(self.config.policy, alive);
        self.policy = policy;
        self.active = indices;
    }

    /// Brings the policy's copy of host `id`, if it serves that host, up to date.
    #[verifier::loop_isolation(false)]
    fn sync_host(&mut self, id: usize)
        requires
            id < old(self).hosts@.len(),
            old(self).hosts@.len() <= usize::MAX,
            old(self).policy.wf(),
            old(self).active@.len() == old(self).policy.spec_hosts().len(),
            strictly_increasing(old(self).active@),
            forall|k: int| 0 <= k < old(self).active@.len() ==> #[trigger] old(self).active@[k] < old(self).hosts@.len(),
            forall|k: int| 0 <= k < old(self).active@.len() && old(self).active@[k] != id
                ==> #[trigger] old(self).policy.spec_hosts()[k] == old(self).hosts@[old(self).active@[k] as int],
            forall|k: int| 0 <= k < old(self).active@.len() && old(self).active@[k] == id
                ==> #[trigger] old(self).policy.spec_hosts()[k].config == old(self).hosts@[id as int].config,
            make_accepts(old(self).config.policy, old(self).hosts@),
            policy_accepts(old(self).config.policy, old(self).hosts@) ==> old(self).policy.runnable(),
        ensures
            final(self).wf(),
            final(self).hosts@ == old(self).hosts@,
            final(self).active@ == old(self).active@,
            final(self).config == old(self).config,
            same_balancing_state(old(self).policy, final(self).policy),
    {
        let mut k: usize = 0;
        while k < self.active.len()
            invariant
                self.hosts == old(self).hosts,
                self.active == old(self).active,
                self.policy == old(self).policy,
                self.config == old(self).config,
                0 <= k <= self.active@.len(),
                forall|j: int| 0 <= j < k ==> self.active@[j] != id,
            decreases self.active@.len() - k,
        {
            if self.active[k] == id {
                let h = self.hosts[id].clone();
                self.policy.set_host(k, h);
                proof {
                    assert forall|j: int| 0 <= j < self.active@.len() implies #[trigger] self.policy.spec_hosts()[j]
                        == self.hosts@[self.active@[j] as int] by {
                        if j != k {
                            assert(self.active@[j] != id) by {
                                if j < k {
                                    assert(self.active@[j] < self.active@[k as int]);
                                } else {
                                    assert(self.active@[k as int] < self.active@[j]);
                                }
                            }
                        }
                    }
                }
                return;
            }
            k = k + 1;
        }
        proof {
            lemma_same_balancing_state_refl(self.policy);
        }
    }

    /// Records whether host `id` is alive; the hosts served change only at the next
    /// `update_alive_hosts`.
    pub fn set_alive(&mut self, id: usize, alive: bool)
        requires
            old(self).wf(),
            id < old(self).spec_hosts().len(),
        ensures
            final(self).wf(),
            final(self).spec_hosts() == old(self).spec_hosts().update(id as int, HostState { alive, ..old(self).spec_hosts()[id as int] }),
            final(self).served() == old(self).served(),
            final(self).spec_config() == old(self).spec_config(),
            same_balancing_state(old(self).policy(), final(self).policy()),
    {
        let mut h = self.hosts[id].clone();
        h.set_alive(alive);
        self.hosts.set(id, h);
        proof {
            assert(weights_of(self.hosts@) =~= weights_of(old(self).hosts@));
            assert(weight_caps(self.hosts@) =~= weight_caps(old(self).hosts@));
        }
        self.sync_host(id);
    }

    /// Counts a request to host `id` as started at `now_ms`.
    pub fn start_request(&mut self, id: usize, now_ms: u64) -> (res: HostTracker)
        requires
            old(self).wf(),
            id < old(self).spec_hosts().len(),
        ensures
            final(self).wf(),
            final(self).spec_hosts() == old(self).spec_hosts().update(id as int, started(old(self).spec_hosts()[id as int])),
            final(self).served() == old(self).served(),
            final(self).spec_config() == old(self).spec_config(),
            same_balancing_state(old(self).policy(), final(self).policy()),
            res.host_id() == id,
            res.start_ms() == now_ms,
    {
        let mut h = self.hosts[id].clone();
        let tracker = HostTracker::start_request(id, &mut h, now_ms);
        self.hosts.set(id, h);
        proof {
            assert(weights_of(self.hosts@) =~= weights_of(old(self).hosts@));
            assert(weight_caps(self.hosts@) =~= weight_caps(old(self).hosts@));
        }
        self.sync_host(id);
        tracker
    }

    /// Records the latency of the tracked request, measured up to `now_ms`, and returns it.
    pub fn response_headers_received(&mut self, tracker: &HostTracker, now_ms: u64) -> (res: u64)
        requires
            old(self).wf(),
            tracker.host_id() < old(self).spec_hosts().len(),
        ensures
            final(self).wf(),
            res == elapsed_ms(tracker.start_ms(), now_ms),
            final(self).spec_hosts().len() == old(self).spec_hosts().len(),
            forall|j: int| 0 <= j < old(self).spec_hosts().len() && j != tracker.host_id()
                ==> final(self).spec_hosts()[j] == old(self).spec_hosts()[j],
            final(self).spec_hosts()[tracker.host_id() as int].latency_ms@ == (
                vstd::wrapping::usize_specs::wrapping_add(old(self).spec_hosts()[tracker.host_id() as int].latency_ms@.0, res as usize),
                vstd::wrapping::usize_specs::wrapping_add(old(self).spec_hosts()[tracker.host_id() as int].latency_ms@.1, 1),
            ),
            final(self).spec_hosts()[tracker.host_id() as int].config == old(self).spec_hosts()[tracker.host_id() as int].config,
            final(self).spec_hosts()[tracker.host_id() as int].alive == old(self).spec_hosts()[tracker.host_id() as int].alive,
            final(self).spec_hosts()[tracker.host_id() as int].connections == old(self).spec_hosts()[tracker.host_id() as int].connections,
            final(self).served() == old(self).served(),
            final(self).spec_config() == old(self).spec_config(),
            same_balancing_state(old(self).policy(), final(self).policy()),
    {
        let id = tracker.host();
        let mut h = self.hosts[id].clone();
        let elapsed = tracker.response_headers_received(&mut h, now_ms);
        self.hosts.set(id, h);
        proof {
            assert(weights_of(self.hosts@) =~= weights_of(old(self).hosts@));
            assert(weight_caps(self.hosts@) =~= weight_caps(old(self).hosts@));
        }
        self.sync_host(id);
        elapsed
    }

    /// The tracked request is over: it no longer counts as in flight.
    pub fn response_body_received(&mut self, tracker: HostTracker)
        requires
            old(self).wf(),
            tracker.host_id() < old(self).spec_hosts().len(),
        ensures
            final(self).wf(),
            final(self).spec_hosts() == old(self).spec_hosts().update(
                tracker.host_id() as int,
                finished(old(self).spec_hosts()[tracker.host_id() as int]),
            ),
            final(self).served() == old(self).served(),
            final(self).spec_config() == old(self).spec_config(),
            same_balancing_state(old(self).policy(), final(self).policy()),
    {
        let id = tracker.host();
        let mut h = self.hosts[id].clone();
        tracker.response_body_received(&mut h);
        self.hosts.set(id, h);
        proof {
            assert(weights_of(self.hosts@) =~= weights_of(old(self).hosts@));
            assert(weight_caps(self.hosts@) =~= weight_caps(old(self).hosts@));
        }
        self.sync_host(id);
    }

    /// Applies the results of a health check, one per host in order, and then balances over
    /// the hosts found alive.
    pub fn apply_healthcheck(&mut self, results: &Vec<bool>)
        requires
            old(self).wf(),
            results@.len() == old(self).spec_hosts().len(),
        ensures
            final(self).wf(),
            final(self).spec_hosts().len() == old(self).spec_hosts().len(),
            forall|i: int| 0 <= i < results@.len() ==> #[trigger] final(self).spec_hosts()[i]
                == (HostState { alive: results@[i], ..old(self).spec_hosts()[i] }),
            final(self).spec_config() == old(self).spec_config(),
            final(self).serves_alive(),
            is_fresh_policy(
                final(self).policy(),
                old(self).spec_config().policy,
                select_hosts(final(self).spec_hosts(), alive_indices(final(self).spec_hosts())),
            ),
    {
        let mut i: usize = 0;
        while i < results.len()
            invariant
                self.wf(),
                0 <= i <= results@.len(),
                results@.len() == self.spec_hosts().len(),
                self.spec_hosts().len() == old(self).spec_hosts().len(),
                self.spec_config() == old(self).spec_config(),
                forall|j: int| 0 <= j < i ==> #[trigger] self.spec_hosts()[j]
                    == (HostState { alive: results@[j], ..old(self).spec_hosts()[j] }),
                forall|j: int| i <= j < results@.len() ==> #[trigger] self.spec_hosts()[j] == old(self).spec_hosts()[j],
            decreases results@.len() - i,
        {
            self.set_alive(i, results[i]);
            i = i + 1;
        }
        self.update_alive_hosts();
    }
}

pub proof fn lemma_same_balancing_state_refl(p: AnyPolicy)
    ensures
        same_balancing_state(p, p),
{
}

/// When every host is alive, every position is served.
pub proof fn lemma_all_alive_indices(hosts: Seq<HostState>)
    requires
        forall|i: int| 0 <= i < hosts.len() ==> #[trigger] hosts[i].alive,
    ensures
        alive_indices(hosts) == Seq::new(hosts.len(), |k: int| k as usize),
    decreases hosts.len(),
{
    if hosts.len() > 0 {
        let p = hosts.drop_last();
        assert forall|i: int| 0 <= i < p.len() implies #[trigger] p[i].alive by {
            assert(p[i] == hosts[i]);
        }
        lemma_all_alive_indices(p);
        assert(alive_indices(hosts) =~= Seq::new(hosts.len(), |k: int| k as usize));
    }
}

/// Copies of the hosts' states.
fn clone_hosts(hosts: &Vec<HostState>) -> (res: Vec<HostState>)
    ensures
        res@ == hosts@,
{
    let mut res: Vec<HostState> = Vec::new();
    let mut i: usize = 0;
    while i < hosts.len()
        invariant
            0 <= i <= hosts@.len(),
            res@ == hosts@.take(i as int),
        decreases hosts@.len() - i,
    {
        res.push(hosts[i].clone());
        i = i + 1;
        proof {
            assert(res@ =~= hosts@.take(i as int));
        }
    }
    proof {
        assert(hosts@.take(i as int) =~= hosts@);
    }
    res
}

} // verus!
