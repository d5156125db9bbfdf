use vstd::prelude::*;

use crate::host::HostState;
use crate::policy::BalancerPolicy;
use crate::policies::round_robin::{
    counter_after, lemma_counter_after_small, lemma_round_robin_calls, round_robin_calls, RoundRobin,
};
use crate::policies::smooth::{
    equal_weights, ints, lemma_equal_weights_round_robin, lemma_picks_index, lemma_sum_non_negative,
    lemma_sum_prefix, lemma_sum_prefix_le, pick, picks, run, selectable, smooth_select, step, sum,
    uints, zeros,
};

verus! {

/// The configured weights of a list of hosts.
pub open spec fn weights_of(hosts: Seq<HostState>) -> Seq<int> {
    Seq::new(hosts.len(), |i: int| hosts[i].config.weight as int)
}

/// The hosts' weights are small enough for smooth weighted round robin to run in `isize`
/// arithmetic: one more than the number of hosts, times the total weight, fits.
pub open spec fn fits_weights(hosts: Seq<HostState>) -> bool {
    (hosts.len() + 1) * sum(weights_of(hosts)) <= isize::MAX
}

/// Smooth weighted round robin over the hosts' configured weights.
pub struct WeightedRoundRobin {
    hosts: Vec<HostState>,
    weights: Vec<usize>,
    current_weights: Vec<isize>,
    total_weight: usize,
}

/// Copies the configured weights of `hosts` and adds them up.
pub(crate) fn configured_weights(hosts: &Vec<HostState>) -> (res: (Vec<usize>, usize))
    requires
        sum(weights_of(hosts@)) <= usize::MAX,
    ensures
        uints(res.0@) == weights_of(hosts@),
        res.1 == sum(weights_of(hosts@)),
{
    let ghost w = weights_of(hosts@);
    let mut weights: Vec<usize> = Vec::new();
    let mut total: usize = 0;
    let mut i: usize = 0;
    proof {
        assert(w.take(0) =~= Seq::<int>::empty());
    }
    while i < hosts.len()
        invariant
            w == weights_of(hosts@),
            sum(w) <= usize::MAX,
            0 <= i <= hosts@.len(),
            uints(weights@) == w.take(i as int),
            total == sum(w.take(i as int)),
        decreases hosts@.len() - i,
    {
        proof {
            assert forall|j: int| 0 <= j < w.len() implies w[j] >= 0 by {}
            lemma_sum_prefix(w, i as int);
            lemma_sum_prefix_le(w, i + 1);
        }
        let weight = hosts[i].config.weight;
        total = total + weight;
        weights.push(weight);
        i = i + 1;
        proof {
            assert(uints(weights@) =~= w.take(i as int));
        }
    }
    proof {
        assert(w.take(i as int) =~= w);
    }
    (weights, total)
}

/// A list of `n` zero current weights.
pub(crate) fn zero_weights(n: usize) -> (res: Vec<isize>)
    ensures
        ints(res@) == zeros(n as nat),
{
    let mut v: Vec<isize> = Vec::new();
    let mut i: usize = 0;
    while i < n
        invariant
            0 <= i <= n,
            v@.len() == i,
            ints(v@) == zeros(i as nat),
        decreases n - i,
    {
        let ghost prev = v@;
        v.push(0);
        i = i + 1;
        proof {
            assert forall|j: int| 0 <= j < i implies ints(v@)[j] == zeros(i as nat)[j] by {
                if j < i - 1 {
                    assert(v@[j] == prev[j]);
                    assert(ints(prev)[j] == zeros((i - 1) as nat)[j]);
                }
            }
            assert(ints(v@) =~= zeros(i as nat));
        }
    }
    v
}

impl WeightedRoundRobin {
    pub closed spec fn spec_hosts(&self) -> Seq<HostState> {
        self.hosts@
    }

    /// The current weight of each host.
    pub closed spec fn current(&self) -> Seq<int> {
        ints(self.current_weights@)
    }

    pub closed spec fn wf(&self) -> bool {
        &&& self.weights@.len() == self.hosts@.len()
        &&& uints(self.weights@) == weights_of(self.hosts@)
        &&& self.total_weight == sum(uints(self.weights@))
        &&& selectable(self.current_weights@, self.weights@, self.total_weight as int)
    }

    pub fn new() -> (res: Self)
        ensures
            res.wf(),
            res.spec_hosts() == Seq::<HostState>::empty(),
            res.current() == Seq::<int>::empty(),
    {
        let res = WeightedRoundRobin {
            hosts: Vec::new(),
            weights: Vec::new(),
            current_weights: Vec::new(),
            total_weight: 0,
        };
        proof {
            assert(uints(res.weights@) =~= weights_of(res.hosts@));
            assert(ints(res.current_weights@) =~= Seq::<int>::empty());
            assert(uints(res.weights@) =~= Seq::<int>::empty());
        }
        res
    }

    /// Balances over `hosts` from now on, every current weight starting at zero. The weights
    /// must add up to a `usize`.
    pub fn set_hosts(&mut self, hosts: Vec<HostState>)
        requires
            sum(weights_of(hosts@)) <= usize::MAX,
        ensures
            final(self).wf(),
            final(self).spec_hosts() == hosts@,
            final(self).current() == zeros(hosts@.len()),
    {
        let ghost w = weights_of(hosts@);
        let n = hosts.len();
        proof {
            lemma_sum_non_negative(w);
        }
        let (weights, total) = configured_weights(&hosts);
        let current = zero_weights(n);
        proof {
            crate::policies::smooth::lemma_sum_zeros(n as nat);
            assert forall|j: int| 0 <= j < n implies current@[j] == 0 by {
                assert(ints(current@)[j] == zeros(n as nat)[j]);
            }
        }
        self.hosts = hosts;
        self.weights = weights;
        self.current_weights = current;
        self.total_weight = total;
    }

    pub fn hosts(&self) -> (res: &Vec<HostState>)
        ensures
            res@ == self.spec_hosts(),
    {
        &self.hosts
    }

    /// Picks the next host: the first one whose current weight, raised by its weight, is
    /// the largest; that host's current weight then drops by the total weight.
    pub fn next(&mut self) -> (res: Option<usize>)
        requires
            old(self).wf(),
            fits_weights(old(self).spec_hosts()),
        ensures
            final(self).wf(),
            final(self).spec_hosts() == old(self).spec_hosts(),
            res matches Some(i) ==> i < old(self).spec_hosts().len(),
            old(self).spec_hosts().len() == 0 ==> res is None && final(self).current() == old(self).current(),
            old(self).spec_hosts().len() > 0 ==> res == Some(pick(old(self).current(), weights_of(old(self).spec_hosts())) as usize)
                && final(self).current() == step(old(self).current(), weights_of(old(self).spec_hosts())),
            old(self).spec_hosts().len() > 0 ==> weighted_call(*old(self), *final(self), res),
    {
        if self.hosts.len() == 0 {
            return None;
        }
        let picked = smooth_select(&mut self.current_weights, &self.weights, self.total_weight, Ghost(self.total_weight as int));
        Some(picked)
    }

    /// Replaces the state kept about the host at `index` by `host`, which has the same
    /// configuration; the balancing state is untouched.
    pub fn set_host(&mut self, index: usize, host: HostState)
        requires
            old(self).wf(),
            index < old(self).spec_hosts().len(),
            host.config == old(self).spec_hosts()[index as int].config,
        ensures
            final(self).wf(),
            final(self).spec_hosts() == old(self).spec_hosts().update(index as int, host),
            final(self).current() == old(self).current(),
    {
        self.hosts.set(index, host);
        proof {
            assert(weights_of(self.hosts@) =~= weights_of(old(self).hosts@));
        }
    }
}

/// What one call of `next` does over the same hosts: it returns the host that smooth weighted
/// round robin picks from the current weights, and leaves the current weights of that step.
pub open spec fn weighted_call(before: WeightedRoundRobin, after: WeightedRoundRobin, res: Option<usize>) -> bool {
    &&& after.spec_hosts() == before.spec_hosts()
    &&& res == Some(pick(before.current(), weights_of(before.spec_hosts())) as usize)
    &&& after.current() == step(before.current(), weights_of(before.spec_hosts()))
}

/// `states` are the states a policy goes through over successive calls of `next`, and
/// `results` what those calls return.
pub open spec fn weighted_calls(states: Seq<WeightedRoundRobin>, results: Seq<Option<usize>>) -> bool {
    &&& states.len() == results.len() + 1
    &&& forall|i: int| 0 <= i < results.len() ==> #[trigger] weighted_call(states[i], states[i + 1], results[i])
}

/// Along a run of calls, the current weights after `i` calls are those of `i` selections.
proof fn lemma_weighted_states(states: Seq<WeightedRoundRobin>, results: Seq<Option<usize>>, i: nat)
    requires
        weighted_calls(states, results),
        states[0].current() == zeros(states[0].spec_hosts().len()),
        i <= results.len(),
    ensures
        states[i as int].spec_hosts() == states[0].spec_hosts(),
        states[i as int].current() == run(zeros(states[0].spec_hosts().len()), weights_of(states[0].spec_hosts()), i),
    decreases i,
{
    if i > 0 {
        lemma_weighted_states(states, results, (i - 1) as nat);
        assert(weighted_call(states[i - 1], states[(i - 1) + 1], results[i - 1]));
    }
}

/// A run of calls of `next` that starts from all-zero current weights (as `set_hosts`
/// leaves them) returns, call for call, the picks of smooth weighted round robin over the
/// configured weights; so it repeats itself every full cycle of one total weight's worth of
/// calls, each cycle serving every host as many times as its weight.
pub proof fn lemma_weighted_calls(states: Seq<WeightedRoundRobin>, results: Seq<Option<usize>>)
    requires
        weighted_calls(states, results),
        states[0].current() == zeros(states[0].spec_hosts().len()),
    ensures
        forall|i: int| 0 <= i < results.len() ==> #[trigger] results[i] == Some(picks(
            zeros(states[0].spec_hosts().len()),
            weights_of(states[0].spec_hosts()),
            results.len(),
        )[i] as usize),
{
    let z = zeros(states[0].spec_hosts().len());
    let w = weights_of(states[0].spec_hosts());
    assert forall|i: int| 0 <= i < results.len() implies #[trigger] results[i] == Some(picks(z, w, results.len())[i] as usize) by {
        lemma_weighted_states(states, results, i as nat);
        assert(weighted_call(states[i], states[i + 1], results[i]));
        lemma_picks_index(z, w, results.len(), i);
    }
}

/// Over hosts of equal positive weight, weighted round robin is plain round robin, call for
/// call: a weighted policy started from all-zero current weights and a round robin policy
/// over the same hosts started from a fresh counter both return host `i % n` at call number
/// `i`, as long as the counter has not wrapped around.
pub proof fn lemma_equal_weights_calls(
    ws: Seq<WeightedRoundRobin>,
    rw: Seq<Option<usize>>,
    rs: Seq<RoundRobin>,
    rr: Seq<Option<usize>>,
)
    requires
        weighted_calls(ws, rw),
        round_robin_calls(rs, rr),
        rw.len() == rr.len(),
        rr.len() <= usize::MAX + 1,
        ws[0].spec_hosts().len() > 0,
        rs[0].spec_hosts() == ws[0].spec_hosts(),
        ws[0].current() == zeros(ws[0].spec_hosts().len()),
        rs[0].counter() == 0,
        ws[0].spec_hosts()[0].config.weight > 0,
        forall|j: int| 0 <= j < ws[0].spec_hosts().len() ==> #[trigger] ws[0].spec_hosts()[j].config.weight
            == ws[0].spec_hosts()[0].config.weight,
    ensures
        rw == rr,
        forall|i: int| 0 <= i < rw.len() ==> #[trigger] rw[i] == Some((i % (ws[0].spec_hosts().len() as int)) as usize),
{
    let h = ws[0].spec_hosts();
    let n = h.len();
    let w = h[0].config.weight as int;
    assert(weights_of(h) =~= equal_weights(n, w));
    lemma_weighted_calls(ws, rw);
    lemma_equal_weights_round_robin(n, w, rw.len());
    lemma_counter_after_small(0);
    lemma_round_robin_calls(rs, rr, 0);
    assert forall|i: int| 0 <= i < rw.len() implies #[trigger] rw[i] == Some((i % (n as int)) as usize) by {
        assert(rw[i] == Some(picks(zeros(n), weights_of(h), rw.len())[i] as usize));
    }
    assert forall|i: int| 0 <= i < rr.len() implies rr[i] == rw[i] by {
        lemma_counter_after_small(i as nat);
        assert(rr[i] == Some(((counter_after(0 + i as nat) as int) % (n as int)) as usize));
        assert(rw[i] == Some((i % (n as int)) as usize));
    }
    assert(rw =~= rr);
}

impl BalancerPolicy for WeightedRoundRobin {
    open spec fn policy_hosts(&self) -> Seq<HostState> {
        self.spec_hosts()
    }

    open spec fn policy_wf(&self) -> bool {
        self.wf() && fits_weights(self.spec_hosts())
    }

    fn next(&mut self) -> (res: Option<usize>)
        ensures
            res == Some(pick(old(self).current(), weights_of(old(self).spec_hosts())) as usize),
            final(self).current() == step(old(self).current(), weights_of(old(self).spec_hosts())),
    {
        WeightedRoundRobin::next(self)
    }
}

} // verus!
