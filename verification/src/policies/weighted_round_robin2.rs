use vstd::prelude::*;

use crate::host::HostState;
use crate::policy::BalancerPolicy;
use crate::utils::math::{gcd_nums, gcd_seq};

verus! {

/// The configured weights of a list of hosts.
pub open spec fn config_weights(hosts: Seq<HostState>) -> Seq<usize> {
    Seq::new(hosts.len(), |i: int| hosts[i].config.weight)
}

/// The largest of the weights (0 for none).
pub open spec fn max_weight_of(ws: Seq<usize>) -> nat
    decreases ws.len(),
{
    if ws.len() == 0 {
        0
    } else {
        let m = max_weight_of(ws.drop_last());
        if ws.last() > m {
            ws.last() as nat
        } else {
            m
        }
    }
}

/// A position in the interleaved weighted round robin from which the next selection is
/// well defined: the index is in range, the current weight is at most `max + gcd`, and it
/// stays zero when the gcd is zero.
pub open spec fn interleaved_ok(n: nat, max: nat, gcd: nat, index: nat, weight: nat) -> bool {
    &&& n > 0
    &&& index < n
    &&& weight <= max + gcd
    &&& gcd == 0 ==> weight == 0
}

/// One step of interleaved weighted round robin: the index moves on round the list, and
/// every time it wraps around to the start, the current weight goes up by the gcd, or back
/// to zero once it is past the largest weight. The step yields (index looked at, next index,
/// next current weight).
pub open spec fn interleaved_step(ws: Seq<usize>, max: nat, gcd: nat, index: nat, weight: nat) -> (nat, nat, nat) {
    let next_index = (index + 1) % ws.len();
    let next_weight = if next_index == 0 {
        if weight > max {
            0
        } else {
            weight + gcd
        }
    } else {
        weight
    };
    (index, next_index, next_weight)
}

/// Moving on round a list of `n` positions goes one further, or back to the start.
pub proof fn lemma_next_index(index: nat, n: nat)
    requires
        index < n,
    ensures
        index + 1 < n ==> (index + 1) % n == index + 1,
        index + 1 == n ==> (index + 1) % n == 0,
{
    if index + 1 < n {
        vstd::arithmetic::div_mod::lemma_small_mod(index + 1, n);
    } else {
        vstd::arithmetic::div_mod::lemma_mod_self_0(n as int);
    }
}

/// Steps until the host looked at weighs at least the current weight; yields that host,
/// the next index and the next current weight.
pub open spec fn interleaved_select(ws: Seq<usize>, max: nat, gcd: nat, index: nat, weight: nat) -> (nat, nat, nat)
    decreases max + gcd + 1 - weight, ws.len() - index,
    when interleaved_ok(ws.len(), max, gcd, index, weight)
{
    let (i, next_index, next_weight) = interleaved_step(ws, max, gcd, index, weight);
    if ws[i as int] >= next_weight {
        (i, next_index, next_weight)
    } else {
        proof {
            lemma_next_index(index, ws.len());
        }
        interleaved_select(ws, max, gcd, next_index, next_weight)
    }
}

/// The position and the threshold after `k` steps.
pub open spec fn interleaved_after(ws: Seq<usize>, max: nat, gcd: nat, index: nat, weight: nat, k: nat) -> (nat, nat)
    decreases k,
{
    if k == 0 {
        (index, weight)
    } else {
        let (i, w) = interleaved_after(ws, max, gcd, index, weight, (k - 1) as nat);
        let s = interleaved_step(ws, max, gcd, i, w);
        (s.1, s.2)
    }
}

/// Step `k` serves its host: the host it looks at weighs at least the threshold it leaves.
pub open spec fn serves_at(ws: Seq<usize>, max: nat, gcd: nat, index: nat, weight: nat, k: nat) -> bool {
    let (i, w) = interleaved_after(ws, max, gcd, index, weight, k);
    ws[i as int] >= interleaved_step(ws, max, gcd, i, w).2
}

/// What a selection that ends at step `k` yields: the host looked at, the next position and
/// the next threshold.
pub open spec fn outcome_at(ws: Seq<usize>, max: nat, gcd: nat, index: nat, weight: nat, k: nat) -> (nat, nat, nat) {
    let (i, w) = interleaved_after(ws, max, gcd, index, weight, k);
    interleaved_step(ws, max, gcd, i, w)
}

proof fn lemma_after_shift(ws: Seq<usize>, max: nat, gcd: nat, index: nat, weight: nat, k: nat)
    ensures
        ({
            let s = interleaved_step(ws, max, gcd, index, weight);
            interleaved_after(ws, max, gcd, index, weight, k + 1) == interleaved_after(ws, max, gcd, s.1, s.2, k)
        }),
    decreases k,
{
    let s = interleaved_step(ws, max, gcd, index, weight);
    assert(((k + 1) - 1) as nat == k);
    if k > 0 {
        lemma_after_shift(ws, max, gcd, index, weight, (k - 1) as nat);
        assert(interleaved_after(ws, max, gcd, index, weight, k) == interleaved_after(ws, max, gcd, s.1, s.2, (k - 1) as nat));
    } else {
        assert(interleaved_after(ws, max, gcd, index, weight, 0) == (index, weight));
        assert(interleaved_after(ws, max, gcd, s.1, s.2, 0) == (s.1, s.2));
    }
}

/// Said directly: a selection steps round the hosts, in sweep order, and stops at the first
/// step whose host weighs at least the threshold; it yields that step's outcome.
pub proof fn lemma_interleaved_select_first(ws: Seq<usize>, max: nat, gcd: nat, index: nat, weight: nat)
    requires
        interleaved_ok(ws.len(), max, gcd, index, weight),
    ensures
        exists|k: nat| {
            &&& #[trigger] serves_at(ws, max, gcd, index, weight, k)
            &&& forall|j: nat| j < k ==> !#[trigger] serves_at(ws, max, gcd, index, weight, j)
            &&& interleaved_select(ws, max, gcd, index, weight) == outcome_at(ws, max, gcd, index, weight, k)
        },
    decreases max + gcd + 1 - weight, ws.len() - index,
{
    let s = interleaved_step(ws, max, gcd, index, weight);
    lemma_next_index(index, ws.len());
    if ws[s.0 as int] >= s.2 {
        assert(serves_at(ws, max, gcd, index, weight, 0));
    } else {
        lemma_interleaved_select_first(ws, max, gcd, s.1, s.2);
        let k = choose|k: nat| {
            &&& #[trigger] serves_at(ws, max, gcd, s.1, s.2, k)
            &&& forall|j: nat| j < k ==> !#[trigger] serves_at(ws, max, gcd, s.1, s.2, j)
            &&& interleaved_select(ws, max, gcd, s.1, s.2) == outcome_at(ws, max, gcd, s.1, s.2, k)
        };
        lemma_after_shift(ws, max, gcd, index, weight, k);
        assert(serves_at(ws, max, gcd, index, weight, k + 1));
        assert forall|j: nat| j < k + 1 implies !#[trigger] serves_at(ws, max, gcd, index, weight, j) by {
            if j > 0 {
                lemma_after_shift(ws, max, gcd, index, weight, (j - 1) as nat);
                assert(!serves_at(ws, max, gcd, s.1, s.2, (j - 1) as nat));
            }
        }
    }
}

proof fn lemma_after_add(ws: Seq<usize>, max: nat, gcd: nat, index: nat, weight: nat, a: nat, b: nat)
    ensures
        ({
            let m = interleaved_after(ws, max, gcd, index, weight, a);
            interleaved_after(ws, max, gcd, index, weight, a + b) == interleaved_after(ws, max, gcd, m.0, m.1, b)
        }),
    decreases b,
{
    if b > 0 {
        lemma_after_add(ws, max, gcd, index, weight, a, (b - 1) as nat);
        assert((a + b - 1) as nat == a + (b - 1) as nat);
    }
}

/// Steps that do not reach the last position move on by one and keep the threshold.
proof fn lemma_after_within_sweep(ws: Seq<usize>, max: nat, gcd: nat, index: nat, weight: nat, k: nat)
    requires
        index + k < ws.len(),
    ensures
        interleaved_after(ws, max, gcd, index, weight, k) == (index + k, weight),
    decreases k,
{
    if k > 0 {
        lemma_after_within_sweep(ws, max, gcd, index, weight, (k - 1) as nat);
        lemma_next_index((index + k - 1) as nat, ws.len());
    }
}

/// The largest weight is the weight of some host, and no host weighs more.
pub proof fn lemma_max_weight_of(ws: Seq<usize>)
    requires
        ws.len() > 0,
    ensures
        exists|m: int| 0 <= m < ws.len() && ws[m] == max_weight_of(ws),
        forall|j: int| 0 <= j < ws.len() ==> ws[j] <= max_weight_of(ws),
    decreases ws.len(),
{
    let p = ws.drop_last();
    if p.len() > 0 {
        lemma_max_weight_of(p);
        let m = choose|m: int| 0 <= m < p.len() && p[m] == max_weight_of(p);
        assert(ws[m] == p[m]);
        assert forall|j: int| 0 <= j < ws.len() implies ws[j] <= max_weight_of(ws) by {
            if j < p.len() {
                assert(ws[j] == p[j]);
            }
        }
        if ws.last() > max_weight_of(p) {
            assert(ws[ws.len() - 1] == max_weight_of(ws));
        } else {
            assert(ws[m] == max_weight_of(ws));
        }
    } else {
        assert(ws[0] == ws.last());
        assert(max_weight_of(p) == 0);
        assert(ws[0] == max_weight_of(ws));
    }
}

/// A selection ends within three sweeps: over `n` hosts, some step among the first `3 * n`
/// serves its host (and the selection ends at the first such step).
pub proof fn lemma_interleaved_within_three_sweeps(ws: Seq<usize>, max: nat, gcd: nat, index: nat, weight: nat)
    requires
        interleaved_ok(ws.len(), max, gcd, index, weight),
        max == max_weight_of(ws),
    ensures
        exists|k: nat| k < 3 * ws.len() && #[trigger] serves_at(ws, max, gcd, index, weight, k),
{
    let n = ws.len();
    let last = (n - 1) as nat;
    lemma_max_weight_of(ws);
    let m = choose|m: int| 0 <= m < ws.len() && ws[m] == max_weight_of(ws);
    let d = (last - index) as nat;
    lemma_after_within_sweep(ws, max, gcd, index, weight, d);
    lemma_next_index(last, n);
    let w1 = if weight > max { 0nat } else { weight + gcd };
    if serves_at(ws, max, gcd, index, weight, d) {
        assert(d < 3 * n);
        return;
    }
    // Not served at the first wrap: the threshold rose to w1, and the next sweep starts.
    assert(weight <= max && gcd > 0);
    lemma_after_add(ws, max, gcd, index, weight, d, 1);
    assert(interleaved_after(ws, max, gcd, index, weight, d + 1) == (0nat, w1));
    if w1 <= max && m < last {
        lemma_after_add(ws, max, gcd, index, weight, d + 1, m as nat);
        lemma_after_within_sweep(ws, max, gcd, 0, w1, m as nat);
        lemma_next_index(m as nat, n);
        assert(serves_at(ws, max, gcd, index, weight, d + 1 + m as nat));
        return;
    }
    lemma_after_add(ws, max, gcd, index, weight, d + 1, last);
    lemma_after_within_sweep(ws, max, gcd, 0, w1, last);
    let w2 = if w1 > max { 0nat } else { w1 + gcd };
    if serves_at(ws, max, gcd, index, weight, d + 1 + last) {
        return;
    }
    // Only the last host can reach w1, and it did not reach w2: the threshold is now past the
    // largest weight, and the sweep after the next wrap serves at once.
    assert(w1 <= max);
    assert(w2 > max);
    lemma_after_add(ws, max, gcd, index, weight, d + 1 + last, 1);
    assert(interleaved_after(ws, max, gcd, index, weight, d + 1 + last + 1) == (0nat, w2));
    lemma_after_add(ws, max, gcd, index, weight, d + 1 + last + 1, last);
    lemma_after_within_sweep(ws, max, gcd, 0, w2, last);
    assert(serves_at(ws, max, gcd, index, weight, d + 1 + last + 1 + last));
}

/// A selection serves a host whose weight reaches the threshold of the sweep it is served
/// in, and leaves a position from which the next selection is well defined again.
pub proof fn lemma_interleaved_select(ws: Seq<usize>, max: nat, gcd: nat, index: nat, weight: nat)
    requires
        interleaved_ok(ws.len(), max, gcd, index, weight),
    ensures
        ({
            let sel = interleaved_select(ws, max, gcd, index, weight);
            &&& sel.0 < ws.len()
            &&& ws[sel.0 as int] >= sel.2
            &&& interleaved_ok(ws.len(), max, gcd, sel.1, sel.2)
        }),
    decreases max + gcd + 1 - weight, ws.len() - index,
{
    let (i, next_index, next_weight) = interleaved_step(ws, max, gcd, index, weight);
    lemma_next_index(index, ws.len());
    if ws[i as int] < next_weight {
        lemma_interleaved_select(ws, max, gcd, next_index, next_weight);
    }
}

/// Interleaved weighted round robin: sweeps the hosts again and again, each sweep serving
/// only the hosts whose weight reaches a threshold that rises by the weights' gcd per sweep.
pub struct WeightedRoundRobin2 {
    hosts: Vec<HostState>,
    current_index: usize,
    current_weight: usize,
    max_weight: usize,
    gcd_weight: usize,
}

/// Copies the configured weights of `hosts`.
fn weight_list(hosts: &Vec<HostState>) -> (res: Vec<usize>)
    ensures
        res@ == config_weights(hosts@),
{
    let mut res: Vec<usize> = Vec::new();
    let mut i: usize = 0;
    while i < hosts.len()
        invariant
            0 <= i <= hosts@.len(),
            res@ == config_weights(hosts@).take(i as int),
        decreases hosts@.len() - i,
    {
        res.push(hosts[i].config.weight);
        i = i + 1;
        proof {
            assert(res@ =~= config_weights(hosts@).take(i as int));
        }
    }
    proof {
        assert(config_weights(hosts@).take(i as int) =~= config_weights(hosts@));
    }
    res
}

/// The largest number in the list.
fn max_of(ws: &Vec<usize>) -> (res: usize)
    ensures
        res == max_weight_of(ws@),
{
    let mut m: usize = 0;
    let mut i: usize = 0;
    proof {
        assert(ws@.take(0) =~= Seq::<usize>::empty());
    }
    while i < ws.len()
        invariant
            0 <= i <= ws@.len(),
            m == max_weight_of(ws@.take(i as int)),
        decreases ws@.len() - i,
    {
        proof {
            assert(ws@.take(i + 1).drop_last() =~= ws@.take(i as int));
        }
        if ws[i] > m {
            m = ws[i];
        }
        i = i + 1;
    }
    proof {
        assert(ws@.take(i as int) =~= ws@);
    }
    m
}

impl WeightedRoundRobin2 {
    pub closed spec fn spec_hosts(&self) -> Seq<HostState> {
        self.hosts@
    }

    /// The position the next selection starts from.
    pub closed spec fn index(&self) -> nat {
        self.current_index as nat
    }

    /// The threshold a host's weight must reach to be served in the current sweep.
    pub closed spec fn threshold(&self) -> nat {
        self.current_weight as nat
    }

    pub closed spec fn max_weight(&self) -> nat {
        self.max_weight as nat
    }

    pub closed spec fn gcd_weight(&self) -> nat {
        self.gcd_weight as nat
    }

    pub closed spec fn wf(&self) -> bool {
        &&& self.hosts@.len() > 0 ==> {
            &&& interleaved_ok(self.hosts@.len(), self.max_weight as nat, self.gcd_weight as nat, self.current_index as nat, self.current_weight as nat)
            &&& self.max_weight == max_weight_of(config_weights(self.hosts@))
            &&& self.gcd_weight == gcd_seq(config_weights(self.hosts@))
        }
    }

    /// What a well-formed policy over some hosts keeps: the next selection is well defined
    /// from its position, and its largest weight and gcd are those of its hosts' weights.
    pub proof fn lemma_wf_state(&self)
        requires
            self.wf(),
            self.spec_hosts().len() > 0,
        ensures
            interleaved_ok(self.spec_hosts().len(), self.max_weight(), self.gcd_weight(), self.index(), self.threshold()),
            self.max_weight() == max_weight_of(config_weights(self.spec_hosts())),
            self.gcd_weight() == gcd_seq(config_weights(self.spec_hosts())),
    {
    }

    /// A selection ends within three sweeps of the hosts: the step at which `next` stops is
    /// the first step that serves its host, and it comes before step `3 * n` over `n` hosts.
    pub proof fn lemma_next_within_three_sweeps(&self)
        requires
            self.wf(),
            self.spec_hosts().len() > 0,
        ensures
            ({
                let ws = config_weights(self.spec_hosts());
                let (max, gcd, index, weight) = (self.max_weight(), self.gcd_weight(), self.index(), self.threshold());
                exists|k: nat| {
                    &&& k < 3 * self.spec_hosts().len()
                    &&& #[trigger] serves_at(ws, max, gcd, index, weight, k)
                    &&& forall|j: nat| j < k ==> !#[trigger] serves_at(ws, max, gcd, index, weight, j)
                    &&& interleaved_select(ws, max, gcd, index, weight) == outcome_at(ws, max, gcd, index, weight, k)
                }
            }),
    {
        let ws = config_weights(self.spec_hosts());
        let (max, gcd, index, weight) = (self.max_weight(), self.gcd_weight(), self.index(), self.threshold());
        assert(ws.len() == self.spec_hosts().len());
        lemma_interleaved_select_first(ws, max, gcd, index, weight);
        lemma_interleaved_within_three_sweeps(ws, max, gcd, index, weight);
        let k = choose|k: nat| {
            &&& #[trigger] serves_at(ws, max, gcd, index, weight, k)
            &&& forall|j: nat| j < k ==> !#[trigger] serves_at(ws, max, gcd, index, weight, j)
            &&& interleaved_select(ws, max, gcd, index, weight) == outcome_at(ws, max, gcd, index, weight, k)
        };
        let k2 = choose|k2: nat| k2 < 3 * ws.len() && #[trigger] serves_at(ws, max, gcd, index, weight, k2);
        if k >= 3 * ws.len() {
            assert(!serves_at(ws, max, gcd, index, weight, k2));
        }
        assert(k < 3 * self.spec_hosts().len());
    }

    pub fn new() -> (res: Self)
        ensures
            res.wf(),
            res.spec_hosts() == Seq::<HostState>::empty(),
            res.index() == 0,
            res.threshold() == 0,
            res.max_weight() == 0,
            res.gcd_weight() == 0,
    {
        WeightedRoundRobin2 {
            hosts: Vec::new(),
            current_index: 0,
            current_weight: 0,
            max_weight: 0,
            gcd_weight: 0,
        }
    }

    /// Balances over the non-empty `hosts` from now on, starting a fresh sweep.
    pub fn set_hosts(&mut self, hosts: Vec<HostState>)
        requires
            hosts@.len() > 0,
        ensures
            final(self).wf(),
            final(self).spec_hosts() == hosts@,
            final(self).index() == 0,
            final(self).threshold() == 0,
            final(self).max_weight() == max_weight_of(config_weights(hosts@)),
            final(self).gcd_weight() == gcd_seq(config_weights(hosts@)),
            final(self).gcd_weight() > 0 ==> forall|i: int| 0 <= i < hosts@.len()
                ==> #[trigger] ((hosts@[i].config.weight as nat) % final(self).gcd_weight()) == 0,
            forall|d: nat| d > 0 && (forall|i: int| 0 <= i < hosts@.len() ==> #[trigger] ((hosts@[i].config.weight as nat) % d) == 0)
                ==> #[trigger] (final(self).gcd_weight() % d) == 0,
    {
        proof {
            let ws = config_weights(hosts@);
            let g = gcd_seq(ws);
            crate::utils::math::lemma_gcd_seq(ws);
            if g > 0 {
                assert forall|i: int| 0 <= i < hosts@.len()
                    implies #[trigger] ((hosts@[i].config.weight as nat) % g) == 0 by {
                    assert(((ws[i] as nat) % g) == 0);
                }
            }
            assert forall|d: nat| d > 0 && (forall|i: int| 0 <= i < hosts@.len() ==> #[trigger] ((hosts@[i].config.weight as nat) % d) == 0)
                implies #[trigger] (g % d) == 0 by {
                assert forall|i: int| 0 <= i < ws.len() implies #[trigger] ((ws[i] as nat) % d) == 0 by {
                    assert(((hosts@[i].config.weight as nat) % d) == 0);
                }
            }
        }
        let weights = weight_list(&hosts);
        let max_weight = max_of(&weights);
        let gcd_weight = match gcd_nums(&weights) {
            Some(g) => g,
            None => 0,
        };
        self.hosts = hosts;
        self.current_index = 0;
        self.current_weight = 0;
        self.max_weight = max_weight;
        self.gcd_weight = gcd_weight;
    }

    pub fn hosts(&self) -> (res: &Vec<HostState>)
        ensures
            res@ == self.spec_hosts(),
    {
        &self.hosts
    }

    /// Picks the next host whose weight reaches the threshold of the sweep in progress.
    pub fn next(&mut self) -> (res: Option<usize>)
        requires
            old(self).wf(),
            old(self).max_weight() + old(self).gcd_weight() <= usize::MAX,
        ensures
            final(self).wf(),
            final(self).spec_hosts() == old(self).spec_hosts(),
            final(self).max_weight() == old(self).max_weight(),
            final(self).gcd_weight() == old(self).gcd_weight(),
            res matches Some(i) ==> i < old(self).spec_hosts().len(),
            old(self).spec_hosts().len() == 0 ==> res is None && final(self).index() == old(self).index()
                && final(self).threshold() == old(self).threshold(),
            old(self).spec_hosts().len() > 0 ==> ({
                let sel = interleaved_select(
                    config_weights(old(self).spec_hosts()),
                    old(self).max_weight(),
                    old(self).gcd_weight(),
                    old(self).index(),
                    old(self).threshold(),
                );
                &&& res == Some(sel.0 as usize)
                &&& final(self).index() == sel.1
                &&& final(self).threshold() == sel.2
            }),
            old(self).spec_hosts().len() > 0 ==> interleaved_call(*old(self), *final(self), res),
    {
        if self.hosts.len() == 0 {
            return None;
        }
        let ghost ws = config_weights(self.hosts@);
        let ghost target = interleaved_select(ws, self.max_weight as nat, self.gcd_weight as nat, self.current_index as nat, self.current_weight as nat);
        let n = self.hosts.len();
        loop
            invariant
                n == self.hosts@.len(),
                n > 0,
                ws == config_weights(self.hosts@),
                self.wf(),
                self.max_weight + self.gcd_weight <= usize::MAX,
                self.hosts@ == old(self).hosts@,
                self.max_weight == old(self).max_weight,
                self.gcd_weight == old(self).gcd_weight,
                target == interleaved_select(ws, old(self).max_weight as nat, old(self).gcd_weight as nat, old(self).current_index as nat, old(self).current_weight as nat),
                interleaved_select(ws, self.max_weight as nat, self.gcd_weight as nat, self.current_index as nat, self.current_weight as nat) == target,
            decreases self.max_weight + self.gcd_weight + 1 - self.current_weight, n - self.current_index,
        {
            let index = self.current_index;
            proof {
                lemma_next_index(index as nat, n as nat);
            }
            self.current_index = (self.current_index + 1) % n;
            if self.current_index == 0 {
                if self.current_weight > self.max_weight {
                    self.current_weight = 0;
                } else {
                    self.current_weight = self.current_weight + self.gcd_weight;
                }
            }
            let weight = self.hosts[index].config.weight;
            if weight >= self.current_weight {
                return Some(index);
            }
        }
    }

    /// Replaces the state kept about the host at `index` by `host`, which has the same
    /// configuration; the balancing state is untouched.
    pub fn set_host(&mut self, index: usize, host: HostState)
        requires
            old(self).wf(),
            index < old(self).spec_hosts().len(),
            host.config == old(self).spec_hosts()[index as int].config,
        ensures
            final(self).wf(),
            final(self).spec_hosts() == old(self).spec_hosts().update(index as int, host),
            final(self).index() == old(self).index(),
            final(self).threshold() == old(self).threshold(),
            final(self).max_weight() == old(self).max_weight(),
            final(self).gcd_weight() == old(self).gcd_weight(),
    {
        self.hosts.set(index, host);
        proof {
            assert(config_weights(self.hosts@) =~= config_weights(old(self).hosts@));
        }
    }
}

/// The position and threshold after `k` selections.
pub open spec fn interleaved_position(ws: Seq<usize>, max: nat, gcd: nat, index: nat, weight: nat, k: nat) -> (nat, nat)
    decreases k,
{
    if k == 0 {
        (index, weight)
    } else {
        let (i, w) = interleaved_position(ws, max, gcd, index, weight, (k - 1) as nat);
        let sel = interleaved_select(ws, max, gcd, i, w);
        (sel.1, sel.2)
    }
}

/// The hosts served by `k` successive selections.
pub open spec fn interleaved_picks(ws: Seq<usize>, max: nat, gcd: nat, index: nat, weight: nat, k: nat) -> Seq<nat>
    decreases k,
{
    if k == 0 {
        Seq::empty()
    } else {
        let (i, w) = interleaved_position(ws, max, gcd, index, weight, (k - 1) as nat);
        interleaved_picks(ws, max, gcd, index, weight, (k - 1) as nat).push(interleaved_select(ws, max, gcd, i, w).0)
    }
}

/// The hosts served by `k` selections after `set_hosts(hosts)`: from the first position,
/// threshold zero, with the largest weight and the gcd of the hosts' weights.
pub open spec fn restart_picks(hosts: Seq<HostState>, k: nat) -> Seq<nat> {
    let ws = config_weights(hosts);
    interleaved_picks(ws, max_weight_of(ws), gcd_seq(ws), 0, 0, k)
}

/// What one call of `next` does over the same hosts: it returns the host of the selection
/// from the current position and threshold, and moves them on; largest weight and gcd stay.
pub open spec fn interleaved_call(before: WeightedRoundRobin2, after: WeightedRoundRobin2, res: Option<usize>) -> bool {
    let sel = interleaved_select(
        config_weights(before.spec_hosts()),
        before.max_weight(),
        before.gcd_weight(),
        before.index(),
        before.threshold(),
    );
    &&& after.spec_hosts() == before.spec_hosts()
    &&& after.max_weight() == before.max_weight()
    &&& after.gcd_weight() == before.gcd_weight()
    &&& res == Some(sel.0 as usize)
    &&& after.index() == sel.1
    &&& after.threshold() == sel.2
}

/// `states` are the states a policy goes through over successive calls of `next`, and
/// `results` what those calls return.
pub open spec fn interleaved_calls(states: Seq<WeightedRoundRobin2>, results: Seq<Option<usize>>) -> bool {
    &&& states.len() == results.len() + 1
    &&& forall|i: int| 0 <= i < results.len() ==> #[trigger] interleaved_call(states[i], states[i + 1], results[i])
}

proof fn lemma_interleaved_picks_len(ws: Seq<usize>, max: nat, gcd: nat, index: nat, weight: nat, k: nat)
    ensures
        interleaved_picks(ws, max, gcd, index, weight, k).len() == k,
    decreases k,
{
    if k > 0 {
        lemma_interleaved_picks_len(ws, max, gcd, index, weight, (k - 1) as nat);
    }
}

proof fn lemma_interleaved_picks_index(ws: Seq<usize>, max: nat, gcd: nat, index: nat, weight: nat, k: nat, i: int)
    requires
        0 <= i < k,
    ensures
        ({
            let (p, w) = interleaved_position(ws, max, gcd, index, weight, i as nat);
            interleaved_picks(ws, max, gcd, index, weight, k)[i] == interleaved_select(ws, max, gcd, p, w).0
        }),
    decreases k,
{
    let k1 = (k - 1) as nat;
    lemma_interleaved_picks_len(ws, max, gcd, index, weight, k1);
    let (p, w) = interleaved_position(ws, max, gcd, index, weight, k1);
    assert(interleaved_picks(ws, max, gcd, index, weight, k)
        == interleaved_picks(ws, max, gcd, index, weight, k1).push(interleaved_select(ws, max, gcd, p, w).0));
    if i < k1 {
        lemma_interleaved_picks_index(ws, max, gcd, index, weight, k1, i);
    }
}

/// Along a run of calls, the position and threshold after `i` calls are those of `i`
/// selections from where the run started.
proof fn lemma_interleaved_states(states: Seq<WeightedRoundRobin2>, results: Seq<Option<usize>>, i: nat)
    requires
        interleaved_calls(states, results),
        i <= results.len(),
    ensures
        states[i as int].spec_hosts() == states[0].spec_hosts(),
        states[i as int].max_weight() == states[0].max_weight(),
        states[i as int].gcd_weight() == states[0].gcd_weight(),
        (states[i as int].index(), states[i as int].threshold()) == interleaved_position(
            config_weights(states[0].spec_hosts()),
            states[0].max_weight(),
            states[0].gcd_weight(),
            states[0].index(),
            states[0].threshold(),
            i,
        ),
    decreases i,
{
    if i > 0 {
        lemma_interleaved_states(states, results, (i - 1) as nat);
        assert(interleaved_call(states[i - 1], states[(i - 1) + 1], results[i - 1]));
    }
}

/// `set_hosts` restarts the rotation: a run of calls of `next` that starts where
/// `set_hosts(hosts)` leaves a policy (the first position, threshold zero, largest weight
/// and gcd of `hosts`' weights) returns, call for call, `restart_picks(hosts, k)`, which
/// depends on `hosts` alone, whatever calls came before `set_hosts`.
pub proof fn lemma_restart_calls(hosts: Seq<HostState>, states: Seq<WeightedRoundRobin2>, results: Seq<Option<usize>>)
    requires
        interleaved_calls(states, results),
        states[0].spec_hosts() == hosts,
        states[0].index() == 0,
        states[0].threshold() == 0,
        states[0].max_weight() == max_weight_of(config_weights(hosts)),
        states[0].gcd_weight() == gcd_seq(config_weights(hosts)),
    ensures
        forall|i: int| 0 <= i < results.len() ==> #[trigger] results[i] == Some(restart_picks(hosts, results.len())[i] as usize),
{
    let ws = config_weights(hosts);
    let (max, gcd) = (max_weight_of(ws), gcd_seq(ws));
    assert forall|i: int| 0 <= i < results.len() implies #[trigger] results[i] == Some(restart_picks(hosts, results.len())[i] as usize) by {
        lemma_interleaved_states(states, results, i as nat);
        assert(interleaved_call(states[i], states[i + 1], results[i]));
        lemma_interleaved_picks_index(ws, max, gcd, 0, 0, results.len(), i);
    }
}

impl BalancerPolicy for WeightedRoundRobin2 {
    open spec fn policy_hosts(&self) -> Seq<HostState> {
        self.spec_hosts()
    }

    open spec fn policy_wf(&self) -> bool {
        self.wf() && self.max_weight() + self.gcd_weight() <= usize::MAX
    }

    fn next(&mut self) -> (res: Option<usize>)
        ensures
            final(self).max_weight() == old(self).max_weight(),
            final(self).gcd_weight() == old(self).gcd_weight(),
            ({
                let sel = interleaved_select(
                    config_weights(old(self).spec_hosts()),
                    old(self).max_weight(),
                    old(self).gcd_weight(),
                    old(self).index(),
                    old(self).threshold(),
                );
                &&& res == Some(sel.0 as usize)
                &&& final(self).index() == sel.1
                &&& final(self).threshold() == sel.2
            }),
    {
        WeightedRoundRobin2::next(self)
    }
}

} // verus!
