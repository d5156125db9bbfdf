use vstd::prelude::*;

use crate::host::HostState;
use crate::policy::BalancerPolicy;

verus! {

/// Hands out the hosts in turn, following a counter that wraps around on overflow.
pub struct RoundRobin {
    hosts: Vec<HostState>,
    next: usize,
}

impl RoundRobin {
    pub closed spec fn spec_hosts(&self) -> Seq<HostState> {
        self.hosts@
    }

    /// How many hosts were handed out so far (modulo the counter's range).
    pub closed spec fn counter(&self) -> usize {
        self.next
    }

    pub fn new() -> (res: Self)
        ensures
            res.spec_hosts() == Seq::<HostState>::empty(),
            res.counter() == 0,
    {
        RoundRobin { hosts: Vec::new(), next: 0 }
    }

    /// Balances over `hosts` from now on; the counter carries on where it was.
    pub fn set_hosts(&mut self, hosts: Vec<HostState>)
        ensures
            final(self).spec_hosts() == hosts@,
            final(self).counter() == old(self).counter(),
    {
        self.hosts = hosts;
    }

    pub fn hosts(&self) -> (res: &Vec<HostState>)
        ensures
            res@ == self.spec_hosts(),
    {
        &self.hosts
    }

    /// The host at the counter's position, counted round the list; the counter moves on by one.
    pub fn next(&mut self) -> (res: Option<usize>)
        requires
            old(self).spec_hosts().len() > 0,
        ensures
            res == Some(((old(self).counter() as int) % (old(self).spec_hosts().len() as int)) as usize),
            final(self).counter() == vstd::wrapping::usize_specs::wrapping_add(old(self).counter(), 1),
            final(self).spec_hosts() == old(self).spec_hosts(),
            round_robin_call(*old(self), *final(self), res),
    {
        let next = self.next % self.hosts.len();
        self.next = self.next.wrapping_add(1);
        Some(next)
    }

    /// Replaces the state kept about the host at `index`; the counter is untouched.
    pub fn set_host(&mut self, index: usize, host: HostState)
        requires
            index < old(self).spec_hosts().len(),
        ensures
            final(self).spec_hosts() == old(self).spec_hosts().update(index as int, host),
            final(self).counter() == old(self).counter(),
    {
        self.hosts.set(index, host);
    }
}

/// The counter after `k` selections since `new()`: `k` modulo the range of `usize`.
pub open spec fn counter_after(k: nat) -> usize {
    (k % (usize::MAX as nat + 1)) as usize
}

/// The counter that `new()` starts and each selection moves on by one (wrapping around) is
/// `counter_after(k)` after `k` selections; `set_hosts` keeps it. So the selection made after
/// `k` earlier ones, over `n` hosts, is host `counter_after(k) % n`.
pub proof fn lemma_counter_after(k: nat)
    ensures
        counter_after(0) == 0,
        vstd::wrapping::usize_specs::wrapping_add(counter_after(k), 1) == counter_after(k + 1),
{
    let m = usize::MAX as int + 1;
    vstd::arithmetic::div_mod::lemma_small_mod(0, m as nat);
    vstd::arithmetic::div_mod::lemma_fundamental_div_mod(k as int, m);
    vstd::arithmetic::div_mod::lemma_mod_bound(k as int, m);
    let q = (k as int) / m;
    let c = (k as int) % m;
    if c + 1 < m {
        vstd::arithmetic::div_mod::lemma_mod_multiples_vanish(q, c + 1, m);
        vstd::arithmetic::div_mod::lemma_small_mod((c + 1) as nat, m as nat);
        assert(k + 1 == m * q + (c + 1));
    } else {
        assert(k + 1 == m * (q + 1)) by (nonlinear_arith)
            requires
                k == m * q + c,
                c + 1 == m,
        ;
        vstd::arithmetic::div_mod::lemma_mod_multiples_basic(q + 1, m);
        assert((m * (q + 1)) % m == ((q + 1) * m) % m) by (nonlinear_arith);
    }
}

/// Before the counter wraps around, it counts the calls exactly.
pub proof fn lemma_counter_after_small(k: nat)
    requires
        k <= usize::MAX,
    ensures
        counter_after(k) == k,
{
    vstd::arithmetic::div_mod::lemma_small_mod(k, usize::MAX as nat + 1);
}

/// What one call of `next` does: over the same hosts, it returns the host at the counter's
/// position and moves the counter on by one, wrapping around.
pub open spec fn round_robin_call(before: RoundRobin, after: RoundRobin, res: Option<usize>) -> bool {
    &&& after.spec_hosts() == before.spec_hosts()
    &&& res == Some(((before.counter() as int) % (before.spec_hosts().len() as int)) as usize)
    &&& after.counter() == vstd::wrapping::usize_specs::wrapping_add(before.counter(), 1)
}

/// `states` are the states a policy goes through over successive calls of `next`, and
/// `results` what those calls return.
pub open spec fn round_robin_calls(states: Seq<RoundRobin>, results: Seq<Option<usize>>) -> bool {
    &&& states.len() == results.len() + 1
    &&& forall|i: int| 0 <= i < results.len() ==> #[trigger] round_robin_call(states[i], states[i + 1], results[i])
}

/// Over any run of calls of `next` on `n` hosts, when `k0` calls were made since `new()`
/// (`set_hosts` does not reset the count), call number `i` of the run returns host
/// `counter_after(k0 + i) % n`: the counter wraps around silently on overflow.
pub proof fn lemma_round_robin_calls(states: Seq<RoundRobin>, results: Seq<Option<usize>>, k0: nat)
    requires
        round_robin_calls(states, results),
        states[0].spec_hosts().len() > 0,
        states[0].counter() == counter_after(k0),
    ensures
        forall|i: int| 0 <= i < results.len() ==> #[trigger] results[i]
            == Some(((counter_after(k0 + i as nat) as int) % (states[0].spec_hosts().len() as int)) as usize),
    decreases results.len(),
{
    let n = results.len();
    if n > 0 {
        let s1 = states.drop_last();
        let r1 = results.drop_last();
        assert forall|i: int| 0 <= i < r1.len() implies #[trigger] round_robin_call(s1[i], s1[i + 1], r1[i]) by {
            assert(round_robin_call(states[i], states[i + 1], results[i]));
        }
        lemma_round_robin_calls(s1, r1, k0);
        lemma_counters(states, results, k0, (n - 1) as nat);
        assert(round_robin_call(states[n - 1], states[n as int], results[n - 1]));
        assert forall|i: int| 0 <= i < results.len() implies #[trigger] results[i]
            == Some(((counter_after(k0 + i as nat) as int) % (states[0].spec_hosts().len() as int)) as usize) by {
            if i < n - 1 {
                assert(results[i] == r1[i]);
            }
        }
    }
}

/// Along a run of calls, the counter after `i` calls is `counter_after(k0 + i)`, over the
/// same hosts.
proof fn lemma_counters(states: Seq<RoundRobin>, results: Seq<Option<usize>>, k0: nat, i: nat)
    requires
        round_robin_calls(states, results),
        states[0].counter() == counter_after(k0),
        i <= results.len(),
    ensures
        states[i as int].counter() == counter_after(k0 + i),
        states[i as int].spec_hosts() == states[0].spec_hosts(),
    decreases i,
{
    if i > 0 {
        lemma_counters(states, results, k0, (i - 1) as nat);
        assert(round_robin_call(states[i - 1], states[(i - 1) + 1], results[i - 1]));
        lemma_counter_after((k0 + i - 1) as nat);
        assert((k0 + i - 1) as nat + 1 == k0 + i);
    }
}

/// Host `i` is handed out by one of the `n` requests that follow counter value `start`.
pub open spec fn visited_within(start: int, n: int, i: int) -> bool {
    exists|k: int| 0 <= k < n && #[trigger] ((start + k) % n) == i
}

/// Round robin is fair: as long as the counter does not wrap around, any run of as many
/// consecutive requests as there are hosts visits every host exactly once.
pub proof fn lemma_round_robin_fair(start: int, n: int)
    requires
        start >= 0,
        n > 0,
    ensures
        forall|k1: int, k2: int|
            0 <= k1 < k2 < n ==> #[trigger] ((start + k1) % n) != #[trigger] ((start + k2) % n),
        forall|i: int| 0 <= i < n ==> #[trigger] visited_within(start, n, i),
{
    assert forall|k1: int, k2: int| 0 <= k1 < k2 < n implies #[trigger] ((start + k1) % n)
        != #[trigger] ((start + k2) % n) by {
        let a = start + k1;
        let b = start + k2;
        vstd::arithmetic::div_mod::lemma_fundamental_div_mod(a, n);
        vstd::arithmetic::div_mod::lemma_fundamental_div_mod(b, n);
        if a % n == b % n {
            let qa = a / n;
            let qb = b / n;
            assert(n * (qb - qa) == k2 - k1) by (nonlinear_arith)
                requires
                    a == n * qa + a % n,
                    b == n * qb + b % n,
                    a % n == b % n,
                    b - a == k2 - k1,
            ;
            assert(false) by (nonlinear_arith)
                requires
                    n * (qb - qa) == k2 - k1,
                    0 < k2 - k1 < n,
            ;
        }
    }
    assert forall|i: int| 0 <= i < n implies #[trigger] visited_within(start, n, i) by {
        vstd::arithmetic::div_mod::lemma_fundamental_div_mod(start, n);
        vstd::arithmetic::div_mod::lemma_mod_bound(start, n);
        let r = start % n;
        let q = start / n;
        let k: int = if i >= r { i - r } else { i + n - r };
        let m: int = if i >= r { q } else { q + 1 };
        assert(start + k == n * m + i) by (nonlinear_arith)
            requires
                start == n * q + r,
                k == if i >= r { i - r } else { i + n - r },
                m == if i >= r { q } else { q + 1 },
        ;
        vstd::arithmetic::div_mod::lemma_mod_multiples_vanish(m, i, n);
        vstd::arithmetic::div_mod::lemma_small_mod(i as nat, n as nat);
        assert((start + k) % n == i);
    }
}

impl BalancerPolicy for RoundRobin {
    open spec fn policy_hosts(&self) -> Seq<HostState> {
        self.spec_hosts()
    }

    open spec fn policy_wf(&self) -> bool {
        true
    }

    fn next(&mut self) -> (res: Option<usize>)
        ensures
            res == Some(((old(self).counter() as int) % (old(self).spec_hosts().len() as int)) as usize),
            final(self).counter() == vstd::wrapping::usize_specs::wrapping_add(old(self).counter(), 1),
    {
        RoundRobin::next(self)
    }
}

} // verus!
