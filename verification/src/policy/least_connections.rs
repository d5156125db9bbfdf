use vstd::prelude::*;

use crate::host::HostState;
use crate::policy::BalancerPolicy;

verus! {

/// `k` is the first host with the fewest requests in flight.
pub open spec fn is_least_loaded(hosts: Seq<HostState>, k: int) -> bool {
    &&& 0 <= k < hosts.len()
    &&& forall|j: int| 0 <= j < hosts.len() ==> hosts[k].connections <= #[trigger] hosts[j].connections
    &&& forall|j: int| 0 <= j < k ==> hosts[k].connections < #[trigger] hosts[j].connections
}

/// Sends each request to the host with the fewest requests in flight.
pub struct LeastConnections {
    hosts: Vec<HostState>,
}

impl LeastConnections {
    pub closed spec fn spec_hosts(&self) -> Seq<HostState> {
        self.hosts@
    }

    pub fn new() -> (res: Self)
        ensures
            res.spec_hosts() == Seq::<HostState>::empty(),
    {
        LeastConnections { hosts: Vec::new() }
    }

    pub fn set_hosts(&mut self, hosts: Vec<HostState>)
        ensures
            final(self).spec_hosts() == hosts@,
    {
        self.hosts = hosts;
    }

    pub fn hosts(&self) -> (res: &Vec<HostState>)
        ensures
            res@ == self.spec_hosts(),
    {
        &self.hosts
    }

    /// The first host with the fewest requests in flight; `None` when there is no host.
    pub fn next(&self) -> (res: Option<usize>)
        ensures
            res is None <==> self.spec_hosts().len() == 0,
            res matches Some(k) ==> is_least_loaded(self.spec_hosts(), k as int),
    {
        if self.hosts.len() == 0 {
            return None;
        }
        let mut best: usize = 0;
        let mut i: usize = 1;
        while i < self.hosts.len()
            invariant
                1 <= i <= self.hosts@.len(),
                is_least_loaded(self.hosts@.take(i as int), best as int),
            decreases self.hosts@.len() - i,
        {
            let ghost prefix = self.hosts@.take(i as int);
            if self.hosts[i].connections < self.hosts[best].connections {
                best = i;
            }
            i = i + 1;
            proof {
                let t = self.hosts@.take(i as int);
                assert forall|j: int| 0 <= j < i - 1 implies t[j] == prefix[j] by {}
            }
        }
        proof {
            assert(self.hosts@.take(i as int) =~= self.hosts@);
        }
        Some(best)
    }

    /// Replaces the state kept about the host at `index`.
    pub fn set_host(&mut self, index: usize, host: HostState)
        requires
            index < old(self).spec_hosts().len(),
        ensures
            final(self).spec_hosts() == old(self).spec_hosts().update(index as int, host),
    {
        self.hosts.set(index, host);
    }
}

impl BalancerPolicy for LeastConnections {
    open spec fn policy_hosts(&self) -> Seq<HostState> {
        self.spec_hosts()
    }

    open spec fn policy_wf(&self) -> bool {
        true
    }

    fn next(&mut self) -> (res: Option<usize>)
        ensures
            *final(self) == *old(self),
            res matches Some(k) && is_least_loaded(old(self).spec_hosts(), k as int),
    {
        LeastConnections::next(self)
    }
}

} // verus!
