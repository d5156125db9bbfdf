use vstd::prelude::*;

use crate::utils::statistics::{mean, Avg};

verus! {

/// An upstream host as configured: its address and its static weight.
pub struct HostConfig {
    pub host: String,
    pub weight: usize,
}

impl Clone for HostConfig {
    fn clone(&self) -> (res: Self)
        ensures
            res == *self,
    {
        HostConfig { host: self.host.clone(), weight: self.weight }
    }
}

/// What the balancer knows about an upstream host: its configuration, whether the
/// last health check found it alive, its mean latency in milliseconds and the
/// number of requests currently in flight to it.
pub struct HostState {
    pub config: HostConfig,
    pub alive: bool,
    pub latency_ms: Avg,
    pub connections: usize,
}

impl Clone for HostState {
    fn clone(&self) -> (res: Self)
        ensures
            res == *self,
    {
        HostState {
            config: self.config.clone(),
            alive: self.alive,
            latency_ms: self.latency_ms,
            connections: self.connections,
        }
    }
}

impl HostState {
    /// A fresh host: alive, nothing measured, no request in flight.
    pub fn new(config: HostConfig) -> (res: Self)
        ensures
            res.config == config,
            res.alive,
            res.latency_ms@ == (0usize, 0usize),
            res.latency_ms == Avg::empty_spec(),
            res.connections == 0,
    {
        HostState { config, alive: true, latency_ms: Avg::empty(), connections: 0 }
    }

    pub fn address(&self) -> (res: &str)
        ensures
            res@ == self.config.host@,
    {
        self.config.host.as_str()
    }

    pub fn is_alive(&self) -> (res: bool)
        ensures
            res == self.alive,
    {
        self.alive
    }

    pub fn set_alive(&mut self, alive: bool)
        ensures
            *final(self) == (HostState { alive, ..*old(self) }),
    {
        self.alive = alive;
    }

    /// The mean latency observed so far, in milliseconds.
    pub fn latency(&self) -> (res: usize)
        ensures
            res == mean(self.latency_ms@.0, self.latency_ms@.1),
    {
        self.latency_ms.get_current()
    }
}

/// The host after one more request to it started.
pub open spec fn started(h: HostState) -> HostState {
    HostState { connections: vstd::wrapping::usize_specs::wrapping_add(h.connections, 1), ..h }
}

/// The host after a request to it finished.
pub open spec fn finished(h: HostState) -> HostState {
    HostState { connections: vstd::wrapping::usize_specs::wrapping_sub(h.connections, 1), ..h }
}

/// The time between two readings of a monotonic clock; never negative.
pub open spec fn elapsed_ms(start: u64, now: u64) -> u64 {
    if now >= start {
        (now - start) as u64
    } else {
        0
    }
}

/// A request that starts and then finishes leaves the host as it was.
pub proof fn lemma_request_round_trip(h: HostState)
    ensures
        finished(started(h)) == h,
{
}

/// Tracks one request to a host, from its start until its response body is received.
pub struct HostTracker {
    host: usize,
    request_start_ms: u64,
}

impl HostTracker {
    pub closed spec fn host_id(&self) -> usize {
        self.host
    }

    pub closed spec fn start_ms(&self) -> u64 {
        self.request_start_ms
    }

    /// Counts a request to host `host_id` as in flight, started at `now_ms`.
    pub fn start_request(host_id: usize, host: &mut HostState, now_ms: u64) -> (res: Self)
        ensures
            *final(host) == started(*old(host)),
            res.host_id() == host_id,
            res.start_ms() == now_ms,
    {
        host.connections = host.connections.wrapping_add(1);
        HostTracker { host: host_id, request_start_ms: now_ms }
    }

    pub fn host(&self) -> (res: usize)
        ensures
            res == self.host_id(),
    {
        self.host
    }

    /// Records the latency of the request, measured up to `now_ms`, and returns it.
    pub fn response_headers_received(&self, host: &mut HostState, now_ms: u64) -> (res: u64)
        ensures
            res == elapsed_ms(self.start_ms(), now_ms),
            final(host).latency_ms@ == (
                vstd::wrapping::usize_specs::wrapping_add(old(host).latency_ms@.0, res as usize),
                vstd::wrapping::usize_specs::wrapping_add(old(host).latency_ms@.1, 1),
            ),
            final(host).config == old(host).config,
            final(host).alive == old(host).alive,
            final(host).connections == old(host).connections,
    {
        let elapsed = now_ms.saturating_sub(self.request_start_ms);
        host.latency_ms.account(elapsed as usize);
        elapsed
    }

    /// The request is over: it no longer counts as in flight.
    pub fn response_body_received(self, host: &mut HostState)
        ensures
            *final(host) == finished(*old(host)),
    {
        host.connections = host.connections.wrapping_sub(1);
    }
}

} // verus!
