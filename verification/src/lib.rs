//! A load balancer's core: host bookkeeping, balancing policies, and the
//! request-rewriting rules applied before a request is proxied upstream.

pub mod balancer;
pub mod cli;
pub mod config;
pub mod healthcheck;
pub mod host;
pub mod policies;
pub mod policy;
pub mod server;
pub mod utils;
