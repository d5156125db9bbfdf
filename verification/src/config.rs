use vstd::prelude::*;

use crate::host::HostConfig;
use crate::{balancer, healthcheck, server};

verus! {

/// The whole configuration of the load balancer.
pub struct AppConfig {
    pub server: server::Config,
    pub balancer: balancer::Config,
    pub healthcheck: healthcheck::Config,
    pub hosts: Vec<HostConfig>,
}

} // verus!
