use load_balancer::balancer::{hosts_fit, Balancer, Config as BalancerConfig};
use load_balancer::healthcheck::{check_passed, healthcheck_uri, Config as HealthcheckConfig};
use load_balancer::cli::{parse_args, ArgsError};
use load_balancer::host::{HostConfig, HostState, HostTracker};
use load_balancer::policies::factory::{
    PolicyFactory as StaticPolicyFactory, PolicyType as StaticPolicyType,
};
use load_balancer::policies::{RoundRobin, WeightedRoundRobin, WeightedRoundRobin2};
use load_balancer::policy::factory::{AnyPolicy, PolicyFactory, PolicyType};
use load_balancer::policy::{BalancerPolicy, DynamicWeightedRoundRobin, LeastConnections};
use load_balancer::utils::math::{gcd, gcd_nums};
use load_balancer::utils::statistics::Avg;

fn host(name: &str, weight: usize) -> HostState {
    HostState::new(HostConfig { host: name.to_owned(), weight })
}

fn config(name: &str, weight: usize) -> HostConfig {
    HostConfig { host: name.to_owned(), weight }
}

#[test]
fn gcd_values() {
    assert_eq!(gcd(12, 18), 6);
    assert_eq!(gcd(18, 12), 6);
    assert_eq!(gcd(0, 5), 5);
    assert_eq!(gcd(7, 0), 7);
    assert_eq!(gcd(0, 0), 0);
    assert_eq!(gcd(17, 5), 1);
}

#[test]
fn gcd_nums_values() {
    assert_eq!(gcd_nums(&vec![]), None);
    assert_eq!(gcd_nums(&vec![9]), Some(9));
    assert_eq!(gcd_nums(&vec![3, 1, 2]), Some(1));
    assert_eq!(gcd_nums(&vec![4, 8, 12]), Some(4));
}

#[test]
fn avg_values() {
    let mut avg = Avg::new(1);
    assert_eq!(avg.get_current(), 1);
    avg.account(3);
    assert_eq!(avg.get_current(), 2);
    let mut empty = Avg::default();
    assert_eq!(empty.get_current(), 0);
    empty.account(7);
    assert_eq!(empty.get_current(), 7);
    let mut wrapping = Avg::new(usize::MAX);
    wrapping.account(1);
    assert_eq!(wrapping.get_current(), 0);
}

#[test]
fn host_state_accessors() {
    let mut h = host("10.0.0.1:80", 3);
    assert_eq!(h.address(), "10.0.0.1:80");
    assert!(h.is_alive());
    h.set_alive(false);
    assert!(!h.is_alive());
    assert_eq!(h.latency(), 0);
    assert_eq!(h.connections, 0);
}

#[test]
fn tracker_round_trip() {
    let mut h = host("a", 1);
    let tracker = HostTracker::start_request(4, &mut h, 100);
    assert_eq!(tracker.host(), 4);
    assert_eq!(h.connections, 1);
    assert_eq!(tracker.response_headers_received(&mut h, 130), 30);
    assert_eq!(h.latency(), 30);
    tracker.response_body_received(&mut h);
    assert_eq!(h.connections, 0);

    let late = HostTracker::start_request(0, &mut h, 500);
    assert_eq!(late.response_headers_received(&mut h, 400), 0);
    assert_eq!(h.latency(), 15);
}

#[test]
fn weighted_round_robin_full_cycle() {
    let mut policy = WeightedRoundRobin::new();
    policy.set_hosts(vec![host("a", 5), host("b", 1), host("c", 1)]);
    let first: Vec<usize> = (0..7).map(|_| policy.next().unwrap()).collect();
    let mut counts = [0; 3];
    for i in &first {
        counts[*i] += 1;
    }
    assert_eq!(counts, [5, 1, 1]);
    assert_eq!(first, vec![0, 0, 1, 0, 2, 0, 0]);
    let second: Vec<usize> = (0..7).map(|_| policy.next().unwrap()).collect();
    assert_eq!(first, second);
}

#[test]
fn weighted_round_robin_empty() {
    let mut policy = WeightedRoundRobin::new();
    assert_eq!(policy.next(), None);
    policy.set_hosts(vec![]);
    assert_eq!(policy.next(), None);
}

#[test]
fn weighted_round_robin_zero_weights() {
    let mut policy = WeightedRoundRobin::new();
    policy.set_hosts(vec![host("a", 0), host("b", 0)]);
    assert_eq!(policy.next(), Some(0));
    assert_eq!(policy.next(), Some(0));
}

#[test]
fn round_robin_fair() {
    let mut policy = RoundRobin::new();
    policy.set_hosts(vec![host("a", 1), host("b", 1), host("c", 1), host("d", 1)]);
    policy.next();
    let mut seen: Vec<usize> = (0..4).map(|_| policy.next().unwrap()).collect();
    assert_eq!(seen, vec![1, 2, 3, 0]);
    seen.sort();
    assert_eq!(seen, vec![0, 1, 2, 3]);
}

#[test]
fn round_robin_counter_survives_new_hosts() {
    let mut policy = RoundRobin::new();
    policy.set_hosts(vec![host("a", 1), host("b", 1)]);
    assert_eq!(policy.next(), Some(0));
    policy.set_hosts(vec![host("x", 1), host("y", 1), host("z", 1)]);
    assert_eq!(policy.next(), Some(1));
}

#[test]
fn weighted_round_robin2_sweeps() {
    let mut policy = WeightedRoundRobin2::new();
    assert_eq!(policy.next(), None);
    policy.set_hosts(vec![host("a", 4), host("b", 2)]);
    let picks: Vec<usize> = (0..8).map(|_| policy.next().unwrap()).collect();
    assert_eq!(picks, vec![0, 1, 0, 0, 1, 0, 1, 0]);
}

#[test]
fn weighted_round_robin2_zero_weights() {
    let mut policy = WeightedRoundRobin2::new();
    policy.set_hosts(vec![host("a", 0), host("b", 0)]);
    assert_eq!(policy.next(), Some(0));
    assert_eq!(policy.next(), Some(1));
    assert_eq!(policy.next(), Some(0));
}

#[test]
fn least_connections_ties_and_empty() {
    let mut policy = LeastConnections::new();
    assert_eq!(policy.next(), None);
    let mut hosts = vec![host("a", 1), host("b", 1), host("c", 1)];
    hosts[0].connections = 3;
    hosts[1].connections = 1;
    hosts[2].connections = 1;
    policy.set_hosts(hosts);
    assert_eq!(policy.next(), Some(1));
}

#[test]
fn dynamic_weights_follow_latency() {
    let mut policy = DynamicWeightedRoundRobin::new();
    let mut slow = host("slow", 2);
    slow.latency_ms = Avg::new(4);
    policy.set_hosts(vec![slow, host("fast", 1)]);
    assert_eq!(policy.next_at(0), Some(0));
    policy.update_weights();
    let picks: Vec<usize> = (0..3).map(|_| policy.next_at(0).unwrap()).collect();
    assert_eq!(picks, vec![1, 0, 1]);
}

#[test]
fn dynamic_weights_update_interval() {
    let mut policy = DynamicWeightedRoundRobin::new();
    policy.set_hosts(vec![host("a", 3), host("b", 1)]);
    // Not yet due: every host still weighs 1.
    assert_eq!(policy.next_at(4), Some(0));
    assert_eq!(policy.next_at(4), Some(1));
    // Due: the weights become 30000 and 10000.
    let picks: Vec<usize> = (0..4).map(|_| policy.next_at(5).unwrap()).collect();
    assert_eq!(picks, vec![0, 0, 1, 0]);
    // A clock reading before the last update changes nothing.
    let mut other = DynamicWeightedRoundRobin::new();
    other.set_hosts(vec![host("a", 3), host("b", 1)]);
    other.update_weights_if_needed(100);
    other.update_weights_if_needed(50);
    assert_eq!(other.next_at(50), Some(0));
}

#[test]
fn policy_trait_and_factories() {
    let mut p = PolicyFactory::make(PolicyType::LeastConnections, vec![host("a", 1), host("b", 1)]);
    assert_eq!(BalancerPolicy::next(&mut p), Some(0));
    assert_eq!(p.hosts().len(), 2);
    let mut q = PolicyFactory::make(PolicyType::WeightedRoundRobin, vec![host("a", 2), host("b", 1)]);
    let picks: Vec<usize> = (0..3).map(|_| q.next().unwrap()).collect();
    assert_eq!(picks, vec![0, 1, 0]);
    assert!(matches!(
        PolicyFactory::make(PolicyType::DynamicWeightedRoundRobin, vec![host("a", 1)]),
        AnyPolicy::DynamicWeightedRoundRobin(_)
    ));
    let mut r = StaticPolicyFactory::make(StaticPolicyType::WeightedRoundRobin2, vec![host("a", 2), host("b", 1)]);
    let picks: Vec<usize> = (0..3).map(|_| r.next().unwrap()).collect();
    assert_eq!(picks, vec![0, 1, 0]);
    let mut s = StaticPolicyFactory::make(StaticPolicyType::RoundRobin, vec![host("a", 2), host("b", 1)]);
    assert_eq!(BalancerPolicy::next(&mut s), Some(0));
    assert_eq!(BalancerPolicy::next(&mut s), Some(1));
}

fn balancer(policy: PolicyType) -> Balancer {
    Balancer::new(
        BalancerConfig { policy },
        vec![config("a", 1), config("b", 1), config("c", 1)],
    )
}

#[test]
fn balancer_skips_dead_hosts() {
    let mut b = balancer(PolicyType::RoundRobin);
    assert_eq!(b.hosts().len(), 3);
    assert_eq!(b.next_host(), Some(0));
    b.set_alive(1, false);
    // Until the alive hosts are updated, the policy still serves every host.
    assert_eq!(b.next_host(), Some(1));
    b.update_alive_hosts();
    let picks: Vec<usize> = (0..4).map(|_| b.next_host().unwrap()).collect();
    assert_eq!(picks, vec![0, 2, 0, 2]);
}

#[test]
fn balancer_healthcheck() {
    let mut b = balancer(PolicyType::WeightedRoundRobin);
    b.apply_healthcheck(&vec![false, false, false]);
    assert_eq!(b.next_host(), None);
    b.apply_healthcheck(&vec![false, true, false]);
    assert_eq!(b.next_host(), Some(1));
    assert_eq!(b.next_host(), Some(1));
    assert!(!b.hosts()[0].is_alive());
    assert!(b.hosts()[1].is_alive());
}

#[test]
fn balancer_least_connections_follows_requests() {
    let mut b = balancer(PolicyType::LeastConnections);
    let first = b.start_request(0, 10);
    let second = b.start_request(1, 10);
    assert_eq!(b.next_host(), Some(2));
    assert_eq!(b.response_headers_received(&first, 25), 15);
    assert_eq!(b.hosts()[0].latency(), 15);
    b.response_body_received(first);
    assert_eq!(b.hosts()[0].connections, 0);
    assert_eq!(b.next_host(), Some(0));
    b.response_body_received(second);
    assert_eq!(b.hosts()[1].connections, 0);
}

#[test]
fn balancer_dynamic_policy_sees_latency() {
    let mut b = Balancer::new(
        BalancerConfig { policy: PolicyType::DynamicWeightedRoundRobin },
        vec![config("a", 1), config("b", 1)],
    );
    let t = b.start_request(0, 0);
    b.response_headers_received(&t, 4);
    b.response_body_received(t);
    assert_eq!(b.hosts()[0].latency(), 4);
    // The first pick recomputes the weights: 2500 for a, 10000 for b.
    let picks: Vec<usize> = (0..5).map(|_| b.next_host().unwrap()).collect();
    assert_eq!(picks, vec![1, 1, 0, 1, 1]);
}

fn args(list: &[&str]) -> Vec<String> {
    list.iter().map(|s| s.to_string()).collect()
}

#[test]
fn parse_args_cases() {
    let ok = parse_args(&args(&["lb", "-c", "config.toml"])).ok().unwrap();
    assert_eq!(ok.config_path, "config.toml");
    let last = parse_args(&args(&["lb", "-c", "a.toml", "-v", "-c", "b.toml"])).ok().unwrap();
    assert_eq!(last.config_path, "b.toml");
    let flag_as_path = parse_args(&args(&["lb", "-c", "-c"])).ok().unwrap();
    assert_eq!(flag_as_path.config_path, "-c");
    assert_eq!(parse_args(&args(&["lb", "-c"])).err(), Some(ArgsError::ConfigFileExpected));
    assert_eq!(parse_args(&args(&["lb"])).err(), Some(ArgsError::ConfigFileMissing));
    assert_eq!(ArgsError::ConfigFileExpected.message(), "config file expected");
    assert_eq!(
        ArgsError::ConfigFileMissing.message(),
        "provide config file with '-c' option"
    );
}

#[test]
fn healthcheck_decisions() {
    let cfg = HealthcheckConfig { enabled: true, path: "/health?x=1".to_owned(), interval: 1000 };
    assert_eq!(healthcheck_uri(&cfg, "10.0.0.1:8080"), Some("http://10.0.0.1:8080/health?x=1".to_owned()));
    assert_eq!(healthcheck_uri(&cfg, "bad host"), None);
    assert!(check_passed(Some(200)));
    assert!(check_passed(Some(299)));
    assert!(!check_passed(Some(199)));
    assert!(!check_passed(Some(300)));
    assert!(!check_passed(Some(503)));
    assert!(!check_passed(None));
}

#[test]
fn weights_fit_checks() {
    let small = vec![config("a", 3), config("b", 1)];
    assert!(hosts_fit(PolicyType::WeightedRoundRobin, &small));
    assert!(hosts_fit(PolicyType::DynamicWeightedRoundRobin, &small));
    let huge = vec![config("a", usize::MAX / 2), config("b", usize::MAX / 2)];
    assert!(!hosts_fit(PolicyType::WeightedRoundRobin, &huge));
    assert!(!hosts_fit(PolicyType::DynamicWeightedRoundRobin, &huge));
    assert!(hosts_fit(PolicyType::RoundRobin, &huge));
    assert!(hosts_fit(PolicyType::LeastConnections, &huge));
    let scaled_too_big = vec![config("a", usize::MAX / 5000)];
    assert!(hosts_fit(PolicyType::WeightedRoundRobin, &scaled_too_big));
    assert!(!hosts_fit(PolicyType::DynamicWeightedRoundRobin, &scaled_too_big));
}

#[test]
fn interleaved_factory_order() {
    let mut p = StaticPolicyFactory::make(
        StaticPolicyType::WeightedRoundRobin2,
        vec![host("a", 3), host("b", 1), host("c", 2)],
    );
    let names: Vec<String> = (0..8)
        .map(|_| {
            let i = p.next().unwrap();
            p.hosts()[i].config.host.clone()
        })
        .collect();
    assert_eq!(names, ["a", "b", "c", "a", "b", "c", "a", "a"]);
}

#[test]
fn weighted_round_robin_cycles_repeat() {
    let mut policy = WeightedRoundRobin::new();
    policy.set_hosts(vec![host("a", 3), host("b", 1), host("c", 2)]);
    let cycles: Vec<Vec<usize>> = (0..3)
        .map(|_| (0..6).map(|_| policy.next().unwrap()).collect())
        .collect();
    assert_eq!(cycles[0], vec![0, 2, 0, 1, 2, 0]);
    for cycle in &cycles {
        assert_eq!(cycle, &cycles[0]);
        let mut counts = [0; 3];
        for i in cycle {
            counts[*i] += 1;
        }
        assert_eq!(counts, [3, 1, 2]);
    }
}

#[test]
fn round_robin_calls_count_from_new() {
    let mut policy = RoundRobin::new();
    policy.set_hosts(vec![host("a", 1), host("b", 1), host("c", 1)]);
    let first: Vec<usize> = (0..4).map(|_| policy.next().unwrap()).collect();
    assert_eq!(first, vec![0, 1, 2, 0]);
    policy.set_hosts(vec![host("x", 1), host("y", 1)]);
    let second: Vec<usize> = (0..3).map(|_| policy.next().unwrap()).collect();
    assert_eq!(second, vec![0, 1, 0]);
}

#[test]
fn equal_weights_match_round_robin() {
    let hosts = vec![host("a", 2), host("b", 2), host("c", 2)];
    let mut weighted = WeightedRoundRobin::new();
    weighted.set_hosts(hosts.clone());
    let mut plain = RoundRobin::new();
    plain.set_hosts(hosts);
    for i in 0..7 {
        let w = weighted.next();
        assert_eq!(w, plain.next());
        assert_eq!(w, Some(i % 3));
    }
}

#[test]
fn interleaved_set_hosts_restarts() {
    let mut used = WeightedRoundRobin2::new();
    used.set_hosts(vec![host("x", 4), host("y", 2)]);
    for _ in 0..3 {
        used.next();
    }
    let hosts = vec![host("a", 3), host("b", 1), host("c", 2)];
    used.set_hosts(hosts.clone());
    let mut fresh = WeightedRoundRobin2::new();
    fresh.set_hosts(hosts);
    let a: Vec<usize> = (0..8).map(|_| used.next().unwrap()).collect();
    let b: Vec<usize> = (0..8).map(|_| fresh.next().unwrap()).collect();
    assert_eq!(a, b);
    assert_eq!(a, vec![0, 1, 2, 0, 1, 2, 0, 0]);
}

#[test]
fn made_policy_matches_new_and_set_hosts() {
    let hosts = vec![host("a", 3), host("b", 1), host("c", 2)];
    let mut rr = RoundRobin::new();
    rr.set_hosts(hosts.clone());
    let mut wrr = WeightedRoundRobin::new();
    wrr.set_hosts(hosts.clone());
    let mut dwrr = DynamicWeightedRoundRobin::new();
    dwrr.set_hosts(hosts.clone());
    let mut lc = LeastConnections::new();
    lc.set_hosts(hosts.clone());
    let mut made = [
        PolicyFactory::make(PolicyType::RoundRobin, hosts.clone()),
        PolicyFactory::make(PolicyType::WeightedRoundRobin, hosts.clone()),
        PolicyFactory::make(PolicyType::DynamicWeightedRoundRobin, hosts.clone()),
        PolicyFactory::make(PolicyType::LeastConnections, hosts.clone()),
    ];
    let mut manual = [
        AnyPolicy::RoundRobin(rr),
        AnyPolicy::WeightedRoundRobin(wrr),
        AnyPolicy::DynamicWeightedRoundRobin(dwrr),
        AnyPolicy::LeastConnections(lc),
    ];
    for (m, n) in made.iter_mut().zip(manual.iter_mut()) {
        for _ in 0..9 {
            assert_eq!(m.next(), n.next());
        }
    }
}
