use load_balancer::host::{HostConfig, HostState};
use load_balancer::policies::{RoundRobin, WeightedRoundRobin, WeightedRoundRobin2};
use load_balancer::policy::{DynamicWeightedRoundRobin, LeastConnections};
use load_balancer::utils::statistics::Avg;

fn host(name: &str, weight: usize) -> HostState {
    HostState::new(HostConfig { host: name.to_owned(), weight })
}

fn host_with_latency(name: &str, weight: usize, latency: usize) -> HostState {
    HostState {
        config: HostConfig { host: name.to_owned(), weight },
        alive: true,
        latency_ms: Avg::new(latency),
        connections: 0,
    }
}

#[test]
fn round_robin_test_happy() {
    let hosts = vec![host("a", 1), host("b", 1), host("c", 1)];

    let mut policy = RoundRobin::new();
    policy.set_hosts(hosts);
    let result = (0..4)
        .map(|_| policy.next().map(|i| policy.hosts()[i].config.host.clone()))
        .collect::<Vec<_>>();
    assert_eq!(
        result,
        vec![
            Some("a".to_owned()),
            Some("b".to_owned()),
            Some("c".to_owned()),
            Some("a".to_owned())
        ]
    );
}

#[test]
fn round_robin_test_one() {
    let hosts = vec![host("a", 1)];

    let mut policy = RoundRobin::new();
    policy.set_hosts(hosts);
    assert_eq!(
        policy.next().map(|i| policy.hosts()[i].config.host.clone()),
        Some("a".to_owned())
    );
    assert_eq!(
        policy.next().map(|i| policy.hosts()[i].config.host.clone()),
        Some("a".to_owned())
    );
}

#[test]
fn weighted_round_robin_test_happy() {
    let hosts = vec![host("a", 3), host("b", 1), host("c", 2)];

    let mut policy = WeightedRoundRobin::new();
    policy.set_hosts(hosts);
    let result = (0..12)
        .map(|_| policy.next().map(|i| policy.hosts()[i].config.host.clone()))
        .collect::<Vec<_>>();
    let expected = ["a", "c", "a", "b", "c", "a", "a", "c", "a", "b", "c", "a"]
        .map(ToOwned::to_owned)
        .map(Some);
    assert_eq!(result, expected);
}

#[test]
fn weighted_round_robin_test_one() {
    let hosts = vec![host("a", 2)];

    let mut policy = WeightedRoundRobin::new();
    policy.set_hosts(hosts);
    assert_eq!(
        policy.next().map(|i| policy.hosts()[i].config.host.clone()),
        Some("a".to_owned())
    );
    assert_eq!(
        policy.next().map(|i| policy.hosts()[i].config.host.clone()),
        Some("a".to_owned())
    );
}

#[test]
fn weighted_round_robin2_test_happy() {
    let hosts = vec![host("a", 3), host("b", 1), host("c", 2)];

    let mut policy = WeightedRoundRobin2::new();
    policy.set_hosts(hosts);
    let result = (0..24)
        .map(|_| policy.next().map(|i| policy.hosts()[i].config.host.clone()))
        .collect::<Vec<_>>();
    let expected = [
        "a", "b", "c", "a", "b", "c", "a", "a", "c", "a", "b", "c", "a", "b", "c", "a", "a", "c",
        "a", "b", "c", "a", "b", "c",
    ]
    .map(ToOwned::to_owned)
    .map(Some);
    assert_eq!(result, expected);
}

#[test]
fn weighted_round_robin2_test_one() {
    let hosts = vec![host("a", 2)];

    let mut policy = WeightedRoundRobin2::new();
    policy.set_hosts(hosts);
    assert_eq!(
        policy.next().map(|i| policy.hosts()[i].config.host.clone()),
        Some("a".to_owned())
    );
    assert_eq!(
        policy.next().map(|i| policy.hosts()[i].config.host.clone()),
        Some("a".to_owned())
    );
}

fn next_address(policy: &mut DynamicWeightedRoundRobin) -> String {
    let i = policy.next().unwrap();
    policy.hosts()[i].address().to_owned()
}

#[test]
fn test_happy_path() {
    let hosts = vec![host_with_latency("a", 1, 1), host_with_latency("b", 1, 1)];

    let mut policy = DynamicWeightedRoundRobin::new();
    policy.set_hosts(hosts);

    assert_eq!(next_address(&mut policy), "a");
    assert_eq!(next_address(&mut policy), "b");
    assert_eq!(next_address(&mut policy), "a");
    assert_eq!(next_address(&mut policy), "b");

    let mut first = policy.hosts()[0].clone();
    first.latency_ms.account(3);
    policy.set_host(0, first);
    policy.update_weights();

    assert_eq!(next_address(&mut policy), "b");
    assert_eq!(next_address(&mut policy), "a");
    assert_eq!(next_address(&mut policy), "b");
    assert_eq!(next_address(&mut policy), "b");
}

#[test]
fn test_weighted_round_robin_similarity() {
    let hosts = vec![host("a", 3), host("b", 1), host("c", 2)];

    let mut policy = DynamicWeightedRoundRobin::new();
    policy.set_hosts(hosts);
    let result = (0..12).map(|_| next_address(&mut policy)).collect::<Vec<_>>();
    let expected =
        ["a", "c", "a", "b", "c", "a", "a", "c", "a", "b", "c", "a"].map(ToOwned::to_owned);
    assert_eq!(result, expected);
}

#[test]
fn dynamic_weighted_round_robin_test_one() {
    let hosts = vec![host("a", 2)];

    let mut policy = DynamicWeightedRoundRobin::new();
    policy.set_hosts(hosts);
    assert_eq!(
        policy.next().map(|i| policy.hosts()[i].address().to_owned()),
        Some("a".to_owned())
    );
    assert_eq!(
        policy.next().map(|i| policy.hosts()[i].address().to_owned()),
        Some("a".to_owned())
    );
}

#[test]
fn test_simple() {
    let mut hosts = vec![host("a", 1), host("b", 1), host("c", 1)];

    hosts[0].connections = 2;
    hosts[1].connections = 0;
    hosts[2].connections = 1;

    let mut policy = LeastConnections::new();
    policy.set_hosts(hosts);

    assert_eq!(
        policy.next().map(|i| policy.hosts()[i].address().to_owned()),
        Some("b".to_owned())
    );

    let mut second = policy.hosts()[1].clone();
    second.connections += 2;
    policy.set_host(1, second);
    assert_eq!(
        policy.next().map(|i| policy.hosts()[i].address().to_owned()),
        Some("c".to_owned())
    );
}
