# load_balancer

An HTTP load balancer whose decision logic is verified with Verus.

- `src/` — the verified library:
  - `host.rs`: per-host state (liveness, mean latency, requests in flight) and request tracking;
  - `policies/`: round robin, smooth weighted round robin (`smooth.rs` holds its mathematics and
    the proof that a full cycle serves every host exactly its weight's worth of requests), and
    interleaved weighted round robin; `policies/factory.rs` makes any of them;
  - `policy/`: least connections, latency-driven dynamic weighted round robin, the
    `BalancerPolicy` trait and the factory the balancer uses;
  - `balancer.rs`: the host table, the policy over the hosts found alive, and the health-check
    and request bookkeeping that keeps the two consistent;
  - `server/`: the rewriting of request headers (`X-Forwarded-*`, `Forwarded`, a client address
    header) before a request is proxied;
  - `healthcheck.rs`: the health-check URI and when a check passes;
  - `cli.rs`, `config.rs`, `utils/`: command line, configuration, gcd, means.
- `app/` — the program around it: configuration file, HTTP server and client, health checks,
  Prometheus metrics.
- `tests/` — tests of the library.

Run with `-c /path/to/config.toml`.
