use vstd::prelude::*;

verus! {

/// How hosts are health-checked: a GET of `path` on each host every `interval`
/// milliseconds, when `enabled`.
pub struct Config {
    pub enabled: bool,
    pub path: String,
    /// Milliseconds between two rounds of checks.
    pub interval: u64,
}

/// The text of the URI that `http::Uri::builder` builds from scheme `http`, authority
/// `host` and path and query `path`, or `None` when it refuses them.
pub uninterp spec fn healthcheck_uri_of(host: Seq<char>, path: Seq<char>) -> Option<Seq<char>>;

/// Builds `http://<host><path>` with `http::Uri::builder` and returns its text. The result
/// is claimed to depend on `host` and `path` alone; which texts the builder accepts is not
/// restated here.
#[verifier::external_body]
fn build_healthcheck_uri(host: &str, path: &str) -> (res: Option<String>)
    ensures
        res matches Some(u) ==> healthcheck_uri_of(host@, path@) == Some(u@),
        res is None ==> healthcheck_uri_of(host@, path@) is None,
{
    match http::Uri::builder().scheme(http::uri::Scheme::HTTP).authority(host).path_and_query(path).build() {
        Ok(uri) => Some(uri.to_string()),
        Err(_) => None,
    }
}

/// The URI to health-check the host at address `host`: the configured path on that host,
/// over HTTP; `None` when no valid URI can be made of them.
pub fn healthcheck_uri(config: &Config, host: &str) -> (res: Option<String>)
    ensures
        res matches Some(u) ==> healthcheck_uri_of(host@, config.path@) == Some(u@),
        res is None ==> healthcheck_uri_of(host@, config.path@) is None,
{
    build_healthcheck_uri(host, config.path.as_str())
}

/// A health check passes when the host answered with a success status (200 to 299); it
/// fails when the host gave no answer.
pub fn check_passed(status: Option<u16>) -> (res: bool)
    ensures
        res == (status matches Some(s) && 200 <= s < 300),
{
    match status {
        Some(s) => 200 <= s && s < 300,
        None => false,
    }
}

} // verus!
