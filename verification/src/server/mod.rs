//! How a request is rewritten before it is proxied upstream.
pub mod headers;

use vstd::prelude::*;
use vstd::string::StringExecFns;

use headers::{
    append_bytes, copy_bytes, first_value, inserted, is_valid_value, is_value_byte, removed,
    replaced_first, Field, Headers,
};

verus! {

/// How a forwarding header (`X-Forwarded-*`, `Forwarded`) is passed upstream.
#[derive(Clone, Copy)]
pub enum ForwardedHeaderMethod {
    /// Pass the header as it came.
    Pass,
    /// Remove the header: the default, and the safest when no trusted proxy is in front.
    Remove,
    /// Replace the header by one describing this hop.
    Overwrite,
    /// Add this hop to the header, creating it if needed. For `X-Forwarded-Host`, `-Port`
    /// and `-Proto` this is the same as `Overwrite`.
    Append,
}

impl Default for ForwardedHeaderMethod {
    fn default() -> (res: Self)
        ensures
            res == ForwardedHeaderMethod::Remove,
    {
        ForwardedHeaderMethod::Remove
    }
}

/// The proxy server's configuration.
pub struct Config {
    pub listen_addr: String,
    pub client_max_idle_per_host: usize,
    /// How long a client may take to send the request headers, in milliseconds.
    pub server_header_read_timeout: u64,
    pub set_header_x_forwarded_for: ForwardedHeaderMethod,
    pub set_header_x_forwarded_port: ForwardedHeaderMethod,
    pub set_header_x_forwarded_proto: ForwardedHeaderMethod,
    pub set_header_x_forwarded_host: ForwardedHeaderMethod,
    pub set_header_forwarded: ForwardedHeaderMethod,
    /// A header to carry the client's address upstream, if any.
    pub client_ip_header: Option<String>,
}

/// Why a request could not be prepared for its upstream.
#[derive(Clone, Copy, PartialEq, Eq, Structural, Debug)]
pub enum PrepareError {
    /// The upstream host's address is no valid URI authority.
    InvalidUpstreamAddress,
    /// The configured client address header is no valid header name.
    InvalidHeaderName,
}

pub open spec fn x_forwarded_for() -> Seq<char> {
    "x-forwarded-for"@
}

pub open spec fn x_forwarded_port() -> Seq<char> {
    "x-forwarded-port"@
}

pub open spec fn x_forwarded_proto() -> Seq<char> {
    "x-forwarded-proto"@
}

pub open spec fn x_forwarded_host() -> Seq<char> {
    "x-forwarded-host"@
}

pub open spec fn forwarded() -> Seq<char> {
    "forwarded"@
}

pub open spec fn host() -> Seq<char> {
    "host"@
}

/// `for=` in ASCII.
pub const FOR_PREFIX: [u8; 4] = [102, 111, 114, 61];

/// `;host=` in ASCII.
pub const HOST_PREFIX: [u8; 6] = [59, 104, 111, 115, 116, 61];

/// `;proto=http` in ASCII.
pub const PROTO_SUFFIX: [u8; 11] = [59, 112, 114, 111, 116, 111, 61, 104, 116, 116, 112];

/// `http` in ASCII: the only protocol spoken with clients.
pub open spec fn proto_http() -> Seq<u8> {
    seq![104u8, 116, 116, 112]
}

/// `,` in ASCII.
pub open spec fn comma() -> Seq<u8> {
    seq![44u8]
}

/// The decimal digits of `n`.
pub open spec fn decimal(n: nat) -> Seq<u8>
    decreases n,
{
    if n < 10 {
        seq![(48 + n) as u8]
    } else {
        decimal(n / 10).push((48 + n % 10) as u8)
    }
}

/// One element of a `Forwarded` header: `for=<client>`, then `;host=<host>` when the
/// request names its host, then `;proto=http`.
pub open spec fn forwarded_item(client_ip: Seq<u8>, host_header: Option<Seq<u8>>) -> Seq<u8> {
    FOR_PREFIX@ + client_ip + match host_header {
        Some(h) => HOST_PREFIX@ + h,
        None => Seq::empty(),
    } + PROTO_SUFFIX@
}

/// The headers after the `X-Forwarded-For` rule.
pub open spec fn after_forwarded_for(m: ForwardedHeaderMethod, h: Seq<Field>, client_ip: Seq<u8>) -> Seq<Field> {
    match m {
        ForwardedHeaderMethod::Pass => h,
        ForwardedHeaderMethod::Remove => removed(h, x_forwarded_for()),
        ForwardedHeaderMethod::Overwrite => inserted(h, x_forwarded_for(), client_ip),
        ForwardedHeaderMethod::Append => match first_value(h, x_forwarded_for()) {
            None => inserted(h, x_forwarded_for(), client_ip),
            Some(v) => replaced_first(h, x_forwarded_for(), v + comma() + client_ip),
        },
    }
}

/// The headers after the rule for a header that names this hop only (`X-Forwarded-Port`,
/// `X-Forwarded-Proto`): removed, passed, or set to `value`.
pub open spec fn after_hop_header(m: ForwardedHeaderMethod, h: Seq<Field>, name: Seq<char>, value: Seq<u8>) -> Seq<Field> {
    match m {
        ForwardedHeaderMethod::Pass => h,
        ForwardedHeaderMethod::Remove => removed(h, name),
        _ => inserted(h, name, value),
    }
}

/// The headers after the `X-Forwarded-Host` rule: set to the request's `Host`, or removed
/// when the request has no `Host`.
pub open spec fn after_forwarded_host(m: ForwardedHeaderMethod, h: Seq<Field>) -> Seq<Field> {
    match m {
        ForwardedHeaderMethod::Pass => h,
        ForwardedHeaderMethod::Remove => removed(h, x_forwarded_host()),
        _ => match first_value(h, host()) {
            Some(v) => inserted(h, x_forwarded_host(), v),
            None => removed(h, x_forwarded_host()),
        },
    }
}

/// The headers after the `Forwarded` rule.
pub open spec fn after_forwarded(m: ForwardedHeaderMethod, h: Seq<Field>, client_ip: Seq<u8>) -> Seq<Field> {
    let item = forwarded_item(client_ip, first_value(h, host()));
    match m {
        ForwardedHeaderMethod::Pass => h,
        ForwardedHeaderMethod::Remove => removed(h, forwarded()),
        ForwardedHeaderMethod::Overwrite => inserted(h, forwarded(), item),
        ForwardedHeaderMethod::Append => match first_value(h, forwarded()) {
            None => inserted(h, forwarded(), item),
            Some(v) => inserted(h, forwarded(), v + comma() + item),
        },
    }
}

/// The headers after all the forwarding rules, applied in order.
pub open spec fn forwarding_headers(config: Config, h: Seq<Field>, client_ip: Seq<u8>, client_port: u16) -> Seq<Field> {
    let h1 = after_forwarded_for(config.set_header_x_forwarded_for, h, client_ip);
    let h2 = after_hop_header(config.set_header_x_forwarded_port, h1, x_forwarded_port(), decimal(client_port as nat));
    let h3 = after_hop_header(config.set_header_x_forwarded_proto, h2, x_forwarded_proto(), proto_http());
    let h4 = after_forwarded_host(config.set_header_x_forwarded_host, h3);
    after_forwarded(config.set_header_forwarded, h4, client_ip)
}

/// Whether the text is a valid URI authority (what `http::uri::Authority` parses).
pub uninterp spec fn authority_parses(s: Seq<char>) -> bool;

/// The header name that `http::HeaderName` parses the text to, in its lower-case form.
pub uninterp spec fn header_name_of(s: Seq<char>) -> Option<Seq<char>>;

/// Whether `http::uri::Authority::from_str` accepts `s`. The result is claimed to depend on
/// `s` alone; the rules of URI authorities are not restated here.
#[verifier::external_body]
fn is_valid_authority(s: &str) -> (res: bool)
    ensures
        res == authority_parses(s@),
{
    <http::uri::Authority as std::str::FromStr>::from_str(s).is_ok()
}

/// `http::HeaderName::from_str` on `s`, as the name's text (`HeaderName::as_str`), or `None`
/// when `s` is no valid header name. The result is claimed to depend on `s` alone; which
/// names are valid, and how they are lower-cased, is not restated here.
#[verifier::external_body]
fn parse_header_name(s: &str) -> (res: Option<String>)
    ensures
        match res {
            Some(n) => header_name_of(s@) == Some(n@),
            None => header_name_of(s@) is None,
        },
{
    match <http::HeaderName as std::str::FromStr>::from_str(s) {
        Ok(n) => Some(n.as_str().to_owned()),
        Err(_) => None,
    }
}

/// Appends the decimal digits of `n`.
pub fn push_decimal(out: &mut Vec<u8>, n: u16)
    ensures
        final(out)@ == old(out)@ + decimal(n as nat),
    decreases n,
{
    if n >= 10 {
        push_decimal(out, n / 10);
    }
    out.push(48 + (n % 10) as u8);
    proof {
        assert(final(out)@ =~= old(out)@ + decimal(n as nat));
    }
}

proof fn lemma_decimal_valid(n: nat)
    ensures
        is_valid_value(decimal(n)),
    decreases n,
{
    if n >= 10 {
        lemma_decimal_valid(n / 10);
    }
}

proof fn lemma_concat_valid(a: Seq<u8>, b: Seq<u8>)
    requires
        is_valid_value(a),
        is_valid_value(b),
    ensures
        is_valid_value(a + b),
{
    assert forall|i: int| 0 <= i < (a + b).len() implies is_value_byte(#[trigger] (a + b)[i]) by {
        if i >= a.len() {
            assert((a + b)[i] == b[i - a.len()]);
        }
    }
}

/// Appends one element of a `Forwarded` header describing this hop.
pub fn write_forwarded_header_item(value: &mut Vec<u8>, client_ip: &[u8], host_header: Option<&Vec<u8>>)
    ensures
        final(value)@ == old(value)@ + forwarded_item(client_ip@, match host_header {
            Some(h) => Some(h@),
            None => None,
        }),
{
    append_bytes(value, &FOR_PREFIX);
    append_bytes(value, client_ip);
    match host_header {
        Some(h) => {
            append_bytes(value, &HOST_PREFIX);
            append_bytes(value, h.as_slice());
        },
        None => {},
    }
    append_bytes(value, &PROTO_SUFFIX);
    proof {
        assert(final(value)@ =~= old(value)@ + forwarded_item(client_ip@, match host_header {
            Some(h) => Some(h@),
            None => None,
        }));
    }
}

proof fn lemma_first_value_valid(h: Seq<Field>, name: Seq<char>)
    requires
        forall|i: int| 0 <= i < h.len() ==> is_valid_value(#[trigger] h[i].1),
    ensures
        first_value(h, name) matches Some(v) ==> is_valid_value(v),
{
    headers::lemma_first_index(h, name);
}

proof fn lemma_forwarded_item_valid(client_ip: Seq<u8>, host_header: Option<Seq<u8>>)
    requires
        is_valid_value(client_ip),
        host_header matches Some(h) ==> is_valid_value(h),
    ensures
        is_valid_value(forwarded_item(client_ip, host_header)),
{
    assert(is_valid_value(FOR_PREFIX@));
    assert(is_valid_value(HOST_PREFIX@));
    assert(is_valid_value(PROTO_SUFFIX@));
    lemma_concat_valid(FOR_PREFIX@, client_ip);
    let tail: Seq<u8> = match host_header {
        Some(h) => HOST_PREFIX@ + h,
        None => Seq::empty(),
    };
    if let Some(h) = host_header {
        lemma_concat_valid(HOST_PREFIX@, h);
    }
    lemma_concat_valid(FOR_PREFIX@ + client_ip, tail);
    lemma_concat_valid(FOR_PREFIX@ + client_ip + tail, PROTO_SUFFIX@);
}

fn named(s: &str) -> (res: String)
    ensures
        res@ == s@,
{
    s.to_owned()
}

/// Applies the forwarding rules of `config` to the request headers, for a client at
/// `client_ip` (its address in text) and `client_port`.
pub fn apply_forwarding_headers(config: &Config, headers: &mut Headers, client_ip: &Vec<u8>, client_port: u16)
    requires
        old(headers).wf(),
        is_valid_value(client_ip@),
    ensures
        final(headers).wf(),
        final(headers)@ == forwarding_headers(*config, old(headers)@, client_ip@, client_port),
{
    let ghost h0 = headers@;
    // X-Forwarded-For
    let xff = named("x-forwarded-for");
    match config.set_header_x_forwarded_for {
        ForwardedHeaderMethod::Pass => {},
        ForwardedHeaderMethod::Remove => headers.remove(&xff),
        ForwardedHeaderMethod::Overwrite => headers.insert(xff, copy_bytes(client_ip.as_slice())),
        ForwardedHeaderMethod::Append => match headers.get(&xff) {
            None => headers.insert(xff, copy_bytes(client_ip.as_slice())),
            Some(existing) => {
                let mut value = existing;
                value.push(44);
                append_bytes(&mut value, client_ip.as_slice());
                proof {
                    lemma_first_value_valid(headers@, xff@);
                    assert(is_valid_value(comma()));
                    lemma_concat_valid(existing@, comma());
                    lemma_concat_valid(existing@ + comma(), client_ip@);
                    assert(value@ =~= existing@ + comma() + client_ip@);
                }
                headers.replace_first(&xff, value);
            },
        },
    }
    let ghost h1 = headers@;
    assert(h1 == after_forwarded_for(config.set_header_x_forwarded_for, h0, client_ip@));
    // X-Forwarded-Port
    let xfport = named("x-forwarded-port");
    match config.set_header_x_forwarded_port {
        ForwardedHeaderMethod::Pass => {},
        ForwardedHeaderMethod::Remove => headers.remove(&xfport),
        _ => {
            let mut port: Vec<u8> = Vec::new();
            push_decimal(&mut port, client_port);
            proof {
                lemma_decimal_valid(client_port as nat);
                assert(port@ =~= decimal(client_port as nat));
            }
            headers.insert(xfport, port);
        },
    }
    let ghost h2 = headers@;
    assert(h2 == after_hop_header(config.set_header_x_forwarded_port, h1, x_forwarded_port(), decimal(client_port as nat)));
    // X-Forwarded-Proto
    let xfproto = named("x-forwarded-proto");
    match config.set_header_x_forwarded_proto {
        ForwardedHeaderMethod::Pass => {},
        ForwardedHeaderMethod::Remove => headers.remove(&xfproto),
        _ => {
            let proto: Vec<u8> = vec![104, 116, 116, 112];
            proof {
                assert(proto@ =~= proto_http());
            }
            headers.insert(xfproto, proto);
        },
    }
    let ghost h3 = headers@;
    assert(h3 == after_hop_header(config.set_header_x_forwarded_proto, h2, x_forwarded_proto(), proto_http()));
    // X-Forwarded-Host
    let xfhost = named("x-forwarded-host");
    let host_name = named("host");
    match config.set_header_x_forwarded_host {
        ForwardedHeaderMethod::Pass => {},
        ForwardedHeaderMethod::Remove => headers.remove(&xfhost),
        _ => match headers.get(&host_name) {
            Some(host_header) => {
                proof {
                    lemma_first_value_valid(headers@, host_name@);
                }
                headers.insert(xfhost, host_header);
            },
            None => headers.remove(&xfhost),
        },
    }
    let ghost h4 = headers@;
    assert(h4 == after_forwarded_host(config.set_header_x_forwarded_host, h3));
    // Forwarded
    let fwd = named("forwarded");
    let host_header = headers.get(&host_name);
    proof {
        lemma_first_value_valid(headers@, host_name@);
        lemma_forwarded_item_valid(client_ip@, first_value(h4, host()));
    }
    match config.set_header_forwarded {
        ForwardedHeaderMethod::Pass => {},
        ForwardedHeaderMethod::Remove => headers.remove(&fwd),
        ForwardedHeaderMethod::Overwrite => {
            let mut value: Vec<u8> = Vec::new();
            write_forwarded_header_item(&mut value, client_ip.as_slice(), host_header.as_ref());
            proof {
                assert(value@ =~= forwarded_item(client_ip@, first_value(h4, host())));
            }
            headers.insert(fwd, value);
        },
        ForwardedHeaderMethod::Append => match headers.get(&fwd) {
            None => {
                let mut value: Vec<u8> = Vec::new();
                write_forwarded_header_item(&mut value, client_ip.as_slice(), host_header.as_ref());
                proof {
                    assert(value@ =~= forwarded_item(client_ip@, first_value(h4, host())));
                }
                headers.insert(fwd, value);
            },
            Some(existing) => {
                let mut value = existing;
                value.push(44);
                write_forwarded_header_item(&mut value, client_ip.as_slice(), host_header.as_ref());
                proof {
                    let item = forwarded_item(client_ip@, first_value(h4, host()));
                    lemma_first_value_valid(headers@, fwd@);
                    assert(is_valid_value(comma()));
                    lemma_concat_valid(existing@, comma());
                    lemma_concat_valid(existing@ + comma(), item);
                    assert(value@ =~= existing@ + comma() + item);
                }
                headers.insert(fwd, value);
            },
        },
    }
}

/// Prepares a request's headers for the upstream, given what the address checks found:
/// `upstream_valid` tells whether the upstream host's address is a valid URI authority, and
/// `client_ip_header` is the configured client address header parsed as a header name.
pub fn prepare_request_checked(
    config: &Config,
    headers: &mut Headers,
    client_ip: &Vec<u8>,
    client_port: u16,
    upstream_valid: bool,
    client_ip_header: Option<String>,
) -> (res: Result<(), PrepareError>)
    requires
        old(headers).wf(),
        is_valid_value(client_ip@),
    ensures
        final(headers).wf(),
        !upstream_valid ==> res == Err::<(), PrepareError>(PrepareError::InvalidUpstreamAddress)
            && final(headers)@ == old(headers)@,
        upstream_valid && config.client_ip_header is None ==> res == Ok::<(), PrepareError>(())
            && final(headers)@ == forwarding_headers(*config, old(headers)@, client_ip@, client_port),
        upstream_valid && config.client_ip_header is Some && client_ip_header is None
            ==> res == Err::<(), PrepareError>(PrepareError::InvalidHeaderName)
            && final(headers)@ == forwarding_headers(*config, old(headers)@, client_ip@, client_port),
        upstream_valid && config.client_ip_header is Some ==> (client_ip_header matches Some(name)
            ==> res == Ok::<(), PrepareError>(())
            && final(headers)@ == inserted(forwarding_headers(*config, old(headers)@, client_ip@, client_port), name@, client_ip@)),
{
    if !upstream_valid {
        return Err(PrepareError::InvalidUpstreamAddress);
    }
    apply_forwarding_headers(config, headers, client_ip, client_port);
    if config.client_ip_header.is_some() {
        match client_ip_header {
            None => {
                return Err(PrepareError::InvalidHeaderName);
            },
            Some(name) => {
                headers.insert(name, copy_bytes(client_ip.as_slice()));
            },
        }
    }
    Ok(())
}

/// The request target sent upstream: `http://`, the upstream host's address, then the
/// path and query of the client's request; refused when the address is no valid URI authority.
pub fn rewrite_target(path_and_query: &str, upstream_address: &str) -> (res: Result<String, PrepareError>)
    ensures
        res is Ok <==> authority_parses(upstream_address@),
        res matches Ok(t) ==> t@ == "http://"@ + upstream_address@ + path_and_query@,
        res matches Err(e) ==> e == PrepareError::InvalidUpstreamAddress,
{
    if !is_valid_authority(upstream_address) {
        return Err(PrepareError::InvalidUpstreamAddress);
    }
    let mut target = "http://".to_owned();
    target.append(upstream_address);
    target.append(path_and_query);
    Ok(target)
}

/// Prepares a request for proxying to `upstream_address`, for a client at `client_ip` (its
/// address in text) and `client_port`: rewrites the headers, and returns the request target
/// to send upstream, made from the request's `path_and_query`.
pub fn prepare_request(
    config: &Config,
    headers: &mut Headers,
    client_ip: &Vec<u8>,
    client_port: u16,
    path_and_query: &str,
    upstream_address: &str,
) -> (res: Result<String, PrepareError>)
    requires
        old(headers).wf(),
        is_valid_value(client_ip@),
    ensures
        final(headers).wf(),
        res matches Ok(t) ==> t@ == "http://"@ + upstream_address@ + path_and_query@,
        !authority_parses(upstream_address@) ==> res == Err::<String, PrepareError>(PrepareError::InvalidUpstreamAddress)
            && final(headers)@ == old(headers)@,
        authority_parses(upstream_address@) && config.client_ip_header is None ==> res is Ok
            && final(headers)@ == forwarding_headers(*config, old(headers)@, client_ip@, client_port),
        authority_parses(upstream_address@) ==> (config.client_ip_header matches Some(n) ==> match header_name_of(n@) {
            None => res == Err::<String, PrepareError>(PrepareError::InvalidHeaderName)
                && final(headers)@ == forwarding_headers(*config, old(headers)@, client_ip@, client_port),
            Some(name) => res is Ok
                && final(headers)@ == inserted(forwarding_headers(*config, old(headers)@, client_ip@, client_port), name, client_ip@),
        }),
{
    let target = match rewrite_target(path_and_query, upstream_address) {
        Ok(t) => t,
        Err(e) => {
            return Err(e);
        },
    };
    let client_ip_header = match &config.client_ip_header {
        Some(name) => parse_header_name(name.as_str()),
        None => None,
    };
    match prepare_request_checked(config, headers, client_ip, client_port, true, client_ip_header) {
        Ok(()) => Ok(target),
        Err(e) => Err(e),
    }
}

/// For `X-Forwarded-Port`, `X-Forwarded-Proto` and `X-Forwarded-Host`, appending this hop
/// is the same as overwriting.
pub proof fn lemma_append_is_overwrite_for_hop_headers(h: Seq<Field>, name: Seq<char>, value: Seq<u8>)
    ensures
        after_hop_header(ForwardedHeaderMethod::Append, h, name, value)
            == after_hop_header(ForwardedHeaderMethod::Overwrite, h, name, value),
        after_forwarded_host(ForwardedHeaderMethod::Append, h) == after_forwarded_host(ForwardedHeaderMethod::Overwrite, h),
{
}

/// The two methods choose alike for x-forwarded-port, -proto or -host: they are the same,
/// or each is `Append` or `Overwrite`.
pub open spec fn same_hop_method(a: ForwardedHeaderMethod, b: ForwardedHeaderMethod) -> bool {
    ||| a == b
    ||| (a is Append || a is Overwrite) && (b is Append || b is Overwrite)
}

/// For x-forwarded-port, -proto and -host, `Append` has the same effect as `Overwrite`: two
/// configurations that differ only in choosing one or the other for any of these headers
/// forward the same headers, each of them with a single value.
pub proof fn lemma_append_is_overwrite(c1: Config, c2: Config, h: Seq<Field>, client_ip: Seq<u8>, client_port: u16)
    requires
        c1.set_header_x_forwarded_for == c2.set_header_x_forwarded_for,
        c1.set_header_forwarded == c2.set_header_forwarded,
        same_hop_method(c1.set_header_x_forwarded_port, c2.set_header_x_forwarded_port),
        same_hop_method(c1.set_header_x_forwarded_proto, c2.set_header_x_forwarded_proto),
        same_hop_method(c1.set_header_x_forwarded_host, c2.set_header_x_forwarded_host),
    ensures
        forwarding_headers(c1, h, client_ip, client_port) == forwarding_headers(c2, h, client_ip, client_port),
{
    let h1 = after_forwarded_for(c1.set_header_x_forwarded_for, h, client_ip);
    let port = decimal(client_port as nat);
    lemma_append_is_overwrite_for_hop_headers(h1, x_forwarded_port(), port);
    let h2 = after_hop_header(c1.set_header_x_forwarded_port, h1, x_forwarded_port(), port);
    assert(h2 == after_hop_header(c2.set_header_x_forwarded_port, h1, x_forwarded_port(), port));
    lemma_append_is_overwrite_for_hop_headers(h2, x_forwarded_proto(), proto_http());
    let h3 = after_hop_header(c1.set_header_x_forwarded_proto, h2, x_forwarded_proto(), proto_http());
    assert(h3 == after_hop_header(c2.set_header_x_forwarded_proto, h2, x_forwarded_proto(), proto_http()));
    lemma_append_is_overwrite_for_hop_headers(h3, x_forwarded_host(), Seq::empty());
    assert(after_forwarded_host(c1.set_header_x_forwarded_host, h3) == after_forwarded_host(c2.set_header_x_forwarded_host, h3));
}

/// The rules for other headers leave the values of `other` as they were.
proof fn lemma_values_untouched(h: Seq<Field>, name: Seq<char>, value: Seq<u8>, other: Seq<char>)
    requires
        other != name,
    ensures
        headers::values_of(removed(h, name), other) == headers::values_of(h, other),
        headers::values_of(inserted(h, name, value), other) == headers::values_of(h, other),
        headers::values_of(replaced_first(h, name, value), other) == headers::values_of(h, other),
{
    headers::lemma_values_removed(h, name, other);
    headers::lemma_values_inserted(h, name, value, other);
    headers::lemma_first_index(h, name);
    let i = headers::first_index(h, name);
    if i >= 0 {
        lemma_values_update_other(h, i, (name, value), other);
    }
}

/// Replacing a field of another name by a field of another name leaves the values of `other`.
proof fn lemma_values_update_other(h: Seq<Field>, i: int, f: Field, other: Seq<char>)
    requires
        0 <= i < h.len(),
        h[i].0 != other,
        f.0 != other,
    ensures
        headers::values_of(h.update(i, f), other) == headers::values_of(h, other),
    decreases h.len(),
{
    let u = h.update(i, f);
    if i == h.len() - 1 {
        assert(u.drop_last() =~= h.drop_last());
    } else {
        assert(u.drop_last() =~= h.drop_last().update(i, f));
        lemma_values_update_other(h.drop_last(), i, f, other);
    }
}

/// What the `Forwarded` rule makes of the request's `Forwarded` values. The element for this
/// hop is `for=<client>`, then `;host=<the first Host value>` when the request has a `Host`
/// header, then `;proto=http`. `Overwrite` leaves that element as the one value, whatever
/// `Forwarded` value the request came with; `Append` adds it, after a comma, to the first
/// value the request came with (or makes it the one value); `Pass` keeps the values and
/// `Remove` drops them. The rules for the other headers do not touch `Host` or `Forwarded`.
pub proof fn lemma_forwarded_this_hop(config: Config, h: Seq<Field>, client_ip: Seq<u8>, client_port: u16)
    ensures
        ({
            let hosts = headers::values_of(h, host());
            let host_part: Seq<u8> = if hosts.len() > 0 {
                seq![59u8, 104, 111, 115, 116, 61] + hosts[0]
            } else {
                Seq::empty()
            };
            let element = seq![102u8, 111, 114, 61] + client_ip + host_part
                + seq![59u8, 112, 114, 111, 116, 111, 61, 104, 116, 116, 112];
            let before = headers::values_of(h, forwarded());
            let after = headers::values_of(forwarding_headers(config, h, client_ip, client_port), forwarded());
            &&& config.set_header_forwarded is Overwrite ==> after == seq![element]
            &&& config.set_header_forwarded is Append ==> after == seq![
                if before.len() > 0 { before[0] + seq![44u8] + element } else { element }
            ]
            &&& config.set_header_forwarded is Pass ==> after == before
            &&& config.set_header_forwarded is Remove ==> after.len() == 0
        }),
{
    reveal_strlit("x-forwarded-for");
    reveal_strlit("x-forwarded-port");
    reveal_strlit("x-forwarded-proto");
    reveal_strlit("x-forwarded-host");
    reveal_strlit("forwarded");
    reveal_strlit("host");
    assert(host().len() == 4);
    assert(forwarded().len() == 9);
    assert(x_forwarded_for().len() == 15);
    assert(x_forwarded_port().len() == 16);
    assert(x_forwarded_proto().len() == 17);
    assert(x_forwarded_host().len() == 16);
    let h1 = after_forwarded_for(config.set_header_x_forwarded_for, h, client_ip);
    let h2 = after_hop_header(config.set_header_x_forwarded_port, h1, x_forwarded_port(), decimal(client_port as nat));
    let h3 = after_hop_header(config.set_header_x_forwarded_proto, h2, x_forwarded_proto(), proto_http());
    let h4 = after_forwarded_host(config.set_header_x_forwarded_host, h3);
    let ip = client_ip;
    let fv = first_value(h, x_forwarded_for());
    let v1: Seq<u8> = match fv { Some(v) => v + comma() + ip, None => ip };
    lemma_values_untouched(h, x_forwarded_for(), ip, host());
    lemma_values_untouched(h, x_forwarded_for(), ip, forwarded());
    lemma_values_untouched(h, x_forwarded_for(), v1, host());
    lemma_values_untouched(h, x_forwarded_for(), v1, forwarded());
    let port = decimal(client_port as nat);
    lemma_values_untouched(h1, x_forwarded_port(), port, host());
    lemma_values_untouched(h1, x_forwarded_port(), port, forwarded());
    lemma_values_untouched(h2, x_forwarded_proto(), proto_http(), host());
    lemma_values_untouched(h2, x_forwarded_proto(), proto_http(), forwarded());
    let hv = first_value(h3, host());
    let hv1: Seq<u8> = match hv { Some(v) => v, None => Seq::empty() };
    lemma_values_untouched(h3, x_forwarded_host(), hv1, host());
    lemma_values_untouched(h3, x_forwarded_host(), hv1, forwarded());
    assert(headers::values_of(h4, host()) == headers::values_of(h, host()));
    assert(headers::values_of(h4, forwarded()) == headers::values_of(h, forwarded()));
    headers::lemma_first_value(h4, host());
    headers::lemma_first_value(h4, forwarded());
    assert(FOR_PREFIX@ =~= seq![102u8, 111, 114, 61]);
    assert(HOST_PREFIX@ =~= seq![59u8, 104, 111, 115, 116, 61]);
    assert(PROTO_SUFFIX@ =~= seq![59u8, 112, 114, 111, 116, 111, 61, 104, 116, 116, 112]);
    let item = forwarded_item(ip, first_value(h4, host()));
    let fw = first_value(h4, forwarded());
    let appended: Seq<u8> = match fw { Some(v) => v + comma() + item, None => item };
    headers::lemma_values_inserted(h4, forwarded(), item, forwarded());
    headers::lemma_values_inserted(h4, forwarded(), appended, forwarded());
    headers::lemma_values_removed(h4, forwarded(), forwarded());
    assert(comma() =~= seq![44u8]);
}

} // verus!
