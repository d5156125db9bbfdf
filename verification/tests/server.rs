use load_balancer::server::headers::Headers;
use load_balancer::server::{
    prepare_request, prepare_request_checked, push_decimal, rewrite_target,
    write_forwarded_header_item, Config, ForwardedHeaderMethod, PrepareError,
};

fn config(method: ForwardedHeaderMethod, client_ip_header: Option<&str>) -> Config {
    Config {
        listen_addr: "0.0.0.0:80".to_owned(),
        client_max_idle_per_host: 10,
        server_header_read_timeout: 1000,
        set_header_x_forwarded_for: method,
        set_header_x_forwarded_port: method,
        set_header_x_forwarded_proto: method,
        set_header_x_forwarded_host: method,
        set_header_forwarded: method,
        client_ip_header: client_ip_header.map(|s| s.to_owned()),
    }
}

fn headers(list: &[(&str, &str)]) -> Headers {
    let mut h = Headers::new();
    for (name, value) in list {
        h.append(name.to_string(), value.as_bytes().to_vec());
    }
    h
}

fn all(h: &Headers) -> Vec<(String, String)> {
    h.fields()
        .iter()
        .map(|f| (f.name.clone(), String::from_utf8(f.value.clone()).unwrap()))
        .collect()
}

fn ip() -> Vec<u8> {
    b"10.1.2.3".to_vec()
}

#[test]
fn decimal_digits() {
    let mut v = Vec::new();
    push_decimal(&mut v, 0);
    assert_eq!(v, b"0");
    let mut v = Vec::new();
    push_decimal(&mut v, 8080);
    assert_eq!(v, b"8080");
    let mut v = b"x".to_vec();
    push_decimal(&mut v, 65535);
    assert_eq!(v, b"x65535");
}

#[test]
fn forwarded_item() {
    let mut v = Vec::new();
    write_forwarded_header_item(&mut v, b"1.2.3.4", Some(&b"example.com".to_vec()));
    assert_eq!(v, b"for=1.2.3.4;host=example.com;proto=http");
    let mut v = b"a,".to_vec();
    write_forwarded_header_item(&mut v, b"1.2.3.4", None);
    assert_eq!(v, b"a,for=1.2.3.4;proto=http");
}

#[test]
fn header_map_operations() {
    let mut h = headers(&[("a", "1"), ("b", "2"), ("a", "3")]);
    assert_eq!(h.get(&"a".to_owned()), Some(b"1".to_vec()));
    assert_eq!(h.get(&"c".to_owned()), None);
    h.replace_first(&"a".to_owned(), b"9".to_vec());
    assert_eq!(all(&h), vec![("a".into(), "9".into()), ("b".into(), "2".into()), ("a".into(), "3".into())]);
    h.insert("a".to_owned(), b"x".to_vec());
    assert_eq!(all(&h), vec![("b".into(), "2".into()), ("a".into(), "x".into())]);
    h.remove(&"b".to_owned());
    assert_eq!(all(&h), vec![("a".into(), "x".into())]);
    h.replace_first(&"zz".to_owned(), b"y".to_vec());
    assert_eq!(all(&h), vec![("a".into(), "x".into())]);
}

#[test]
fn remove_method_strips_forwarding_headers() {
    let mut h = headers(&[
        ("x-forwarded-for", "6.6.6.6"),
        ("host", "example.com"),
        ("forwarded", "for=6.6.6.6"),
        ("x-forwarded-port", "1"),
    ]);
    let res = prepare_request(&config(ForwardedHeaderMethod::Remove, None), &mut h, &ip(), 4321, "/echo/x?y=1", "127.0.0.1:8080");
    assert_eq!(res, Ok("http://127.0.0.1:8080/echo/x?y=1".to_owned()));
    assert_eq!(all(&h), vec![("host".into(), "example.com".into())]);
}

#[test]
fn pass_method_keeps_headers() {
    let mut h = headers(&[("x-forwarded-for", "6.6.6.6"), ("host", "example.com")]);
    let res = prepare_request(&config(ForwardedHeaderMethod::Pass, None), &mut h, &ip(), 4321, "/echo/x?y=1", "127.0.0.1:8080");
    assert_eq!(res, Ok("http://127.0.0.1:8080/echo/x?y=1".to_owned()));
    assert_eq!(
        all(&h),
        vec![("x-forwarded-for".into(), "6.6.6.6".into()), ("host".into(), "example.com".into())]
    );
}

#[test]
fn overwrite_method_describes_this_hop() {
    let mut h = headers(&[("x-forwarded-for", "6.6.6.6"), ("host", "example.com")]);
    let res = prepare_request(&config(ForwardedHeaderMethod::Overwrite, None), &mut h, &ip(), 4321, "/echo/x?y=1", "127.0.0.1:8080");
    assert_eq!(res, Ok("http://127.0.0.1:8080/echo/x?y=1".to_owned()));
    let h = all(&h);
    assert!(h.contains(&("x-forwarded-for".into(), "10.1.2.3".into())));
    assert!(h.contains(&("x-forwarded-port".into(), "4321".into())));
    assert!(h.contains(&("x-forwarded-proto".into(), "http".into())));
    assert!(h.contains(&("x-forwarded-host".into(), "example.com".into())));
    assert!(h.contains(&("forwarded".into(), "for=10.1.2.3;host=example.com;proto=http".into())));
    assert_eq!(h.len(), 6);
}

#[test]
fn append_method_adds_this_hop() {
    let mut h = headers(&[
        ("x-forwarded-for", "6.6.6.6"),
        ("x-forwarded-for", "7.7.7.7"),
        ("forwarded", "for=6.6.6.6"),
    ]);
    let res = prepare_request(&config(ForwardedHeaderMethod::Append, None), &mut h, &ip(), 80, "/echo/x?y=1", "127.0.0.1:8080");
    assert_eq!(res, Ok("http://127.0.0.1:8080/echo/x?y=1".to_owned()));
    let h = all(&h);
    assert_eq!(h[0], ("x-forwarded-for".into(), "6.6.6.6,10.1.2.3".into()));
    assert_eq!(h[1], ("x-forwarded-for".into(), "7.7.7.7".into()));
    assert!(h.contains(&("forwarded".into(), "for=6.6.6.6,for=10.1.2.3;proto=http".into())));
    assert!(!h.iter().any(|(n, _)| n == "x-forwarded-host"));

    let mut fresh = headers(&[]);
    prepare_request(&config(ForwardedHeaderMethod::Append, None), &mut fresh, &ip(), 80, "/echo/x?y=1", "127.0.0.1:8080").unwrap();
    let fresh = all(&fresh);
    assert!(fresh.contains(&("x-forwarded-for".into(), "10.1.2.3".into())));
    assert!(fresh.contains(&("forwarded".into(), "for=10.1.2.3;proto=http".into())));
}

#[test]
fn client_ip_header_is_normalized() {
    let mut h = headers(&[]);
    let res = prepare_request(&config(ForwardedHeaderMethod::Pass, Some("X-Real-IP")), &mut h, &ip(), 80, "/echo/x?y=1", "127.0.0.1:8080");
    assert_eq!(res, Ok("http://127.0.0.1:8080/echo/x?y=1".to_owned()));
    assert_eq!(all(&h), vec![("x-real-ip".into(), "10.1.2.3".into())]);
}

#[test]
fn invalid_client_ip_header() {
    let mut h = headers(&[("x-forwarded-for", "6.6.6.6")]);
    let res = prepare_request(&config(ForwardedHeaderMethod::Remove, Some("bad header")), &mut h, &ip(), 80, "/echo/x?y=1", "127.0.0.1:8080");
    assert_eq!(res, Err(PrepareError::InvalidHeaderName));
    assert!(all(&h).is_empty());
}

#[test]
fn invalid_upstream_address() {
    let mut h = headers(&[("x-forwarded-for", "6.6.6.6")]);
    let res = prepare_request(&config(ForwardedHeaderMethod::Remove, None), &mut h, &ip(), 80, "/echo/x?y=1", "bad host:80/x");
    assert_eq!(res, Err(PrepareError::InvalidUpstreamAddress));
    assert_eq!(all(&h), vec![("x-forwarded-for".into(), "6.6.6.6".into())]);
}

#[test]
fn checked_preparation() {
    let mut h = headers(&[]);
    let res = prepare_request_checked(
        &config(ForwardedHeaderMethod::Pass, Some("whatever")),
        &mut h,
        &ip(),
        80,
        true,
        Some("x-client".to_owned()),
    );
    assert_eq!(res, Ok(()));
    assert_eq!(all(&h), vec![("x-client".into(), "10.1.2.3".into())]);
    let res = prepare_request_checked(&config(ForwardedHeaderMethod::Pass, None), &mut h, &ip(), 80, false, None);
    assert_eq!(res, Err(PrepareError::InvalidUpstreamAddress));
}

#[test]
fn client_sent_forwarded_host_is_dropped_without_host() {
    for method in [ForwardedHeaderMethod::Overwrite, ForwardedHeaderMethod::Append] {
        let mut cfg = config(ForwardedHeaderMethod::Pass, None);
        cfg.set_header_x_forwarded_host = method;
        let mut h = headers(&[("x-forwarded-host", "evil.example")]);
        let res = prepare_request(&cfg, &mut h, &ip(), 80, "/", "127.0.0.1:8080");
        assert_eq!(res, Ok("http://127.0.0.1:8080/".to_owned()));
        assert!(all(&h).is_empty());
    }
}

#[test]
fn request_target() {
    assert_eq!(
        rewrite_target("/echo/x?y=1", "10.0.0.3:8080"),
        Ok("http://10.0.0.3:8080/echo/x?y=1".to_owned())
    );
    assert_eq!(rewrite_target("/", "bad host"), Err(PrepareError::InvalidUpstreamAddress));
}

#[test]
fn append_equals_overwrite_for_hop_headers() {
    let mut results = Vec::new();
    for method in [ForwardedHeaderMethod::Append, ForwardedHeaderMethod::Overwrite] {
        let mut cfg = config(ForwardedHeaderMethod::Pass, None);
        cfg.set_header_x_forwarded_port = method;
        cfg.set_header_x_forwarded_proto = method;
        cfg.set_header_x_forwarded_host = method;
        let mut h = headers(&[
            ("x-forwarded-port", "1"),
            ("x-forwarded-proto", "https"),
            ("x-forwarded-host", "old.example"),
            ("x-forwarded-port", "2"),
            ("host", "example.com"),
        ]);
        prepare_request(&cfg, &mut h, &ip(), 4321, "/", "127.0.0.1:8080").unwrap();
        let h = all(&h);
        let ports: Vec<&(String, String)> = h.iter().filter(|(n, _)| n == "x-forwarded-port").collect();
        assert_eq!(ports, vec![&("x-forwarded-port".to_owned(), "4321".to_owned())]);
        assert!(h.contains(&("x-forwarded-proto".into(), "http".into())));
        assert!(h.contains(&("x-forwarded-host".into(), "example.com".into())));
        assert_eq!(h.len(), 4);
        results.push(h);
    }
    assert_eq!(results[0], results[1]);
}
