use hyper::header::{HeaderMap, HeaderName, HeaderValue};
use hyper_reverse_proxy::error::ProxyError;
use hyper_reverse_proxy::forward::{build_forward_uri, forward_uri};
use hyper_reverse_proxy::headers::{
    create_proxied_response, get_upgrade_type, remove_connection_headers, remove_hop_headers,
    value_has_token, wants_trailers,
};
use hyper_reverse_proxy::proxy::{
    append_forwarded_for, create_proxied_request, response_action, ResponseAction,
};
use hyper_reverse_proxy::text::{bytes_eq_ignore_case, split_bytes, split_str, trim_bytes};

fn headers_of(pairs: &[(&str, &str)]) -> HeaderMap {
    let mut m = HeaderMap::new();
    for (k, v) in pairs {
        m.append(
            HeaderName::from_bytes(k.as_bytes()).unwrap(),
            HeaderValue::from_str(v).unwrap(),
        );
    }
    m
}

fn text(m: &HeaderMap, name: &str) -> Option<String> {
    m.get(name).map(|v| v.to_str().unwrap().to_string())
}

fn hop_headers() -> HeaderMap {
    headers_of(&[
        ("Connection", ""),
        ("Keep-Alive", ""),
        ("Proxy-Authenticate", ""),
        ("Proxy-Authorization", ""),
        ("TE", ""),
        ("Trailers", ""),
        ("Transfer-Encoding", ""),
        ("Upgrade", ""),
    ])
}

fn assert_no_hop_headers(m: &HeaderMap) {
    assert_eq!(m.get("Connection"), None);
    assert_eq!(m.get("Keep-Alive"), None);
    assert_eq!(m.get("Proxy-Authenticate"), None);
    assert_eq!(m.get("Proxy-Authorization"), None);
    assert_eq!(m.get("TE"), None);
    assert_eq!(m.get("Trailers"), None);
    assert_eq!(m.get("Transfer-Encoding"), None);
    assert_eq!(m.get("Upgrade"), None);
}

#[test]
fn removes_request_hop_headers() {
    let mut m = hop_headers();
    let uri = create_proxied_request("127.0.0.1", "http://127.0.0.1:8080", "/", None, &mut m);
    assert!(uri.is_ok());
    assert_no_hop_headers(&m);
}

#[test]
fn removes_response_hop_headers() {
    let mut m = hop_headers();
    create_proxied_response(&mut m);
    assert_no_hop_headers(&m);
}

#[test]
fn clones_headers() {
    let mut m = headers_of(&[("X-Test-Header1", "Test1"), ("X-Test-Header2", "Test2")]);
    create_proxied_request("127.0.0.1", "http://127.0.0.1:8080", "/", None, &mut m).unwrap();
    assert_eq!(text(&m, "X-Test-Header1"), Some("Test1".to_string()));
    assert_eq!(text(&m, "X-Test-Header2"), Some("Test2".to_string()));
}

#[test]
fn hop_headers_go_in_any_case() {
    let mut m = headers_of(&[
        ("PROXY-CONNECTION", "x"),
        ("kEeP-aLiVe", "timeout=5"),
        ("Trailer", "Expires"),
        ("x-kept", "1"),
    ]);
    remove_hop_headers(&mut m);
    assert_eq!(m.get("proxy-connection"), None);
    assert_eq!(m.get("keep-alive"), None);
    assert_eq!(m.get("trailer"), None);
    assert_eq!(text(&m, "x-kept"), Some("1".to_string()));
    assert_eq!(m.len(), 1);
}

#[test]
fn nominated_header_is_removed() {
    let mut m = headers_of(&[("Connection", "X-Foo"), ("X-Foo", "bar"), ("X-Bar", "baz")]);
    create_proxied_response(&mut m);
    assert_eq!(m.get("connection"), None);
    assert_eq!(m.get("x-foo"), None);
    assert_eq!(text(&m, "x-bar"), Some("baz".to_string()));
}

#[test]
fn nominated_header_is_removed_from_request() {
    let mut m = headers_of(&[("Connection", "close, X-Foo"), ("X-Foo", "bar")]);
    create_proxied_request("10.0.0.1", "http://h", "/", None, &mut m).unwrap();
    assert_eq!(m.get("connection"), None);
    assert_eq!(m.get("x-foo"), None);
}

#[test]
fn invalid_connection_tokens_are_skipped() {
    let mut m = headers_of(&[
        ("Connection", "bad token, ,  x-foo  , (x)"),
        ("X-Foo", "bar"),
        ("X-Other", "1"),
    ]);
    remove_connection_headers(&mut m);
    assert_eq!(m.get("x-foo"), None);
    assert_eq!(text(&m, "x-other"), Some("1".to_string()));
    assert_eq!(m.get("connection"), None);
}

#[test]
fn stripping_twice_is_stripping_once() {
    let mut once = headers_of(&[
        ("Connection", "keep-alive, X-Foo"),
        ("X-Foo", "1"),
        ("TE", "trailers"),
        ("Accept", "*/*"),
    ]);
    remove_hop_headers(&mut once);
    let mut twice = once.clone();
    remove_hop_headers(&mut twice);
    assert_eq!(once, twice);
    assert_eq!(text(&once, "x-foo"), Some("1".to_string()));

    let mut full = headers_of(&[("Connection", "X-Foo"), ("X-Foo", "1"), ("Accept", "*/*")]);
    create_proxied_response(&mut full);
    let mut again = full.clone();
    create_proxied_response(&mut again);
    assert_eq!(full, again);
    assert_eq!(full.len(), 1);
}

#[test]
fn forward_uri_ignores_one_trailing_slash() {
    assert_eq!(build_forward_uri("http://h:80/base/", "/a/b", None), "http://h:80/base/a/b");
    assert_eq!(build_forward_uri("http://h:80/base", "/a/b", None), "http://h:80/base/a/b");
    assert_eq!(build_forward_uri("http://h:80//", "/a", None), "http://h:80//a");
}

#[test]
fn forward_uri_merges_queries() {
    assert_eq!(
        build_forward_uri("http://h/base?x=1", "/p", Some("x=2&y=3")),
        "http://h/base/p?x=1&y=3"
    );
    assert_eq!(
        build_forward_uri("http://h/base?x=1&z", "/p", Some("z=5&w&y=3=4")),
        "http://h/base/p?x=1&z&w&y=3=4"
    );
    assert_eq!(
        build_forward_uri("http://h?x", "/p", Some("sig=YWJj==&x=9&k")),
        "http://h/p?x&sig=YWJj==&k"
    );
}

#[test]
fn forward_uri_single_query() {
    assert_eq!(build_forward_uri("http://h", "/p", Some("a=1&b")), "http://h/p?a=1&b");
    assert_eq!(build_forward_uri("http://h?a=1", "/p", None), "http://h/p?a=1");
    assert_eq!(build_forward_uri("http://h?a=1&", "/p", Some("")), "http://h/p?a=1&");
    assert_eq!(build_forward_uri("http://h?x&", "/p", Some("x")), "http://h/p?x&");
    assert_eq!(build_forward_uri("http://h?x", "/p", Some("a=1&")), "http://h/p?x&a=1&");
    assert_eq!(build_forward_uri("http://h/", "/p", Some("")), "http://h/p");
    assert_eq!(build_forward_uri("http://h?a=1?b=2", "/p", None), "http://h/p?a=1?b=2");
}

#[test]
fn forward_uri_keeps_path_verbatim() {
    assert_eq!(
        build_forward_uri("http://h/", "/a%20b/%C3%A9;x", None),
        "http://h/a%20b/%C3%A9;x"
    );
}

#[test]
fn forwarded_for_vacant() {
    let mut m = HeaderMap::new();
    append_forwarded_for(&mut m, "203.0.113.5").unwrap();
    assert_eq!(text(&m, "x-forwarded-for"), Some("203.0.113.5".to_string()));
}

#[test]
fn forwarded_for_occupied() {
    let mut m = headers_of(&[("X-Forwarded-For", "70.41.3.18")]);
    append_forwarded_for(&mut m, "203.0.113.5").unwrap();
    assert_eq!(text(&m, "x-forwarded-for"), Some("70.41.3.18, 203.0.113.5".to_string()));
    assert_eq!(m.get_all("x-forwarded-for").iter().count(), 1);
}

#[test]
fn forwarded_for_prior_not_text() {
    let mut m = HeaderMap::new();
    m.insert("x-forwarded-for", HeaderValue::from_bytes(&[0x31, 0xff, 0x32]).unwrap());
    let r = append_forwarded_for(&mut m, "203.0.113.5");
    assert!(matches!(r, Err(ProxyError::ForwardHeaderError)));
    assert_eq!(m.get("x-forwarded-for").unwrap().as_bytes(), &[0x31, 0xff, 0x32]);
}

#[test]
fn proxied_request_chains_forwarded_for() {
    let mut m = headers_of(&[("X-Forwarded-For", "70.41.3.18")]);
    create_proxied_request("203.0.113.5", "http://h", "/", None, &mut m).unwrap();
    assert_eq!(text(&m, "x-forwarded-for"), Some("70.41.3.18, 203.0.113.5".to_string()));
}

#[test]
fn upgrade_headers_are_kept() {
    let mut m = headers_of(&[("Connection", "upgrade"), ("Upgrade", "websocket")]);
    create_proxied_request("127.0.0.1", "http://127.0.0.1:9000", "/ws", None, &mut m).unwrap();
    assert_eq!(text(&m, "connection"), Some("upgrade".to_string()));
    assert_eq!(text(&m, "upgrade"), Some("websocket".to_string()));
}

#[test]
fn upgrade_without_connection_token_is_dropped() {
    let mut m = headers_of(&[("Connection", "keep-alive"), ("Upgrade", "websocket")]);
    create_proxied_request("127.0.0.1", "http://h", "/ws", None, &mut m).unwrap();
    assert_eq!(m.get("connection"), None);
    assert_eq!(m.get("upgrade"), None);
}

#[test]
fn te_keeps_only_trailers() {
    let mut m = headers_of(&[("TE", "trailers, gzip")]);
    create_proxied_request("127.0.0.1", "http://h", "/", None, &mut m).unwrap();
    assert_eq!(text(&m, "te"), Some("trailers".to_string()));

    let mut n = headers_of(&[("TE", "gzip")]);
    create_proxied_request("127.0.0.1", "http://h", "/", None, &mut n).unwrap();
    assert_eq!(n.get("te"), None);
}

#[test]
fn host_is_the_forward_authority() {
    let mut m = headers_of(&[("Host", "proxy.example")]);
    let uri = create_proxied_request(
        "127.0.0.1",
        "http://127.0.0.1:8080/base?k=v",
        "/x",
        Some("a=1"),
        &mut m,
    )
    .unwrap();
    assert_eq!(uri, "http://127.0.0.1:8080/base/x?k=v&a=1");
    assert_eq!(text(&m, "host"), Some("127.0.0.1:8080".to_string()));
}

#[test]
fn invalid_forward_uri() {
    let mut m = headers_of(&[("Keep-Alive", "1")]);
    let r = create_proxied_request("127.0.0.1", "", "/a", None, &mut m);
    assert!(matches!(r, Err(ProxyError::InvalidUri)));
    assert_eq!(text(&m, "keep-alive"), Some("1".to_string()));

    let r = create_proxied_request("127.0.0.1", "http://exa mple", "/a", None, &mut m);
    assert!(matches!(r, Err(ProxyError::InvalidUri)));
}

#[test]
fn switching_protocols_is_spliced() {
    assert_eq!(response_action(101), ResponseAction::Splice);
    assert_eq!(response_action(200), ResponseAction::Relay);
    assert_eq!(response_action(404), ResponseAction::Relay);
    assert_eq!(response_action(502), ResponseAction::Relay);
}

#[test]
fn detects_upgrade_and_trailers() {
    let m = headers_of(&[("Connection", "keep-alive, Upgrade"), ("Upgrade", "h2c")]);
    assert_eq!(get_upgrade_type(&m), Some(b"h2c".to_vec()));
    let n = headers_of(&[("Upgrade", "h2c")]);
    assert_eq!(get_upgrade_type(&n), None);
    let t = headers_of(&[("TE", "gzip,  TRAILERS ")]);
    assert!(wants_trailers(&t));
    assert!(!wants_trailers(&n));
}

#[test]
fn text_helpers() {
    assert_eq!(split_str("a?b?", '?'), vec!["a".to_string(), "b".to_string(), String::new()]);
    assert_eq!(
        split_bytes(b",a,", b','),
        vec![Vec::new(), b"a".to_vec(), Vec::new()]
    );
    assert_eq!(trim_bytes(b" \t x y \t"), b"x y".to_vec());
    assert_eq!(trim_bytes(b"   "), Vec::<u8>::new());
    assert!(bytes_eq_ignore_case(b"UpGrade", b"upgrade"));
    assert!(!bytes_eq_ignore_case(b"upgrade1", b"upgrade"));
    assert!(value_has_token(b"a, B ,c", b"b"));
    assert!(!value_has_token(b"ab", b"b"));
}

#[test]
fn too_many_names_are_refused() {
    let mut m = HeaderMap::new();
    for i in 0..6000 {
        m.insert(
            HeaderName::from_bytes(format!("x-h{}", i).as_bytes()).unwrap(),
            HeaderValue::from_static("1"),
        );
    }
    let before = m.clone();
    let r = create_proxied_request("127.0.0.1", "http://h", "/", None, &mut m);
    assert!(matches!(r, Err(ProxyError::ForwardHeaderError)));
    assert_eq!(m, before);
    let r = append_forwarded_for(&mut m, "127.0.0.1");
    assert!(matches!(r, Err(ProxyError::ForwardHeaderError)));
    assert_eq!(m, before);
}

#[test]
fn connection_headers_and_hop_set_go_together() {
    let mut m = headers_of(&[("Connection", "X-Foo"), ("X-Foo", "bar"), ("X-Keep", "1")]);
    remove_connection_headers(&mut m);
    assert_eq!(m.len(), 1);
    assert_eq!(text(&m, "x-keep"), Some("1".to_string()));

    let mut n = headers_of(&[("Connection", "("), ("Keep-Alive", "5"), ("TE", "gzip")]);
    remove_connection_headers(&mut n);
    assert!(n.is_empty());
}

#[test]
fn forward_uri_checks_the_result() {
    assert_eq!(
        forward_uri("http://h:80/base/", "/a/b", Some("q=1")).unwrap(),
        "http://h:80/base/a/b?q=1"
    );
    assert!(matches!(forward_uri("", "/a", None), Err(ProxyError::InvalidUri)));
    assert!(matches!(forward_uri("http://h o/base", "/a", None), Err(ProxyError::InvalidUri)));
}

#[test]
fn repeated_header_lines_form_one_list() {
    let mut m = headers_of(&[
        ("Connection", "keep-alive"),
        ("Connection", "X-Foo"),
        ("X-Foo", "bar"),
        ("X-Keep", "1"),
    ]);
    remove_connection_headers(&mut m);
    assert_eq!(m.len(), 1);
    assert_eq!(text(&m, "x-keep"), Some("1".to_string()));

    let t = headers_of(&[("TE", "gzip"), ("TE", "trailers")]);
    assert!(wants_trailers(&t));

    let u = headers_of(&[("Connection", "close"), ("Connection", "Upgrade"), ("Upgrade", "websocket")]);
    assert_eq!(get_upgrade_type(&u), Some(b"websocket".to_vec()));

    let mut x = headers_of(&[("X-Forwarded-For", "10.0.0.1"), ("X-Forwarded-For", "10.0.0.2")]);
    append_forwarded_for(&mut x, "203.0.113.5").unwrap();
    assert_eq!(m.get_all("x-forwarded-for").iter().count(), 0);
    assert_eq!(x.get_all("x-forwarded-for").iter().count(), 1);
    assert_eq!(text(&x, "x-forwarded-for"), Some("10.0.0.1, 10.0.0.2, 203.0.113.5".to_string()));
}
