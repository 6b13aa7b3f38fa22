use ferron_core::config::{select_host, select_location, HostScope, LocationScope, ScopeConfig};
use ferron_core::forwarded::{ForwardedFor, XForwardedForModule};
use ferron_core::headers::{get_header, Header};
use ferron_core::server::{
    alpn_protocols, env_var_allowed, http2_tuning, listener_plan, parse_cipher_suites,
    parse_ecdh_curves, pool_sizes, request_timeout_millis, select_certificate, tls_versions,
    CipherSuite, KxGroup, ListenerError, ListenerPlan, SniEntry, TlsVersionError, TlsVersions,
};
use ferron_core::status::{
    bare_error_response, default_error_page, error_page_candidates, error_response, ErrorBody,
    ErrorPage,
};

fn h(name: &str, value: &str) -> Header {
    Header::new(name.as_bytes(), value.as_bytes())
}

#[test]
fn built_in_page_has_the_reason_phrase() {
    let page = String::from_utf8(default_error_page(404, None)).unwrap();
    assert_eq!(
        page,
        "<!DOCTYPE html><html><head><title>404 Not Found</title></head><body><h1>404 Not Found</h1></body></html>"
    );
    let page = String::from_utf8(default_error_page(500, Some(b"admin@example.com"))).unwrap();
    assert!(page.contains("<title>500 Internal Server Error</title>"));
    assert!(page.contains("<p>Contact the server administrator at admin@example.com.</p>"));
    let unknown = String::from_utf8(default_error_page(599, None)).unwrap();
    assert!(unknown.contains("<title>599</title>"));
}

#[test]
fn synthesized_response_headers() {
    let extra = vec![h("allow", "GET"), h("Content-Type", "text/plain"), h("content-length", "3")];
    let r = error_response(400, None, &extra, None);
    assert_eq!(r.status, 400);
    let page = match &r.body {
        ErrorBody::Page(p) => p.clone(),
        _ => panic!("expected the built-in page"),
    };
    let names: Vec<String> = r.headers.iter().map(|h| String::from_utf8(h.name.clone()).unwrap()).collect();
    assert_eq!(names, vec!["allow", "content-length", "content-type"]);
    assert_eq!(get_header(&r.headers, b"content-length"), Some(page.len().to_string().into_bytes()));
    assert_eq!(get_header(&r.headers, b"content-type"), Some(b"text/html".to_vec()));
    let r = error_response(404, None, &Vec::new(), Some((b"/srv/404.html".to_vec(), 321)));
    assert!(matches!(&r.body, ErrorBody::File { path, len: 321 } if path == b"/srv/404.html"));
    assert_eq!(get_header(&r.headers, b"content-length"), Some(b"321".to_vec()));
    let bare = bare_error_response(400);
    assert_eq!(bare.headers.len(), 1);
    assert_eq!(get_header(&bare.headers, b"content-type"), Some(b"text/html".to_vec()));
}

#[test]
fn error_pages_are_tried_in_order() {
    let pages = vec![
        ErrorPage { scode: 404, path: b"/a".to_vec() },
        ErrorPage { scode: 500, path: b"/b".to_vec() },
        ErrorPage { scode: 404, path: b"/c".to_vec() },
    ];
    assert_eq!(error_page_candidates(404, &pages), vec![b"/a".to_vec(), b"/c".to_vec()]);
    assert_eq!(error_page_candidates(403, &pages), Vec::<Vec<u8>>::new());
}

fn host(domain: Option<&str>, ip: Option<&str>) -> HostScope {
    HostScope {
        domain: domain.map(|d| d.as_bytes().to_vec()),
        ip: ip.map(|i| i.as_bytes().to_vec()),
        config: ScopeConfig::empty(),
        locations: Vec::new(),
    }
}

#[test]
fn host_selection_prefers_exact_then_wildcard_then_ip_then_default() {
    let hosts = vec![
        host(None, None),
        host(None, Some("10.0.0.1")),
        host(Some("*.example.com"), None),
        host(Some("www.example.com"), None),
    ];
    let name = |n: &str| Some(n.as_bytes().to_vec());
    assert_eq!(select_host(&hosts, &name("www.example.com"), b"10.0.0.1"), Some(3));
    assert_eq!(select_host(&hosts, &name("api.example.com"), b"10.0.0.1"), Some(2));
    assert_eq!(select_host(&hosts, &name("example.com"), b"10.0.0.1"), Some(1));
    assert_eq!(select_host(&hosts, &name("other.org"), b"10.0.0.2"), Some(0));
    assert_eq!(select_host(&hosts, &None, b"10.0.0.1"), Some(1));
    assert_eq!(select_host(&vec![host(Some("a.com"), None)], &name("b.com"), b"::1"), None);
}

#[test]
fn location_selection_takes_the_longest_prefix() {
    let loc = |p: &str| LocationScope { path: p.as_bytes().to_vec(), config: ScopeConfig::empty() };
    let locs = vec![loc("/"), loc("/api"), loc("/api/v1"), loc("/apix")];
    assert_eq!(select_location(&locs, b"/api/v1/users"), Some(2));
    assert_eq!(select_location(&locs, b"/api"), Some(1));
    assert_eq!(select_location(&locs, b"/apiv"), Some(0));
    assert_eq!(select_location(&vec![loc("/api")], b"/apiv"), None);
}

#[test]
fn tls_version_gating() {
    let v = |s: &str| Some(s.as_bytes().to_vec());
    assert_eq!(tls_versions(&None, &None), Ok(TlsVersions::Tls12And13));
    assert_eq!(tls_versions(&v("TLSv1.3"), &None), Ok(TlsVersions::Tls13Only));
    assert_eq!(tls_versions(&v("TLSv1.2"), &v("TLSv1.2")), Ok(TlsVersions::Tls12Only));
    assert_eq!(tls_versions(&v("TLSv1.3"), &v("TLSv1.2")), Err(TlsVersionError::MaxOlderThanMin));
    assert_eq!(tls_versions(&v("TLSv1.1"), &None), Err(TlsVersionError::InvalidMinimum));
    assert_eq!(tls_versions(&None, &v("TLSv1.4")), Err(TlsVersionError::InvalidMaximum));
}

#[test]
fn crypto_names() {
    let names = vec![b"TLS_AES_256_GCM_SHA384".to_vec(), b"TLS_ECDHE_RSA_WITH_AES_128_GCM_SHA256".to_vec()];
    assert_eq!(
        parse_cipher_suites(&names),
        Ok(vec![CipherSuite::Tls13Aes256GcmSha384, CipherSuite::EcdheRsaAes128GcmSha256])
    );
    let bad = vec![b"TLS_AES_128_GCM_SHA256".to_vec(), b"RC4".to_vec(), b"DES".to_vec()];
    assert_eq!(parse_cipher_suites(&bad), Err(b"RC4".to_vec()));
    assert_eq!(
        parse_ecdh_curves(&vec![b"x25519".to_vec(), b"secp384r1".to_vec()]),
        Ok(vec![KxGroup::X25519, KxGroup::Secp384r1])
    );
    assert_eq!(parse_ecdh_curves(&vec![b"p521".to_vec()]), Err(b"p521".to_vec()));
}

#[test]
fn alpn_order() {
    assert_eq!(alpn_protocols(true), vec![b"h2".to_vec(), b"http/1.1".to_vec(), b"http/1.0".to_vec()]);
    assert_eq!(alpn_protocols(false), vec![b"http/1.1".to_vec(), b"http/1.0".to_vec()]);
}

#[test]
fn listener_topology() {
    assert_eq!(listener_plan(None, None, None, None), Ok(ListenerPlan { http: Some(80), https: None }));
    assert_eq!(
        listener_plan(Some(true), None, Some(8080), Some(8443)),
        Ok(ListenerPlan { http: Some(8080), https: Some(8443) })
    );
    assert_eq!(listener_plan(Some(true), Some(true), None, None), Ok(ListenerPlan { http: None, https: Some(443) }));
    assert_eq!(listener_plan(Some(false), Some(true), None, None), Err(ListenerError::NothingToListen));
    assert_eq!(listener_plan(None, Some(true), None, None), Ok(ListenerPlan { http: Some(80), https: None }));
    assert_eq!(listener_plan(None, None, Some(70000), None), Err(ListenerError::InvalidHttpPort));
    assert_eq!(listener_plan(Some(true), None, None, Some(-1)), Err(ListenerError::InvalidHttpsPort));
}

#[test]
fn connection_tuning() {
    let t = http2_tuning(Some(true), Some(65535), Some(5_000_000_000), None, Some(16384), Some(true));
    assert!(!t.http1_only);
    assert_eq!(t.initial_window_size, Some(65535));
    assert_eq!(t.max_frame_size, Some(5_000_000_000u64 as u32));
    assert_eq!(t.max_frame_size, Some(705_032_704));
    assert_eq!(t.max_concurrent_streams, None);
    assert_eq!(t.max_header_list_size, Some(16384));
    assert!(t.enable_connect_protocol);
    assert!(http2_tuning(None, None, None, None, None, None).http1_only);
    let wrapped = http2_tuning(Some(false), Some(-1), None, None, None, Some(false));
    assert!(wrapped.http1_only);
    assert_eq!(wrapped.initial_window_size, Some(4294967295));
    assert!(!wrapped.enable_connect_protocol);
}

#[test]
fn start_up_values() {
    assert!(env_var_allowed(b"PATH", b"/bin"));
    assert!(!env_var_allowed(b"", b"x"));
    assert!(!env_var_allowed(b"A=B", b"x"));
    assert!(!env_var_allowed(b"A\0", b"x"));
    assert!(!env_var_allowed(b"A", b"x\0"));
    assert_eq!(pool_sizes(8), (8, 4));
    assert_eq!(pool_sizes(1), (1, 1));
    assert_eq!(request_timeout_millis(None), 300000);
    assert_eq!(request_timeout_millis(Some(1500)), 1500);
    assert_eq!(request_timeout_millis(Some(-3)), 300000);
}

#[test]
fn certificate_by_server_name() {
    let entries = vec![
        SniEntry { host: b"Example.com".to_vec(), certificate: 1 },
        SniEntry { host: b"other.org".to_vec(), certificate: 2 },
    ];
    assert_eq!(select_certificate(&entries, Some(0), Some(b"example.COM")), Some(1));
    assert_eq!(select_certificate(&entries, Some(0), Some(b"unknown.net")), Some(0));
    assert_eq!(select_certificate(&entries, None, None), None);
}

#[test]
fn forwarded_for_first_hop() {
    let m = XForwardedForModule::new();
    assert_eq!(m.examine(None, Some(b"1.2.3.4")), ForwardedFor::Unchanged);
    assert_eq!(m.examine(Some(true), None), ForwardedFor::Unchanged);
    assert_eq!(
        m.examine(Some(true), Some(b" 203.0.113.9 , 10.0.0.1")),
        ForwardedFor::Candidate(b"203.0.113.9".to_vec())
    );
    assert_eq!(m.examine(Some(true), Some(&[0x31, 0xff])), ForwardedFor::Unreadable);
    assert_eq!(m.examine(Some(true), Some(b"")), ForwardedFor::Candidate(Vec::new()));
}
