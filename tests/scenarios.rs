use ferron_core::access_log::HttpVersion;
use ferron_core::config::{HostScope, LocationScope, ScopeConfig};
use ferron_core::headers::{get_header, Header};
use ferron_core::pipeline::{
    after_handler, finish_response, post_next, prepare_request, request_log, start_chain, visit,
    AfterHandler, HandlerReport, Prepared, RequestHead, Visit,
};
use ferron_core::sanitize::UrlError;
use ferron_core::status::{error_response, ErrorBody};

fn h(name: &str, value: &str) -> Header {
    Header::new(name.as_bytes(), value.as_bytes())
}

fn request(method: &str, version: HttpVersion, target: &str, authority: Option<&str>, headers: Vec<Header>) -> RequestHead {
    let (path, query) = match target.find('?') {
        Some(i) => (&target[..i], Some(target[i + 1..].as_bytes().to_vec())),
        None => (target, None),
    };
    RequestHead {
        method: method.as_bytes().to_vec(),
        version,
        uri: target.as_bytes().to_vec(),
        path: path.as_bytes().to_vec(),
        query,
        authority: authority.map(|a| a.as_bytes().to_vec()),
        headers,
    }
}

fn value_of(hs: &Vec<Header>, name: &str) -> Option<String> {
    get_header(hs, name.as_bytes()).map(|v| String::from_utf8(v).unwrap())
}

#[test]
fn get_root_with_uppercase_host_gives_404_page() {
    let req = request("GET", HttpVersion::Http11, "/", None, vec![h("host", "EXAMPLE.COM")]);
    let global = ScopeConfig::empty();
    let prepared = prepare_request(&req, &global, &Vec::new(), b"127.0.0.1", &Vec::new());
    let (config, is_proxy) = match prepared {
        Prepared::Chain { config, host, path, is_proxy } => {
            assert_eq!(host, Some(b"example.com".to_vec()));
            assert_eq!(path, None);
            (config, is_proxy)
        }
        _ => panic!("expected the handler chain"),
    };
    let state = start_chain(b"192.0.2.7");
    assert_eq!(visit(&state, 0, is_proxy, false, false), Visit::Exhausted);
    let resp = error_response(404, None, &Vec::new(), None);
    let body = match &resp.body {
        ErrorBody::Page(p) => String::from_utf8(p.clone()).unwrap(),
        _ => panic!("expected the built-in page"),
    };
    assert!(body.contains("404"));
    assert_eq!(value_of(&resp.headers, "content-type"), Some("text/html".to_string()));
    let log = request_log(&req, is_proxy);
    let done = finish_response(
        resp.status,
        &resp.headers,
        None,
        &config,
        true,
        &log,
        &state.client_ip,
        &state.auth_user,
        &b"10/Oct/2000:13:55:36 -0700".to_vec(),
    );
    let line = String::from_utf8(done.access_line.unwrap()).unwrap();
    let expected = format!("\"GET / HTTP/1.1\" 404 {}", body.len());
    assert!(line.contains(&expected), "{}", line);
    assert!(line.starts_with("192.0.2.7 - - [10/Oct/2000:13:55:36 -0700] "));
    assert_eq!(value_of(&done.headers, "server"), Some("Ferron".to_string()));
}

#[test]
fn options_asterisk_gives_204_with_allow() {
    let req = request("OPTIONS", HttpVersion::Http11, "*", None, vec![]);
    let prepared = prepare_request(&req, &ScopeConfig::empty(), &Vec::new(), b"::1", &Vec::new());
    match prepared {
        Prepared::Empty { status, headers, .. } => {
            assert_eq!(status, 204);
            assert_eq!(value_of(&headers, "allow"), Some("GET, POST, HEAD, OPTIONS".to_string()));
        }
        _ => panic!("expected an empty 204"),
    }
}

#[test]
fn other_method_on_asterisk_gives_400_with_allow() {
    let req = request("GET", HttpVersion::Http11, "*", None, vec![]);
    match prepare_request(&req, &ScopeConfig::empty(), &Vec::new(), b"::1", &Vec::new()) {
        Prepared::Error { status, extra, url_error, .. } => {
            assert_eq!(status, 400);
            assert_eq!(url_error, None);
            assert_eq!(value_of(&extra, "allow"), Some("GET, POST, HEAD, OPTIONS".to_string()));
        }
        _ => panic!("expected a synthesized 400"),
    }
}

#[test]
fn traversal_is_rejected_by_the_sanitizer() {
    let req = request("GET", HttpVersion::Http11, "/..%2f../etc/passwd", None, vec![h("host", "a")]);
    let mut global = ScopeConfig::empty();
    global.allow_double_slashes = Some(false);
    match prepare_request(&req, &global, &Vec::new(), b"::1", &Vec::new()) {
        Prepared::Error { status, url_error, .. } => {
            assert_eq!(status, 400);
            assert_eq!(url_error, Some(UrlError::EscapesRoot));
        }
        _ => panic!("expected a 400"),
    }
}

#[test]
fn connect_without_capable_handler_gives_501() {
    let req = request("CONNECT", HttpVersion::Http11, "example.com:443", Some("example.com:443"), vec![]);
    match prepare_request(&req, &ScopeConfig::empty(), &Vec::new(), b"::1", &vec![false, false]) {
        Prepared::Empty { status, .. } => assert_eq!(status, 501),
        _ => panic!("expected 501"),
    }
}

#[test]
fn connect_goes_to_first_capable_handler() {
    let req = request("CONNECT", HttpVersion::Http11, "example.com:443", Some("example.com:443"), vec![]);
    match prepare_request(&req, &ScopeConfig::empty(), &Vec::new(), b"::1", &vec![false, true, true]) {
        Prepared::Tunnel { handler, authority, .. } => {
            assert_eq!(handler, 1);
            assert_eq!(authority, b"example.com:443".to_vec());
        }
        _ => panic!("expected a tunnel"),
    }
}

#[test]
fn connect_without_authority_gives_400() {
    let req = request("CONNECT", HttpVersion::Http11, "/", None, vec![]);
    match prepare_request(&req, &ScopeConfig::empty(), &Vec::new(), b"::1", &vec![true]) {
        Prepared::Empty { status, .. } => assert_eq!(status, 400),
        _ => panic!("expected 400"),
    }
}

#[test]
fn host_that_is_not_text_is_rejected() {
    let req = request("GET", HttpVersion::Http11, "/", None, vec![Header { name: b"host".to_vec(), value: vec![0xff, 0x41] }]);
    assert!(matches!(
        prepare_request(&req, &ScopeConfig::empty(), &Vec::new(), b"::1", &Vec::new()),
        Prepared::BadHost
    ));
}

#[test]
fn post_processor_header_survives_custom_headers_over_h2() {
    let req = request("GET", HttpVersion::Http2, "/x", None, vec![h("host", "example.com")]);
    let mut global = ScopeConfig::empty();
    global.custom_headers = Some(vec![h("X-Test", "ignored")]);
    let (config, is_proxy) = match prepare_request(&req, &global, &Vec::new(), b"::1", &Vec::new()) {
        Prepared::Chain { config, is_proxy, .. } => (config, is_proxy),
        _ => panic!("expected the chain"),
    };
    assert!(!is_proxy);
    let state = start_chain(b"::1");
    assert_eq!(visit(&state, 1, is_proxy, false, false), Visit::Invoke { index: 0, proxy: false });
    let report = HandlerReport { failed: false, has_response: true, status: None, has_request: false, auth_user: None, new_client_ip: None };
    let (state, next) = after_handler(state, report);
    assert_eq!(next, AfterHandler::Respond);
    let mut pending = state.executed.clone();
    assert_eq!(post_next(&mut pending), Some(0));
    // The post-processor set the header.
    let headers = vec![h("x-test", "1")];
    let log = request_log(&req, is_proxy);
    let done = finish_response(200, &headers, Some(0), &config, false, &log, &state.client_ip, &state.auth_user, &b"t".to_vec());
    assert_eq!(value_of(&done.headers, "x-test"), Some("1".to_string()));
    assert_eq!(done.headers.iter().filter(|h| h.name.eq_ignore_ascii_case(b"x-test")).count(), 1);
    assert_eq!(value_of(&done.headers, "server"), Some("Ferron".to_string()));
    assert!(done.access_line.is_none());
}

#[test]
fn authenticated_user_reaches_the_access_log() {
    let req = request("GET", HttpVersion::Http11, "/private?x=1", None, vec![h("host", "example.com")]);
    let config = ScopeConfig::empty();
    let state = start_chain(b"203.0.113.5");
    let auth = HandlerReport { failed: false, has_response: false, status: None, has_request: true, auth_user: Some(b"alice".to_vec()), new_client_ip: None };
    let (state, next) = after_handler(state, auth);
    assert_eq!(next, AfterHandler::Continue);
    let answer = HandlerReport { failed: false, has_response: true, status: None, has_request: false, auth_user: None, new_client_ip: None };
    let (state, next) = after_handler(state, answer);
    assert_eq!(next, AfterHandler::Respond);
    let log = request_log(&req, false);
    let headers = vec![h("content-length", "5")];
    let done = finish_response(200, &headers, None, &config, true, &log, &state.client_ip, &state.auth_user, &b"t".to_vec());
    let line = String::from_utf8(done.access_line.unwrap()).unwrap();
    assert_eq!(line, "203.0.113.5 - alice [t] \"GET /private?x=1 HTTP/1.1\" 200 5 - -");
}

#[test]
fn virtual_host_and_location_options_apply() {
    let mut global = ScopeConfig::empty();
    global.server_administrator_email = Some(b"root@example.com".to_vec());
    global.allow_double_slashes = Some(false);
    let mut host_cfg = ScopeConfig::empty();
    host_cfg.allow_double_slashes = Some(true);
    let mut loc_cfg = ScopeConfig::empty();
    loc_cfg.server_administrator_email = Some(b"api@example.com".to_vec());
    let hosts = vec![HostScope {
        domain: Some(b"Example.com".to_vec()),
        ip: None,
        config: host_cfg,
        locations: vec![LocationScope { path: b"/api".to_vec(), config: loc_cfg }],
    }];
    let req = request("GET", HttpVersion::Http11, "/api//v1", None, vec![h("host", "example.com:8080")]);
    match prepare_request(&req, &global, &hosts, b"::1", &Vec::new()) {
        Prepared::Chain { config, path, .. } => {
            assert_eq!(config.allow_double_slashes, Some(true));
            assert_eq!(config.server_administrator_email, Some(b"api@example.com".to_vec()));
            assert_eq!(path, None);
        }
        _ => panic!("expected the chain"),
    }
}
