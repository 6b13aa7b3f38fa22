use ferron_core::access_log::{
    content_length_for_log, format_combined, format_error_line, format_sink_record, AccessRecord,
    HttpVersion,
};
use ferron_core::bytes::parse_u64;
use ferron_core::config::{merge_scopes, ScopeConfig};
use ferron_core::headers::{finalize_headers, get_header, Header};
use ferron_core::pipeline::{
    after_handler, after_post, post_next, start_chain, AfterHandler, AfterPost, HandlerReport,
};
use ferron_core::sanitize::{sanitize_url, UrlError};

fn h(name: &str, value: &str) -> Header {
    Header::new(name.as_bytes(), value.as_bytes())
}

fn values(hs: &[Header], name: &str) -> Vec<String> {
    hs.iter()
        .filter(|h| h.name.eq_ignore_ascii_case(name.as_bytes()))
        .map(|h| String::from_utf8(h.value.clone()).unwrap())
        .collect()
}

fn sanitize(x: &str, allow: bool) -> Result<String, UrlError> {
    sanitize_url(x.as_bytes(), allow).map(|v| String::from_utf8(v).unwrap())
}

#[test]
fn server_header_is_set_exactly_once() {
    let hs = vec![h("Server", "other"), h("content-type", "text/plain"), h("server", "again")];
    let custom = vec![h("Server", "custom")];
    let out = finalize_headers(&hs, &custom);
    assert_eq!(values(&out, "server"), vec!["Ferron".to_string()]);
    assert_eq!(values(&out, "content-type"), vec!["text/plain".to_string()]);
    let bare = finalize_headers(&Vec::new(), &Vec::new());
    assert_eq!(values(&bare, "server"), vec!["Ferron".to_string()]);
}

#[test]
fn custom_headers_fill_gaps_without_overriding() {
    let hs = vec![h("x-frame-options", "DENY"), h("cache-control", "a"), h("Cache-Control", "b")];
    let custom = vec![
        h("X-Frame-Options", "SAMEORIGIN"),
        h("Cache-Control", "no-store"),
        h("X-Powered-By", "tests"),
        h("bad name", "x"),
        h("X-Powered-By", "second"),
    ];
    let out = finalize_headers(&hs, &custom);
    assert_eq!(values(&out, "x-frame-options"), vec!["DENY".to_string()]);
    assert_eq!(values(&out, "cache-control"), vec!["a".to_string(), "b".to_string()]);
    assert_eq!(values(&out, "x-powered-by"), vec!["tests".to_string()]);
    assert_eq!(values(&out, "bad name"), Vec::<String>::new());
    let added = out.iter().find(|h| h.name.eq_ignore_ascii_case(b"x-powered-by")).unwrap();
    assert_eq!(added.name, b"x-powered-by".to_vec());
}

#[test]
fn access_log_fields_follow_the_response() {
    let hs = vec![h("content-length", "1234")];
    assert_eq!(content_length_for_log(&hs, Some(7)), Some(1234));
    assert_eq!(content_length_for_log(&vec![h("content-length", "abc")], Some(7)), Some(7));
    assert_eq!(content_length_for_log(&vec![h("content-length", "+12")], None), Some(12));
    assert_eq!(content_length_for_log(&Vec::new(), None), None);
    let record = AccessRecord {
        client_ip: b"::1".to_vec(),
        auth_user: None,
        time: b"01/Jan/2025:00:00:00 +0000".to_vec(),
        method: b"POST".to_vec(),
        request_path: b"/form?a=1".to_vec(),
        protocol: HttpVersion::Http10,
        status: 201,
        content_length: None,
        referrer: Some(b"http://x/\"q\"\\".to_vec()),
        user_agent: Some(b"curl/8".to_vec()),
    };
    let line = String::from_utf8(format_combined(&record)).unwrap();
    assert_eq!(
        line,
        "::1 - - [01/Jan/2025:00:00:00 +0000] \"POST /form?a=1 HTTP/1.0\" 201 - \"http://x/\\\"q\\\"\\\\\" \"curl/8\""
    );
}

#[test]
fn sanitizing_twice_changes_nothing() {
    let inputs = [
        "", "*", "/", "//a//b/", "/a/./b/../c", "/%41%2e%2E/x", "/a%25b", "/a%2Fb", "/%7e%7E",
        "/a/b/..", "/./", "/a//..//", "relative/path", "/%e2%82%ac", "/a?b",
    ];
    for allow in [false, true] {
        for x in inputs {
            let once = sanitize(x, allow).unwrap();
            let twice = sanitize(&once, allow).unwrap();
            assert_eq!(once, twice, "input {:?}", x);
        }
    }
}

#[test]
fn sanitizer_canonical_forms() {
    assert_eq!(sanitize("/a/./b/../c", false), Ok("/a/c".to_string()));
    assert_eq!(sanitize("//a//b/", false), Ok("/a/b/".to_string()));
    assert_eq!(sanitize("//a//b/", true), Ok("//a//b/".to_string()));
    assert_eq!(sanitize("/%41%62c", false), Ok("/Abc".to_string()));
    assert_eq!(sanitize("/a%25b%20c", false), Ok("/a%25b%20c".to_string()));
    assert_eq!(sanitize("/a%2fb", false), Ok("/a/b".to_string()));
    assert_eq!(sanitize("relative", false), Ok("/relative".to_string()));
    assert_eq!(sanitize("*", false), Ok("*".to_string()));
    assert_eq!(sanitize("", false), Ok("".to_string()));
    assert_eq!(sanitize("/.", false), Ok("/".to_string()));
}

#[test]
fn sanitizer_errors() {
    assert_eq!(sanitize("/%zz", false), Err(UrlError::BadEncoding));
    assert_eq!(sanitize("/abc%4", false), Err(UrlError::BadEncoding));
    assert_eq!(sanitize("/a%00b", false), Err(UrlError::BadEncoding));
    assert_eq!(sanitize("/a\u{7f}", false), Err(UrlError::BadEncoding));
    assert_eq!(sanitize("/../x", false), Err(UrlError::EscapesRoot));
    assert_eq!(sanitize("/a/../../x", true), Err(UrlError::EscapesRoot));
    assert_eq!(sanitize("/..%2f../etc/passwd", false), Err(UrlError::EscapesRoot));
}

fn scope(email: Option<&str>, slashes: Option<bool>, custom: Option<Vec<Header>>) -> ScopeConfig {
    let mut s = ScopeConfig::empty();
    s.server_administrator_email = email.map(|e| e.as_bytes().to_vec());
    s.allow_double_slashes = slashes;
    s.custom_headers = custom;
    s
}

#[test]
fn later_scopes_override_and_mappings_merge() {
    let global = scope(Some("g@x"), Some(false), Some(vec![h("A", "1"), h("B", "1")]));
    let host = scope(None, Some(true), Some(vec![h("B", "2")]));
    let location = scope(Some("l@x"), None, Some(vec![h("C", "3")]));
    let left = merge_scopes(&merge_scopes(&global, &host), &location);
    let right = merge_scopes(&global, &merge_scopes(&host, &location));
    for merged in [&left, &right] {
        assert_eq!(merged.server_administrator_email, Some(b"l@x".to_vec()));
        assert_eq!(merged.allow_double_slashes, Some(true));
        let custom = merged.custom_headers.as_ref().unwrap();
        assert_eq!(get_header(custom, b"A"), Some(b"1".to_vec()));
        assert_eq!(get_header(custom, b"B"), Some(b"2".to_vec()));
        assert_eq!(get_header(custom, b"C"), Some(b"3".to_vec()));
        assert_eq!(custom.len(), 3);
    }
    let mut pages_global = ScopeConfig::empty();
    pages_global.error_pages = Some(vec![ferron_core::status::ErrorPage { scode: 404, path: b"/a".to_vec() }]);
    let mut pages_host = ScopeConfig::empty();
    pages_host.error_pages = Some(vec![]);
    let merged = merge_scopes(&pages_global, &pages_host);
    assert_eq!(merged.error_pages.unwrap().len(), 0);
}

#[test]
fn post_processing_runs_in_reverse() {
    let mut state = start_chain(b"::1");
    for _ in 0..3 {
        let report = HandlerReport { failed: false, has_response: false, status: None, has_request: true, auth_user: None, new_client_ip: None };
        let (next, action) = after_handler(state, report);
        assert_eq!(action, AfterHandler::Continue);
        state = next;
    }
    assert_eq!(state.executed, vec![0, 1, 2]);
    let mut pending = state.executed.clone();
    let mut order = Vec::new();
    while let Some(i) = post_next(&mut pending) {
        order.push(i);
    }
    assert_eq!(order, vec![2, 1, 0]);
}

#[test]
fn handler_outcome_precedence() {
    let mk = |failed, has_response, status: Option<u16>, has_request| HandlerReport {
        failed,
        has_response,
        status,
        has_request,
        auth_user: None,
        new_client_ip: Some(b"10.0.0.1".to_vec()),
    };
    let (s, a) = after_handler(start_chain(b"::1"), mk(false, true, Some(403), true));
    assert_eq!(a, AfterHandler::Respond);
    assert_eq!(s.client_ip, b"10.0.0.1".to_vec());
    let (_, a) = after_handler(start_chain(b"::1"), mk(false, false, Some(403), true));
    assert_eq!(a, AfterHandler::Synthesize { status: 403 });
    let (_, a) = after_handler(start_chain(b"::1"), mk(false, false, None, false));
    assert_eq!(a, AfterHandler::Synthesize { status: 404 });
    let (s, a) = after_handler(start_chain(b"::1"), mk(true, false, None, false));
    assert_eq!(a, AfterHandler::Synthesize { status: 500 });
    assert_eq!(s.client_ip, b"::1".to_vec());
    assert_eq!(s.executed, vec![0]);
}

#[test]
fn numbers_parse_like_std() {
    assert_eq!(parse_u64(b"0"), Some(0));
    assert_eq!(parse_u64(b"+5"), Some(5));
    assert_eq!(parse_u64(b"18446744073709551615"), Some(u64::MAX));
    assert_eq!(parse_u64(b"18446744073709551616"), None);
    assert_eq!(parse_u64(b""), None);
    assert_eq!(parse_u64(b"+"), None);
    assert_eq!(parse_u64(b"-1"), None);
    assert_eq!(parse_u64(b"12a"), None);
}

#[test]
fn log_sink_records() {
    assert_eq!(format_error_line(b"2025-01-01 00:00:00", b"boom"), b"[2025-01-01 00:00:00]: boom".to_vec());
    assert_eq!(format_sink_record(true, b"T", b"m"), b"[T]: m\n".to_vec());
    assert_eq!(format_sink_record(false, b"T", b"line"), b"line\n".to_vec());
}

#[test]
fn failed_post_processing_collapses_and_stops() {
    let mut pending = vec![0, 1, 2];
    assert_eq!(post_next(&mut pending), Some(2));
    assert_eq!(after_post(&mut pending, false), AfterPost::Continue);
    assert_eq!(pending, vec![0, 1]);
    assert_eq!(post_next(&mut pending), Some(1));
    assert_eq!(after_post(&mut pending, true), AfterPost::Collapse { status: 500 });
    assert_eq!(post_next(&mut pending), None);
}
