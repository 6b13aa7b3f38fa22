//! The per-request pipeline as a state machine. The caller performs what the
//! decisions ask for (invoking handlers, reading error-page files, spawning
//! upgrades) and reports back; the decisions themselves live here.
use vstd::prelude::*;
use vstd::string::StringSliceAdditionalSpecFns;
use crate::bytes::decimal;
use crate::access_log::{
    AccessRecord, HttpVersion, combined_line, format_combined, logged_length,
    content_length_for_log,
};
use crate::bytes::{copy_bytes, lower, to_lower};
use crate::config::{
    HostScope, ScopeConfig, ScopeView, bytes_eq, host_key, resolve_config, resolved,
};
use crate::headers::{
    Header, HeaderSeq, finalize_headers, finalized, first_value, get_header, headers_view,
    has_name, same_name, values_named, without_name,
};
use crate::sanitize::{UrlError, sanitize_url, sanitized, decode};
use crate::status::{content_length_name, content_type_name, error_headers};

verus! {

/// The head of a request, as the pipeline reads it.
pub struct RequestHead {
    pub method: Vec<u8>,
    pub version: HttpVersion,
    /// The request target as received.
    pub uri: Vec<u8>,
    pub path: Vec<u8>,
    pub query: Option<Vec<u8>>,
    /// The authority of the target, where it has one.
    pub authority: Option<Vec<u8>>,
    pub headers: Vec<Header>,
}

pub open spec fn connect_method() -> Seq<u8> {
    "CONNECT".spec_bytes()
}

pub open spec fn options_method() -> Seq<u8> {
    "OPTIONS".spec_bytes()
}

pub open spec fn host_header_name() -> Seq<u8> {
    "host".spec_bytes()
}

pub open spec fn allow_name() -> Seq<u8> {
    "allow".spec_bytes()
}

pub open spec fn allow_value() -> Seq<u8> {
    "GET, POST, HEAD, OPTIONS".spec_bytes()
}

/// A proxy request: on HTTP/2 and later a `CONNECT` with an authority, on
/// HTTP/1.x any target in absolute form.
pub open spec fn is_proxy_request(req: RequestHead) -> bool {
    match req.version {
        HttpVersion::Http2 | HttpVersion::Http3 => req.method@ == connect_method()
            && req.authority.is_some(),
        _ => req.authority.is_some(),
    }
}

pub open spec fn is_connect_request(req: RequestHead) -> bool {
    req.method@ == connect_method()
}

/// A header value that reads as text: visible ASCII and tabs.
pub open spec fn is_text(v: Seq<u8>) -> bool {
    forall|i: int| 0 <= i < v.len() ==> (32 <= #[trigger] v[i] && v[i] < 127) || v[i] == 9
}

/// The lowercased `Host` value; `Some(None)` when there is none, `None` when it is not text.
pub open spec fn normalized_host(req: RequestHead) -> Option<Option<Seq<u8>>> {
    match first_value(headers_view(req.headers@), host_header_name()) {
        None => Some(None),
        Some(v) => if is_text(v) { Some(Some(lower(v))) } else { None },
    }
}

pub open spec fn first_true(caps: Seq<bool>) -> Option<int>
    decreases caps.len(),
{
    if caps.len() == 0 {
        None
    } else {
        match first_true(caps.drop_last()) {
            Some(i) => Some(i),
            None => if caps.last() { Some(caps.len() - 1) } else { None },
        }
    }
}

/// The decision taken before the handler chain runs.
pub enum Prepared {
    /// The `Host` header is not text: `400` with the built-in page, before
    /// any configuration applies.
    BadHost,
    /// A response with an empty body.
    Empty { status: u16, headers: Vec<Header>, config: ScopeConfig },
    /// A synthesized error response carrying `extra` headers.
    Error { status: u16, extra: Vec<Header>, config: ScopeConfig, url_error: Option<UrlError> },
    /// Hand the connection to handler `handler` for a tunnel to `authority`,
    /// answering `200` with an empty body.
    Tunnel { handler: usize, authority: Vec<u8>, config: ScopeConfig },
    /// Run the handler chain. `host` and `path` are the new `Host` value and
    /// path where normalization changed them.
    Chain { config: ScopeConfig, host: Option<Vec<u8>>, path: Option<Vec<u8>>, is_proxy: bool },
}

pub ghost enum PreparedView {
    BadHost,
    Empty { status: u16, headers: HeaderSeq, config: ScopeView },
    Error { status: u16, extra: HeaderSeq, config: ScopeView, url_error: Option<UrlError> },
    Tunnel { handler: int, authority: Seq<u8>, config: ScopeView },
    Chain { config: ScopeView, host: Option<Seq<u8>>, path: Option<Seq<u8>>, is_proxy: bool },
}

impl View for Prepared {
    type V = PreparedView;

    open spec fn view(&self) -> PreparedView {
        match self {
            Prepared::BadHost => PreparedView::BadHost,
            Prepared::Empty { status, headers, config } => PreparedView::Empty {
                status: *status,
                headers: headers_view(headers@),
                config: config@,
            },
            Prepared::Error { status, extra, config, url_error } => PreparedView::Error {
                status: *status,
                extra: headers_view(extra@),
                config: config@,
                url_error: *url_error,
            },
            Prepared::Tunnel { handler, authority, config } => PreparedView::Tunnel {
                handler: *handler as int,
                authority: authority@,
                config: config@,
            },
            Prepared::Chain { config, host, path, is_proxy } => PreparedView::Chain {
                config: config@,
                host: match host {
                    Some(h) => Some(h@),
                    None => None,
                },
                path: match path {
                    Some(p) => Some(p@),
                    None => None,
                },
                is_proxy: *is_proxy,
            },
        }
    }
}

pub open spec fn url_error_of(path: Seq<u8>) -> UrlError {
    if decode(path).is_none() {
        UrlError::BadEncoding
    } else {
        UrlError::EscapesRoot
    }
}

/// What the pipeline does with a request before the handler chain.
pub open spec fn preparation(
    req: RequestHead,
    global: ScopeView,
    hosts: Seq<HostScope>,
    local_ip: Seq<u8>,
    connect_capable: Seq<bool>,
) -> PreparedView {
    let proxy = is_proxy_request(req);
    let connect = is_connect_request(req);
    match normalized_host(req) {
        None => PreparedView::BadHost,
        Some(host) => {
            let key = if proxy || connect { None } else { host_key(host) };
            let config = resolved(global, hosts, key, local_ip, req.path@);
            let allow = match config.allow_double_slashes {
                Some(b) => b,
                None => false,
            };
            match sanitized(req.path@, allow) {
                None => PreparedView::Error {
                    status: 400,
                    extra: Seq::empty(),
                    config,
                    url_error: Some(url_error_of(req.path@)),
                },
                Some(path) => if path == seq![0x2au8] {
                    if req.method@ == options_method() {
                        PreparedView::Empty {
                            status: 204,
                            headers: seq![(allow_name(), allow_value())],
                            config,
                        }
                    } else {
                        PreparedView::Error {
                            status: 400,
                            extra: seq![(allow_name(), allow_value())],
                            config,
                            url_error: None,
                        }
                    }
                } else if connect {
                    match first_true(connect_capable) {
                        None => PreparedView::Empty { status: 501, headers: Seq::empty(), config },
                        Some(i) => match req.authority {
                            None => PreparedView::Empty { status: 400, headers: Seq::empty(), config },
                            Some(a) => PreparedView::Tunnel { handler: i, authority: a@, config },
                        },
                    }
                } else {
                    PreparedView::Chain {
                        config,
                        host: match host {
                            Some(h) => if Some(h) != first_value(
                                headers_view(req.headers@),
                                host_header_name(),
                            ) {
                                Some(h)
                            } else {
                                None
                            },
                            None => None,
                        },
                        path: if path != req.path@ { Some(path) } else { None },
                        is_proxy: proxy,
                    }
                },
            }
        },
    }
}

/// Whether a request is a proxy request (see `is_proxy_request`).
pub fn classify_proxy(req: &RequestHead) -> (r: bool)
    ensures
        r == is_proxy_request(*req),
{
    let connect = is_method(&req.method, "CONNECT");
    match req.version {
        HttpVersion::Http2 | HttpVersion::Http3 => connect && req.authority.is_some(),
        _ => req.authority.is_some(),
    }
}

fn check_text(v: &[u8]) -> (r: bool)
    ensures
        r == is_text(v@),
{
    let mut i: usize = 0;
    while i < v.len()
        invariant
            i <= v@.len(),
            forall|j: int| 0 <= j < i ==> (32 <= #[trigger] v@[j] && v@[j] < 127) || v@[j] == 9,
        decreases v@.len() - i,
    {
        let b = v[i];
        if !((32 <= b && b < 127) || b == 9) {
            return false;
        }
        i = i + 1;
    }
    true
}

fn first_capable(caps: &Vec<bool>) -> (r: Option<usize>)
    ensures
        match r {
            Some(i) => first_true(caps@) == Some(i as int),
            None => first_true(caps@).is_none(),
        },
{
    let mut i: usize = 0;
    while i < caps.len()
        invariant
            i <= caps@.len(),
            first_true(caps@.subrange(0, i as int)).is_none(),
        decreases caps@.len() - i,
    {
        assert(caps@.subrange(0, i + 1).drop_last() =~= caps@.subrange(0, i as int));
        if caps[i] {
            proof { lemma_first_true_prefix(caps@, i + 1); }
            return Some(i);
        }
        i = i + 1;
    }
    assert(caps@.subrange(0, caps@.len() as int) =~= caps@);
    None
}

proof fn lemma_first_true_prefix(caps: Seq<bool>, n: int)
    requires
        0 <= n <= caps.len(),
        first_true(caps.subrange(0, n)).is_some(),
    ensures
        first_true(caps) == first_true(caps.subrange(0, n)),
    decreases caps.len() - n,
{
    if n < caps.len() {
        assert(caps.subrange(0, n + 1).drop_last() =~= caps.subrange(0, n));
        lemma_first_true_prefix(caps, n + 1);
    } else {
        assert(caps.subrange(0, n) =~= caps);
    }
}

fn is_method(m: &Vec<u8>, name: &str) -> (r: bool)
    ensures
        r == (m@ == name.spec_bytes()),
{
    bytes_eq(m.as_slice(), name.as_bytes())
}

/// Decides what happens to a request before the handler chain: a rejected
/// `Host`, a rejected path, the asterisk form, a `CONNECT` tunnel, or the
/// chain with the resolved configuration. `connect_capable[i]` tells whether
/// handler `i` takes `CONNECT` requests.
pub fn prepare_request(
    req: &RequestHead,
    global: &ScopeConfig,
    hosts: &Vec<HostScope>,
    local_ip: &[u8],
    connect_capable: &Vec<bool>,
) -> (r: Prepared)
    ensures
        r@ == preparation(*req, global@, hosts@, local_ip@, connect_capable@),
{
    let connect = is_method(&req.method, "CONNECT");
    let proxy = classify_proxy(req);
    let received_host = get_header(&req.headers, "host".as_bytes());
    let host: Option<Vec<u8>> = match &received_host {
        None => None,
        Some(v) => {
            if !check_text(v.as_slice()) {
                return Prepared::BadHost;
            }
            Some(to_lower(v.as_slice()))
        },
    };
    let key: Option<&[u8]> = if proxy || connect {
        None
    } else {
        match &host {
            Some(h) => Some(h.as_slice()),
            None => None,
        }
    };
    let config = resolve_config(global, hosts, key, local_ip, req.path.as_slice());
    let allow = match config.allow_double_slashes {
        Some(b) => b,
        None => false,
    };
    let path = match sanitize_url(req.path.as_slice(), allow) {
        Ok(p) => p,
        Err(e) => {
            let none: Vec<Header> = Vec::new();
            assert(headers_view(none@) =~= Seq::<(Seq<u8>, Seq<u8>)>::empty());
            return Prepared::Error { status: 400, extra: none, config, url_error: Some(e) };
        },
    };
    if path.len() == 1 && path[0] == 0x2a {
        assert(path@ =~= seq![0x2au8]);
        let allow_header = Header::new("allow".as_bytes(), "GET, POST, HEAD, OPTIONS".as_bytes());
        let mut hs: Vec<Header> = Vec::new();
        hs.push(allow_header);
        assert(headers_view(hs@) =~= seq![(allow_name(), allow_value())]);
        if is_method(&req.method, "OPTIONS") {
            return Prepared::Empty { status: 204, headers: hs, config };
        } else {
            return Prepared::Error { status: 400, extra: hs, config, url_error: None };
        }
    }
    assert(path@ != seq![0x2au8]) by {
        if path@ == seq![0x2au8] {
            assert(path@.len() == 1 && path@[0] == 0x2a);
        }
    }
    if connect {
        let none: Vec<Header> = Vec::new();
        assert(headers_view(none@) =~= Seq::<(Seq<u8>, Seq<u8>)>::empty());
        return match first_capable(connect_capable) {
            None => Prepared::Empty { status: 501, headers: none, config },
            Some(i) => match &req.authority {
                None => Prepared::Empty { status: 400, headers: none, config },
                Some(a) => Prepared::Tunnel { handler: i, authority: copy_bytes(a.as_slice()), config },
            },
        };
    }
    let new_host = match (&host, &received_host) {
        (Some(h), Some(o)) => if bytes_eq(h.as_slice(), o.as_slice()) {
            None
        } else {
            Some(copy_bytes(h.as_slice()))
        },
        _ => None,
    };
    let new_path = if bytes_eq(path.as_slice(), req.path.as_slice()) {
        None
    } else {
        Some(path)
    };
    Prepared::Chain { config, host: new_host, path: new_path, is_proxy: proxy }
}

/// Where the walk along the handler chain stands: the next handler, the
/// handlers that ran (in order), the authenticated user and the client
/// address the access log will show.
pub struct ChainState {
    pub next: usize,
    pub executed: Vec<usize>,
    pub auth_user: Option<Vec<u8>>,
    pub client_ip: Vec<u8>,
}

/// The handlers run one after the other from the first: those that ran are
/// exactly `0, 1, ..., next - 1`, in that order.
pub open spec fn chain_wf(st: ChainState) -> bool {
    st.executed@ == Seq::new(st.next as nat, |i: int| i as usize)
}

pub fn start_chain(client_ip: &[u8]) -> (r: ChainState)
    ensures
        chain_wf(r),
        r.next == 0,
        r.auth_user.is_none(),
        r.client_ip@ == client_ip@,
{
    let r = ChainState { next: 0, executed: Vec::new(), auth_user: None, client_ip: copy_bytes(client_ip) };
    assert(r.executed@ =~= Seq::new(0, |i: int| i as usize));
    r
}

/// What to do at the next handler.
#[derive(PartialEq, Eq, Structural, Debug)]
pub enum Visit {
    /// Invoke handler `index`, through its proxy entry point when `proxy`.
    Invoke { index: usize, proxy: bool },
    /// Upgrade to WebSocket and hand the connection to handler `index`.
    WebSocket { index: usize },
    /// No handler is left: answer `404`.
    Exhausted,
}

/// Chooses the next step of the chain. `websocket_capable` tells whether
/// the next handler takes this WebSocket request.
pub fn visit(
    state: &ChainState,
    handler_count: usize,
    is_proxy: bool,
    is_websocket: bool,
    websocket_capable: bool,
) -> (r: Visit)
    ensures
        r == (if state.next >= handler_count {
            Visit::Exhausted
        } else if is_websocket && websocket_capable {
            Visit::WebSocket { index: state.next }
        } else {
            Visit::Invoke { index: state.next, proxy: is_proxy }
        }),
{
    if state.next >= handler_count {
        Visit::Exhausted
    } else if is_websocket && websocket_capable {
        Visit::WebSocket { index: state.next }
    } else {
        Visit::Invoke { index: state.next, proxy: is_proxy }
    }
}

/// What a handler's forward pass gave back.
pub struct HandlerReport {
    /// The handler returned an error.
    pub failed: bool,
    /// It answered with a response.
    pub has_response: bool,
    /// It asked for an error response with this status.
    pub status: Option<u16>,
    /// It passed a (possibly changed) request on.
    pub has_request: bool,
    pub auth_user: Option<Vec<u8>>,
    /// The client address it established, as text.
    pub new_client_ip: Option<Vec<u8>>,
}

/// How the chain goes on after a handler.
#[derive(PartialEq, Eq, Structural, Debug)]
pub enum AfterHandler {
    /// Post-process the handler's response.
    Respond,
    /// Post-process a synthesized error response with this status.
    Synthesize { status: u16 },
    /// Go on with the next handler.
    Continue,
}

pub open spec fn after_spec(r: HandlerReport) -> AfterHandler {
    if r.failed {
        AfterHandler::Synthesize { status: 500 }
    } else if r.has_response {
        AfterHandler::Respond
    } else if r.status.is_some() {
        AfterHandler::Synthesize { status: r.status.unwrap() }
    } else if r.has_request {
        AfterHandler::Continue
    } else {
        AfterHandler::Synthesize { status: 404 }
    }
}

/// Records that handler `state.next` ran and what it reported: the handler
/// joins the executed ones; a user or client address it set replaces the
/// previous one. A response comes before a status, a status before a
/// request; with none of them the chain ends with `404`.
pub fn after_handler(state: ChainState, report: HandlerReport) -> (r: (ChainState, AfterHandler))
    requires
        chain_wf(state),
        state.next < usize::MAX,
    ensures
        chain_wf(r.0),
        r.0.next == state.next + 1,
        r.0.executed@ == state.executed@.push(state.next),
        r.0.auth_user == (if !report.failed && report.auth_user.is_some() {
            report.auth_user
        } else {
            state.auth_user
        }),
        r.0.client_ip == (if !report.failed && report.new_client_ip.is_some() {
            report.new_client_ip.unwrap()
        } else {
            state.client_ip
        }),
        r.1 == after_spec(report),
{
    let ChainState { next, mut executed, auth_user, client_ip } = state;
    executed.push(next);
    assert(executed@ =~= Seq::new((next + 1) as nat, |i: int| i as usize));
    let next_action = if report.failed {
        AfterHandler::Synthesize { status: 500 }
    } else if report.has_response {
        AfterHandler::Respond
    } else if let Some(code) = report.status {
        AfterHandler::Synthesize { status: code }
    } else if report.has_request {
        AfterHandler::Continue
    } else {
        AfterHandler::Synthesize { status: 404 }
    };
    if report.failed {
        return (ChainState { next: next + 1, executed, auth_user, client_ip }, next_action);
    }
    let HandlerReport { auth_user: reported_user, new_client_ip, .. } = report;
    let auth_user = match reported_user {
        Some(u) => Some(u),
        None => auth_user,
    };
    let client_ip = match new_client_ip {
        Some(ip) => ip,
        None => client_ip,
    };
    (ChainState { next: next + 1, executed, auth_user, client_ip }, next_action)
}

/// The handler whose response-modifying step runs next: the most recent of
/// those not yet popped.
pub fn post_next(pending: &mut Vec<usize>) -> (r: Option<usize>)
    ensures
        match r {
            Some(i) => old(pending)@.len() > 0 && i == old(pending)@.last() && final(pending)@
                == old(pending)@.drop_last(),
            None => old(pending)@.len() == 0 && final(pending)@ == old(pending)@,
        },
{
    pending.pop()
}

/// How post-processing goes on after a handler's response-modifying step.
#[derive(PartialEq, Eq, Structural, Debug)]
pub enum AfterPost {
    /// Go on with the next handler that `post_next` hands out.
    Continue,
    /// The step failed: the response becomes a synthesized error with this
    /// status, and the handlers still pending are not run.
    Collapse { status: u16 },
}

/// Records the result of a response-modifying step. A failure collapses the
/// response to `500` and abandons the rest of post-processing.
pub fn after_post(pending: &mut Vec<usize>, failed: bool) -> (r: AfterPost)
    ensures
        failed ==> r == (AfterPost::Collapse { status: 500 }) && final(pending)@ == Seq::<usize>::empty(),
        !failed ==> r == AfterPost::Continue && final(pending)@ == old(pending)@,
{
    if failed {
        pending.clear();
        AfterPost::Collapse { status: 500 }
    } else {
        AfterPost::Continue
    }
}

/// The order in which repeated `post_next` calls hand out the handlers of `s`.
pub open spec fn popped(s: Seq<usize>) -> Seq<usize>
    decreases s.len(),
{
    if s.len() == 0 {
        Seq::empty()
    } else {
        seq![s.last()] + popped(s.drop_last())
    }
}

/// Post-processing runs the handlers in exactly the reverse of the order in
/// which their forward pass ran.
pub proof fn lemma_post_processing_reverses(state: ChainState)
    requires
        chain_wf(state),
    ensures
        popped(state.executed@).len() == state.next,
        forall|i: int|
            0 <= i < state.next ==> #[trigger] popped(state.executed@)[i] == (state.next - 1 - i) as usize,
{
    lemma_popped_reverse(state.executed@);
}

proof fn lemma_popped_reverse(s: Seq<usize>)
    ensures
        popped(s).len() == s.len(),
        forall|i: int| 0 <= i < s.len() ==> #[trigger] popped(s)[i] == s[s.len() - 1 - i],
    decreases s.len(),
{
    if s.len() > 0 {
        let t = s.drop_last();
        lemma_popped_reverse(t);
        assert forall|i: int| 0 <= i < s.len() implies #[trigger] popped(s)[i] == s[s.len() - 1 - i] by {
            if i > 0 {
                assert(popped(s)[i] == popped(t)[i - 1]);
                assert(t[t.len() - 1 - (i - 1)] == s[s.len() - 1 - i]);
            }
        }
    }
}

/// What the access log needs from a request, taken when it arrives.
pub struct RequestLog {
    pub method: Vec<u8>,
    pub request_path: Vec<u8>,
    pub protocol: HttpVersion,
    pub referrer: Option<Vec<u8>>,
    pub user_agent: Option<Vec<u8>>,
}

pub open spec fn text_header(hs: HeaderSeq, n: Seq<u8>) -> Option<Seq<u8>> {
    match first_value(hs, n) {
        Some(v) => if is_text(v) { Some(v) } else { None },
        None => None,
    }
}

pub open spec fn opt_view(v: Option<Vec<u8>>) -> Option<Seq<u8>> {
    match v {
        Some(b) => Some(b@),
        None => None,
    }
}

fn text_header_of(hs: &Vec<Header>, name: &str) -> (r: Option<Vec<u8>>)
    ensures
        opt_view(r) == text_header(headers_view(hs@), name.spec_bytes()),
{
    match get_header(hs, name.as_bytes()) {
        Some(v) => if check_text(v.as_slice()) { Some(v) } else { None },
        None => None,
    }
}

/// Collects the access-log fields of a request: its method, its path (the
/// whole target for a proxy request), its protocol, and the `Referer` and
/// `User-Agent` values that read as text.
pub fn request_log(req: &RequestHead, is_proxy: bool) -> (r: RequestLog)
    ensures
        r.method@ == req.method@,
        r.request_path@ == crate::access_log::logged_path(
            is_proxy,
            req.uri@,
            req.path@,
            opt_view(req.query),
        ),
        r.protocol == req.version,
        opt_view(r.referrer) == text_header(headers_view(req.headers@), "referer".spec_bytes()),
        opt_view(r.user_agent) == text_header(headers_view(req.headers@), "user-agent".spec_bytes()),
{
    let query: Option<&[u8]> = match &req.query {
        Some(q) => Some(q.as_slice()),
        None => None,
    };
    RequestLog {
        method: copy_bytes(req.method.as_slice()),
        request_path: crate::access_log::log_request_path(
            is_proxy,
            req.uri.as_slice(),
            req.path.as_slice(),
            query,
        ),
        protocol: req.version,
        referrer: text_header_of(&req.headers, "referer"),
        user_agent: text_header_of(&req.headers, "user-agent"),
    }
}

/// A response ready to leave: its headers and its access-log line.
pub struct Finished {
    pub headers: Vec<Header>,
    pub access_line: Option<Vec<u8>>,
}

pub open spec fn custom_of(config: ScopeView) -> HeaderSeq {
    match config.custom_headers {
        Some(c) => c,
        None => Seq::empty(),
    }
}

/// The last step for every response: the configured custom headers that are
/// not set yet, the `Server` header, and, when the access log is on, one
/// combined-format line whose status and content length are those of the
/// response as it leaves.
pub fn finish_response(
    status: u16,
    headers: &Vec<Header>,
    body_hint: Option<u64>,
    config: &ScopeConfig,
    log_enabled: bool,
    req_log: &RequestLog,
    client_ip: &Vec<u8>,
    auth_user: &Option<Vec<u8>>,
    time: &Vec<u8>,
) -> (r: Finished)
    ensures
        headers_view(r.headers@) == finalized(headers_view(headers@), custom_of(config@)),
        r.access_line.is_some() == log_enabled,
        r.access_line matches Some(line) ==> line@ == combined_line(
            AccessRecord {
                client_ip: *client_ip,
                auth_user: *auth_user,
                time: *time,
                method: req_log.method,
                request_path: req_log.request_path,
                protocol: req_log.protocol,
                status,
                content_length: logged_length(headers_view(r.headers@), body_hint),
                referrer: req_log.referrer,
                user_agent: req_log.user_agent,
            },
        ),
{
    let none: Vec<Header> = Vec::new();
    assert(headers_view(none@) =~= Seq::<(Seq<u8>, Seq<u8>)>::empty());
    let final_headers = match &config.custom_headers {
        Some(c) => finalize_headers(headers, c),
        None => finalize_headers(headers, &none),
    };
    if !log_enabled {
        return Finished { headers: final_headers, access_line: None };
    }
    let record = AccessRecord {
        client_ip: copy_bytes(client_ip.as_slice()),
        auth_user: match auth_user {
            Some(u) => Some(copy_bytes(u.as_slice())),
            None => None,
        },
        time: copy_bytes(time.as_slice()),
        method: copy_bytes(req_log.method.as_slice()),
        request_path: copy_bytes(req_log.request_path.as_slice()),
        protocol: req_log.protocol,
        status,
        content_length: content_length_for_log(&final_headers, body_hint),
        referrer: match &req_log.referrer {
            Some(u) => Some(copy_bytes(u.as_slice())),
            None => None,
        },
        user_agent: match &req_log.user_agent {
            Some(u) => Some(copy_bytes(u.as_slice())),
            None => None,
        },
    };
    let line = format_combined(&record);
    proof {
        let spec_rec = AccessRecord {
            client_ip: *client_ip,
            auth_user: *auth_user,
            time: *time,
            method: req_log.method,
            request_path: req_log.request_path,
            protocol: req_log.protocol,
            status,
            content_length: logged_length(headers_view(final_headers@), body_hint),
            referrer: req_log.referrer,
            user_agent: req_log.user_agent,
        };
        assert(crate::access_log::or_dash(record.auth_user) == crate::access_log::or_dash(spec_rec.auth_user));
        assert(crate::access_log::quoted_or_dash(record.referrer) == crate::access_log::quoted_or_dash(spec_rec.referrer));
        assert(crate::access_log::quoted_or_dash(record.user_agent) == crate::access_log::quoted_or_dash(spec_rec.user_agent));
        assert(combined_line(record) == combined_line(spec_rec));
    }
    Finished { headers: final_headers, access_line: Some(line) }
}

/// A synthesized error response is logged with exactly the length its
/// `Content-Length` announces, whatever custom headers are configured and
/// whatever size the body reports.
pub proof fn lemma_error_response_logged_length(extra: HeaderSeq, len: u64, custom: HeaderSeq, hint: Option<u64>)
    ensures
        logged_length(finalized(error_headers(extra, len as nat), custom), hint) == Some(len),
{
    let cl = content_length_name();
    let ct = content_type_name();
    broadcast use vstd::string::is_ascii_spec_bytes;

    reveal_strlit("content-length");
    reveal_strlit("content-type");
    assert(vstd::string::is_ascii("content-length"));
    assert(vstd::string::is_ascii("content-type"));
    assert(cl.len() == 14);
    assert(ct.len() == 12);
    assert(lower(cl).len() != lower(ct).len());
    assert(lower(cl).len() != lower(crate::headers::server_name()).len());
    let w = without_name(without_name(extra, ct), cl);
    crate::headers::lemma_without_name_absent(without_name(extra, ct), cl);
    crate::headers::lemma_values_named_absent(w, cl);
    let e = error_headers(extra, len as nat);
    let w1 = w.push((cl, decimal(len as nat)));
    assert(w1.drop_last() =~= w);
    assert(e.drop_last() =~= w1);
    assert(values_named(w1, cl) =~= seq![decimal(len as nat)]);
    assert(values_named(e, cl) == values_named(w1, cl));
    assert(e[e.len() - 2] == (cl, decimal(len as nat)));
    assert(has_name(e, cl)) by {
        assert(same_name(e[e.len() - 2].0, cl));
    }
    crate::headers::lemma_custom_headers_keep_existing(e, custom, cl);
    let f = finalized(e, custom);
    crate::headers::lemma_first_value_values(f, cl);
    crate::bytes::lemma_parse_decimal(len);
}

} // verus!
