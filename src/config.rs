//! Per-request configuration: the options a scope (global, virtual host,
//! location) may set, how scopes merge, and which host and location apply.
use vstd::prelude::*;
use crate::bytes::{copy_bytes, lower, to_lower};
use crate::headers::{Header, HeaderSeq, headers_view, copy_headers};
use crate::status::ErrorPage;

verus! {

/// The options a configuration scope may set; `None` leaves the option to
/// the enclosing scope.
pub struct ScopeConfig {
    pub server_administrator_email: Option<Vec<u8>>,
    pub error_pages: Option<Vec<ErrorPage>>,
    pub allow_double_slashes: Option<bool>,
    pub custom_headers: Option<Vec<Header>>,
    pub enable_ip_spoofing: Option<bool>,
}

pub ghost struct ScopeView {
    pub server_administrator_email: Option<Seq<u8>>,
    pub error_pages: Option<Seq<(i64, Seq<u8>)>>,
    pub allow_double_slashes: Option<bool>,
    pub custom_headers: Option<HeaderSeq>,
    pub enable_ip_spoofing: Option<bool>,
}

pub open spec fn opt_bytes(v: Option<Vec<u8>>) -> Option<Seq<u8>> {
    match v {
        Some(b) => Some(b@),
        None => None,
    }
}

pub open spec fn pages_view(p: Seq<ErrorPage>) -> Seq<(i64, Seq<u8>)> {
    p.map_values(|e: ErrorPage| (e.scode, e.path@))
}

impl View for ScopeConfig {
    type V = ScopeView;

    open spec fn view(&self) -> ScopeView {
        ScopeView {
            server_administrator_email: opt_bytes(self.server_administrator_email),
            error_pages: match self.error_pages {
                Some(p) => Some(pages_view(p@)),
                None => None,
            },
            allow_double_slashes: self.allow_double_slashes,
            custom_headers: match self.custom_headers {
                Some(h) => Some(headers_view(h@)),
                None => None,
            },
            enable_ip_spoofing: self.enable_ip_spoofing,
        }
    }
}

pub open spec fn has_key(m: HeaderSeq, k: Seq<u8>) -> bool {
    exists|i: int| 0 <= i < m.len() && #[trigger] m[i].0 == k
}

/// The entries of `base` whose key `over` does not set, in order.
pub open spec fn not_overridden(base: HeaderSeq, over: HeaderSeq) -> HeaderSeq
    decreases base.len(),
{
    if base.len() == 0 {
        base
    } else {
        let rest = not_overridden(base.drop_last(), over);
        if has_key(over, base.last().0) {
            rest
        } else {
            rest.push(base.last())
        }
    }
}

/// Mapping merge: the entries of `base` whose key `over` does not set, then all of `over`.
pub open spec fn merge_map(base: HeaderSeq, over: HeaderSeq) -> HeaderSeq {
    not_overridden(base, over) + over
}

pub open spec fn or_else<T>(over: Option<T>, base: Option<T>) -> Option<T> {
    match over {
        Some(v) => Some(v),
        None => base,
    }
}

/// `over` applied on top of `base`: scalars and sequences that `over` sets
/// replace those of `base`; the custom-header mapping merges key by key.
pub open spec fn merge_scope(base: ScopeView, over: ScopeView) -> ScopeView {
    ScopeView {
        server_administrator_email: or_else(over.server_administrator_email, base.server_administrator_email),
        error_pages: or_else(over.error_pages, base.error_pages),
        allow_double_slashes: or_else(over.allow_double_slashes, base.allow_double_slashes),
        custom_headers: match (base.custom_headers, over.custom_headers) {
            (Some(b), Some(o)) => Some(merge_map(b, o)),
            (b, o) => or_else(o, b),
        },
        enable_ip_spoofing: or_else(over.enable_ip_spoofing, base.enable_ip_spoofing),
    }
}

impl ScopeConfig {
    /// A scope that sets nothing.
    pub fn empty() -> (r: ScopeConfig)
        ensures
            r@ == (ScopeView {
                server_administrator_email: None,
                error_pages: None,
                allow_double_slashes: None,
                custom_headers: None,
                enable_ip_spoofing: None,
            }),
    {
        ScopeConfig {
            server_administrator_email: None,
            error_pages: None,
            allow_double_slashes: None,
            custom_headers: None,
            enable_ip_spoofing: None,
        }
    }

    pub fn copy(&self) -> (r: ScopeConfig)
        ensures
            r@ == self@,
    {
        ScopeConfig {
            server_administrator_email: copy_opt_bytes(&self.server_administrator_email),
            error_pages: match &self.error_pages {
                Some(p) => Some(copy_pages(p)),
                None => None,
            },
            allow_double_slashes: self.allow_double_slashes,
            custom_headers: match &self.custom_headers {
                Some(h) => Some(copy_headers(h)),
                None => None,
            },
            enable_ip_spoofing: self.enable_ip_spoofing,
        }
    }
}

fn copy_opt_bytes(v: &Option<Vec<u8>>) -> (r: Option<Vec<u8>>)
    ensures
        opt_bytes(r) == opt_bytes(*v),
{
    match v {
        Some(b) => Some(copy_bytes(b.as_slice())),
        None => None,
    }
}

fn copy_pages(p: &Vec<ErrorPage>) -> (r: Vec<ErrorPage>)
    ensures
        pages_view(r@) == pages_view(p@),
{
    let mut r: Vec<ErrorPage> = Vec::new();
    let mut i: usize = 0;
    while i < p.len()
        invariant
            i <= p@.len(),
            pages_view(r@) =~= pages_view(p@.subrange(0, i as int)),
        decreases p@.len() - i,
    {
        let ghost before = r@;
        let e = ErrorPage { scode: p[i].scode, path: copy_bytes(p[i].path.as_slice()) };
        r.push(e);
        assert(r@ == before.push(e));
        assert(pages_view(r@) =~= pages_view(before).push((p@[i as int].scode, p@[i as int].path@)));
        assert(pages_view(p@.subrange(0, i + 1)) =~= pages_view(p@.subrange(0, i as int)).push(
            (p@[i as int].scode, p@[i as int].path@),
        ));
        i = i + 1;
    }
    assert(p@.subrange(0, p@.len() as int) =~= p@);
    r
}

fn map_has_key(m: &Vec<Header>, k: &Vec<u8>) -> (r: bool)
    ensures
        r == has_key(headers_view(m@), k@),
{
    let mut i: usize = 0;
    while i < m.len()
        invariant
            i <= m@.len(),
            forall|j: int| 0 <= j < i ==> #[trigger] headers_view(m@)[j].0 != k@,
        decreases m@.len() - i,
    {
        if bytes_eq(m[i].name.as_slice(), k.as_slice()) {
            assert(headers_view(m@)[i as int].0 == k@);
            return true;
        }
        i = i + 1;
    }
    false
}

pub fn bytes_eq(a: &[u8], b: &[u8]) -> (r: bool)
    ensures
        r == (a@ == b@),
{
    if a.len() != b.len() {
        return false;
    }
    let mut i: usize = 0;
    while i < a.len()
        invariant
            a@.len() == b@.len(),
            i <= a@.len(),
            forall|j: int| 0 <= j < i ==> a@[j] == b@[j],
        decreases a@.len() - i,
    {
        if a[i] != b[i] {
            return false;
        }
        i = i + 1;
    }
    assert(a@ =~= b@);
    true
}

fn merge_header_map(base: &Vec<Header>, over: &Vec<Header>) -> (r: Vec<Header>)
    ensures
        headers_view(r@) == merge_map(headers_view(base@), headers_view(over@)),
{
    let ghost ov = headers_view(over@);
    let mut r: Vec<Header> = Vec::new();
    let mut i: usize = 0;
    while i < base.len()
        invariant
            i <= base@.len(),
            ov == headers_view(over@),
            headers_view(r@) == not_overridden(headers_view(base@.subrange(0, i as int)), ov),
        decreases base@.len() - i,
    {
        let ghost pre = headers_view(base@.subrange(0, i as int));
        let ghost next = headers_view(base@.subrange(0, i + 1));
        assert(next.drop_last() =~= pre);
        assert(next.last() == base@[i as int]@);
        if !map_has_key(over, &base[i].name) {
            let ghost before = r@;
            let h = base[i].copy();
            r.push(h);
            assert(headers_view(r@) =~= headers_view(before).push(base@[i as int]@));
        }
        i = i + 1;
    }
    assert(base@.subrange(0, base@.len() as int) =~= base@);
    let mut j: usize = 0;
    let ghost kept = headers_view(r@);
    while j < over.len()
        invariant
            j <= over@.len(),
            ov == headers_view(over@),
            headers_view(r@) =~= kept + ov.subrange(0, j as int),
        decreases over@.len() - j,
    {
        let ghost before = r@;
        let h = over[j].copy();
        r.push(h);
        assert(headers_view(r@) =~= headers_view(before).push(over@[j as int]@));
        j = j + 1;
        assert(headers_view(r@) =~= kept + ov.subrange(0, j as int));
    }
    assert(ov.subrange(0, over@.len() as int) =~= ov);
    r
}

/// Applies `over` on top of `base`.
pub fn merge_scopes(base: &ScopeConfig, over: &ScopeConfig) -> (r: ScopeConfig)
    ensures
        r@ == merge_scope(base@, over@),
{
    ScopeConfig {
        server_administrator_email: match &over.server_administrator_email {
            Some(_) => copy_opt_bytes(&over.server_administrator_email),
            None => copy_opt_bytes(&base.server_administrator_email),
        },
        error_pages: match &over.error_pages {
            Some(p) => Some(copy_pages(p)),
            None => match &base.error_pages {
                Some(p) => Some(copy_pages(p)),
                None => None,
            },
        },
        allow_double_slashes: match over.allow_double_slashes {
            Some(v) => Some(v),
            None => base.allow_double_slashes,
        },
        custom_headers: match (&base.custom_headers, &over.custom_headers) {
            (Some(b), Some(o)) => Some(merge_header_map(b, o)),
            (Some(b), None) => Some(copy_headers(b)),
            (None, Some(o)) => Some(copy_headers(o)),
            (None, None) => None,
        },
        enable_ip_spoofing: match over.enable_ip_spoofing {
            Some(v) => Some(v),
            None => base.enable_ip_spoofing,
        },
    }
}

/// A location block: a path prefix and the options it sets.
pub struct LocationScope {
    pub path: Vec<u8>,
    pub config: ScopeConfig,
}

/// A virtual host: the name (possibly `*.suffix`) and local address it
/// answers for, its options and its location blocks.
pub struct HostScope {
    pub domain: Option<Vec<u8>>,
    pub ip: Option<Vec<u8>>,
    pub config: ScopeConfig,
    pub locations: Vec<LocationScope>,
}

/// The index of the first entry with the highest score; `None` scores do not count.
pub open spec fn pick(scores: Seq<Option<nat>>) -> Option<int>
    decreases scores.len(),
{
    if scores.len() == 0 {
        None
    } else {
        let prev = pick(scores.drop_last());
        let last = scores.len() - 1;
        match scores.last() {
            Some(v) => match prev {
                Some(p) => if v > scores[p].unwrap() { Some(last) } else { prev },
                None => Some(last),
            },
            None => prev,
        }
    }
}

proof fn lemma_pick_valid(scores: Seq<Option<nat>>)
    ensures
        match pick(scores) {
            Some(i) => 0 <= i < scores.len() && scores[i].is_some(),
            None => true,
        },
    decreases scores.len(),
{
    if scores.len() > 0 {
        lemma_pick_valid(scores.drop_last());
    }
}

/// The position of the first `b` in `h`, or the length of `h` when there is none.
pub open spec fn first_index(h: Seq<u8>, b: u8) -> int
    decreases h.len(),
{
    if h.len() == 0 {
        0
    } else {
        let k = first_index(h.drop_last(), b);
        if k < h.len() - 1 {
            k
        } else if h.last() == b {
            h.len() - 1
        } else {
            h.len() as int
        }
    }
}

/// The length of the host name in a `Host` value: up to the port, an IPv6
/// literal with its brackets.
pub open spec fn host_name_len(h: Seq<u8>) -> int {
    if h.len() > 0 && h[0] == 0x5b {
        let k = first_index(h, 0x5d);
        if k < h.len() { k + 1 } else { h.len() as int }
    } else {
        first_index(h, 0x3a)
    }
}

pub open spec fn is_wildcard_match(pattern: Seq<u8>, name: Seq<u8>) -> bool {
    pattern.len() >= 2 && pattern[0] == 0x2a && pattern[1] == 0x2e && name.len() > pattern.len() - 1
        && name.subrange(name.len() - (pattern.len() - 1), name.len() as int) == pattern.skip(1)
}

/// How well a host entry fits: 3 for its exact name, 2 for a wildcard name,
/// 1 for an entry bound to the local address only, 0 for a default entry.
pub open spec fn host_score(h: HostScope, name: Option<Seq<u8>>, local_ip: Seq<u8>) -> Option<nat> {
    let ip_ok = match h.ip {
        Some(i) => i@ == local_ip,
        None => true,
    };
    if !ip_ok {
        None
    } else {
        match h.domain {
            Some(d) => match name {
                Some(n) => if lower(d@) == n {
                    Some(3)
                } else if is_wildcard_match(lower(d@), n) {
                    Some(2)
                } else {
                    None
                },
                None => None,
            },
            None => if h.ip.is_some() { Some(1) } else { Some(0) },
        }
    }
}

pub open spec fn host_scores(hosts: Seq<HostScope>, name: Option<Seq<u8>>, local_ip: Seq<u8>) -> Seq<Option<nat>> {
    hosts.map_values(|h: HostScope| host_score(h, name, local_ip))
}

/// A location applies when its path is a prefix of the request path ending
/// at a segment boundary; its score is the length of that prefix.
pub open spec fn location_score(l: LocationScope, path: Seq<u8>) -> Option<nat> {
    let p = l.path@;
    if p.len() <= path.len() && path.subrange(0, p.len() as int) == p && (p.len() == path.len()
        || p.len() == 0 || p.last() == 0x2f || path[p.len() as int] == 0x2f) {
        Some(p.len())
    } else {
        None
    }
}

pub open spec fn location_scores(locs: Seq<LocationScope>, path: Seq<u8>) -> Seq<Option<nat>> {
    locs.map_values(|l: LocationScope| location_score(l, path))
}

fn find_byte(h: &[u8], b: u8) -> (r: usize)
    ensures
        r == first_index(h@, b),
        r <= h@.len(),
{
    let mut i: usize = 0;
    while i < h.len()
        invariant
            i <= h@.len(),
            first_index(h@.subrange(0, i as int), b) == i,
        decreases h@.len() - i,
    {
        let ghost next = h@.subrange(0, i + 1);
        assert(next.drop_last() =~= h@.subrange(0, i as int));
        if h[i] == b {
            proof { lemma_first_index_prefix(h@, b, i + 1); }
            return i;
        }
        i = i + 1;
    }
    assert(h@.subrange(0, h@.len() as int) =~= h@);
    i
}

/// Once found in a prefix, the first position stays the same in the whole.
proof fn lemma_first_index_prefix(h: Seq<u8>, b: u8, n: int)
    requires
        0 <= n <= h.len(),
        first_index(h.subrange(0, n), b) < n,
    ensures
        first_index(h, b) == first_index(h.subrange(0, n), b),
    decreases h.len() - n,
{
    if n < h.len() {
        let next = h.subrange(0, n + 1);
        assert(next.drop_last() =~= h.subrange(0, n));
        lemma_first_index_prefix(h, b, n + 1);
    } else {
        assert(h.subrange(0, n) =~= h);
    }
}

fn host_name_of(h: &[u8]) -> (r: Vec<u8>)
    ensures
        r@ == h@.subrange(0, host_name_len(h@)),
{
    let end: usize = if h.len() > 0 && h[0] == 0x5b {
        let k = find_byte(h, 0x5d);
        if k < h.len() { k + 1 } else { h.len() }
    } else {
        find_byte(h, 0x3a)
    };
    let mut r: Vec<u8> = Vec::new();
    let mut j: usize = 0;
    while j < end
        invariant
            end <= h@.len(),
            j <= end,
            r@ =~= h@.subrange(0, j as int),
        decreases end - j,
    {
        r.push(h[j]);
        j = j + 1;
    }
    r
}

fn wildcard_matches(pattern: &[u8], name: &[u8]) -> (r: bool)
    ensures
        r == is_wildcard_match(pattern@, name@),
{
    if pattern.len() < 2 || pattern[0] != 0x2a || pattern[1] != 0x2e || name.len() <= pattern.len() - 1 {
        return false;
    }
    let n = pattern.len() - 1;
    let off = name.len() - n;
    let mut i: usize = 0;
    while i < n
        invariant
            n == pattern@.len() - 1,
            pattern@.len() >= 2,
            name@.len() > n,
            off == name@.len() - n,
            off + n == name.len(),
            i <= n,
            forall|j: int| 0 <= j < i ==> name@.subrange(off as int, name@.len() as int)[j] == #[trigger] pattern@.skip(1)[j],
        decreases n - i,
    {
        assert(off + i < name@.len());
        if name[off + i] != pattern[i + 1] {
            assert(name@.subrange(off as int, name@.len() as int)[i as int] != pattern@.skip(1)[i as int]);
            return false;
        }
        i = i + 1;
    }
    assert(name@.subrange(off as int, name@.len() as int) =~= pattern@.skip(1));
    true
}

fn score_host(h: &HostScope, name: &Option<Vec<u8>>, local_ip: &[u8]) -> (r: Option<u64>)
    ensures
        match r {
            Some(v) => host_score(*h, opt_bytes(*name), local_ip@) == Some(v as nat),
            None => host_score(*h, opt_bytes(*name), local_ip@).is_none(),
        },
{
    match &h.ip {
        Some(i) => {
            if !bytes_eq(i.as_slice(), local_ip) {
                return None;
            }
        },
        None => {},
    }
    match &h.domain {
        Some(d) => match name {
            Some(n) => {
                let ld = to_lower(d.as_slice());
                if bytes_eq(ld.as_slice(), n.as_slice()) {
                    Some(3)
                } else if wildcard_matches(ld.as_slice(), n.as_slice()) {
                    Some(2)
                } else {
                    None
                }
            },
            None => None,
        },
        None => if h.ip.is_some() { Some(1) } else { Some(0) },
    }
}

fn score_location(l: &LocationScope, path: &[u8]) -> (r: Option<u64>)
    ensures
        match r {
            Some(v) => location_score(*l, path@) == Some(v as nat),
            None => location_score(*l, path@).is_none(),
        },
{
    let p = l.path.as_slice();
    if p.len() > path.len() {
        return None;
    }
    let mut i: usize = 0;
    while i < p.len()
        invariant
            p@ == l.path@,
            p@.len() <= path@.len(),
            i <= p@.len(),
            forall|j: int| 0 <= j < i ==> path@[j] == p@[j],
        decreases p@.len() - i,
    {
        if path[i] != p[i] {
            assert(path@.subrange(0, p@.len() as int)[i as int] != p@[i as int]);
            return None;
        }
        i = i + 1;
    }
    assert(path@.subrange(0, p@.len() as int) =~= p@);
    if p.len() == path.len() || p.len() == 0 || p[p.len() - 1] == 0x2f || path[p.len()] == 0x2f {
        Some(p.len() as u64)
    } else {
        None
    }
}

/// The virtual host that applies: among the entries that fit, the first of
/// the best kind (exact name, then wildcard, then local address, then default).
pub fn select_host(hosts: &Vec<HostScope>, name: &Option<Vec<u8>>, local_ip: &[u8]) -> (r: Option<usize>)
    ensures
        match r {
            Some(i) => pick(host_scores(hosts@, opt_bytes(*name), local_ip@)) == Some(i as int),
            None => pick(host_scores(hosts@, opt_bytes(*name), local_ip@)).is_none(),
        },
{
    let ghost nm = opt_bytes(*name);
    let mut best: Option<usize> = None;
    let mut best_score: u64 = 0;
    let mut i: usize = 0;
    while i < hosts.len()
        invariant
            i <= hosts@.len(),
            nm == opt_bytes(*name),
            match best {
                Some(b) => pick(host_scores(hosts@.subrange(0, i as int), nm, local_ip@)) == Some(b as int)
                    && b < i && host_score(hosts@[b as int], nm, local_ip@) == Some(best_score as nat),
                None => pick(host_scores(hosts@.subrange(0, i as int), nm, local_ip@)).is_none(),
            },
        decreases hosts@.len() - i,
    {
        let ghost pre = host_scores(hosts@.subrange(0, i as int), nm, local_ip@);
        let ghost next = host_scores(hosts@.subrange(0, i + 1), nm, local_ip@);
        assert(next.drop_last() =~= pre);
        assert(next.last() == host_score(hosts@[i as int], nm, local_ip@));
        match score_host(&hosts[i], name, local_ip) {
            Some(v) => {
                match best {
                    Some(b) => {
                        assert(next[b as int] == pre[b as int]);
                        if v > best_score {
                            best = Some(i);
                            best_score = v;
                        }
                    },
                    None => {
                        best = Some(i);
                        best_score = v;
                    },
                }
            },
            None => {},
        }
        i = i + 1;
    }
    assert(hosts@.subrange(0, hosts@.len() as int) =~= hosts@);
    best
}

/// The location block that applies: the longest matching prefix, the first
/// of equally long ones.
pub fn select_location(locs: &Vec<LocationScope>, path: &[u8]) -> (r: Option<usize>)
    ensures
        match r {
            Some(i) => pick(location_scores(locs@, path@)) == Some(i as int),
            None => pick(location_scores(locs@, path@)).is_none(),
        },
{
    let mut best: Option<usize> = None;
    let mut best_score: u64 = 0;
    let mut i: usize = 0;
    while i < locs.len()
        invariant
            i <= locs@.len(),
            match best {
                Some(b) => pick(location_scores(locs@.subrange(0, i as int), path@)) == Some(b as int)
                    && b < i && location_score(locs@[b as int], path@) == Some(best_score as nat),
                None => pick(location_scores(locs@.subrange(0, i as int), path@)).is_none(),
            },
        decreases locs@.len() - i,
    {
        let ghost pre = location_scores(locs@.subrange(0, i as int), path@);
        let ghost next = location_scores(locs@.subrange(0, i + 1), path@);
        assert(next.drop_last() =~= pre);
        assert(next.last() == location_score(locs@[i as int], path@));
        match score_location(&locs[i], path) {
            Some(v) => {
                match best {
                    Some(b) => {
                        assert(next[b as int] == pre[b as int]);
                        if v > best_score {
                            best = Some(i);
                            best_score = v;
                        }
                    },
                    None => {
                        best = Some(i);
                        best_score = v;
                    },
                }
            },
            None => {},
        }
        i = i + 1;
    }
    assert(locs@.subrange(0, locs@.len() as int) =~= locs@);
    best
}

/// The options in force for a request: the global scope, then the host that
/// applies, then its location that applies, each merged over the previous.
pub open spec fn resolved(
    global: ScopeView,
    hosts: Seq<HostScope>,
    name: Option<Seq<u8>>,
    local_ip: Seq<u8>,
    path: Seq<u8>,
) -> ScopeView {
    match pick(host_scores(hosts, name, local_ip)) {
        None => global,
        Some(h) => {
            let with_host = merge_scope(global, hosts[h].config@);
            match pick(location_scores(hosts[h].locations@, path)) {
                None => with_host,
                Some(l) => merge_scope(with_host, hosts[h].locations@[l].config@),
            }
        },
    }
}

pub open spec fn host_key(host_header: Option<Seq<u8>>) -> Option<Seq<u8>> {
    match host_header {
        Some(h) => Some(h.subrange(0, host_name_len(h))),
        None => None,
    }
}

/// Resolves the options for a request. `host_header` is the (lowercased)
/// `Host` value, or `None` where it is not to be trusted; its port is ignored.
pub fn resolve_config(
    global: &ScopeConfig,
    hosts: &Vec<HostScope>,
    host_header: Option<&[u8]>,
    local_ip: &[u8],
    path: &[u8],
) -> (r: ScopeConfig)
    ensures
        r@ == resolved(
            global@,
            hosts@,
            host_key(
                match host_header {
                    Some(h) => Some(h@),
                    None => None,
                },
            ),
            local_ip@,
            path@,
        ),
{
    let name: Option<Vec<u8>> = match host_header {
        Some(h) => Some(host_name_of(h)),
        None => None,
    };
    proof {
        lemma_pick_valid(host_scores(hosts@, opt_bytes(name), local_ip@));
    }
    match select_host(hosts, &name, local_ip) {
        None => global.copy(),
        Some(h) => {
            let with_host = merge_scopes(global, &hosts[h].config);
            proof {
                lemma_pick_valid(location_scores(hosts@[h as int].locations@, path@));
            }
            match select_location(&hosts[h].locations, path) {
                None => with_host,
                Some(l) => merge_scopes(&with_host, &hosts[h].locations[l].config),
            }
        },
    }
}

/// The value of the first entry with key `k`.
pub open spec fn key_value(m: HeaderSeq, k: Seq<u8>) -> Option<Seq<u8>>
    decreases m.len(),
{
    if m.len() == 0 {
        None
    } else if m[0].0 == k {
        Some(m[0].1)
    } else {
        key_value(m.skip(1), k)
    }
}

proof fn lemma_has_key_append(a: HeaderSeq, b: HeaderSeq, k: Seq<u8>)
    ensures
        has_key(a + b, k) == (has_key(a, k) || has_key(b, k)),
{
    if has_key(a, k) {
        let i = choose|i: int| 0 <= i < a.len() && #[trigger] a[i].0 == k;
        assert((a + b)[i] == a[i]);
    }
    if has_key(b, k) {
        let i = choose|i: int| 0 <= i < b.len() && #[trigger] b[i].0 == k;
        assert((a + b)[a.len() + i] == b[i]);
    }
    if has_key(a + b, k) {
        let i = choose|i: int| 0 <= i < a.len() + b.len() && #[trigger] (a + b)[i].0 == k;
        if i < a.len() {
            assert((a + b)[i] == a[i]);
        } else {
            assert((a + b)[i] == b[i - a.len()]);
        }
    }
}

proof fn lemma_not_overridden_has_key(base: HeaderSeq, over: HeaderSeq, k: Seq<u8>)
    ensures
        has_key(not_overridden(base, over), k) == (has_key(base, k) && !has_key(over, k)),
    decreases base.len(),
{
    if base.len() > 0 {
        let pre = base.drop_last();
        let rest = not_overridden(pre, over);
        lemma_not_overridden_has_key(pre, over, k);
        assert(pre.push(base.last()) =~= base);
        lemma_has_key_append(pre, seq![base.last()], k);
        assert(has_key(seq![base.last()], k) == (base.last().0 == k)) by {
            if base.last().0 == k {
                assert(seq![base.last()][0].0 == k);
            }
        }
        if !has_key(over, base.last().0) {
            assert(rest.push(base.last()) =~= rest + seq![base.last()]);
            lemma_has_key_append(rest, seq![base.last()], k);
        }
    }
}

proof fn lemma_not_overridden_append(x: HeaderSeq, y: HeaderSeq, c: HeaderSeq)
    ensures
        not_overridden(x + y, c) == not_overridden(x, c) + not_overridden(y, c),
    decreases y.len(),
{
    if y.len() == 0 {
        assert(x + y =~= x);
        assert(not_overridden(x, c) + not_overridden(y, c) =~= not_overridden(x, c));
    } else {
        lemma_not_overridden_append(x, y.drop_last(), c);
        assert((x + y).drop_last() =~= x + y.drop_last());
        assert((x + y).last() == y.last());
        let r = not_overridden(y.drop_last(), c);
        if !has_key(c, y.last().0) {
            assert(not_overridden(x, c) + r.push(y.last()) =~= (not_overridden(x, c) + r).push(y.last()));
        }
    }
}

proof fn lemma_not_overridden_twice(a: HeaderSeq, b: HeaderSeq, c: HeaderSeq)
    ensures
        not_overridden(not_overridden(a, b), c) == not_overridden(a, merge_map(b, c)),
    decreases a.len(),
{
    if a.len() > 0 {
        let pre = a.drop_last();
        lemma_not_overridden_twice(pre, b, c);
        let k = a.last().0;
        lemma_has_key_append(not_overridden(b, c), c, k);
        lemma_not_overridden_has_key(b, c, k);
        let r = not_overridden(pre, b);
        if !has_key(b, k) {
            assert(r.push(a.last()).drop_last() =~= r);
        }
    }
}

proof fn lemma_merge_map_assoc(a: HeaderSeq, b: HeaderSeq, c: HeaderSeq)
    ensures
        merge_map(merge_map(a, b), c) == merge_map(a, merge_map(b, c)),
{
    lemma_not_overridden_append(not_overridden(a, b), b, c);
    lemma_not_overridden_twice(a, b, c);
    assert(merge_map(merge_map(a, b), c) =~= merge_map(a, merge_map(b, c)));
}

proof fn lemma_key_value_append(a: HeaderSeq, b: HeaderSeq, k: Seq<u8>)
    ensures
        key_value(a + b, k) == if has_key(a, k) { key_value(a, k) } else { key_value(b, k) },
    decreases a.len(),
{
    if a.len() == 0 {
        assert(a + b =~= b);
    } else {
        assert((a + b)[0] == a[0]);
        assert((a + b).skip(1) =~= a.skip(1) + b);
        lemma_key_value_append(a.skip(1), b, k);
        if a[0].0 != k {
            if has_key(a, k) {
                let i = choose|i: int| 0 <= i < a.len() && #[trigger] a[i].0 == k;
                assert(a.skip(1)[i - 1] == a[i]);
            }
            if has_key(a.skip(1), k) {
                let i = choose|i: int| 0 <= i < a.len() - 1 && #[trigger] a.skip(1)[i].0 == k;
                assert(a.skip(1)[i] == a[i + 1]);
            }
        } else {
            assert(a[0].0 == k);
        }
    }
}

proof fn lemma_key_value_absent(m: HeaderSeq, k: Seq<u8>)
    requires
        !has_key(m, k),
    ensures
        key_value(m, k).is_none(),
    decreases m.len(),
{
    if m.len() > 0 {
        assert(m[0].0 != k);
        if has_key(m.skip(1), k) {
            let i = choose|i: int| 0 <= i < m.len() - 1 && #[trigger] m.skip(1)[i].0 == k;
            assert(m.skip(1)[i] == m[i + 1]);
        }
        lemma_key_value_absent(m.skip(1), k);
    }
}

proof fn lemma_key_value_not_overridden(base: HeaderSeq, over: HeaderSeq, k: Seq<u8>)
    requires
        !has_key(over, k),
    ensures
        key_value(not_overridden(base, over), k) == key_value(base, k),
    decreases base.len(),
{
    if base.len() > 0 {
        let pre = base.drop_last();
        let l = base.last();
        lemma_key_value_not_overridden(pre, over, k);
        assert(pre + seq![l] =~= base);
        lemma_key_value_append(pre, seq![l], k);
        let r = not_overridden(pre, over);
        lemma_not_overridden_has_key(pre, over, k);
        if !has_key(over, l.0) {
            assert(r.push(l) =~= r + seq![l]);
            lemma_key_value_append(r, seq![l], k);
        } else {
            assert(l.0 != k);
            assert(seq![l].skip(1) =~= Seq::<(Seq<u8>, Seq<u8>)>::empty());
            assert(key_value(seq![l], k) == key_value(seq![l].skip(1), k));
            if !has_key(pre, k) {
                lemma_key_value_absent(pre, k);
            }
        }
    }
}

/// Looking up a key in a merged mapping finds the overriding value when
/// `over` sets the key, else the value of `base`.
pub proof fn lemma_merge_map_lookup(base: HeaderSeq, over: HeaderSeq, k: Seq<u8>)
    ensures
        key_value(merge_map(base, over), k) == if has_key(over, k) {
            key_value(over, k)
        } else {
            key_value(base, k)
        },
        has_key(merge_map(base, over), k) == (has_key(base, k) || has_key(over, k)),
{
    lemma_key_value_append(not_overridden(base, over), over, k);
    lemma_not_overridden_has_key(base, over, k);
    lemma_has_key_append(not_overridden(base, over), over, k);
    if !has_key(over, k) {
        lemma_key_value_not_overridden(base, over, k);
        lemma_key_value_absent(over, k);
        if !has_key(base, k) {
            lemma_key_value_absent(base, k);
        }
    } else {
        if has_key(not_overridden(base, over), k) {
            assert(false);
        }
    }
}

/// The value a scope gives to custom header `k`, if it sets it.
pub open spec fn custom_lookup(s: ScopeView, k: Seq<u8>) -> Option<Seq<u8>> {
    match s.custom_headers {
        Some(m) => if has_key(m, k) { key_value(m, k) } else { None },
        None => None,
    }
}

proof fn lemma_key_value_present(m: HeaderSeq, k: Seq<u8>)
    requires
        has_key(m, k),
    ensures
        key_value(m, k).is_some(),
    decreases m.len(),
{
    if m[0].0 != k {
        let i = choose|i: int| 0 <= i < m.len() && #[trigger] m[i].0 == k;
        assert(m.skip(1)[i - 1] == m[i]);
        lemma_key_value_present(m.skip(1), k);
    }
}

proof fn lemma_merge_scope_lookup(base: ScopeView, over: ScopeView, k: Seq<u8>)
    ensures
        custom_lookup(merge_scope(base, over), k) == or_else(custom_lookup(over, k), custom_lookup(base, k)),
{
    match (base.custom_headers, over.custom_headers) {
        (Some(b), Some(o)) => {
            lemma_merge_map_lookup(b, o, k);
            if has_key(o, k) {
                lemma_key_value_present(o, k);
            }
        },
        (None, Some(o)) => {
            if has_key(o, k) {
                lemma_key_value_present(o, k);
            }
        },
        _ => {},
    }
}

/// Scope merging is a left-to-right fold whose grouping does not matter:
/// merging global, host and location scopes one after the other gives the
/// same options as merging the global scope with the host and location
/// scopes merged first. Each scalar or sequence option comes from the last
/// scope that sets it, and each custom-header key from the last scope that
/// sets that key.
pub proof fn lemma_config_precedence(g: ScopeView, h: ScopeView, l: ScopeView, k: Seq<u8>)
    ensures
        merge_scope(merge_scope(g, h), l) == merge_scope(g, merge_scope(h, l)),
        merge_scope(merge_scope(g, h), l).allow_double_slashes == or_else(
            l.allow_double_slashes,
            or_else(h.allow_double_slashes, g.allow_double_slashes),
        ),
        merge_scope(merge_scope(g, h), l).error_pages == or_else(
            l.error_pages,
            or_else(h.error_pages, g.error_pages),
        ),
        merge_scope(merge_scope(g, h), l).server_administrator_email == or_else(
            l.server_administrator_email,
            or_else(h.server_administrator_email, g.server_administrator_email),
        ),
        merge_scope(merge_scope(g, h), l).enable_ip_spoofing == or_else(
            l.enable_ip_spoofing,
            or_else(h.enable_ip_spoofing, g.enable_ip_spoofing),
        ),
        custom_lookup(merge_scope(merge_scope(g, h), l), k) == or_else(
            custom_lookup(l, k),
            or_else(custom_lookup(h, k), custom_lookup(g, k)),
        ),
{
    match (g.custom_headers, h.custom_headers, l.custom_headers) {
        (Some(a), Some(b), Some(c)) => {
            lemma_merge_map_assoc(a, b, c);
        },
        _ => {},
    }
    lemma_merge_scope_lookup(merge_scope(g, h), l, k);
    lemma_merge_scope_lookup(g, h, k);
    assert(merge_scope(merge_scope(g, h), l) =~= merge_scope(g, merge_scope(h, l)));
}

} // verus!
