//! Start-up and connection decisions: TLS parameters, ALPN, which listeners
//! to bind, HTTP/2 tuning, the environment, pool sizes and the request
//! deadline.
use vstd::prelude::*;
use vstd::string::StringSliceAdditionalSpecFns;
use crate::bytes::{copy_bytes, lower};
use crate::config::bytes_eq;

verus! {

/// The cipher suites the server can offer.
#[derive(Clone, Copy, PartialEq, Eq, Structural, Debug)]
pub enum CipherSuite {
    Tls13Aes128GcmSha256,
    Tls13Aes256GcmSha384,
    Tls13Chacha20Poly1305Sha256,
    EcdheEcdsaAes128GcmSha256,
    EcdheEcdsaAes256GcmSha384,
    EcdheEcdsaChacha20Poly1305Sha256,
    EcdheRsaAes128GcmSha256,
    EcdheRsaAes256GcmSha384,
    EcdheRsaChacha20Poly1305Sha256,
}

pub open spec fn cipher_suite_named(n: Seq<u8>) -> Option<CipherSuite> {
    if n == "TLS_AES_128_GCM_SHA256".spec_bytes() {
        Some(CipherSuite::Tls13Aes128GcmSha256)
    } else if n == "TLS_AES_256_GCM_SHA384".spec_bytes() {
        Some(CipherSuite::Tls13Aes256GcmSha384)
    } else if n == "TLS_CHACHA20_POLY1305_SHA256".spec_bytes() {
        Some(CipherSuite::Tls13Chacha20Poly1305Sha256)
    } else if n == "TLS_ECDHE_ECDSA_WITH_AES_128_GCM_SHA256".spec_bytes() {
        Some(CipherSuite::EcdheEcdsaAes128GcmSha256)
    } else if n == "TLS_ECDHE_ECDSA_WITH_AES_256_GCM_SHA384".spec_bytes() {
        Some(CipherSuite::EcdheEcdsaAes256GcmSha384)
    } else if n == "TLS_ECDHE_ECDSA_WITH_CHACHA20_POLY1305_SHA256".spec_bytes() {
        Some(CipherSuite::EcdheEcdsaChacha20Poly1305Sha256)
    } else if n == "TLS_ECDHE_RSA_WITH_AES_128_GCM_SHA256".spec_bytes() {
        Some(CipherSuite::EcdheRsaAes128GcmSha256)
    } else if n == "TLS_ECDHE_RSA_WITH_AES_256_GCM_SHA384".spec_bytes() {
        Some(CipherSuite::EcdheRsaAes256GcmSha384)
    } else if n == "TLS_ECDHE_RSA_WITH_CHACHA20_POLY1305_SHA256".spec_bytes() {
        Some(CipherSuite::EcdheRsaChacha20Poly1305Sha256)
    } else {
        None
    }
}

pub fn cipher_suite_from_name(n: &[u8]) -> (r: Option<CipherSuite>)
    ensures
        r == cipher_suite_named(n@),
{
    if bytes_eq(n, "TLS_AES_128_GCM_SHA256".as_bytes()) {
        Some(CipherSuite::Tls13Aes128GcmSha256)
    } else if bytes_eq(n, "TLS_AES_256_GCM_SHA384".as_bytes()) {
        Some(CipherSuite::Tls13Aes256GcmSha384)
    } else if bytes_eq(n, "TLS_CHACHA20_POLY1305_SHA256".as_bytes()) {
        Some(CipherSuite::Tls13Chacha20Poly1305Sha256)
    } else if bytes_eq(n, "TLS_ECDHE_ECDSA_WITH_AES_128_GCM_SHA256".as_bytes()) {
        Some(CipherSuite::EcdheEcdsaAes128GcmSha256)
    } else if bytes_eq(n, "TLS_ECDHE_ECDSA_WITH_AES_256_GCM_SHA384".as_bytes()) {
        Some(CipherSuite::EcdheEcdsaAes256GcmSha384)
    } else if bytes_eq(n, "TLS_ECDHE_ECDSA_WITH_CHACHA20_POLY1305_SHA256".as_bytes()) {
        Some(CipherSuite::EcdheEcdsaChacha20Poly1305Sha256)
    } else if bytes_eq(n, "TLS_ECDHE_RSA_WITH_AES_128_GCM_SHA256".as_bytes()) {
        Some(CipherSuite::EcdheRsaAes128GcmSha256)
    } else if bytes_eq(n, "TLS_ECDHE_RSA_WITH_AES_256_GCM_SHA384".as_bytes()) {
        Some(CipherSuite::EcdheRsaAes256GcmSha384)
    } else if bytes_eq(n, "TLS_ECDHE_RSA_WITH_CHACHA20_POLY1305_SHA256".as_bytes()) {
        Some(CipherSuite::EcdheRsaChacha20Poly1305Sha256)
    } else {
        None
    }
}

/// The key-exchange groups the server can offer.
#[derive(Clone, Copy, PartialEq, Eq, Structural, Debug)]
pub enum KxGroup {
    Mlkem768,
    Secp256r1,
    Secp384r1,
    X25519,
    X25519Mlkem768,
}

pub open spec fn kx_group_named(n: Seq<u8>) -> Option<KxGroup> {
    if n == "mlkem768".spec_bytes() {
        Some(KxGroup::Mlkem768)
    } else if n == "secp256r1".spec_bytes() {
        Some(KxGroup::Secp256r1)
    } else if n == "secp384r1".spec_bytes() {
        Some(KxGroup::Secp384r1)
    } else if n == "x25519".spec_bytes() {
        Some(KxGroup::X25519)
    } else if n == "x25519mlkem768".spec_bytes() {
        Some(KxGroup::X25519Mlkem768)
    } else {
        None
    }
}

pub fn kx_group_from_name(n: &[u8]) -> (r: Option<KxGroup>)
    ensures
        r == kx_group_named(n@),
{
    if bytes_eq(n, "mlkem768".as_bytes()) {
        Some(KxGroup::Mlkem768)
    } else if bytes_eq(n, "secp256r1".as_bytes()) {
        Some(KxGroup::Secp256r1)
    } else if bytes_eq(n, "secp384r1".as_bytes()) {
        Some(KxGroup::Secp384r1)
    } else if bytes_eq(n, "x25519".as_bytes()) {
        Some(KxGroup::X25519)
    } else if bytes_eq(n, "x25519mlkem768".as_bytes()) {
        Some(KxGroup::X25519Mlkem768)
    } else {
        None
    }
}

/// Reads the configured cipher suites in order; the first unknown name
/// fails, and is returned.
pub fn parse_cipher_suites(names: &Vec<Vec<u8>>) -> (r: Result<Vec<CipherSuite>, Vec<u8>>)
    ensures
        match r {
            Ok(v) => v@.len() == names@.len() && forall|i: int|
                0 <= i < names@.len() ==> cipher_suite_named(#[trigger] names@[i]@) == Some(v@[i]),
            Err(bad) => exists|i: int|
                0 <= i < names@.len() && cipher_suite_named(#[trigger] names@[i]@).is_none()
                    && bad@ == names@[i]@ && forall|j: int|
                    0 <= j < i ==> cipher_suite_named(#[trigger] names@[j]@).is_some(),
        },
{
    let mut out: Vec<CipherSuite> = Vec::new();
    let mut i: usize = 0;
    while i < names.len()
        invariant
            i <= names@.len(),
            out@.len() == i,
            forall|j: int| 0 <= j < i ==> cipher_suite_named(#[trigger] names@[j]@) == Some(out@[j]),
        decreases names@.len() - i,
    {
        match cipher_suite_from_name(names[i].as_slice()) {
            Some(c) => out.push(c),
            None => {
                assert(forall|j: int| 0 <= j < i ==> cipher_suite_named(#[trigger] names@[j]@).is_some());
                return Err(copy_bytes(names[i].as_slice()));
            },
        }
        i = i + 1;
    }
    Ok(out)
}

/// Reads the configured key-exchange groups in order; the first unknown
/// name fails, and is returned.
pub fn parse_ecdh_curves(names: &Vec<Vec<u8>>) -> (r: Result<Vec<KxGroup>, Vec<u8>>)
    ensures
        match r {
            Ok(v) => v@.len() == names@.len() && forall|i: int|
                0 <= i < names@.len() ==> kx_group_named(#[trigger] names@[i]@) == Some(v@[i]),
            Err(bad) => exists|i: int|
                0 <= i < names@.len() && kx_group_named(#[trigger] names@[i]@).is_none() && bad@
                    == names@[i]@ && forall|j: int|
                    0 <= j < i ==> kx_group_named(#[trigger] names@[j]@).is_some(),
        },
{
    let mut out: Vec<KxGroup> = Vec::new();
    let mut i: usize = 0;
    while i < names.len()
        invariant
            i <= names@.len(),
            out@.len() == i,
            forall|j: int| 0 <= j < i ==> kx_group_named(#[trigger] names@[j]@) == Some(out@[j]),
        decreases names@.len() - i,
    {
        match kx_group_from_name(names[i].as_slice()) {
            Some(c) => out.push(c),
            None => {
                return Err(copy_bytes(names[i].as_slice()));
            },
        }
        i = i + 1;
    }
    Ok(out)
}

/// The protocol versions a server accepts.
#[derive(Clone, Copy, PartialEq, Eq, Structural, Debug)]
pub enum TlsVersions {
    Tls12Only,
    Tls13Only,
    Tls12And13,
}

#[derive(Clone, Copy, PartialEq, Eq, Structural, Debug)]
pub enum TlsVersionError {
    /// The maximum version is older than the minimum.
    MaxOlderThanMin,
    InvalidMinimum,
    InvalidMaximum,
}

pub open spec fn tls12() -> Seq<u8> {
    "TLSv1.2".spec_bytes()
}

pub open spec fn tls13() -> Seq<u8> {
    "TLSv1.3".spec_bytes()
}

pub open spec fn opt_view(v: Option<Vec<u8>>) -> Option<Seq<u8>> {
    match v {
        Some(b) => Some(b@),
        None => None,
    }
}

/// The version range from `tlsMinVersion` and `tlsMaxVersion`; an unset
/// minimum means TLS 1.2 and an unset maximum TLS 1.3.
pub open spec fn tls_range(min: Option<Seq<u8>>, max: Option<Seq<u8>>) -> Result<TlsVersions, TlsVersionError> {
    let min_is_13 = min == Some(tls13());
    let min_is_12 = min == Some(tls12()) || min.is_none();
    let max_is_12 = max == Some(tls12());
    let max_is_13 = max == Some(tls13()) || max.is_none();
    if min_is_13 {
        if max_is_12 {
            Err(TlsVersionError::MaxOlderThanMin)
        } else if max_is_13 {
            Ok(TlsVersions::Tls13Only)
        } else {
            Err(TlsVersionError::InvalidMaximum)
        }
    } else if min_is_12 {
        if max_is_12 {
            Ok(TlsVersions::Tls12Only)
        } else if max_is_13 {
            Ok(TlsVersions::Tls12And13)
        } else {
            Err(TlsVersionError::InvalidMaximum)
        }
    } else {
        Err(TlsVersionError::InvalidMinimum)
    }
}

pub fn tls_versions(min: &Option<Vec<u8>>, max: &Option<Vec<u8>>) -> (r: Result<TlsVersions, TlsVersionError>)
    ensures
        r == tls_range(opt_view(*min), opt_view(*max)),
{
    let min_is_13 = match min {
        Some(m) => bytes_eq(m.as_slice(), "TLSv1.3".as_bytes()),
        None => false,
    };
    let min_is_12 = match min {
        Some(m) => bytes_eq(m.as_slice(), "TLSv1.2".as_bytes()),
        None => true,
    };
    let max_is_12 = match max {
        Some(m) => bytes_eq(m.as_slice(), "TLSv1.2".as_bytes()),
        None => false,
    };
    let max_is_13 = match max {
        Some(m) => bytes_eq(m.as_slice(), "TLSv1.3".as_bytes()),
        None => true,
    };
    if min_is_13 {
        if max_is_12 {
            Err(TlsVersionError::MaxOlderThanMin)
        } else if max_is_13 {
            Ok(TlsVersions::Tls13Only)
        } else {
            Err(TlsVersionError::InvalidMaximum)
        }
    } else if min_is_12 {
        if max_is_12 {
            Ok(TlsVersions::Tls12Only)
        } else if max_is_13 {
            Ok(TlsVersions::Tls12And13)
        } else {
            Err(TlsVersionError::InvalidMaximum)
        }
    } else {
        Err(TlsVersionError::InvalidMinimum)
    }
}

pub open spec fn alpn_spec(enable_http2: bool) -> Seq<Seq<u8>> {
    let base = seq!["http/1.1".spec_bytes(), "http/1.0".spec_bytes()];
    if enable_http2 {
        seq!["h2".spec_bytes()] + base
    } else {
        base
    }
}

/// The ALPN protocols to advertise, in order of preference.
pub fn alpn_protocols(enable_http2: bool) -> (r: Vec<Vec<u8>>)
    ensures
        r@.map_values(|p: Vec<u8>| p@) == alpn_spec(enable_http2),
{
    let mut r: Vec<Vec<u8>> = Vec::new();
    if enable_http2 {
        r.push(copy_bytes("h2".as_bytes()));
    }
    r.push(copy_bytes("http/1.1".as_bytes()));
    r.push(copy_bytes("http/1.0".as_bytes()));
    assert(r@.map_values(|p: Vec<u8>| p@) =~= alpn_spec(enable_http2));
    r
}

/// Which listeners to bind.
#[derive(Clone, Copy, PartialEq, Eq, Structural, Debug)]
pub struct ListenerPlan {
    /// The plaintext port, when that listener is on.
    pub http: Option<u16>,
    /// The encrypted port, when that listener is on.
    pub https: Option<u16>,
}

#[derive(Clone, Copy, PartialEq, Eq, Structural, Debug)]
pub enum ListenerError {
    InvalidHttpPort,
    InvalidHttpsPort,
    /// Neither listener would be on.
    NothingToListen,
}

pub open spec fn port_of(setting: Option<i64>, default: u16) -> Option<u16> {
    match setting {
        None => Some(default),
        Some(p) => if 0 <= p <= 65535 { Some(p as u16) } else { None },
    }
}

pub open spec fn listener_spec(
    secure: Option<bool>,
    disable_non_encrypted: Option<bool>,
    port: Option<i64>,
    sport: Option<i64>,
) -> Result<ListenerPlan, ListenerError> {
    let tls_on = secure == Some(true);
    let plain_off = secure.is_some() && disable_non_encrypted == Some(true);
    if port_of(port, 80).is_none() {
        Err(ListenerError::InvalidHttpPort)
    } else if port_of(sport, 443).is_none() {
        Err(ListenerError::InvalidHttpsPort)
    } else if plain_off && !tls_on {
        Err(ListenerError::NothingToListen)
    } else {
        Ok(ListenerPlan {
            http: if plain_off { None } else { port_of(port, 80) },
            https: if tls_on { port_of(sport, 443) } else { None },
        })
    }
}

fn port_setting(setting: Option<i64>, default: u16) -> (r: Option<u16>)
    ensures
        r == port_of(setting, default),
{
    match setting {
        None => Some(default),
        Some(p) => if 0 <= p && p <= 65535 { Some(p as u16) } else { None },
    }
}

/// Decides the listeners from `secure`, `disableNonEncryptedServer` (read
/// only together with `secure`), `port` (default 80) and `sport` (default 443).
pub fn listener_plan(
    secure: Option<bool>,
    disable_non_encrypted: Option<bool>,
    port: Option<i64>,
    sport: Option<i64>,
) -> (r: Result<ListenerPlan, ListenerError>)
    ensures
        r == listener_spec(secure, disable_non_encrypted, port, sport),
{
    let tls_on = secure == Some(true);
    let plain_off = secure.is_some() && disable_non_encrypted == Some(true);
    let http_port = match port_setting(port, 80) {
        Some(p) => p,
        None => {
            return Err(ListenerError::InvalidHttpPort);
        },
    };
    let https_port = match port_setting(sport, 443) {
        Some(p) => p,
        None => {
            return Err(ListenerError::InvalidHttpsPort);
        },
    };
    if plain_off && !tls_on {
        return Err(ListenerError::NothingToListen);
    }
    Ok(ListenerPlan {
        http: if plain_off { None } else { Some(http_port) },
        https: if tls_on { Some(https_port) } else { None },
    })
}

/// How each connection is served.
#[derive(Clone, Copy, PartialEq, Eq, Structural, Debug)]
pub struct Http2Tuning {
    pub http1_only: bool,
    pub initial_window_size: Option<u32>,
    pub max_frame_size: Option<u32>,
    pub max_concurrent_streams: Option<u32>,
    pub max_header_list_size: Option<u32>,
    pub enable_connect_protocol: bool,
}

/// A knob's value as a 32-bit setting: the integer converted with wrap-around.
pub open spec fn knob(v: Option<i64>) -> Option<u32> {
    match v {
        Some(n) => Some(#[verifier::truncate] (n as u32)),
        None => None,
    }
}

fn knob_value(v: Option<i64>) -> (r: Option<u32>)
    ensures
        r == knob(v),
{
    match v {
        Some(n) => Some(#[verifier::truncate] (n as u32)),
        None => None,
    }
}

/// The connection settings: HTTP/1.x only unless `enableHTTP2` is on; each
/// HTTP/2 knob that is set applies, converted to 32 bits with wrap-around.
pub fn http2_tuning(
    enable_http2: Option<bool>,
    initial_window_size: Option<i64>,
    max_frame_size: Option<i64>,
    max_concurrent_streams: Option<i64>,
    max_header_list_size: Option<i64>,
    enable_connect_protocol: Option<bool>,
) -> (r: Http2Tuning)
    ensures
        r == (Http2Tuning {
            http1_only: enable_http2 != Some(true),
            initial_window_size: knob(initial_window_size),
            max_frame_size: knob(max_frame_size),
            max_concurrent_streams: knob(max_concurrent_streams),
            max_header_list_size: knob(max_header_list_size),
            enable_connect_protocol: enable_connect_protocol == Some(true),
        }),
{
    Http2Tuning {
        http1_only: enable_http2 != Some(true),
        initial_window_size: knob_value(initial_window_size),
        max_frame_size: knob_value(max_frame_size),
        max_concurrent_streams: knob_value(max_concurrent_streams),
        max_header_list_size: knob_value(max_header_list_size),
        enable_connect_protocol: enable_connect_protocol == Some(true),
    }
}

pub open spec fn no_byte(s: Seq<u8>, b: u8) -> bool {
    forall|i: int| 0 <= i < s.len() ==> #[trigger] s[i] != b
}

/// An environment variable can be set when its name is non-empty and free
/// of NUL and `=`, and its value free of NUL.
pub open spec fn env_var_ok(name: Seq<u8>, value: Seq<u8>) -> bool {
    name.len() > 0 && no_byte(name, 0) && no_byte(name, 0x3d) && no_byte(value, 0)
}

fn lacks_byte(s: &[u8], b: u8) -> (r: bool)
    ensures
        r == no_byte(s@, b),
{
    let mut i: usize = 0;
    while i < s.len()
        invariant
            i <= s@.len(),
            forall|j: int| 0 <= j < i ==> #[trigger] s@[j] != b,
        decreases s@.len() - i,
    {
        if s[i] == b {
            return false;
        }
        i = i + 1;
    }
    true
}

pub fn env_var_allowed(name: &[u8], value: &[u8]) -> (r: bool)
    ensures
        r == env_var_ok(name@, value@),
{
    name.len() > 0 && lacks_byte(name, 0) && lacks_byte(name, 0x3d) && lacks_byte(value, 0)
}

/// Worker counts for the two runtimes: the server pool gets one worker per
/// unit of parallelism, the log pool half as many, at least one.
pub fn pool_sizes(parallelism: usize) -> (r: (usize, usize))
    ensures
        r.0 == parallelism,
        r.1 == (if parallelism / 2 == 0 { 1 } else { parallelism / 2 }),
{
    let half = parallelism / 2;
    (parallelism, if half == 0 { 1 } else { half })
}

/// The request deadline in milliseconds: `timeout` when it is set and not
/// negative, else 300000.
pub fn request_timeout_millis(timeout: Option<i64>) -> (r: u64)
    ensures
        r == (match timeout {
            Some(t) => if t >= 0 { t as u64 } else { 300000 },
            None => 300000,
        }),
{
    match timeout {
        Some(t) => if t >= 0 { t as u64 } else { 300000 },
        None => 300000,
    }
}

/// A certificate configured for a host name under `sni`.
pub struct SniEntry {
    pub host: Vec<u8>,
    pub certificate: usize,
}

pub open spec fn sni_choice(entries: Seq<SniEntry>, fallback: Option<usize>, name: Option<Seq<u8>>) -> Option<usize>
    decreases entries.len(),
{
    match name {
        None => fallback,
        Some(n) => if entries.len() == 0 {
            fallback
        } else if lower(entries[0].host@) == lower(n) {
            Some(entries[0].certificate)
        } else {
            sni_choice(entries.skip(1), fallback, name)
        },
    }
}

/// The certificate for a TLS handshake: the first entry whose host name
/// equals the requested server name up to ASCII case, else the fallback.
pub fn select_certificate(entries: &Vec<SniEntry>, fallback: Option<usize>, server_name: Option<&[u8]>) -> (r: Option<usize>)
    ensures
        r == sni_choice(
            entries@,
            fallback,
            match server_name {
                Some(n) => Some(n@),
                None => None,
            },
        ),
{
    let ghost nm = match server_name {
        Some(n) => Some(n@),
        None => None::<Seq<u8>>,
    };
    let n = match server_name {
        Some(n) => n,
        None => {
            return fallback;
        },
    };
    let mut i: usize = 0;
    assert(entries@.skip(0) =~= entries@);
    while i < entries.len()
        invariant
            i <= entries@.len(),
            nm == Some(n@),
            server_name == Some(n),
            sni_choice(entries@, fallback, nm) == sni_choice(entries@.skip(i as int), fallback, nm),
        decreases entries@.len() - i,
    {
        let ghost rest = entries@.skip(i as int);
        assert(rest[0] == entries@[i as int]);
        assert(rest.skip(1) =~= entries@.skip(i + 1));
        assert(rest.len() > 0);
        if crate::bytes::eq_ignore_case(entries[i].host.as_slice(), n) {
            assert(sni_choice(rest, fallback, nm) == Some(rest[0].certificate));
            return Some(entries[i].certificate);
        }
        i = i + 1;
    }
    fallback
}

} // verus!
