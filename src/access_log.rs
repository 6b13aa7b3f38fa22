//! Log records: the NCSA combined access-log line, the content length it
//! reports, and the timestamped error-log line.
use vstd::prelude::*;
use vstd::string::StringSliceAdditionalSpecFns;
use crate::bytes::{append_bytes, decimal, parse_u64, parse_u64_spec, push_decimal};
use crate::headers::{Header, HeaderSeq, first_value, get_header, headers_view};

verus! {

/// The protocol versions a request can carry.
#[derive(Clone, Copy, PartialEq, Eq, Structural)]
pub enum HttpVersion {
    Http09,
    Http10,
    Http11,
    Http2,
    Http3,
}

pub open spec fn version_label(v: HttpVersion) -> Seq<u8> {
    match v {
        HttpVersion::Http09 => "HTTP/0.9".spec_bytes(),
        HttpVersion::Http10 => "HTTP/1.0".spec_bytes(),
        HttpVersion::Http11 => "HTTP/1.1".spec_bytes(),
        HttpVersion::Http2 => "HTTP/2.0".spec_bytes(),
        HttpVersion::Http3 => "HTTP/3.0".spec_bytes(),
    }
}

pub fn protocol_label(v: HttpVersion) -> (r: Vec<u8>)
    ensures
        r@ == version_label(v),
{
    let mut r: Vec<u8> = Vec::new();
    match v {
        HttpVersion::Http09 => append_bytes(&mut r, "HTTP/0.9".as_bytes()),
        HttpVersion::Http10 => append_bytes(&mut r, "HTTP/1.0".as_bytes()),
        HttpVersion::Http11 => append_bytes(&mut r, "HTTP/1.1".as_bytes()),
        HttpVersion::Http2 => append_bytes(&mut r, "HTTP/2.0".as_bytes()),
        HttpVersion::Http3 => append_bytes(&mut r, "HTTP/3.0".as_bytes()),
    }
    r
}

/// The content length the access log reports: the `Content-Length` header
/// when it parses as a number, else the body's exact size when known.
pub open spec fn logged_length(hs: HeaderSeq, body_hint: Option<u64>) -> Option<u64> {
    match first_value(hs, "content-length".spec_bytes()) {
        Some(v) => match parse_u64_spec(v) {
            Some(n) => Some(n),
            None => body_hint,
        },
        None => body_hint,
    }
}

pub fn content_length_for_log(hs: &Vec<Header>, body_hint: Option<u64>) -> (r: Option<u64>)
    ensures
        r == logged_length(headers_view(hs@), body_hint),
{
    match get_header(hs, "content-length".as_bytes()) {
        Some(v) => match parse_u64(v.as_slice()) {
            Some(n) => Some(n),
            None => body_hint,
        },
        None => body_hint,
    }
}

pub open spec fn escape_byte(b: u8) -> Seq<u8> {
    if b == 0x5c || b == 0x22 {
        seq![0x5cu8, b]
    } else {
        seq![b]
    }
}

/// Backslashes and double quotes get a backslash in front.
pub open spec fn escaped(s: Seq<u8>) -> Seq<u8>
    decreases s.len(),
{
    if s.len() == 0 {
        Seq::empty()
    } else {
        escaped(s.drop_last()) + escape_byte(s.last())
    }
}

fn push_escaped(out: &mut Vec<u8>, s: &[u8])
    ensures
        final(out)@ == old(out)@ + escaped(s@),
{
    let ghost start = out@;
    let mut i: usize = 0;
    while i < s.len()
        invariant
            i <= s@.len(),
            out@ == start + escaped(s@.subrange(0, i as int)),
        decreases s@.len() - i,
    {
        let b = s[i];
        assert(s@.subrange(0, i + 1).drop_last() =~= s@.subrange(0, i as int));
        if b == 0x5c || b == 0x22 {
            out.push(0x5c);
        }
        out.push(b);
        i = i + 1;
        assert(out@ =~= start + escaped(s@.subrange(0, i as int)));
    }
    assert(s@.subrange(0, s@.len() as int) =~= s@);
}

/// One access-log record: what the combined format shows of a request and
/// of the response it got.
pub struct AccessRecord {
    pub client_ip: Vec<u8>,
    pub auth_user: Option<Vec<u8>>,
    pub time: Vec<u8>,
    pub method: Vec<u8>,
    pub request_path: Vec<u8>,
    pub protocol: HttpVersion,
    pub status: u16,
    pub content_length: Option<u64>,
    pub referrer: Option<Vec<u8>>,
    pub user_agent: Option<Vec<u8>>,
}

pub open spec fn dash() -> Seq<u8> {
    seq![0x2du8]
}

pub open spec fn or_dash(v: Option<Vec<u8>>) -> Seq<u8> {
    match v {
        Some(s) => s@,
        None => dash(),
    }
}

pub open spec fn quoted_or_dash(v: Option<Vec<u8>>) -> Seq<u8> {
    match v {
        Some(s) => "\"".spec_bytes() + escaped(s@) + "\"".spec_bytes(),
        None => dash(),
    }
}

pub open spec fn length_field(n: Option<u64>) -> Seq<u8> {
    match n {
        Some(n) => decimal(n as nat),
        None => dash(),
    }
}

/// `%h - %u [%t] "%m %U %H" %>s %b "%{Referer}" "%{User-Agent}"`, absent values as `-`.
pub open spec fn combined_line(r: AccessRecord) -> Seq<u8> {
    r.client_ip@ + " - ".spec_bytes() + or_dash(r.auth_user) + " [".spec_bytes() + r.time@
        + "] \"".spec_bytes() + r.method@ + " ".spec_bytes() + r.request_path@ + " ".spec_bytes()
        + version_label(r.protocol) + "\" ".spec_bytes() + decimal(r.status as nat)
        + " ".spec_bytes() + length_field(r.content_length) + " ".spec_bytes() + quoted_or_dash(
        r.referrer,
    ) + " ".spec_bytes() + quoted_or_dash(r.user_agent)
}

fn push_or_dash(out: &mut Vec<u8>, v: &Option<Vec<u8>>)
    ensures
        final(out)@ == old(out)@ + or_dash(*v),
{
    match v {
        Some(s) => append_bytes(out, s.as_slice()),
        None => {
            out.push(0x2d);
            assert(final(out)@ =~= old(out)@ + dash());
        },
    }
}

fn push_quoted_or_dash(out: &mut Vec<u8>, v: &Option<Vec<u8>>)
    ensures
        final(out)@ == old(out)@ + quoted_or_dash(*v),
{
    match v {
        Some(s) => {
            append_bytes(out, "\"".as_bytes());
            push_escaped(out, s.as_slice());
            append_bytes(out, "\"".as_bytes());
            assert(final(out)@ =~= old(out)@ + quoted_or_dash(*v));
        },
        None => {
            out.push(0x2d);
            assert(final(out)@ =~= old(out)@ + dash());
        },
    }
}

/// Renders an access-log record in the combined format (without the newline).
pub fn format_combined(r: &AccessRecord) -> (line: Vec<u8>)
    ensures
        line@ == combined_line(*r),
{
    let mut out: Vec<u8> = Vec::new();
    append_bytes(&mut out, r.client_ip.as_slice());
    append_bytes(&mut out, " - ".as_bytes());
    push_or_dash(&mut out, &r.auth_user);
    append_bytes(&mut out, " [".as_bytes());
    append_bytes(&mut out, r.time.as_slice());
    append_bytes(&mut out, "] \"".as_bytes());
    append_bytes(&mut out, r.method.as_slice());
    append_bytes(&mut out, " ".as_bytes());
    append_bytes(&mut out, r.request_path.as_slice());
    append_bytes(&mut out, " ".as_bytes());
    let p = protocol_label(r.protocol);
    append_bytes(&mut out, p.as_slice());
    append_bytes(&mut out, "\" ".as_bytes());
    push_decimal(&mut out, r.status as u64);
    append_bytes(&mut out, " ".as_bytes());
    match r.content_length {
        Some(n) => push_decimal(&mut out, n),
        None => {
            out.push(0x2d);
        },
    }
    append_bytes(&mut out, " ".as_bytes());
    push_quoted_or_dash(&mut out, &r.referrer);
    append_bytes(&mut out, " ".as_bytes());
    push_quoted_or_dash(&mut out, &r.user_agent);
    assert(out@ =~= combined_line(*r));
    out
}

/// The request-path field: the whole URI for proxy requests, else the path
/// and, when there is one, `?` and the query.
pub open spec fn logged_path(is_proxy: bool, uri: Seq<u8>, path: Seq<u8>, query: Option<Seq<u8>>) -> Seq<u8> {
    if is_proxy {
        uri
    } else {
        match query {
            Some(q) => path + seq![0x3fu8] + q,
            None => path,
        }
    }
}

pub fn log_request_path(is_proxy: bool, uri: &[u8], path: &[u8], query: Option<&[u8]>) -> (r: Vec<u8>)
    ensures
        r@ == logged_path(
            is_proxy,
            uri@,
            path@,
            match query {
                Some(q) => Some(q@),
                None => None,
            },
        ),
{
    let mut out: Vec<u8> = Vec::new();
    if is_proxy {
        append_bytes(&mut out, uri);
    } else {
        append_bytes(&mut out, path);
        match query {
            Some(q) => {
                out.push(0x3f);
                append_bytes(&mut out, q);
            },
            None => {},
        }
    }
    assert(out@ =~= logged_path(
        is_proxy,
        uri@,
        path@,
        match query {
            Some(q) => Some(q@),
            None => None,
        },
    ));
    out
}

/// An error-log line: `[time]: message`.
pub open spec fn error_line(time: Seq<u8>, message: Seq<u8>) -> Seq<u8> {
    "[".spec_bytes() + time + "]: ".spec_bytes() + message
}

pub fn format_error_line(time: &[u8], message: &[u8]) -> (r: Vec<u8>)
    ensures
        r@ == error_line(time@, message@),
{
    let mut out: Vec<u8> = Vec::new();
    append_bytes(&mut out, "[".as_bytes());
    append_bytes(&mut out, time);
    append_bytes(&mut out, "]: ".as_bytes());
    append_bytes(&mut out, message);
    assert(out@ =~= error_line(time@, message@));
    out
}

/// A record as the log sink writes it: error records get the time prefix,
/// access records stay as they are; each ends with a newline.
pub open spec fn sink_record(is_error: bool, time: Seq<u8>, message: Seq<u8>) -> Seq<u8> {
    if is_error {
        error_line(time, message).push(0x0a)
    } else {
        message.push(0x0a)
    }
}

pub fn format_sink_record(is_error: bool, time: &[u8], message: &[u8]) -> (r: Vec<u8>)
    ensures
        r@ == sink_record(is_error, time@, message@),
{
    let mut out: Vec<u8> = if is_error {
        format_error_line(time, message)
    } else {
        let mut o: Vec<u8> = Vec::new();
        append_bytes(&mut o, message);
        o
    };
    out.push(0x0a);
    out
}

} // verus!
