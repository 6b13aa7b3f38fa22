//! Synthesized error responses: the built-in HTML page, the choice among the
//! configured error-page files, and the headers such a response carries.
use vstd::prelude::*;
use vstd::string::StringSliceAdditionalSpecFns;
use crate::bytes::{append_bytes, copy_bytes, decimal, push_decimal};
use crate::bytes::eq_ignore_case;
use crate::headers::{Header, HeaderSeq, headers_view, without_name};

verus! {

/// The standard reason phrase of a status code, as `http` knows it.
pub uninterp spec fn reason_phrase_of(code: u16) -> Option<Seq<u8>>;

/// Relies on `http::StatusCode::canonical_reason` (re-exported by hyper): the
/// registered reason phrase of a status code, which depends on the code alone.
/// `StatusCode::from_u16` accepts exactly the codes from 100 to 999.
#[verifier::external_body]
fn canonical_reason(code: u16) -> (r: Option<Vec<u8>>)
    requires
        100 <= code <= 999,
    ensures
        match r {
            Some(v) => reason_phrase_of(code) == Some(v@),
            None => reason_phrase_of(code).is_none(),
        },
{
    match hyper::StatusCode::from_u16(code) {
        Ok(status) => status.canonical_reason().map(|p| p.as_bytes().to_vec()),
        Err(_) => None,
    }
}

/// A configured error page: a status code and the file that answers it.
pub struct ErrorPage {
    pub scode: i64,
    pub path: Vec<u8>,
}

pub open spec fn page_paths_for(code: u16, pages: Seq<ErrorPage>) -> Seq<Seq<u8>>
    decreases pages.len(),
{
    if pages.len() == 0 {
        Seq::empty()
    } else {
        let rest = page_paths_for(code, pages.drop_last());
        if pages.last().scode == code as i64 {
            rest.push(pages.last().path@)
        } else {
            rest
        }
    }
}

/// The files configured for `code`, in the order they are to be tried.
pub fn error_page_candidates(code: u16, pages: &Vec<ErrorPage>) -> (r: Vec<Vec<u8>>)
    ensures
        r@.map_values(|p: Vec<u8>| p@) == page_paths_for(code, pages@),
{
    let mut r: Vec<Vec<u8>> = Vec::new();
    let mut i: usize = 0;
    while i < pages.len()
        invariant
            i <= pages@.len(),
            r@.map_values(|p: Vec<u8>| p@) == page_paths_for(code, pages@.subrange(0, i as int)),
        decreases pages@.len() - i,
    {
        let ghost before = r@;
        assert(pages@.subrange(0, i + 1).drop_last() =~= pages@.subrange(0, i as int));
        if pages[i].scode == code as i64 {
            let p = copy_bytes(pages[i].path.as_slice());
            r.push(p);
            assert(r@.map_values(|p: Vec<u8>| p@) =~= before.map_values(|p: Vec<u8>| p@).push(
                pages@[i as int].path@,
            ));
        }
        i = i + 1;
    }
    assert(pages@.subrange(0, pages@.len() as int) =~= pages@);
    r
}

/// The status line shown in the built-in page, such as `404 Not Found`.
pub open spec fn status_label(code: u16) -> Seq<u8> {
    match reason_phrase_of(code) {
        Some(p) => decimal(code as nat) + " ".spec_bytes() + p,
        None => decimal(code as nat),
    }
}

/// The built-in error page.
pub open spec fn default_page(code: u16, admin_email: Option<Seq<u8>>) -> Seq<u8> {
    "<!DOCTYPE html><html><head><title>".spec_bytes() + status_label(code)
        + "</title></head><body><h1>".spec_bytes() + status_label(code) + "</h1>".spec_bytes()
        + match admin_email {
        Some(e) => "<p>Contact the server administrator at ".spec_bytes() + e + ".</p>".spec_bytes(),
        None => Seq::empty(),
    } + "</body></html>".spec_bytes()
}

fn push_status_label(out: &mut Vec<u8>, code: u16)
    requires
        100 <= code <= 999,
    ensures
        final(out)@ == old(out)@ + status_label(code),
{
    push_decimal(out, code as u64);
    match canonical_reason(code) {
        Some(p) => {
            append_bytes(out, " ".as_bytes());
            append_bytes(out, p.as_slice());
        },
        None => {},
    }
}

/// Renders the built-in error page for a status code.
pub fn default_error_page(code: u16, admin_email: Option<&[u8]>) -> (r: Vec<u8>)
    requires
        100 <= code <= 999,
    ensures
        r@ == default_page(
            code,
            match admin_email {
                Some(e) => Some(e@),
                None => None,
            },
        ),
{
    let mut out: Vec<u8> = Vec::new();
    append_bytes(&mut out, "<!DOCTYPE html><html><head><title>".as_bytes());
    push_status_label(&mut out, code);
    append_bytes(&mut out, "</title></head><body><h1>".as_bytes());
    push_status_label(&mut out, code);
    append_bytes(&mut out, "</h1>".as_bytes());
    let ghost before = out@;
    match admin_email {
        Some(e) => {
            append_bytes(&mut out, "<p>Contact the server administrator at ".as_bytes());
            append_bytes(&mut out, e);
            append_bytes(&mut out, ".</p>".as_bytes());
        },
        None => {},
    }
    append_bytes(&mut out, "</body></html>".as_bytes());
    let ghost e = match admin_email {
        Some(e) => Some(e@),
        None => None,
    };
    assert(out@ =~= default_page(code, e));
    out
}

pub open spec fn content_type_name() -> Seq<u8> {
    "content-type".spec_bytes()
}

pub open spec fn content_length_name() -> Seq<u8> {
    "content-length".spec_bytes()
}

/// The body of a synthesized response: the built-in page, or a configured
/// file that opened, with its length on disk.
pub enum ErrorBody {
    Page(Vec<u8>),
    File { path: Vec<u8>, len: u64 },
}

pub struct ErrorResponse {
    pub status: u16,
    pub headers: Vec<Header>,
    pub body: ErrorBody,
}

/// The extra headers without `Content-Type` and `Content-Length`, then
/// `Content-Length` and `Content-Type: text/html`.
pub open spec fn error_headers(extra: HeaderSeq, len: nat) -> HeaderSeq {
    without_name(without_name(extra, content_type_name()), content_length_name()).push(
        (content_length_name(), decimal(len)),
    ).push((content_type_name(), "text/html".spec_bytes()))
}

fn strip_header(hs: &Vec<Header>, name: &[u8]) -> (r: Vec<Header>)
    ensures
        headers_view(r@) == without_name(headers_view(hs@), name@),
{
    let mut r: Vec<Header> = Vec::new();
    let mut i: usize = 0;
    while i < hs.len()
        invariant
            i <= hs@.len(),
            headers_view(r@) == without_name(headers_view(hs@.subrange(0, i as int)), name@),
        decreases hs@.len() - i,
    {
        let ghost pre = headers_view(hs@.subrange(0, i as int));
        let ghost next = headers_view(hs@.subrange(0, i + 1));
        assert(next.drop_last() =~= pre);
        assert(next.last() == hs@[i as int]@);
        if !eq_ignore_case(hs[i].name.as_slice(), name) {
            r.push(hs[i].copy());
            assert(headers_view(r@) =~= without_name(pre, name@).push(hs@[i as int]@));
        }
        i = i + 1;
    }
    assert(hs@.subrange(0, hs@.len() as int) =~= hs@);
    r
}

/// Builds the response for an error status. `file` is the first configured
/// error page for `code` that could be opened, with its length; without one
/// the built-in page is the body.
pub fn error_response(
    code: u16,
    admin_email: Option<&[u8]>,
    extra: &Vec<Header>,
    file: Option<(Vec<u8>, u64)>,
) -> (r: ErrorResponse)
    requires
        100 <= code <= 999,
    ensures
        r.status == code,
        match file {
            Some(f) => r.body == (ErrorBody::File { path: f.0, len: f.1 })
                && headers_view(r.headers@) == error_headers(headers_view(extra@), f.1 as nat),
            None => exists|page: Vec<u8>|
                #![auto]
                r.body == ErrorBody::Page(page) && page@ == default_page(
                    code,
                    match admin_email {
                        Some(e) => Some(e@),
                        None => None,
                    },
                ) && headers_view(r.headers@) == error_headers(
                    headers_view(extra@),
                    page@.len(),
                ),
        },
{
    let a = strip_header(extra, "content-type".as_bytes());
    let mut hs = strip_header(&a, "content-length".as_bytes());
    let (body, len) = match file {
        Some(f) => {
            let len = f.1;
            (ErrorBody::File { path: f.0, len: f.1 }, len)
        },
        None => {
            let page = default_error_page(code, admin_email);
            let len = page.len() as u64;
            (ErrorBody::Page(page), len)
        },
    };
    let mut cl: Vec<u8> = Vec::new();
    push_decimal(&mut cl, len);
    hs.push(Header { name: copy_bytes("content-length".as_bytes()), value: cl });
    hs.push(Header::new("content-type".as_bytes(), "text/html".as_bytes()));
    assert(headers_view(hs@) =~= error_headers(headers_view(extra@), len as nat));
    ErrorResponse { status: code, headers: hs, body }
}

/// The response for a request rejected before any configuration applies:
/// the built-in page without an administrator address, `Content-Type:
/// text/html` and no `Content-Length`.
pub fn bare_error_response(code: u16) -> (r: ErrorResponse)
    requires
        100 <= code <= 999,
    ensures
        r.status == code,
        headers_view(r.headers@) == seq![(content_type_name(), "text/html".spec_bytes())],
        exists|page: Vec<u8>| #![auto] r.body == ErrorBody::Page(page) && page@ == default_page(code, None),
{
    let page = default_error_page(code, None);
    let mut hs: Vec<Header> = Vec::new();
    hs.push(Header::new("content-type".as_bytes(), "text/html".as_bytes()));
    assert(headers_view(hs@) =~= seq![(content_type_name(), "text/html".spec_bytes())]);
    ErrorResponse { status: code, headers: hs, body: ErrorBody::Page(page) }
}

} // verus!
