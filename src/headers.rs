//! Header lists: lookup by case-insensitive name, replacement, and the final
//! touches every outgoing response receives (configured custom headers that
//! are not already present, then the `Server` header).
use vstd::prelude::*;
use crate::bytes::{lower, copy_bytes, eq_ignore_case, to_lower};

verus! {

/// One header line; names compare without regard to ASCII case.
pub struct Header {
    pub name: Vec<u8>,
    pub value: Vec<u8>,
}

impl View for Header {
    type V = (Seq<u8>, Seq<u8>);

    open spec fn view(&self) -> (Seq<u8>, Seq<u8>) {
        (self.name@, self.value@)
    }
}

impl Header {
    pub fn new(name: &[u8], value: &[u8]) -> (r: Header)
        ensures
            r@ == (name@, value@),
    {
        Header { name: copy_bytes(name), value: copy_bytes(value) }
    }

    pub fn copy(&self) -> (r: Header)
        ensures
            r@ == self@,
    {
        Header { name: copy_bytes(self.name.as_slice()), value: copy_bytes(self.value.as_slice()) }
    }
}

pub type HeaderSeq = Seq<(Seq<u8>, Seq<u8>)>;

pub open spec fn headers_view(hs: Seq<Header>) -> HeaderSeq {
    hs.map_values(|h: Header| h@)
}

pub open spec fn same_name(a: Seq<u8>, b: Seq<u8>) -> bool {
    lower(a) == lower(b)
}

pub open spec fn has_name(hs: HeaderSeq, n: Seq<u8>) -> bool {
    exists|i: int| 0 <= i < hs.len() && same_name(#[trigger] hs[i].0, n)
}

/// The value of the first header with name `n`.
pub open spec fn first_value(hs: HeaderSeq, n: Seq<u8>) -> Option<Seq<u8>>
    decreases hs.len(),
{
    if hs.len() == 0 {
        None
    } else if same_name(hs[0].0, n) {
        Some(hs[0].1)
    } else {
        first_value(hs.skip(1), n)
    }
}

/// The list without any header named `n`, order kept.
pub open spec fn without_name(hs: HeaderSeq, n: Seq<u8>) -> HeaderSeq
    decreases hs.len(),
{
    if hs.len() == 0 {
        hs
    } else {
        let rest = without_name(hs.drop_last(), n);
        if same_name(hs.last().0, n) {
            rest
        } else {
            rest.push(hs.last())
        }
    }
}

/// The list with every header named `n` replaced by one header `(n, v)` at the end.
pub open spec fn with_header(hs: HeaderSeq, n: Seq<u8>, v: Seq<u8>) -> HeaderSeq {
    without_name(hs, n).push((n, v))
}

/// A token character, as `http` accepts in a header name.
pub open spec fn is_token_byte(b: u8) -> bool {
    (0x30 <= b && b <= 0x39) || (0x41 <= b && b <= 0x5a) || (0x61 <= b && b <= 0x7a) || b == 0x21
        || (0x23 <= b && b <= 0x27) || b == 0x2a || b == 0x2b || b == 0x2d || b == 0x2e || (0x5e
        <= b && b <= 0x60) || b == 0x7c || b == 0x7e
}

/// The names `http::HeaderName::from_str` accepts.
pub open spec fn valid_name(n: Seq<u8>) -> bool {
    0 < n.len() <= 65535 && forall|i: int| 0 <= i < n.len() ==> is_token_byte(#[trigger] n[i])
}

/// The values `http::HeaderValue::from_str` accepts.
pub open spec fn valid_value(v: Seq<u8>) -> bool {
    forall|i: int| 0 <= i < v.len() ==> (#[trigger] v[i] >= 32 && v[i] != 127) || v[i] == 9
}

/// Adds, in order, each configured header that is well formed and whose name
/// is not present yet; added names are lowercased.
pub open spec fn merge_custom(hs: HeaderSeq, custom: HeaderSeq) -> HeaderSeq
    decreases custom.len(),
{
    if custom.len() == 0 {
        hs
    } else {
        let acc = merge_custom(hs, custom.drop_last());
        let c = custom.last();
        if valid_name(c.0) && valid_value(c.1) && !has_name(acc, c.0) {
            acc.push((lower(c.0), c.1))
        } else {
            acc
        }
    }
}

/// The product token carried by the `Server` header of every response.
pub open spec fn server_token_spec() -> Seq<u8> {
    seq![0x46u8, 0x65, 0x72, 0x72, 0x6f, 0x6e]
}

pub open spec fn server_name() -> Seq<u8> {
    seq![0x73u8, 0x65, 0x72, 0x76, 0x65, 0x72]
}

/// What the response headers become before they leave the server.
pub open spec fn finalized(hs: HeaderSeq, custom: HeaderSeq) -> HeaderSeq {
    with_header(merge_custom(hs, custom), server_name(), server_token_spec())
}

pub fn server_token() -> (r: Vec<u8>)
    ensures
        r@ == server_token_spec(),
{
    let r: Vec<u8> = vec![0x46u8, 0x65, 0x72, 0x72, 0x6f, 0x6e];
    assert(r@ =~= server_token_spec());
    r
}

pub fn server_header_name() -> (r: Vec<u8>)
    ensures
        r@ == server_name(),
{
    let r: Vec<u8> = vec![0x73u8, 0x65, 0x72, 0x76, 0x65, 0x72];
    assert(r@ =~= server_name());
    r
}

pub fn copy_headers(hs: &Vec<Header>) -> (r: Vec<Header>)
    ensures
        headers_view(r@) == headers_view(hs@),
{
    let mut r: Vec<Header> = Vec::new();
    let mut i: usize = 0;
    while i < hs.len()
        invariant
            i <= hs@.len(),
            headers_view(r@) =~= headers_view(hs@.subrange(0, i as int)),
        decreases hs@.len() - i,
    {
        let ghost before = r@;
        let h = hs[i].copy();
        r.push(h);
        assert(r@ == before.push(h));
        assert(headers_view(r@) =~= headers_view(before).push(hs@[i as int]@));
        assert(headers_view(hs@.subrange(0, i + 1)) =~= headers_view(hs@.subrange(0, i as int)).push(
            hs@[i as int]@,
        ));
        i = i + 1;
    }
    assert(hs@.subrange(0, hs@.len() as int) =~= hs@);
    r
}

pub fn has_header(hs: &Vec<Header>, name: &[u8]) -> (r: bool)
    ensures
        r == has_name(headers_view(hs@), name@),
{
    let mut i: usize = 0;
    while i < hs.len()
        invariant
            i <= hs@.len(),
            forall|j: int| 0 <= j < i ==> !same_name(#[trigger] headers_view(hs@)[j].0, name@),
        decreases hs@.len() - i,
    {
        if eq_ignore_case(hs[i].name.as_slice(), name) {
            assert(same_name(headers_view(hs@)[i as int].0, name@));
            return true;
        }
        i = i + 1;
    }
    false
}

proof fn lemma_first_value_skip(hs: HeaderSeq, n: Seq<u8>, i: int)
    requires
        0 <= i <= hs.len(),
        forall|j: int| 0 <= j < i ==> !same_name(#[trigger] hs[j].0, n),
    ensures
        first_value(hs, n) == first_value(hs.skip(i), n),
    decreases i,
{
    if i > 0 {
        lemma_first_value_skip(hs, n, i - 1);
        assert(hs.skip(i - 1).skip(1) =~= hs.skip(i));
        assert(hs.skip(i - 1)[0] == hs[i - 1]);
    } else {
        assert(hs.skip(0) =~= hs);
    }
}

/// The value of the first header named `name`.
pub fn get_header(hs: &Vec<Header>, name: &[u8]) -> (r: Option<Vec<u8>>)
    ensures
        match r {
            Some(v) => first_value(headers_view(hs@), name@) == Some(v@),
            None => first_value(headers_view(hs@), name@).is_none(),
        },
{
    let ghost hv = headers_view(hs@);
    let mut i: usize = 0;
    while i < hs.len()
        invariant
            i <= hs@.len(),
            hv == headers_view(hs@),
            forall|j: int| 0 <= j < i ==> !same_name(#[trigger] hv[j].0, name@),
        decreases hs@.len() - i,
    {
        if eq_ignore_case(hs[i].name.as_slice(), name) {
            proof {
                lemma_first_value_skip(hv, name@, i as int);
                assert(hv.skip(i as int)[0] == hv[i as int]);
            }
            return Some(copy_bytes(hs[i].value.as_slice()));
        }
        i = i + 1;
    }
    proof {
        lemma_first_value_skip(hv, name@, i as int);
    }
    None
}

/// Replaces every header named `name` by one `(name, value)` at the end.
pub fn set_header(hs: &Vec<Header>, name: &[u8], value: &[u8]) -> (r: Vec<Header>)
    ensures
        headers_view(r@) == with_header(headers_view(hs@), name@, value@),
{
    let mut r: Vec<Header> = Vec::new();
    let mut i: usize = 0;
    while i < hs.len()
        invariant
            i <= hs@.len(),
            headers_view(r@) == without_name(headers_view(hs@.subrange(0, i as int)), name@),
        decreases hs@.len() - i,
    {
        let ghost pre = headers_view(hs@.subrange(0, i as int));
        let ghost next = headers_view(hs@.subrange(0, i + 1));
        assert(next.drop_last() =~= pre);
        assert(next.last() == hs@[i as int]@);
        if !eq_ignore_case(hs[i].name.as_slice(), name) {
            r.push(hs[i].copy());
            assert(headers_view(r@) =~= without_name(pre, name@).push(hs@[i as int]@));
        }
        i = i + 1;
    }
    assert(hs@.subrange(0, hs@.len() as int) =~= hs@);
    r.push(Header::new(name, value));
    assert(headers_view(r@) =~= with_header(headers_view(hs@), name@, value@));
    r
}

pub fn is_valid_header_name(n: &[u8]) -> (r: bool)
    ensures
        r == valid_name(n@),
{
    if n.len() == 0 || n.len() > 65535 {
        return false;
    }
    let mut i: usize = 0;
    while i < n.len()
        invariant
            i <= n@.len(),
            forall|j: int| 0 <= j < i ==> is_token_byte(#[trigger] n@[j]),
        decreases n@.len() - i,
    {
        let b = n[i];
        let ok = (0x30 <= b && b <= 0x39) || (0x41 <= b && b <= 0x5a) || (0x61 <= b && b <= 0x7a)
            || b == 0x21 || (0x23 <= b && b <= 0x27) || b == 0x2a || b == 0x2b || b == 0x2d || b
            == 0x2e || (0x5e <= b && b <= 0x60) || b == 0x7c || b == 0x7e;
        if !ok {
            return false;
        }
        i = i + 1;
    }
    true
}

pub fn is_valid_header_value(v: &[u8]) -> (r: bool)
    ensures
        r == valid_value(v@),
{
    let mut i: usize = 0;
    while i < v.len()
        invariant
            i <= v@.len(),
            forall|j: int| 0 <= j < i ==> (#[trigger] v@[j] >= 32 && v@[j] != 127) || v@[j] == 9,
        decreases v@.len() - i,
    {
        let b = v[i];
        if !((b >= 32 && b != 127) || b == 9) {
            return false;
        }
        i = i + 1;
    }
    true
}

/// Adds the configured headers whose names the response does not carry yet.
pub fn add_custom_headers(hs: &Vec<Header>, custom: &Vec<Header>) -> (r: Vec<Header>)
    ensures
        headers_view(r@) == merge_custom(headers_view(hs@), headers_view(custom@)),
{
    let mut r = copy_headers(hs);
    let mut i: usize = 0;
    while i < custom.len()
        invariant
            i <= custom@.len(),
            headers_view(r@) == merge_custom(
                headers_view(hs@),
                headers_view(custom@.subrange(0, i as int)),
            ),
        decreases custom@.len() - i,
    {
        let ghost pre = headers_view(custom@.subrange(0, i as int));
        let ghost next = headers_view(custom@.subrange(0, i + 1));
        assert(next.drop_last() =~= pre);
        assert(next.last() == custom@[i as int]@);
        let c = &custom[i];
        if is_valid_header_name(c.name.as_slice()) && is_valid_header_value(c.value.as_slice())
            && !has_header(&r, c.name.as_slice()) {
            r.push(Header { name: to_lower(c.name.as_slice()), value: copy_bytes(c.value.as_slice()) });
            assert(headers_view(r@) =~= merge_custom(headers_view(hs@), next));
        }
        i = i + 1;
    }
    assert(custom@.subrange(0, custom@.len() as int) =~= custom@);
    r
}

/// The headers a response leaves with: the configured custom headers that are
/// not present yet, then `Server` set to the product token.
pub fn finalize_headers(hs: &Vec<Header>, custom: &Vec<Header>) -> (r: Vec<Header>)
    ensures
        headers_view(r@) == finalized(headers_view(hs@), headers_view(custom@)),
{
    let merged = add_custom_headers(hs, custom);
    let name = server_header_name();
    let token = server_token();
    set_header(&merged, name.as_slice(), token.as_slice())
}

/// The values of the headers named `n`, in order.
pub open spec fn values_named(hs: HeaderSeq, n: Seq<u8>) -> Seq<Seq<u8>>
    decreases hs.len(),
{
    if hs.len() == 0 {
        Seq::empty()
    } else {
        let rest = values_named(hs.drop_last(), n);
        if same_name(hs.last().0, n) {
            rest.push(hs.last().1)
        } else {
            rest
        }
    }
}

/// A configured header takes part when both its name and value are well formed.
pub open spec fn usable(c: (Seq<u8>, Seq<u8>)) -> bool {
    valid_name(c.0) && valid_value(c.1)
}

proof fn lemma_lower_idem(s: Seq<u8>)
    ensures
        lower(lower(s)) == lower(s),
{
    assert(lower(lower(s)) =~= lower(s));
}

proof fn lemma_has_name_push(hs: HeaderSeq, x: (Seq<u8>, Seq<u8>), n: Seq<u8>)
    ensures
        has_name(hs.push(x), n) == (has_name(hs, n) || same_name(x.0, n)),
{
    if has_name(hs, n) {
        let i = choose|i: int| 0 <= i < hs.len() && same_name(#[trigger] hs[i].0, n);
        assert(hs.push(x)[i] == hs[i]);
    }
    if same_name(x.0, n) {
        assert(hs.push(x)[hs.len() as int] == x);
    }
    if has_name(hs.push(x), n) {
        let i = choose|i: int| 0 <= i < hs.len() + 1 && same_name(#[trigger] hs.push(x)[i].0, n);
        if i < hs.len() {
            assert(hs.push(x)[i] == hs[i]);
        }
    }
}

pub(crate) proof fn lemma_values_named_absent(hs: HeaderSeq, n: Seq<u8>)
    requires
        !has_name(hs, n),
    ensures
        values_named(hs, n) == Seq::<Seq<u8>>::empty(),
    decreases hs.len(),
{
    if hs.len() > 0 {
        lemma_has_name_push(hs.drop_last(), hs.last(), n);
        assert(hs.drop_last().push(hs.last()) =~= hs);
        lemma_values_named_absent(hs.drop_last(), n);
    }
}

/// Which names the merge leaves present.
proof fn lemma_merge_names(hs: HeaderSeq, cu: HeaderSeq, n: Seq<u8>)
    ensures
        has_name(merge_custom(hs, cu), n) == (has_name(hs, n) || exists|i: int|
            0 <= i < cu.len() && usable(#[trigger] cu[i]) && same_name(cu[i].0, n)),
    decreases cu.len(),
{
    if cu.len() > 0 {
        let pre = cu.drop_last();
        let c = cu.last();
        let acc = merge_custom(hs, pre);
        lemma_merge_names(hs, pre, n);
        lemma_lower_idem(c.0);
        if usable(c) && !has_name(acc, c.0) {
            lemma_has_name_push(acc, (lower(c.0), c.1), n);
        }
        if usable(c) && has_name(acc, c.0) && same_name(c.0, n) {
            let k = choose|k: int| 0 <= k < acc.len() && same_name(#[trigger] acc[k].0, c.0);
            assert(same_name(acc[k].0, n));
        }
        if exists|i: int| 0 <= i < cu.len() && usable(#[trigger] cu[i]) && same_name(cu[i].0, n) {
            let i = choose|i: int| 0 <= i < cu.len() && usable(#[trigger] cu[i]) && same_name(cu[i].0, n);
            if i < pre.len() {
                assert(pre[i] == cu[i]);
            }
        }
        if exists|i: int| 0 <= i < pre.len() && usable(#[trigger] pre[i]) && same_name(pre[i].0, n) {
            let i = choose|i: int| 0 <= i < pre.len() && usable(#[trigger] pre[i]) && same_name(pre[i].0, n);
            assert(cu[i] == pre[i]);
        }
    }
}

/// Once a name is present, the merge leaves its values alone.
proof fn lemma_merge_keeps_values(hs: HeaderSeq, cu: HeaderSeq, n: Seq<u8>)
    requires
        has_name(hs, n),
    ensures
        values_named(merge_custom(hs, cu), n) == values_named(hs, n),
    decreases cu.len(),
{
    if cu.len() > 0 {
        let pre = cu.drop_last();
        let c = cu.last();
        let acc = merge_custom(hs, pre);
        lemma_merge_keeps_values(hs, pre, n);
        lemma_merge_names(hs, pre, n);
        if usable(c) && !has_name(acc, c.0) {
            lemma_lower_idem(c.0);
            let k = choose|k: int| 0 <= k < acc.len() && same_name(#[trigger] acc[k].0, n);
            assert(!same_name(lower(c.0), n));
            assert(acc.push((lower(c.0), c.1)).drop_last() =~= acc);
        }
    }
}

proof fn lemma_merge_append(hs: HeaderSeq, a: HeaderSeq, b: HeaderSeq)
    ensures
        merge_custom(hs, a + b) == merge_custom(merge_custom(hs, a), b),
    decreases b.len(),
{
    if b.len() == 0 {
        assert(a + b =~= a);
    } else {
        lemma_merge_append(hs, a, b.drop_last());
        assert((a + b).drop_last() =~= a + b.drop_last());
        assert((a + b).last() == b.last());
    }
}

proof fn lemma_values_named_without(hs: HeaderSeq, s: Seq<u8>, n: Seq<u8>)
    requires
        !same_name(n, s),
    ensures
        values_named(without_name(hs, s), n) == values_named(hs, n),
    decreases hs.len(),
{
    if hs.len() > 0 {
        lemma_values_named_without(hs.drop_last(), s, n);
        let rest = without_name(hs.drop_last(), s);
        if !same_name(hs.last().0, s) {
            assert(rest.push(hs.last()).drop_last() =~= rest);
        }
    }
}

pub(crate) proof fn lemma_without_name_absent(hs: HeaderSeq, n: Seq<u8>)
    ensures
        !has_name(without_name(hs, n), n),
    decreases hs.len(),
{
    if hs.len() > 0 {
        lemma_without_name_absent(hs.drop_last(), n);
        let rest = without_name(hs.drop_last(), n);
        if !same_name(hs.last().0, n) {
            lemma_has_name_push(rest, hs.last(), n);
        }
    }
}

/// Every response leaves with exactly one `Server` header, carrying the
/// product token, whatever headers the handlers and the configuration gave it.
pub proof fn lemma_server_header(hs: HeaderSeq, custom: HeaderSeq)
    ensures
        values_named(finalized(hs, custom), server_name()) == seq![server_token_spec()],
{
    let w = without_name(merge_custom(hs, custom), server_name());
    lemma_without_name_absent(merge_custom(hs, custom), server_name());
    lemma_values_named_absent(w, server_name());
    assert(w.push((server_name(), server_token_spec())).drop_last() =~= w);
    assert(values_named(finalized(hs, custom), server_name()) =~= seq![server_token_spec()]);
}

/// A header the handlers already set keeps exactly the values they gave it.
pub proof fn lemma_custom_headers_keep_existing(hs: HeaderSeq, custom: HeaderSeq, n: Seq<u8>)
    requires
        has_name(hs, n),
        !same_name(n, server_name()),
    ensures
        values_named(finalized(hs, custom), n) == values_named(hs, n),
{
    let m = merge_custom(hs, custom);
    lemma_merge_keeps_values(hs, custom, n);
    lemma_values_named_without(m, server_name(), n);
    let w = without_name(m, server_name());
    assert(w.push((server_name(), server_token_spec())).drop_last() =~= w);
}

/// A configured header `k: v` whose name the handlers did not set appears in
/// the response exactly once, with value `v` (the first usable entry of a
/// name is the one that counts).
pub proof fn lemma_custom_headers_added(hs: HeaderSeq, custom: HeaderSeq, j: int)
    requires
        0 <= j < custom.len(),
        usable(custom[j]),
        !has_name(hs, custom[j].0),
        !same_name(custom[j].0, server_name()),
        forall|i: int| 0 <= i < j && usable(#[trigger] custom[i]) ==> !same_name(custom[i].0, custom[j].0),
    ensures
        values_named(finalized(hs, custom), custom[j].0) == seq![custom[j].1],
{
    let c = custom[j];
    let a = custom.subrange(0, j);
    let b = custom.subrange(j + 1, custom.len() as int);
    let acc = merge_custom(hs, a);
    lemma_merge_names(hs, a, c.0);
    if exists|i: int| 0 <= i < a.len() && usable(#[trigger] a[i]) && same_name(a[i].0, c.0) {
        let i = choose|i: int| 0 <= i < a.len() && usable(#[trigger] a[i]) && same_name(a[i].0, c.0);
        assert(a[i] == custom[i]);
    }
    assert(!has_name(acc, c.0));
    let a1 = custom.subrange(0, j + 1);
    assert(a1.drop_last() =~= a);
    assert(a1.last() == c);
    let acc1 = merge_custom(hs, a1);
    assert(acc1 == acc.push((lower(c.0), c.1)));
    lemma_lower_idem(c.0);
    lemma_values_named_absent(acc, c.0);
    assert(acc.push((lower(c.0), c.1)).drop_last() =~= acc);
    assert(values_named(acc1, c.0) =~= seq![c.1]);
    lemma_has_name_push(acc, (lower(c.0), c.1), c.0);
    lemma_merge_keeps_values(acc1, b, c.0);
    lemma_merge_append(hs, a1, b);
    assert(a1 + b =~= custom);
    let m = merge_custom(hs, custom);
    lemma_values_named_without(m, server_name(), c.0);
    let w = without_name(m, server_name());
    assert(w.push((server_name(), server_token_spec())).drop_last() =~= w);
}

proof fn lemma_first_value_push(a: HeaderSeq, x: (Seq<u8>, Seq<u8>), n: Seq<u8>)
    ensures
        first_value(a.push(x), n) == match first_value(a, n) {
            Some(v) => Some(v),
            None => if same_name(x.0, n) { Some(x.1) } else { None },
        },
    decreases a.len(),
{
    if a.len() == 0 {
        assert(a.push(x)[0] == x);
        assert(a.push(x).skip(1) =~= Seq::<(Seq<u8>, Seq<u8>)>::empty());
        assert(first_value(Seq::<(Seq<u8>, Seq<u8>)>::empty(), n).is_none());
    } else {
        assert(a.push(x)[0] == a[0]);
        assert(a.push(x).skip(1) =~= a.skip(1).push(x));
        lemma_first_value_push(a.skip(1), x, n);
    }
}

/// The first value of a name is the first of its values in order.
pub(crate) proof fn lemma_first_value_values(hs: HeaderSeq, n: Seq<u8>)
    ensures
        first_value(hs, n) == if values_named(hs, n).len() > 0 {
            Some(values_named(hs, n)[0])
        } else {
            None
        },
    decreases hs.len(),
{
    if hs.len() > 0 {
        let t = hs.drop_last();
        lemma_first_value_values(t, n);
        lemma_first_value_push(t, hs.last(), n);
        assert(t.push(hs.last()) =~= hs);
        let vt = values_named(t, n);
        if same_name(hs.last().0, n) && vt.len() > 0 {
            assert(vt.push(hs.last().1)[0] == vt[0]);
        }
    }
}

} // verus!
