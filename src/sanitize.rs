//! The URL sanitizer: turns a request path into its canonical form, or
//! rejects it.
use vstd::prelude::*;

verus! {

pub open spec fn is_hex(b: u8) -> bool {
    (0x30 <= b && b <= 0x39) || (0x41 <= b && b <= 0x46) || (0x61 <= b && b <= 0x66)
}

pub open spec fn hex_val(b: u8) -> u8 {
    if 0x30 <= b && b <= 0x39 {
        (b - 0x30) as u8
    } else if 0x41 <= b && b <= 0x46 {
        (b - 0x37) as u8
    } else {
        (b - 0x57) as u8
    }
}

pub open spec fn pair_val(h: u8, l: u8) -> u8 {
    (hex_val(h) * 16 + hex_val(l)) as u8
}

pub open spec fn is_control(b: u8) -> bool {
    b < 0x20 || b == 0x7f
}

/// Octets that mean the same encoded or not inside a path: unreserved
/// characters, sub-delimiters, `:`, `@` and `/`.
pub open spec fn is_safe(b: u8) -> bool {
    (0x30 <= b && b <= 0x39) || (0x41 <= b && b <= 0x5a) || (0x61 <= b && b <= 0x7a) || b == 0x2d
        || b == 0x2e || b == 0x5f || b == 0x7e || b == 0x21 || b == 0x24 || (0x26 <= b && b <= 0x2c)
        || b == 0x3b || b == 0x3d || b == 0x3a || b == 0x40 || b == 0x2f
}

/// Percent-decoding of the safe octets. An escape of any other octet is kept
/// as written; a malformed escape or a control octet, encoded or not, fails.
pub open spec fn decode(s: Seq<u8>) -> Option<Seq<u8>>
    decreases s.len(),
{
    if s.len() == 0 {
        Some(s)
    } else if s[0] == 0x25 {
        if s.len() >= 3 && is_hex(s[1]) && is_hex(s[2]) {
            let v = pair_val(s[1], s[2]);
            if is_control(v) {
                None
            } else {
                match decode(s.skip(3)) {
                    Some(r) => if is_safe(v) { Some(seq![v] + r) } else { Some(s.take(3) + r) },
                    None => None,
                }
            }
        } else {
            None
        }
    } else if is_control(s[0]) {
        None
    } else {
        match decode(s.skip(1)) {
            Some(r) => Some(seq![s[0]] + r),
            None => None,
        }
    }
}

/// Splitting on `/`: the finished parts and the part under way.
pub open spec fn split_state(s: Seq<u8>) -> (Seq<Seq<u8>>, Seq<u8>)
    decreases s.len(),
{
    if s.len() == 0 {
        (Seq::empty(), Seq::empty())
    } else {
        let (done, cur) = split_state(s.drop_last());
        if s.last() == 0x2f {
            (done.push(cur), Seq::empty())
        } else {
            (done, cur.push(s.last()))
        }
    }
}

/// The parts of `s` between slashes.
pub open spec fn parts(s: Seq<u8>) -> Seq<Seq<u8>> {
    split_state(s).0.push(split_state(s).1)
}

/// The path segments: the parts, without the empty one before a leading slash.
pub open spec fn segments(d: Seq<u8>) -> Seq<Seq<u8>> {
    if d.len() > 0 && d[0] == 0x2f {
        parts(d).skip(1)
    } else {
        parts(d)
    }
}

pub open spec fn dot() -> Seq<u8> {
    seq![0x2eu8]
}

pub open spec fn dot_dot() -> Seq<u8> {
    seq![0x2eu8, 0x2e]
}

/// One segment applied to the stack of kept segments: `.` is dropped, `..`
/// removes the last kept segment (and fails at the root), an empty segment
/// is kept only where double slashes are allowed or it is the last one.
pub open spec fn step(st: Seq<Seq<u8>>, seg: Seq<u8>, last: bool, allow: bool) -> Option<Seq<Seq<u8>>> {
    if seg == dot() {
        Some(st)
    } else if seg == dot_dot() {
        if st.len() == 0 {
            None
        } else {
            Some(st.drop_last())
        }
    } else if seg.len() == 0 && !(allow || last) {
        Some(st)
    } else {
        Some(st.push(seg))
    }
}

/// The stack after the first `n` segments.
pub open spec fn resolve_upto(segs: Seq<Seq<u8>>, n: int, allow: bool) -> Option<Seq<Seq<u8>>>
    decreases n,
{
    if n <= 0 {
        Some(Seq::empty())
    } else {
        match resolve_upto(segs, n - 1, allow) {
            Some(st) => step(st, segs[n - 1], n == segs.len(), allow),
            None => None,
        }
    }
}

/// `/` before each segment.
pub open spec fn prefixed(st: Seq<Seq<u8>>) -> Seq<u8>
    decreases st.len(),
{
    if st.len() == 0 {
        Seq::empty()
    } else {
        prefixed(st.drop_last()).push(0x2f) + st.last()
    }
}

pub open spec fn rejoin(st: Seq<Seq<u8>>) -> Seq<u8> {
    if st.len() == 0 {
        seq![0x2fu8]
    } else {
        prefixed(st)
    }
}

pub open spec fn asterisk() -> Seq<u8> {
    seq![0x2au8]
}

/// The canonical form of a request path. `*` and the empty path stand as
/// they are; any other path is decoded, split into segments and resolved,
/// and comes out starting with `/`.
pub open spec fn sanitized(x: Seq<u8>, allow_double_slashes: bool) -> Option<Seq<u8>> {
    if x == asterisk() || x.len() == 0 {
        Some(x)
    } else {
        match decode(x) {
            None => None,
            Some(d) => {
                let segs = segments(d);
                match resolve_upto(segs, segs.len() as int, allow_double_slashes) {
                    Some(st) => Some(rejoin(st)),
                    None => None,
                }
            },
        }
    }
}

/// Why a path was rejected.
#[derive(Clone, Copy, PartialEq, Eq, Structural, Debug)]
pub enum UrlError {
    /// A `%` not followed by two hexadecimal digits, or a control octet.
    BadEncoding,
    /// A `..` segment that would climb above the root.
    EscapesRoot,
}

pub open spec fn views(v: Seq<Vec<u8>>) -> Seq<Seq<u8>> {
    v.map_values(|x: Vec<u8>| x@)
}

fn hex_value(b: u8) -> (r: u8)
    requires
        is_hex(b),
    ensures
        r == hex_val(b),
        r < 16,
{
    if 0x30 <= b && b <= 0x39 {
        b - 0x30
    } else if 0x41 <= b && b <= 0x46 {
        b - 0x37
    } else {
        b - 0x57
    }
}

fn check_hex(b: u8) -> (r: bool)
    ensures
        r == is_hex(b),
{
    (0x30 <= b && b <= 0x39) || (0x41 <= b && b <= 0x46) || (0x61 <= b && b <= 0x66)
}

fn check_safe(b: u8) -> (r: bool)
    ensures
        r == is_safe(b),
{
    (0x30 <= b && b <= 0x39) || (0x41 <= b && b <= 0x5a) || (0x61 <= b && b <= 0x7a) || b == 0x2d
        || b == 0x2e || b == 0x5f || b == 0x7e || b == 0x21 || b == 0x24 || (0x26 <= b && b <= 0x2c)
        || b == 0x3b || b == 0x3d || b == 0x3a || b == 0x40 || b == 0x2f
}

fn percent_decode(s: &[u8]) -> (r: Option<Vec<u8>>)
    ensures
        match r {
            Some(v) => decode(s@) == Some(v@),
            None => decode(s@).is_none(),
        },
{
    let mut out: Vec<u8> = Vec::new();
    let mut i: usize = 0;
    assert(s@.skip(0) =~= s@);
    proof {
        match decode(s@) {
            Some(r) => assert(out@ + r =~= r),
            None => {},
        }
    }
    while i < s.len()
        invariant
            i <= s@.len(),
            s@.len() == s.len(),
            decode(s@) == match decode(s@.skip(i as int)) {
                Some(r) => Some(out@ + r),
                None => None::<Seq<u8>>,
            },
        decreases s@.len() - i,
    {
        let ghost rest = s@.skip(i as int);
        let ghost before = out@;
        let b = s[i];
        assert(rest[0] == b);
        if b == 0x25 {
            if s.len() - i > 2 && check_hex(s[i + 1]) && check_hex(s[i + 2]) {
                assert(rest[1] == s@[i + 1] && rest[2] == s@[i + 2]);
                let v = hex_value(s[i + 1]) * 16 + hex_value(s[i + 2]);
                if v < 0x20 || v == 0x7f {
                    return None;
                }
                assert(rest.skip(3) =~= s@.skip(i + 3));
                let ghost piece: Seq<u8>;
                if check_safe(v) {
                    out.push(v);
                    proof { piece = seq![v]; }
                } else {
                    out.push(s[i]);
                    out.push(s[i + 1]);
                    out.push(s[i + 2]);
                    assert(rest.take(3) =~= seq![s@[i as int], s@[i + 1], s@[i + 2]]);
                    proof { piece = rest.take(3); }
                }
                assert(out@ =~= before + piece);
                proof {
                    match decode(s@.skip(i + 3)) {
                        Some(r2) => {
                            assert(before + (piece + r2) =~= out@ + r2);
                        },
                        None => {},
                    }
                }
                i = i + 3;
            } else {
                if !(s.len() - i > 2) {
                    assert(!(rest.len() >= 3));
                } else {
                    assert(rest[1] == s@[i + 1] && rest[2] == s@[i + 2]);
                }
                return None;
            }
        } else {
            if b < 0x20 || b == 0x7f {
                return None;
            }
            assert(rest.skip(1) =~= s@.skip(i + 1));
            out.push(b);
            proof {
                match decode(s@.skip(i + 1)) {
                    Some(r2) => {
                        assert(before + (seq![b] + r2) =~= out@ + r2);
                    },
                    None => {},
                }
            }
            i = i + 1;
        }
    }
    assert(s@.skip(i as int) =~= Seq::<u8>::empty());
    assert(out@ + Seq::<u8>::empty() =~= out@);
    Some(out)
}

fn split_parts(d: &Vec<u8>) -> (r: Vec<Vec<u8>>)
    ensures
        views(r@) == parts(d@),
{
    let mut done: Vec<Vec<u8>> = Vec::new();
    let mut cur: Vec<u8> = Vec::new();
    let mut i: usize = 0;
    while i < d.len()
        invariant
            i <= d@.len(),
            split_state(d@.subrange(0, i as int)) == (views(done@), cur@),
        decreases d@.len() - i,
    {
        let ghost next = d@.subrange(0, i + 1);
        assert(next.drop_last() =~= d@.subrange(0, i as int));
        assert(next.last() == d@[i as int]);
        if d[i] == 0x2f {
            let ghost before = done@;
            let c = cur;
            done.push(c);
            cur = Vec::new();
            assert(views(done@) =~= views(before).push(c@));
        } else {
            cur.push(d[i]);
        }
        i = i + 1;
    }
    assert(d@.subrange(0, d@.len() as int) =~= d@);
    let ghost before = done@;
    let c = cur;
    done.push(c);
    assert(views(done@) =~= views(before).push(c@));
    done
}

fn is_dot(s: &Vec<u8>) -> (r: bool)
    ensures
        r == (s@ == dot()),
{
    let r = s.len() == 1 && s[0] == 0x2e;
    if r {
        assert(s@ =~= dot());
    }
    r
}

fn is_dot_dot(s: &Vec<u8>) -> (r: bool)
    ensures
        r == (s@ == dot_dot()),
{
    let r = s.len() == 2 && s[0] == 0x2e && s[1] == 0x2e;
    if r {
        assert(s@ =~= dot_dot());
    }
    r
}

/// Resolves the segments `ps[start..]`; `None` when a `..` climbs above the root.
fn resolve_segments(ps: &Vec<Vec<u8>>, start: usize, allow: bool) -> (r: Option<Vec<Vec<u8>>>)
    requires
        start <= ps@.len(),
    ensures
        match r {
            Some(st) => resolve_upto(views(ps@).skip(start as int), ps@.len() - start, allow) == Some(
                views(st@),
            ),
            None => resolve_upto(views(ps@).skip(start as int), ps@.len() - start, allow).is_none(),
        },
{
    let ghost segs = views(ps@).skip(start as int);
    let mut st: Vec<Vec<u8>> = Vec::new();
    let mut j: usize = start;
    assert(views(st@) =~= Seq::<Seq<u8>>::empty());
    while j < ps.len()
        invariant
            start <= j <= ps@.len(),
            segs == views(ps@).skip(start as int),
            segs.len() == ps@.len() - start,
            resolve_upto(segs, j - start, allow) == Some(views(st@)),
        decreases ps@.len() - j,
    {
        let seg = &ps[j];
        assert(segs[j - start] == seg@);
        let last = j + 1 == ps.len();
        let ghost before = st@;
        if is_dot(seg) {
        } else if is_dot_dot(seg) {
            if st.len() == 0 {
                proof { lemma_resolve_none_stays(segs, (j - start + 1) as int, ps@.len() - start, allow); }
                return None;
            }
            st.pop();
            assert(views(st@) =~= views(before).drop_last());
        } else if seg.len() == 0 && !(allow || last) {
        } else {
            let c = crate::bytes::copy_bytes(seg.as_slice());
            st.push(c);
            assert(views(st@) =~= views(before).push(seg@));
        }
        j = j + 1;
    }
    Some(st)
}

/// Once the resolution has failed, it stays failed.
proof fn lemma_resolve_none_stays(segs: Seq<Seq<u8>>, n: int, m: int, allow: bool)
    requires
        0 <= n <= m,
        resolve_upto(segs, n, allow).is_none(),
    ensures
        resolve_upto(segs, m, allow).is_none(),
    decreases m - n,
{
    if n < m {
        lemma_resolve_none_stays(segs, n + 1, m, allow);
    }
}

fn rejoin_segments(st: &Vec<Vec<u8>>) -> (r: Vec<u8>)
    ensures
        r@ == rejoin(views(st@)),
{
    let mut out: Vec<u8> = Vec::new();
    if st.len() == 0 {
        out.push(0x2f);
        assert(out@ =~= seq![0x2fu8]);
        return out;
    }
    let mut k: usize = 0;
    while k < st.len()
        invariant
            k <= st@.len(),
            out@ == prefixed(views(st@).take(k as int)),
        decreases st@.len() - k,
    {
        assert(views(st@).take(k + 1).drop_last() =~= views(st@).take(k as int));
        assert(views(st@).take(k + 1).last() == st@[k as int]@);
        out.push(0x2f);
        crate::bytes::append_bytes(&mut out, st[k].as_slice());
        k = k + 1;
    }
    assert(views(st@).take(st@.len() as int) =~= views(st@));
    out
}

/// Sanitizes a request path. Fails with `BadEncoding` when decoding fails,
/// with `EscapesRoot` when a `..` climbs above the root.
pub fn sanitize_url(path: &[u8], allow_double_slashes: bool) -> (r: Result<Vec<u8>, UrlError>)
    ensures
        match r {
            Ok(v) => sanitized(path@, allow_double_slashes) == Some(v@),
            Err(e) => sanitized(path@, allow_double_slashes).is_none() && (e == UrlError::BadEncoding
                <==> decode(path@).is_none()),
        },
{
    if path.len() == 0 || (path.len() == 1 && path[0] == 0x2a) {
        if path.len() == 1 {
            assert(path@ =~= asterisk());
        }
        return Ok(crate::bytes::copy_bytes(path));
    }
    assert(path@ != asterisk());
    let d = match percent_decode(path) {
        Some(d) => d,
        None => {
            return Err(UrlError::BadEncoding);
        },
    };
    let ps = split_parts(&d);
    let start: usize = if d.len() > 0 && d[0] == 0x2f { 1 } else { 0 };
    proof {
        assert(parts(d@).len() >= 1);
        if start == 0 {
            assert(views(ps@).skip(0) =~= views(ps@));
        }
    }
    match resolve_segments(&ps, start, allow_double_slashes) {
        Some(st) => Ok(rejoin_segments(&st)),
        None => Err(UrlError::EscapesRoot),
    }
}

/// Position `i` of `s` reads the same decoded or not: no control octet, and a
/// `%` starts a well-formed escape of an octet that stays encoded.
pub open spec fn fixed_at(s: Seq<u8>, i: int) -> bool {
    !is_control(s[i]) && (s[i] == 0x25 ==> i + 2 < s.len() && is_hex(s[i + 1]) && is_hex(s[i + 2])
        && !is_control(pair_val(s[i + 1], s[i + 2])) && !is_safe(pair_val(s[i + 1], s[i + 2])))
}

/// A byte string that decoding leaves as it is.
pub open spec fn fixed(s: Seq<u8>) -> bool {
    forall|i: int| 0 <= i < s.len() ==> #[trigger] fixed_at(s, i)
}

pub open spec fn no_slash(s: Seq<u8>) -> bool {
    forall|i: int| 0 <= i < s.len() ==> #[trigger] s[i] != 0x2f
}

/// What every segment of a decoded path satisfies.
pub open spec fn good_segment(s: Seq<u8>) -> bool {
    fixed(s) && no_slash(s)
}

proof fn lemma_fixed_concat(a: Seq<u8>, b: Seq<u8>)
    requires
        fixed(a),
        fixed(b),
    ensures
        fixed(a + b),
{
    assert forall|i: int| 0 <= i < (a + b).len() implies #[trigger] fixed_at(a + b, i) by {
        if i < a.len() {
            assert(fixed_at(a, i));
        } else {
            assert(fixed_at(b, i - a.len()));
        }
    }
}

proof fn lemma_fixed_skip(s: Seq<u8>, k: int)
    requires
        fixed(s),
        0 <= k <= s.len(),
    ensures
        fixed(s.skip(k)),
{
    assert forall|i: int| 0 <= i < s.skip(k).len() implies #[trigger] fixed_at(s.skip(k), i) by {
        assert(fixed_at(s, i + k));
    }
}

/// A slice that ends at a slash or at the end keeps its escapes whole.
proof fn lemma_fixed_slice(s: Seq<u8>, a: int, e: int)
    requires
        fixed(s),
        0 <= a <= e <= s.len(),
        e == s.len() || s[e] == 0x2f,
    ensures
        fixed(s.subrange(a, e)),
{
    assert forall|i: int| 0 <= i < s.subrange(a, e).len() implies #[trigger] fixed_at(s.subrange(a, e), i) by {
        assert(fixed_at(s, i + a));
    }
}

proof fn lemma_decode_fixed(s: Seq<u8>)
    requires
        decode(s).is_some(),
    ensures
        fixed(decode(s).unwrap()),
    decreases s.len(),
{
    if s.len() > 0 {
        if s[0] == 0x25 {
            lemma_decode_fixed(s.skip(3));
            let r = decode(s.skip(3)).unwrap();
            let v = pair_val(s[1], s[2]);
            if is_safe(v) {
                assert(fixed_at(seq![v], 0));
                lemma_fixed_concat(seq![v], r);
            } else {
                let t = s.take(3);
                assert(fixed_at(t, 0));
                assert(fixed_at(t, 1));
                assert(fixed_at(t, 2));
                lemma_fixed_concat(t, r);
            }
        } else {
            lemma_decode_fixed(s.skip(1));
            assert(fixed_at(seq![s[0]], 0));
            lemma_fixed_concat(seq![s[0]], decode(s.skip(1)).unwrap());
        }
    }
}

proof fn lemma_fixed_decode(s: Seq<u8>)
    requires
        fixed(s),
    ensures
        decode(s) == Some(s),
    decreases s.len(),
{
    if s.len() > 0 {
        assert(fixed_at(s, 0));
        if s[0] == 0x25 {
            lemma_fixed_skip(s, 3);
            lemma_fixed_decode(s.skip(3));
            assert(s.take(3) + s.skip(3) =~= s);
        } else {
            lemma_fixed_skip(s, 1);
            lemma_fixed_decode(s.skip(1));
            assert(seq![s[0]] + s.skip(1) =~= s);
        }
    }
}

/// The parts found so far are good segments, and the part under way is the
/// tail of what was read.
proof fn lemma_split_props(d: Seq<u8>, n: int)
    requires
        fixed(d),
        0 <= n <= d.len(),
    ensures
        ({
            let (done, cur) = split_state(d.take(n));
            &&& cur.len() <= n
            &&& cur == d.subrange(n - cur.len(), n)
            &&& no_slash(cur)
            &&& forall|k: int| 0 <= k < done.len() ==> good_segment(#[trigger] done[k])
        }),
    decreases n,
{
    if n > 0 {
        lemma_split_props(d, n - 1);
        assert(d.take(n).drop_last() =~= d.take(n - 1));
        assert(d.take(n).last() == d[n - 1]);
        let (done, cur) = split_state(d.take(n - 1));
        if d[n - 1] == 0x2f {
            lemma_fixed_slice(d, n - 1 - cur.len(), n - 1);
            assert forall|k: int| 0 <= k < done.push(cur).len() implies good_segment(
                #[trigger] done.push(cur)[k],
            ) by {
                if k < done.len() {
                    assert(done.push(cur)[k] == done[k]);
                }
            }
        } else {
            assert(cur.push(d[n - 1]) =~= d.subrange(n - (cur.len() + 1), n));
        }
    } else {
        assert(d.take(0) =~= Seq::<u8>::empty());
    }
}

proof fn lemma_segments_good(d: Seq<u8>)
    requires
        fixed(d),
    ensures
        forall|k: int| 0 <= k < segments(d).len() ==> good_segment(#[trigger] segments(d)[k]),
{
    lemma_split_props(d, d.len() as int);
    assert(d.take(d.len() as int) =~= d);
    let (done, cur) = split_state(d);
    lemma_fixed_slice(d, d.len() - cur.len(), d.len() as int);
    let ps = parts(d);
    assert forall|k: int| 0 <= k < ps.len() implies good_segment(#[trigger] ps[k]) by {
        if k < done.len() {
            assert(ps[k] == done[k]);
        }
    }
    if d.len() > 0 && d[0] == 0x2f {
        assert forall|k: int| 0 <= k < segments(d).len() implies good_segment(#[trigger] segments(d)[k]) by {
            assert(segments(d)[k] == ps[k + 1]);
        }
    }
}

/// What a resolved stack looks like.
pub open spec fn clean_stack(st: Seq<Seq<u8>>, allow: bool, finished: bool) -> bool {
    forall|i: int|
        0 <= i < st.len() ==> good_segment(#[trigger] st[i]) && st[i] != dot() && st[i] != dot_dot()
            && (st[i].len() == 0 ==> allow || (finished && i == st.len() - 1))
}

proof fn lemma_resolve_props(segs: Seq<Seq<u8>>, n: int, allow: bool)
    requires
        0 <= n <= segs.len(),
        forall|k: int| 0 <= k < segs.len() ==> good_segment(#[trigger] segs[k]),
    ensures
        resolve_upto(segs, n, allow) matches Some(st) ==> clean_stack(st, allow, n == segs.len()),
    decreases n,
{
    if n > 0 {
        lemma_resolve_props(segs, n - 1, allow);
        match resolve_upto(segs, n - 1, allow) {
            Some(st) => {
                let seg = segs[n - 1];
                let last = n == segs.len();
                match step(st, seg, last, allow) {
                    Some(st2) => {
                        assert forall|i: int| 0 <= i < st2.len() implies good_segment(#[trigger] st2[i])
                            && st2[i] != dot() && st2[i] != dot_dot() && (st2[i].len() == 0 ==> allow
                            || (last && i == st2.len() - 1)) by {
                            if i < st.len() {
                                assert(st2[i] == st[i]);
                            }
                        }
                    },
                    None => {},
                }
            },
            None => {},
        }
    }
}

proof fn lemma_resolve_clean(st: Seq<Seq<u8>>, n: int, allow: bool)
    requires
        0 <= n <= st.len(),
        clean_stack(st, allow, true),
    ensures
        resolve_upto(st, n, allow) == Some(st.take(n)),
    decreases n,
{
    if n > 0 {
        lemma_resolve_clean(st, n - 1, allow);
        assert(good_segment(st[n - 1]));
        assert(st.take(n - 1).push(st[n - 1]) =~= st.take(n));
    } else {
        assert(st.take(0) =~= Seq::<Seq<u8>>::empty());
    }
}

proof fn lemma_split_append_no_slash(a: Seq<u8>, c: Seq<u8>)
    requires
        no_slash(c),
    ensures
        split_state(a + c) == (split_state(a).0, split_state(a).1 + c),
    decreases c.len(),
{
    if c.len() == 0 {
        assert(a + c =~= a);
        assert(split_state(a).1 + c =~= split_state(a).1);
    } else {
        let c2 = c.drop_last();
        assert forall|i: int| 0 <= i < c2.len() implies #[trigger] c2[i] != 0x2f by {
            assert(c2[i] == c[i]);
        }
        lemma_split_append_no_slash(a, c2);
        assert((a + c).drop_last() =~= a + c2);
        assert((a + c).last() == c.last());
        assert(c.last() != 0x2f);
        assert((split_state(a).1 + c2).push(c.last()) =~= split_state(a).1 + c);
    }
}

proof fn lemma_split_prefixed(st: Seq<Seq<u8>>)
    requires
        st.len() > 0,
        forall|k: int| 0 <= k < st.len() ==> no_slash(#[trigger] st[k]),
    ensures
        split_state(prefixed(st)) == (seq![Seq::<u8>::empty()] + st.drop_last(), st.last()),
        prefixed(st).len() > 0,
        prefixed(st)[0] == 0x2f,
    decreases st.len(),
{
    let s2 = st.drop_last();
    let p2 = prefixed(s2);
    let e = Seq::<u8>::empty();
    assert(no_slash(st[st.len() - 1]));
    if s2.len() == 0 {
        assert(p2.push(0x2f) =~= seq![0x2fu8]);
        assert(seq![0x2fu8].drop_last() =~= e);
        assert(split_state(e) == (Seq::<Seq<u8>>::empty(), e));
        assert(split_state(seq![0x2fu8]) == (Seq::<Seq<u8>>::empty().push(e), e));
        lemma_split_append_no_slash(p2.push(0x2f), st.last());
        assert(e + st.last() =~= st.last());
        assert(seq![e] + s2 =~= Seq::<Seq<u8>>::empty().push(e));
    } else {
        assert forall|k: int| 0 <= k < s2.len() implies no_slash(#[trigger] s2[k]) by {
            assert(s2[k] == st[k]);
        }
        lemma_split_prefixed(s2);
        assert(p2.push(0x2f).drop_last() =~= p2);
        lemma_split_append_no_slash(p2.push(0x2f), st.last());
        assert(e + st.last() =~= st.last());
        assert((seq![e] + s2.drop_last()).push(s2.last()) =~= seq![e] + s2);
        assert((p2.push(0x2f) + st.last())[0] == p2[0]);
    }
    assert((p2.push(0x2f) + st.last())[p2.len() as int] == 0x2f);
}

proof fn lemma_prefixed_fixed(st: Seq<Seq<u8>>)
    requires
        forall|k: int| 0 <= k < st.len() ==> fixed(#[trigger] st[k]),
    ensures
        fixed(prefixed(st)),
    decreases st.len(),
{
    if st.len() > 0 {
        let s2 = st.drop_last();
        assert forall|k: int| 0 <= k < s2.len() implies fixed(#[trigger] s2[k]) by {
            assert(s2[k] == st[k]);
        }
        lemma_prefixed_fixed(s2);
        assert(fixed_at(seq![0x2fu8], 0));
        lemma_fixed_concat(prefixed(s2), seq![0x2fu8]);
        assert(prefixed(s2).push(0x2f) =~= prefixed(s2) + seq![0x2fu8]);
        assert(fixed(st[st.len() - 1]));
        lemma_fixed_concat(prefixed(s2).push(0x2f), st.last());
    }
}

/// Sanitizing is idempotent: a sanitized path sanitizes to itself.
pub proof fn lemma_sanitize_idempotent(x: Seq<u8>, allow_double_slashes: bool)
    requires
        sanitized(x, allow_double_slashes).is_some(),
    ensures
        sanitized(sanitized(x, allow_double_slashes).unwrap(), allow_double_slashes) == sanitized(
            x,
            allow_double_slashes,
        ),
{
    let allow = allow_double_slashes;
    if !(x == asterisk() || x.len() == 0) {
        let d = decode(x).unwrap();
        lemma_decode_fixed(x);
        lemma_segments_good(d);
        let segs = segments(d);
        lemma_resolve_props(segs, segs.len() as int, allow);
        let st = resolve_upto(segs, segs.len() as int, allow).unwrap();
        let y = rejoin(st);
        if st.len() == 0 {
            let sl = seq![0x2fu8];
            assert(y == sl);
            assert(sl != asterisk());
            assert(fixed_at(sl, 0));
            lemma_fixed_decode(sl);
            let e = Seq::<u8>::empty();
            assert(sl.drop_last() =~= e);
            assert(split_state(e) == (Seq::<Seq<u8>>::empty(), e));
            assert(sl.last() == 0x2f);
            assert(split_state(sl) == (Seq::<Seq<u8>>::empty().push(e), e));
            let ps = parts(sl);
            assert(ps =~= seq![e, e]);
            assert(segments(sl) =~= seq![e]);
            let one = seq![e];
            assert(resolve_upto(one, 0, allow) == Some(Seq::<Seq<u8>>::empty()));
            assert(resolve_upto(one, 1, allow) == Some(seq![e]));
            assert(prefixed(seq![e]) =~= sl) by {
                assert(seq![e].drop_last() =~= Seq::<Seq<u8>>::empty());
                assert(prefixed(Seq::<Seq<u8>>::empty()) == e);
                assert(seq![e].last() == e);
                assert(e.push(0x2f) + e =~= sl);
            }
        } else {
            assert forall|k: int| 0 <= k < st.len() implies no_slash(#[trigger] st[k]) && fixed(st[k]) by {
                assert(good_segment(st[k]));
            }
            lemma_split_prefixed(st);
            lemma_prefixed_fixed(st);
            lemma_fixed_decode(y);
            assert(y[0] != asterisk()[0]);
            assert(y != asterisk());
            let e = Seq::<u8>::empty();
            assert(parts(y) =~= seq![e] + st);
            assert(segments(y) =~= st);
            lemma_resolve_clean(st, st.len() as int, allow);
            assert(st.take(st.len() as int) =~= st);
        }
    }
}

} // verus!
