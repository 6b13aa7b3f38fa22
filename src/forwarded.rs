//! The X-Forwarded-For handler: where IP spoofing is enabled, the client
//! address becomes the first hop named in `X-Forwarded-For`.
use vstd::prelude::*;
use crate::config::first_index;
use crate::pipeline::is_text;

verus! {

/// The module that rewrites the client address from `X-Forwarded-For`.
pub struct XForwardedForModule;

/// What the handler makes of a request.
#[derive(PartialEq, Eq, Debug)]
pub enum ForwardedFor {
    /// The request goes on unchanged.
    Unchanged,
    /// The header does not read as text: the handler fails.
    Unreadable,
    /// The first hop, spaces removed. When it parses as an IP address it
    /// becomes the client address (the port is kept); otherwise the answer is `400`.
    Candidate(Vec<u8>),
}

pub open spec fn without_spaces(s: Seq<u8>) -> Seq<u8>
    decreases s.len(),
{
    if s.len() == 0 {
        s
    } else if s.last() == 0x20 {
        without_spaces(s.drop_last())
    } else {
        without_spaces(s.drop_last()).push(s.last())
    }
}

/// The first comma-separated entry, spaces removed.
pub open spec fn first_hop(v: Seq<u8>) -> Seq<u8> {
    without_spaces(v.subrange(0, first_index(v, 0x2c)))
}

impl XForwardedForModule {
    pub fn new() -> (r: XForwardedForModule) {
        XForwardedForModule
    }

    /// The decision for a request, from `enableIPSpoofing` and the
    /// `X-Forwarded-For` value if any.
    pub fn examine(&self, enable_ip_spoofing: Option<bool>, header: Option<&[u8]>) -> (r: ForwardedFor)
        ensures
            enable_ip_spoofing != Some(true) ==> r == ForwardedFor::Unchanged,
            enable_ip_spoofing == Some(true) ==> match header {
                None => r == ForwardedFor::Unchanged,
                Some(v) => if is_text(v@) {
                    r matches ForwardedFor::Candidate(c) && c@ == first_hop(v@)
                } else {
                    r == ForwardedFor::Unreadable
                },
            },
    {
        if enable_ip_spoofing != Some(true) {
            return ForwardedFor::Unchanged;
        }
        let v = match header {
            None => {
                return ForwardedFor::Unchanged;
            },
            Some(v) => v,
        };
        let mut i: usize = 0;
        while i < v.len()
            invariant
                i <= v@.len(),
                header == Some(v),
                enable_ip_spoofing == Some(true),
                forall|j: int| 0 <= j < i ==> (32 <= #[trigger] v@[j] && v@[j] < 127) || v@[j] == 9,
            decreases v@.len() - i,
        {
            let b = v[i];
            if !((32 <= b && b < 127) || b == 9) {
                assert(!is_text(v@));
                return ForwardedFor::Unreadable;
            }
            i = i + 1;
        }
        let mut out: Vec<u8> = Vec::new();
        let mut k: usize = 0;
        while k < v.len() && v[k] != 0x2c
            invariant
                k <= v@.len(),
                header == Some(v),
                enable_ip_spoofing == Some(true),
                is_text(v@),
                forall|j: int| 0 <= j < k ==> #[trigger] v@[j] != 0x2c,
                out@ == without_spaces(v@.subrange(0, k as int)),
            decreases v@.len() - k,
        {
            let ghost pre = v@.subrange(0, k as int);
            assert(v@.subrange(0, k + 1).drop_last() =~= pre);
            if v[k] != 0x20 {
                out.push(v[k]);
            }
            k = k + 1;
        }
        proof {
            lemma_first_index_at(v@, k as int);
        }
        ForwardedFor::Candidate(out)
    }
}

/// `k` is the first comma (or the end) when no earlier byte is a comma.
proof fn lemma_first_index_at(v: Seq<u8>, k: int)
    requires
        0 <= k <= v.len(),
        forall|j: int| 0 <= j < k ==> #[trigger] v[j] != 0x2c,
        k == v.len() || v[k] == 0x2c,
    ensures
        first_index(v, 0x2c) == k,
    decreases v.len(),
{
    if v.len() > 0 {
        let t = v.drop_last();
        if k < v.len() {
            if k < t.len() {
                lemma_first_index_at(t, k);
            } else {
                lemma_first_index_none(t);
            }
        } else {
            lemma_first_index_none(t);
        }
    }
}

proof fn lemma_first_index_none(v: Seq<u8>)
    requires
        forall|j: int| 0 <= j < v.len() ==> #[trigger] v[j] != 0x2c,
    ensures
        first_index(v, 0x2c) == v.len(),
    decreases v.len(),
{
    if v.len() > 0 {
        lemma_first_index_none(v.drop_last());
    }
}

} // verus!
