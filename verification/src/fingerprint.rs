//! Fetch requests and their fingerprints. A fingerprint digests the URL,
//! method, headers and body; headers are kept sorted by name, so the
//! fingerprint never depends on the order in which they were supplied.

use crate::crypto::{sha256_hash, sha256_of};
use crate::hex::hex_of;
use crate::text::{push_char, str_eq};
use vstd::prelude::*;
use vstd::string::{StrSliceExecFns, StringSliceAdditionalSpecFns};
use vstd::utf8::encode_utf8;

verus! {

/// Strict lexicographic order on character strings, by code point.
pub open spec fn lex_lt(a: Seq<char>, b: Seq<char>) -> bool
    decreases a.len(),
{
    if b.len() == 0 {
        false
    } else if a.len() == 0 {
        true
    } else if a[0] != b[0] {
        a[0] < b[0]
    } else {
        lex_lt(a.subrange(1, a.len() as int), b.subrange(1, b.len() as int))
    }
}

/// Nothing precedes itself.
pub proof fn lemma_lex_irrefl(a: Seq<char>)
    ensures
        !lex_lt(a, a),
    decreases a.len(),
{
    if a.len() > 0 {
        lemma_lex_irrefl(a.subrange(1, a.len() as int));
    }
}

/// The order is transitive.
pub proof fn lemma_lex_trans(a: Seq<char>, b: Seq<char>, c: Seq<char>)
    requires
        lex_lt(a, b),
        lex_lt(b, c),
    ensures
        lex_lt(a, c),
    decreases a.len() + b.len() + c.len(),
{
    if a.len() > 0 && b.len() > 0 && c.len() > 0 {
        if a[0] == b[0] && b[0] == c[0] {
            lemma_lex_trans(
                a.subrange(1, a.len() as int),
                b.subrange(1, b.len() as int),
                c.subrange(1, c.len() as int),
            );
        }
    }
}

/// Distinct strings are ordered one way or the other.
pub proof fn lemma_lex_connected(a: Seq<char>, b: Seq<char>)
    requires
        !lex_lt(a, b),
        !lex_lt(b, a),
    ensures
        a =~= b,
    decreases a.len(),
{
    if a.len() > 0 && b.len() > 0 {
        lemma_lex_connected(a.subrange(1, a.len() as int), b.subrange(1, b.len() as int));
        assert(a =~= seq![a[0]] + a.subrange(1, a.len() as int));
        assert(b =~= seq![b[0]] + b.subrange(1, b.len() as int));
    }
}

/// Whether `a` precedes `b` in lexicographic order.
#[verifier::loop_isolation(false)]
pub fn str_lt(a: &str, b: &str) -> (r: bool)
    ensures
        r == lex_lt(a@, b@),
{
    let an = a.unicode_len();
    let bn = b.unicode_len();
    let mut i: usize = 0;
    proof {
        assert(a@.subrange(0, an as int) =~= a@);
        assert(b@.subrange(0, bn as int) =~= b@);
    }
    while i < an && i < bn
        invariant
            i <= an,
            i <= bn,
            forall|j: int| 0 <= j < i ==> a@[j] == b@[j],
            lex_lt(a@, b@) == lex_lt(a@.subrange(i as int, an as int), b@.subrange(i as int, bn as int)),
        decreases an - i,
    {
        let ca = a.get_char(i);
        let cb = b.get_char(i);
        if ca != cb {
            return ca < cb;
        }
        proof {
            lemma_lex_step(a@, b@, i as int);
        }
        i = i + 1;
    }
    proof {
        if i == an {
            assert(a@.subrange(i as int, an as int) =~= Seq::<char>::empty());
        }
        if i == bn {
            assert(b@.subrange(i as int, bn as int) =~= Seq::<char>::empty());
        }
    }
    an < bn
}

/// With equal characters at position `i`, the comparison of the remainders
/// steps past them.
proof fn lemma_lex_step(a: Seq<char>, b: Seq<char>, i: int)
    requires
        0 <= i < a.len(),
        0 <= i < b.len(),
        a[i] == b[i],
    ensures
        lex_lt(a.subrange(i, a.len() as int), b.subrange(i, b.len() as int)) == lex_lt(
            a.subrange(i + 1, a.len() as int),
            b.subrange(i + 1, b.len() as int),
        ),
{
    let sa = a.subrange(i, a.len() as int);
    let sb = b.subrange(i, b.len() as int);
    assert(sa[0] == a[i]);
    assert(sb[0] == b[i]);
    assert(sa.subrange(1, sa.len() as int) =~= a.subrange(i + 1, a.len() as int));
    assert(sb.subrange(1, sb.len() as int) =~= b.subrange(i + 1, b.len() as int));
}

/// Header lists are kept strictly sorted by name.
pub open spec fn headers_sorted(hs: Seq<(Seq<char>, Seq<char>)>) -> bool {
    forall|i: int, j: int| 0 <= i < j < hs.len() ==> lex_lt(#[trigger] hs[i].0, #[trigger] hs[j].0)
}

/// A header list after setting `k` to `v`: an existing entry for `k` is
/// replaced, otherwise the pair is placed at its sorted position.
pub open spec fn header_upsert(
    hs: Seq<(Seq<char>, Seq<char>)>,
    k: Seq<char>,
    v: Seq<char>,
) -> Seq<(Seq<char>, Seq<char>)>
    decreases hs.len(),
{
    if hs.len() == 0 {
        seq![(k, v)]
    } else if lex_lt(hs[0].0, k) {
        seq![hs[0]] + header_upsert(hs.subrange(1, hs.len() as int), k, v)
    } else if hs[0].0 == k {
        seq![(k, v)] + hs.subrange(1, hs.len() as int)
    } else {
        seq![(k, v)] + hs
    }
}

/// A remote fetch request: what to fetch, how, and with which headers and
/// body. Header insertion order never matters: the list stays sorted by
/// header name, later values for the same name replacing earlier ones.
pub struct ProxyRequest {
    pub url: String,
    pub method: Option<String>,
    pub headers: Vec<(String, String)>,
    pub body: Option<String>,
}

impl ProxyRequest {
    /// The headers as ghost pairs of character strings.
    pub open spec fn headers_view(&self) -> Seq<(Seq<char>, Seq<char>)> {
        Seq::new(self.headers@.len(), |i: int| (self.headers@[i].0@, self.headers@[i].1@))
    }

    /// The header list is strictly sorted by name.
    pub open spec fn wf(&self) -> bool {
        headers_sorted(self.headers_view())
    }

    /// A request with no headers yet.
    pub fn new(url: String, method: Option<String>, body: Option<String>) -> (r: ProxyRequest)
        ensures
            r.wf(),
            r.url == url,
            r.method == method,
            r.body == body,
            r.headers_view() == Seq::<(Seq<char>, Seq<char>)>::empty(),
    {
        let r = ProxyRequest { url, method, headers: Vec::new(), body };
        proof {
            assert(r.headers_view() =~= Seq::<(Seq<char>, Seq<char>)>::empty());
        }
        r
    }

    /// Sets header `key` to `value`, keeping the list sorted by name;
    /// setting the same name again replaces its value.
    #[verifier::loop_isolation(false)]
    pub fn add_header(&mut self, key: String, value: String)
        requires
            old(self).wf(),
        ensures
            final(self).wf(),
            final(self).url == old(self).url,
            final(self).method == old(self).method,
            final(self).body == old(self).body,
            final(self).headers_view() == header_upsert(old(self).headers_view(), key@, value@),
    {
        let ghost pre = self.headers_view();
        let n = self.headers.len();
        let mut i: usize = 0;
        while i < n && str_lt(self.headers[i].0.as_str(), key.as_str())
            invariant
                i <= n,
                *self == *old(self),
                forall|j: int| 0 <= j < i ==> lex_lt(#[trigger] pre[j].0, key@),
            decreases n - i,
        {
            i = i + 1;
        }
        if i < n && str_eq(self.headers[i].0.as_str(), key.as_str()) {
            let _ = self.headers.remove(i);
            self.headers.insert(i, (key, value));
            proof {
                lemma_upsert_replace(pre, key@, value@, i as int);
                assert(self.headers_view() =~~= header_upsert(pre, key@, value@));
                lemma_upsert_sorted(pre, key@, value@);
            }
        } else {
            proof {
                if i < n {
                    lemma_lex_connected_or(pre[i as int].0, key@);
                }
            }
            self.headers.insert(i, (key, value));
            proof {
                lemma_upsert_insert(pre, key@, value@, i as int);
                assert(self.headers_view() =~~= header_upsert(pre, key@, value@));
                lemma_upsert_sorted(pre, key@, value@);
            }
        }
    }
}

/// A name that neither precedes nor equals another follows it.
proof fn lemma_lex_connected_or(a: Seq<char>, k: Seq<char>)
    requires
        !lex_lt(a, k),
        a != k,
    ensures
        lex_lt(k, a),
{
    if !lex_lt(k, a) {
        lemma_lex_connected(a, k);
    }
}

/// Where the scan stopped on an equal name, the upsert replaces that entry.
proof fn lemma_upsert_replace(hs: Seq<(Seq<char>, Seq<char>)>, k: Seq<char>, v: Seq<char>, i: int)
    requires
        0 <= i < hs.len(),
        forall|j: int| 0 <= j < i ==> lex_lt(#[trigger] hs[j].0, k),
        hs[i].0 == k,
    ensures
        header_upsert(hs, k, v) =~= hs.subrange(0, i).push((k, v)) + hs.subrange(
            i + 1,
            hs.len() as int,
        ),
    decreases i,
{
    lemma_lex_irrefl(k);
    if i == 0 {
        assert(!lex_lt(hs[0].0, k));
        assert(hs.subrange(0, 0).push((k, v)) =~= seq![(k, v)]);
    } else {
        let tail = hs.subrange(1, hs.len() as int);
        lemma_upsert_replace(tail, k, v, i - 1);
        assert(tail.subrange(0, i - 1) =~= hs.subrange(1, i));
        assert(tail.subrange(i, tail.len() as int) =~= hs.subrange(i + 1, hs.len() as int));
    }
}

/// Where the scan stopped on a later name (or the end), the upsert inserts
/// the new pair there.
proof fn lemma_upsert_insert(hs: Seq<(Seq<char>, Seq<char>)>, k: Seq<char>, v: Seq<char>, i: int)
    requires
        0 <= i <= hs.len(),
        forall|j: int| 0 <= j < i ==> lex_lt(#[trigger] hs[j].0, k),
        i < hs.len() ==> lex_lt(k, hs[i].0),
    ensures
        header_upsert(hs, k, v) =~= hs.subrange(0, i).push((k, v)) + hs.subrange(
            i,
            hs.len() as int,
        ),
    decreases i,
{
    lemma_lex_irrefl(k);
    if hs.len() == 0 {
        assert(hs.subrange(0, 0).push((k, v)) =~= seq![(k, v)]);
        assert(hs.subrange(0, 0) =~= hs);
    } else if i == 0 {
        if lex_lt(hs[0].0, k) {
            lemma_lex_trans(k, hs[0].0, k);
            assert(false);
        } else if hs[0].0 == k {
            assert(false);
        }
        assert(hs.subrange(0, 0).push((k, v)) + hs.subrange(0, hs.len() as int) =~= seq![(k, v)]
            + hs);
    } else {
        let tail = hs.subrange(1, hs.len() as int);
        lemma_upsert_insert(tail, k, v, i - 1);
        assert(tail.subrange(0, i - 1) =~= hs.subrange(1, i));
        assert(tail.subrange(i - 1, tail.len() as int) =~= hs.subrange(i, hs.len() as int));
    }
}

/// An upsert keeps the header list strictly sorted.
proof fn lemma_upsert_sorted(hs: Seq<(Seq<char>, Seq<char>)>, k: Seq<char>, v: Seq<char>)
    requires
        headers_sorted(hs),
    ensures
        headers_sorted(header_upsert(hs, k, v)),
    decreases hs.len(),
{
    let u = header_upsert(hs, k, v);
    if hs.len() == 0 {
    } else if lex_lt(hs[0].0, k) {
        let tail = hs.subrange(1, hs.len() as int);
        lemma_upsert_sorted(tail, k, v);
        let ut = header_upsert(tail, k, v);
        lemma_upsert_head_bound(tail, k, v, hs[0].0);
        assert forall|i: int, j: int| 0 <= i < j < u.len() implies lex_lt(
            #[trigger] u[i].0,
            #[trigger] u[j].0,
        ) by {
            if i == 0 {
                assert(u[j] == ut[j - 1]);
            } else {
                assert(u[i] == ut[i - 1]);
                assert(u[j] == ut[j - 1]);
            }
        }
    } else if hs[0].0 == k {
        let tail = hs.subrange(1, hs.len() as int);
        assert forall|i: int, j: int| 0 <= i < j < u.len() implies lex_lt(
            #[trigger] u[i].0,
            #[trigger] u[j].0,
        ) by {
            if i == 0 {
                assert(u[j] == tail[j - 1]);
                assert(lex_lt(hs[0].0, hs[j].0));
            } else {
                assert(u[i] == tail[i - 1]);
                assert(u[j] == tail[j - 1]);
            }
        }
    } else {
        lemma_lex_connected_or(hs[0].0, k);
        assert forall|i: int, j: int| 0 <= i < j < u.len() implies lex_lt(
            #[trigger] u[i].0,
            #[trigger] u[j].0,
        ) by {
            if i == 0 {
                assert(u[j] == hs[j - 1]);
                if j > 1 {
                    lemma_lex_trans(k, hs[0].0, hs[j - 1].0);
                }
            } else {
                assert(u[i] == hs[i - 1]);
                assert(u[j] == hs[j - 1]);
            }
        }
    }
}

/// Every name in an upsert of a list whose names all follow `lo` also
/// follows `lo`.
proof fn lemma_upsert_head_bound(
    hs: Seq<(Seq<char>, Seq<char>)>,
    k: Seq<char>,
    v: Seq<char>,
    lo: Seq<char>,
)
    requires
        lex_lt(lo, k),
        forall|i: int| 0 <= i < hs.len() ==> lex_lt(lo, #[trigger] hs[i].0),
    ensures
        forall|i: int|
            0 <= i < header_upsert(hs, k, v).len() ==> lex_lt(
                lo,
                #[trigger] header_upsert(hs, k, v)[i].0,
            ),
    decreases hs.len(),
{
    let u = header_upsert(hs, k, v);
    if hs.len() == 0 {
        assert(u[0].0 == k);
    } else if lex_lt(hs[0].0, k) {
        let tail = hs.subrange(1, hs.len() as int);
        lemma_upsert_head_bound(tail, k, v, lo);
        assert forall|i: int| 0 <= i < u.len() implies lex_lt(lo, #[trigger] u[i].0) by {
            if i > 0 {
                assert(u[i] == header_upsert(tail, k, v)[i - 1]);
            }
        }
    } else {
        assert forall|i: int| 0 <= i < u.len() implies lex_lt(lo, #[trigger] u[i].0) by {
            if i > 0 {
                if hs[0].0 == k {
                    assert(u[i] == hs.subrange(1, hs.len() as int)[i - 1]);
                } else {
                    assert(u[i] == hs[i - 1]);
                }
            }
        }
    }
}


/// The method to send: what the request named, or GET.
pub open spec fn method_chars(m: Option<String>) -> Seq<char> {
    match m {
        Some(s) => s@,
        None => "GET"@,
    }
}

/// The body's UTF-8 bytes; an absent body contributes nothing.
pub open spec fn body_bytes(b: Option<String>) -> Seq<u8> {
    match b {
        Some(s) => encode_utf8(s@),
        None => Seq::empty(),
    }
}

/// The view of an optional string.
pub open spec fn opt_chars(o: Option<String>) -> Option<Seq<char>> {
    match o {
        Some(s) => Some(s@),
        None => None,
    }
}

/// The headers' contribution to the digest: each name, then its value.
pub open spec fn headers_bytes(hs: Seq<(Seq<char>, Seq<char>)>) -> Seq<u8>
    decreases hs.len(),
{
    if hs.len() == 0 {
        Seq::empty()
    } else {
        encode_utf8(hs[0].0) + encode_utf8(hs[0].1) + headers_bytes(
            hs.subrange(1, hs.len() as int),
        )
    }
}

/// The byte string a non-empty header list digests ends with its last
/// header.
proof fn lemma_headers_bytes_snoc(hs: Seq<(Seq<char>, Seq<char>)>)
    requires
        hs.len() > 0,
    ensures
        headers_bytes(hs) == headers_bytes(hs.drop_last()) + encode_utf8(hs.last().0)
            + encode_utf8(hs.last().1),
    decreases hs.len(),
{
    if hs.len() == 1 {
        assert(hs.subrange(1, 1) =~= Seq::<(Seq<char>, Seq<char>)>::empty());
        assert(hs.drop_last() =~= Seq::<(Seq<char>, Seq<char>)>::empty());
        assert(headers_bytes(hs) =~= headers_bytes(hs.drop_last()) + encode_utf8(hs.last().0)
            + encode_utf8(hs.last().1));
    } else {
        let tail = hs.subrange(1, hs.len() as int);
        lemma_headers_bytes_snoc(tail);
        assert(tail.drop_last() =~= hs.drop_last().subrange(1, hs.drop_last().len() as int));
        assert(tail.last() == hs.last());
        assert(headers_bytes(hs) =~= headers_bytes(hs.drop_last()) + encode_utf8(hs.last().0)
            + encode_utf8(hs.last().1));
    }
}

impl ProxyRequest {
    /// The byte string the fingerprint digests: URL, method, each header's
    /// name and value in sorted order, then the body.
    pub open spec fn fingerprint_message(&self) -> Seq<u8> {
        encode_utf8(self.url@) + encode_utf8(method_chars(self.method)) + headers_bytes(
            self.headers_view(),
        ) + body_bytes(self.body)
    }

    /// The request's fingerprint: the hex SHA-256 digest of its message.
    pub open spec fn fingerprint_of(&self) -> Seq<char> {
        hex_of(sha256_of(self.fingerprint_message()))
    }

    /// The cache key for this request: a digest over URL, method, headers
    /// (in their sorted order) and body.
    #[verifier::loop_isolation(false)]
    pub fn generate_cache_key(&self) -> (r: String)
        ensures
            r@ == self.fingerprint_of(),
    {
        let mut msg: Vec<u8> = Vec::new();
        append_bytes(&mut msg, self.url.as_str().as_bytes());
        match &self.method {
            Some(m) => append_bytes(&mut msg, m.as_str().as_bytes()),
            None => append_bytes(&mut msg, "GET".as_bytes()),
        }
        let ghost base = msg@;
        proof {
            assert(base =~= encode_utf8(self.url@) + encode_utf8(method_chars(self.method)));
            assert(msg@ =~= base + headers_bytes(self.headers_view().subrange(0, 0)));
        }
        let n = self.headers.len();
        let mut i: usize = 0;
        while i < n
            invariant
                i <= n,
                msg@ =~= base + headers_bytes(self.headers_view().subrange(0, i as int)),
            decreases n - i,
        {
            append_bytes(&mut msg, self.headers[i].0.as_str().as_bytes());
            append_bytes(&mut msg, self.headers[i].1.as_str().as_bytes());
            proof {
                let hv = self.headers_view();
                lemma_headers_bytes_snoc(hv.subrange(0, i + 1));
                assert(hv.subrange(0, i + 1).drop_last() =~= hv.subrange(0, i as int));
                assert(hv.subrange(0, i + 1).last() == hv[i as int]);
                assert(msg@ =~= base + headers_bytes(hv.subrange(0, i + 1)));
            }
            i = i + 1;
        }
        proof {
            assert(self.headers_view().subrange(0, n as int) =~= self.headers_view());
        }
        match &self.body {
            Some(b) => append_bytes(&mut msg, b.as_str().as_bytes()),
            None => (),
        }
        proof {
            assert(msg@ =~= self.fingerprint_message());
        }
        sha256_hash(msg.as_slice())
    }
}

/// Appends a byte slice to a buffer.
#[verifier::loop_isolation(false)]
fn append_bytes(dst: &mut Vec<u8>, src: &[u8])
    ensures
        final(dst)@ == old(dst)@ + src@,
{
    let n = src.len();
    let mut i: usize = 0;
    proof {
        assert(dst@ =~= old(dst)@ + src@.take(0));
    }
    while i < n
        invariant
            i <= n,
            dst@ =~= old(dst)@ + src@.take(i as int),
        decreases n - i,
    {
        dst.push(src[i]);
        proof {
            assert(dst@ =~= old(dst)@ + src@.take(i + 1));
        }
        i = i + 1;
    }
    proof {
        assert(dst@ =~= old(dst)@ + src@);
    }
}

/// Two strictly sorted header lists with the same entries are the same
/// list.
proof fn lemma_sorted_same_elements(s1: Seq<(Seq<char>, Seq<char>)>, s2: Seq<(Seq<char>, Seq<char>)>)
    requires
        headers_sorted(s1),
        headers_sorted(s2),
        forall|p: (Seq<char>, Seq<char>)| s1.contains(p) <==> s2.contains(p),
    ensures
        s1 =~= s2,
    decreases s1.len(),
{
    if s1.len() == 0 {
        if s2.len() > 0 {
            assert(s2.contains(s2[0]));
            assert(s1.contains(s2[0]));
        }
    } else {
        assert(s1.contains(s1[0]));
        assert(s2.contains(s1[0]));
        let j = choose|j: int| 0 <= j < s2.len() && s2[j] == s1[0];
        if j > 0 {
            assert(lex_lt(s2[0].0, s2[j].0));
            assert(s2.contains(s2[0]));
            assert(s1.contains(s2[0]));
            let k = choose|k: int| 0 <= k < s1.len() && s1[k] == s2[0];
            if k == 0 {
                lemma_lex_irrefl(s2[0].0);
            } else {
                assert(lex_lt(s1[0].0, s1[k].0));
                lemma_lex_trans(s2[0].0, s2[j].0, s1[k].0);
                lemma_lex_irrefl(s2[0].0);
            }
            assert(false);
        }
        assert(s2[0] == s1[0]);
        let t1 = s1.subrange(1, s1.len() as int);
        let t2 = s2.subrange(1, s2.len() as int);
        assert forall|p: (Seq<char>, Seq<char>)| t1.contains(p) implies t2.contains(p) by {
            lemma_tail_member(s1, s2, p);
        }
        assert forall|p: (Seq<char>, Seq<char>)| t2.contains(p) implies t1.contains(p) by {
            lemma_tail_member(s2, s1, p);
        }
        lemma_sorted_same_elements(t1, t2);
        assert(s1 =~= seq![s1[0]] + t1);
        assert(s2 =~= seq![s2[0]] + t2);
    }
}

/// An entry of one sorted list's tail, shared between two sorted lists with
/// equal heads, lies in the other list's tail too.
proof fn lemma_tail_member(
    a: Seq<(Seq<char>, Seq<char>)>,
    b: Seq<(Seq<char>, Seq<char>)>,
    p: (Seq<char>, Seq<char>),
)
    requires
        headers_sorted(a),
        headers_sorted(b),
        a.len() > 0,
        b.len() > 0,
        a[0] == b[0],
        forall|q: (Seq<char>, Seq<char>)| a.contains(q) <==> b.contains(q),
        a.subrange(1, a.len() as int).contains(p),
    ensures
        b.subrange(1, b.len() as int).contains(p),
{
    let ta = a.subrange(1, a.len() as int);
    let ia = choose|i: int| 0 <= i < ta.len() && ta[i] == p;
    assert(a[ia + 1] == p);
    assert(lex_lt(a[0].0, p.0));
    assert(a.contains(p));
    assert(b.contains(p));
    let ib = choose|i: int| 0 <= i < b.len() && b[i] == p;
    if ib == 0 {
        lemma_lex_irrefl(p.0);
        assert(false);
    }
    assert(b.subrange(1, b.len() as int)[ib - 1] == p);
}

/// Fingerprint determinism: requests that agree on URL, method, body, and
/// the set of headers — in whatever order those headers were supplied —
/// carry the same fingerprint.
pub proof fn lemma_fingerprint_deterministic(r1: &ProxyRequest, r2: &ProxyRequest)
    requires
        r1.wf(),
        r2.wf(),
        r1.url@ == r2.url@,
        method_chars(r1.method) == method_chars(r2.method),
        opt_chars(r1.body) == opt_chars(r2.body),
        forall|p: (Seq<char>, Seq<char>)| r1.headers_view().contains(p) <==> r2.headers_view().contains(p),
    ensures
        r1.fingerprint_of() == r2.fingerprint_of(),
{
    lemma_sorted_same_elements(r1.headers_view(), r2.headers_view());
}


/// The outbound methods the fetch pipeline allows.
#[derive(Clone, Copy, PartialEq, Eq, Structural, Debug)]
pub enum HttpMethod {
    Get,
    Post,
    Put,
}

/// A character mapped to uppercase within ASCII; anything else unchanged.
pub open spec fn to_upper_char(c: char) -> char {
    if 'a' <= c <= 'z' {
        (((c as int) - 32) as u8) as char
    } else {
        c
    }
}

/// A string mapped to uppercase within ASCII, character by character.
pub open spec fn upper_ascii(s: Seq<char>) -> Seq<char> {
    s.map(|_i: int, c: char| to_upper_char(c))
}

/// Resolves a request's method against the allow-list: GET, POST and PUT
/// (in any letter case, GET when absent) pass; anything else is refused
/// without any network call being made.
#[verifier::loop_isolation(false)]
pub fn parse_http_method(method: &Option<String>) -> (r: Result<HttpMethod, String>)
    ensures
        upper_ascii(method_chars(*method)) == "GET"@ ==> r == Ok::<HttpMethod, String>(
            HttpMethod::Get,
        ),
        upper_ascii(method_chars(*method)) == "POST"@ ==> r == Ok::<HttpMethod, String>(
            HttpMethod::Post,
        ),
        upper_ascii(method_chars(*method)) == "PUT"@ ==> r == Ok::<HttpMethod, String>(
            HttpMethod::Put,
        ),
        upper_ascii(method_chars(*method)) != "GET"@ && upper_ascii(method_chars(*method))
            != "POST"@ && upper_ascii(method_chars(*method)) != "PUT"@ ==> (r matches Err(m) && m@
            == "Unsupported HTTP method"@),
{
    let named: &str = match method {
        Some(m) => m.as_str(),
        None => "GET",
    };
    let upper = upper_ascii_string(named);
    proof {
        reveal_strlit("GET");
        reveal_strlit("POST");
        reveal_strlit("PUT");
        assert("GET"@.len() == 3);
        assert("POST"@.len() == 4);
        assert("PUT"@.len() == 3);
        assert("GET"@[0] == 'G');
        assert("PUT"@[0] == 'P');
    }
    if str_eq(upper.as_str(), "GET") {
        Ok(HttpMethod::Get)
    } else if str_eq(upper.as_str(), "POST") {
        Ok(HttpMethod::Post)
    } else if str_eq(upper.as_str(), "PUT") {
        Ok(HttpMethod::Put)
    } else {
        Err(String::from_str("Unsupported HTTP method"))
    }
}

/// Maps a string to uppercase within ASCII.
#[verifier::loop_isolation(false)]
fn upper_ascii_string(s: &str) -> (r: String)
    ensures
        r@ == upper_ascii(s@),
{
    let n = s.unicode_len();
    let mut out = String::new();
    let mut i: usize = 0;
    while i < n
        invariant
            i <= n,
            out@ =~= upper_ascii(s@).take(i as int),
        decreases n - i,
    {
        let c = s.get_char(i);
        let u: char = if 'a' <= c && c <= 'z' {
            ((c as u8) - 32) as char
        } else {
            c
        };
        push_char(&mut out, u);
        proof {
            assert(out@ =~= upper_ascii(s@).take(i + 1));
        }
        i = i + 1;
    }
    proof {
        assert(out@ =~= upper_ascii(s@));
    }
    out
}

} // verus!
