//! The content-addressed blob store. Bytes are keyed by a 16-hex-digit
//! prefix of their SHA-256 digest; identical content is stored once, and a
//! repeated upload only refreshes the blob's modification time. A sweep
//! deletes blobs whose modification time has fallen behind a cutoff.
//!
//! The store is modelled as a sequence of `(identifier, content, mtime)`
//! triples; every operation's contract is stated over that model.

use crate::crypto::{sha256_hash, sha256_of, sha256_short_hash};
use crate::hex::hex_of;
use crate::httputil::{valid_hash_format, validate_hash_format};
use crate::models::{AppError, FileMeta};
use crate::text::{str_eq, u64_to_string};
use vstd::prelude::*;
use vstd::string::{StrSliceExecFns, StringExecFns};

verus! {

/// The identifier a byte string is stored under: the first 16 hex digits of
/// its SHA-256 digest.
pub open spec fn identifier_of(data: Seq<u8>) -> Seq<char> {
    hex_of(sha256_of(data)).take(16)
}

/// Whether some blob in `s` has identifier `id`.
pub open spec fn store_contains(s: Seq<(Seq<char>, Seq<u8>, int)>, id: Seq<char>) -> bool {
    exists|i: int| 0 <= i < s.len() && #[trigger] s[i].0 == id
}

/// The first blob in `s` with identifier `id`, if any.
pub open spec fn store_find(s: Seq<(Seq<char>, Seq<u8>, int)>, id: Seq<char>) -> Option<
    (Seq<char>, Seq<u8>, int),
>
    decreases s.len(),
{
    if s.len() == 0 {
        None
    } else if s[0].0 == id {
        Some(s[0])
    } else {
        store_find(s.subrange(1, s.len() as int), id)
    }
}

/// The store after `data` is put at time `now`: a blob that already carries
/// the content's identifier has its modification time refreshed; otherwise
/// the content is appended as a new blob.
pub open spec fn store_put(s: Seq<(Seq<char>, Seq<u8>, int)>, data: Seq<u8>, now: int) -> Seq<
    (Seq<char>, Seq<u8>, int),
> {
    let id = identifier_of(data);
    if store_contains(s, id) {
        Seq::new(
            s.len(),
            |i: int|
                if s[i].0 == id {
                    (s[i].0, s[i].1, now)
                } else {
                    s[i]
                },
        )
    } else {
        s.push((id, data, now))
    }
}

/// The store after a sweep with the given cutoff: exactly the blobs whose
/// modification time is at or after the cutoff, in their original order.
pub open spec fn store_swept(s: Seq<(Seq<char>, Seq<u8>, int)>, cutoff: int) -> Seq<
    (Seq<char>, Seq<u8>, int),
>
    decreases s.len(),
{
    if s.len() == 0 {
        Seq::empty()
    } else if s[0].2 >= cutoff {
        seq![s[0]] + store_swept(s.subrange(1, s.len() as int), cutoff)
    } else {
        store_swept(s.subrange(1, s.len() as int), cutoff)
    }
}

/// The sweep cutoff for a retention window of `days` days, clamped at zero.
pub open spec fn sweep_cutoff(now: int, days: int) -> int {
    if days * 86400 <= now {
        now - days * 86400
    } else {
        0
    }
}

/// Distinct blobs never share an identifier.
pub open spec fn ids_unique(s: Seq<(Seq<char>, Seq<u8>, int)>) -> bool {
    forall|i: int, j: int| 0 <= i < j < s.len() ==> #[trigger] s[i].0 != #[trigger] s[j].0
}

/// Every blob is keyed by its own content's identifier and fits the ceiling.
pub open spec fn store_inv(s: Seq<(Seq<char>, Seq<u8>, int)>, max: int) -> bool {
    &&& ids_unique(s)
    &&& forall|i: int|
        0 <= i < s.len() ==> #[trigger] s[i].0 == identifier_of(s[i].1) && s[i].1.len() <= max
}

/// How many blobs in `s` carry identifier `id`.
pub open spec fn count_with_id(s: Seq<(Seq<char>, Seq<u8>, int)>, id: Seq<char>) -> int
    decreases s.len(),
{
    if s.len() == 0 {
        0
    } else {
        (if s[0].0 == id {
            1int
        } else {
            0int
        }) + count_with_id(s.subrange(1, s.len() as int), id)
    }
}

struct StoreEntry {
    identifier: String,
    content: Vec<u8>,
    modified_at: u64,
}

/// The blob store: one entry per distinct identifier, plus the size ceiling
/// enforced on every upload.
pub struct ContentStore {
    entries: Vec<StoreEntry>,
    max_size: usize,
}

spec fn entries_view(es: Seq<StoreEntry>) -> Seq<(Seq<char>, Seq<u8>, int)> {
    Seq::new(es.len(), |i: int| (es[i].identifier@, es[i].content@, es[i].modified_at as int))
}

impl View for ContentStore {
    type V = Seq<(Seq<char>, Seq<u8>, int)>;

    closed spec fn view(&self) -> Seq<(Seq<char>, Seq<u8>, int)> {
        entries_view(self.entries@)
    }
}

impl ContentStore {
    /// The configured upload ceiling, in bytes.
    pub closed spec fn spec_max(&self) -> usize {
        self.max_size
    }

    /// The store's invariant: blobs are keyed by their content and unique.
    pub open spec fn wf(&self) -> bool {
        store_inv(self@, self.spec_max() as int)
    }

    /// An empty store with the given upload ceiling.
    pub fn new(max_size: usize) -> (r: ContentStore)
        ensures
            r.wf(),
            r@ == Seq::<(Seq<char>, Seq<u8>, int)>::empty(),
            r.spec_max() == max_size,
    {
        let r = ContentStore { entries: Vec::new(), max_size };
        proof {
            assert(r@ =~= Seq::<(Seq<char>, Seq<u8>, int)>::empty());
        }
        r
    }

    /// How many distinct blobs the store holds.
    pub fn blob_count(&self) -> (r: usize)
        ensures
            r as int == self@.len(),
    {
        self.entries.len()
    }

    /// Stores `data` under the name the caller supplied. An empty filename
    /// is rejected; content over the ceiling is rejected with
    /// `PayloadTooLarge` and the store is left untouched. Otherwise the
    /// content is deduplicated into the store and its metadata returned.
    #[verifier::loop_isolation(false)]
    pub fn save_file_from_bytes(&mut self, filename: &str, data: Vec<u8>, now: u64) -> (r: Result<
        FileMeta,
        AppError,
    >)
        requires
            old(self).wf(),
        ensures
            final(self).wf(),
            final(self).spec_max() == old(self).spec_max(),
            filename@.len() == 0 ==> ((r matches Err(e) && e is UserError) && final(self)@ == old(
                self,
            )@),
            filename@.len() > 0 && data@.len() > old(self).spec_max() ==> ((r matches Err(e)
                && e is PayloadTooLarge) && final(self)@ == old(self)@),
            filename@.len() > 0 && data@.len() <= old(self).spec_max() ==> ((r matches Ok(m)
                && m.original_filename@ == filename@ && m.sha256_hash@ == hex_of(sha256_of(data@))
                && m.short_hash@ == identifier_of(data@) && valid_hash_format(m.short_hash@))
                && final(self)@ == store_put(old(self)@, data@, now as int)),
    {
        if filename.unicode_len() == 0 {
            return Err(AppError::UserError(String::from_str("Filename is empty")));
        }
        if data.len() > self.max_size {
            let mut msg = String::from_str("File size exceeds limit of ");
            let mb = u64_to_string((self.max_size / 1024 / 1024) as u64);
            msg.append(mb.as_str());
            msg.append(" MB");
            return Err(AppError::PayloadTooLarge(msg));
        }
        let full_hash = sha256_hash(data.as_slice());
        let short_hash = sha256_short_hash(data.as_slice());
        let ghost pre = self@;
        let ghost id = identifier_of(data@);
        let n = self.entries.len();
        let mut i: usize = 0;
        while i < n
            invariant
                i <= n,
                *self == *old(self),
                forall|j: int| 0 <= j < i ==> #[trigger] self@[j].0 != id,
            decreases n - i,
        {
            if str_eq(self.entries[i].identifier.as_str(), short_hash.as_str()) {
                proof {
                    assert(pre[i as int].0 == id);
                    assert(store_contains(pre, id));
                }
                let mut e = self.entries.remove(i);
                e.modified_at = now;
                self.entries.insert(i, e);
                proof {
                    assert forall|k: int| 0 <= k < pre.len() && k != i implies pre[k].0
                        != id by {
                        if k < i {
                        } else {
                            assert(pre[i as int].0 != pre[k].0);
                        }
                    }
                    assert(self@ =~~= store_put(pre, data@, now as int));
                    lemma_put_inv(pre, data@, now as int, self.spec_max() as int);
                }
                return Ok(
                    FileMeta {
                        original_filename: String::from_str(filename),
                        sha256_hash: full_hash,
                        short_hash,
                    },
                );
            }
            i = i + 1;
        }
        let identifier = short_hash.clone();
        self.entries.push(StoreEntry { identifier, content: data, modified_at: now });
        proof {
            assert(!store_contains(pre, id));
            assert(self@ =~~= store_put(pre, data@, now as int));
            lemma_put_inv(pre, data@, now as int, self.spec_max() as int);
        }
        Ok(
            FileMeta {
                original_filename: String::from_str(filename),
                sha256_hash: full_hash,
                short_hash,
            },
        )
    }

    /// Returns the bytes stored under `identifier`, or `NotFound` when the
    /// identifier is malformed or no blob carries it.
    #[verifier::loop_isolation(false)]
    pub fn get(&self, identifier: &str) -> (r: Result<Vec<u8>, AppError>)
        requires
            self.wf(),
        ensures
            !valid_hash_format(identifier@) ==> (r matches Err(e) && e is NotFound),
            valid_hash_format(identifier@) && store_find(self@, identifier@) is None ==> (
            r matches Err(e) && e is NotFound),
            valid_hash_format(identifier@) ==> (store_find(self@, identifier@) matches Some(b)
                ==> (r matches Ok(v) && v@ == b.1)),
    {
        if !validate_hash_format(identifier) {
            return Err(AppError::NotFound(String::from_str("Invalid file identifier")));
        }
        let n = self.entries.len();
        let mut i: usize = 0;
        while i < n
            invariant
                i <= n,
                forall|j: int| 0 <= j < i ==> #[trigger] self@[j].0 != identifier@,
            decreases n - i,
        {
            if str_eq(self.entries[i].identifier.as_str(), identifier) {
                let bytes = clone_bytes(&self.entries[i].content);
                proof {
                    assert(self@[i as int].0 == identifier@);
                    lemma_store_find_index(self@, identifier@, i as int);
                }
                return Ok(bytes);
            }
            i = i + 1;
        }
        proof {
            lemma_store_find_none(self@, identifier@);
        }
        Err(AppError::NotFound(String::from_str("File not found")))
    }

    /// Deletes every blob whose modification time lies before the cutoff
    /// for `days_threshold` days of retention, and reports how many went.
    #[verifier::loop_isolation(false)]
    pub fn cleanup_old_files(&mut self, now: u64, days_threshold: u64) -> (deleted: usize)
        requires
            old(self).wf(),
            days_threshold <= u64::MAX / 86400,
        ensures
            final(self).wf(),
            final(self).spec_max() == old(self).spec_max(),
            final(self)@ == store_swept(
                old(self)@,
                sweep_cutoff(now as int, days_threshold as int),
            ),
            deleted == old(self)@.len() - final(self)@.len(),
    {
        let secs = days_threshold * 86400;
        let cutoff: u64 = if secs <= now {
            now - secs
        } else {
            0
        };
        let ghost v0 = self@;
        let ghost spec_cutoff = sweep_cutoff(now as int, days_threshold as int);
        proof {
            assert(cutoff as int == spec_cutoff);
        }
        let mut pending: Vec<StoreEntry> = Vec::new();
        core::mem::swap(&mut self.entries, &mut pending);
        let total0 = pending.len();
        let mut deleted: usize = 0;
        proof {
            assert(self@ =~= Seq::<(Seq<char>, Seq<u8>, int)>::empty());
            assert(entries_view(pending@) =~= v0);
        }
        while pending.len() > 0
            invariant
                self.spec_max() == old(self).spec_max(),
                store_swept(v0, spec_cutoff) =~= self@ + store_swept(
                    entries_view(pending@),
                    spec_cutoff,
                ),
                deleted + self@.len() + pending@.len() == total0 as int,
                total0 as int == v0.len(),
            decreases pending.len(),
        {
            let ghost pv = entries_view(pending@);
            let ghost sv = self@;
            let e = pending.remove(0);
            proof {
                assert(entries_view(pending@) =~= pv.subrange(1, pv.len() as int));
            }
            if e.modified_at >= cutoff {
                self.entries.push(e);
                proof {
                    assert(self@ =~= sv.push(pv[0]));
                    assert(store_swept(v0, spec_cutoff) =~= self@ + store_swept(
                        entries_view(pending@),
                        spec_cutoff,
                    ));
                }
            } else {
                deleted = deleted + 1;
            }
        }
        proof {
            assert(entries_view(pending@) =~= Seq::<(Seq<char>, Seq<u8>, int)>::empty());
            assert(self@ =~= store_swept(v0, spec_cutoff));
            lemma_swept_inv(v0, spec_cutoff, self.spec_max() as int);
        }
        deleted
    }
}

/// A streamed upload in progress: bytes arrive chunk by chunk, and the size
/// ceiling is enforced as soon as it is crossed, before anything is
/// committed to the store.
pub struct UploadSink {
    data: Vec<u8>,
    max_size: usize,
}

impl View for UploadSink {
    type V = Seq<u8>;

    closed spec fn view(&self) -> Seq<u8> {
        self.data@
    }
}

impl UploadSink {
    /// The ceiling this sink enforces, in bytes.
    pub closed spec fn spec_max(&self) -> usize {
        self.max_size
    }

    /// An empty sink enforcing the given ceiling.
    pub fn new(max_size: usize) -> (r: UploadSink)
        ensures
            r@ == Seq::<u8>::empty(),
            r.spec_max() == max_size,
    {
        UploadSink { data: Vec::new(), max_size }
    }

    /// Accepts one chunk of the stream. As soon as the accumulated size
    /// exceeds the ceiling the chunk is refused with `PayloadTooLarge` and
    /// the sink keeps what it had.
    #[verifier::loop_isolation(false)]
    pub fn push_chunk(&mut self, chunk: &[u8]) -> (r: Result<(), AppError>)
        requires
            old(self)@.len() + chunk@.len() <= usize::MAX,
        ensures
            final(self).spec_max() == old(self).spec_max(),
            old(self)@.len() + chunk@.len() > old(self).spec_max() ==> ((r matches Err(e)
                && e is PayloadTooLarge) && final(self)@ == old(self)@),
            old(self)@.len() + chunk@.len() <= old(self).spec_max() ==> (r is Ok && final(self)@
                == old(self)@ + chunk@),
    {
        if chunk.len() > self.max_size || self.data.len() > self.max_size - chunk.len() {
            let mut msg = String::from_str("File size exceeds limit of ");
            let mb = u64_to_string((self.max_size / 1024 / 1024) as u64);
            msg.append(mb.as_str());
            msg.append(" MB");
            return Err(AppError::PayloadTooLarge(msg));
        }
        let n = chunk.len();
        let mut i: usize = 0;
        while i < n
            invariant
                i <= n,
                self.data@ =~= old(self)@ + chunk@.take(i as int),
                self.max_size == old(self).spec_max(),
            decreases n - i,
        {
            self.data.push(chunk[i]);
            proof {
                assert(self.data@ =~= old(self)@ + chunk@.take(i + 1));
            }
            i = i + 1;
        }
        proof {
            assert(self.data@ =~= old(self)@ + chunk@);
        }
        Ok(())
    }

    /// Commits the streamed bytes to the store under the caller's filename,
    /// with the same outcome as storing them in one piece.
    pub fn finish(self, store: &mut ContentStore, filename: &str, now: u64) -> (r: Result<
        FileMeta,
        AppError,
    >)
        requires
            old(store).wf(),
        ensures
            final(store).wf(),
            final(store).spec_max() == old(store).spec_max(),
            filename@.len() == 0 ==> ((r matches Err(e) && e is UserError) && final(store)@ == old(
                store,
            )@),
            filename@.len() > 0 && self@.len() > old(store).spec_max() ==> ((r matches Err(e)
                && e is PayloadTooLarge) && final(store)@ == old(store)@),
            filename@.len() > 0 && self@.len() <= old(store).spec_max() ==> ((r matches Ok(m)
                && m.original_filename@ == filename@ && m.sha256_hash@ == hex_of(sha256_of(self@))
                && m.short_hash@ == identifier_of(self@) && valid_hash_format(m.short_hash@))
                && final(store)@ == store_put(old(store)@, self@, now as int)),
    {
        store.save_file_from_bytes(filename, self.data, now)
    }
}

fn clone_bytes(v: &Vec<u8>) -> (r: Vec<u8>)
    ensures
        r@ == v@,
{
    let mut r: Vec<u8> = Vec::new();
    let n = v.len();
    let mut i: usize = 0;
    while i < n
        invariant
            n == v@.len(),
            i <= n,
            r@ =~= v@.take(i as int),
        decreases n - i,
    {
        r.push(v[i]);
        proof {
            assert(r@ =~= v@.take(i + 1));
        }
        i = i + 1;
    }
    proof {
        assert(r@ =~= v@);
    }
    r
}

/// Finding by identifier returns the first index that carries it.
proof fn lemma_store_find_index(s: Seq<(Seq<char>, Seq<u8>, int)>, id: Seq<char>, i: int)
    requires
        0 <= i < s.len(),
        s[i].0 == id,
        forall|j: int| 0 <= j < i ==> #[trigger] s[j].0 != id,
    ensures
        store_find(s, id) == Some(s[i]),
    decreases i,
{
    if i > 0 {
        lemma_store_find_index(s.subrange(1, s.len() as int), id, i - 1);
    }
}

/// When no blob carries the identifier, finding it yields nothing.
proof fn lemma_store_find_none(s: Seq<(Seq<char>, Seq<u8>, int)>, id: Seq<char>)
    requires
        forall|j: int| 0 <= j < s.len() ==> #[trigger] s[j].0 != id,
    ensures
        store_find(s, id) is None,
    decreases s.len(),
{
    if s.len() > 0 {
        lemma_store_find_none(s.subrange(1, s.len() as int), id);
    }
}

/// Putting content cannot duplicate an identifier.
proof fn lemma_put_unique(s: Seq<(Seq<char>, Seq<u8>, int)>, data: Seq<u8>, now: int)
    requires
        ids_unique(s),
    ensures
        ids_unique(store_put(s, data, now)),
{
    let id = identifier_of(data);
    let p = store_put(s, data, now);
    if store_contains(s, id) {
        assert forall|i: int, j: int| 0 <= i < j < p.len() implies #[trigger] p[i].0
            != #[trigger] p[j].0 by {
            assert(s[i].0 != s[j].0);
        }
    }
}

/// Putting content preserves the store invariant.
proof fn lemma_put_inv(s: Seq<(Seq<char>, Seq<u8>, int)>, data: Seq<u8>, now: int, max: int)
    requires
        store_inv(s, max),
        data.len() <= max,
    ensures
        store_inv(store_put(s, data, now), max),
{
    let id = identifier_of(data);
    let p = store_put(s, data, now);
    lemma_put_unique(s, data, now);
    if store_contains(s, id) {
        assert forall|i: int| 0 <= i < p.len() implies #[trigger] p[i].0 == identifier_of(p[i].1)
            && p[i].1.len() <= max by {
            assert(s[i].0 == identifier_of(s[i].1));
        }
    }
}

/// Everything that survives a sweep was in the store before it.
proof fn lemma_swept_sub(s: Seq<(Seq<char>, Seq<u8>, int)>, cutoff: int)
    ensures
        forall|e: (Seq<char>, Seq<u8>, int)|
            #[trigger] store_swept(s, cutoff).contains(e) ==> s.contains(e),
    decreases s.len(),
{
    if s.len() > 0 {
        let tail = s.subrange(1, s.len() as int);
        lemma_swept_sub(tail, cutoff);
        assert forall|e: (Seq<char>, Seq<u8>, int)|
            #[trigger] store_swept(s, cutoff).contains(e) implies s.contains(e) by {
            if tail.contains(e) {
                let k = choose|k: int| 0 <= k < tail.len() && tail[k] == e;
                assert(s[k + 1] == e);
            } else {
                let sw = store_swept(s, cutoff);
                if s[0].2 >= cutoff {
                    let k = choose|k: int| 0 <= k < sw.len() && sw[k] == e;
                    if k == 0 {
                        assert(s[0] == e);
                    } else {
                        assert(store_swept(tail, cutoff)[k - 1] == e);
                        assert(store_swept(tail, cutoff).contains(e));
                    }
                } else {
                    assert(store_swept(tail, cutoff).contains(e));
                }
            }
        }
    }
}

/// A sweep preserves the store invariant.
proof fn lemma_swept_inv(s: Seq<(Seq<char>, Seq<u8>, int)>, cutoff: int, max: int)
    requires
        store_inv(s, max),
    ensures
        store_inv(store_swept(s, cutoff), max),
    decreases s.len(),
{
    if s.len() > 0 {
        let tail = s.subrange(1, s.len() as int);
        assert(store_inv(tail, max));
        lemma_swept_inv(tail, cutoff, max);
        lemma_swept_sub(tail, cutoff);
        let sw = store_swept(s, cutoff);
        if s[0].2 >= cutoff {
            let swt = store_swept(tail, cutoff);
            assert forall|i: int, j: int| 0 <= i < j < sw.len() implies #[trigger] sw[i].0
                != #[trigger] sw[j].0 by {
                if i == 0 {
                    assert(swt.contains(swt[j - 1]));
                    let k = choose|k: int| 0 <= k < tail.len() && tail[k] == swt[j - 1];
                    assert(s[k + 1] == swt[j - 1]);
                    assert(s[0].0 != s[k + 1].0);
                } else {
                    assert(swt[i - 1].0 != swt[j - 1].0);
                }
            }
            assert forall|i: int| 0 <= i < sw.len() implies #[trigger] sw[i].0 == identifier_of(
                sw[i].1,
            ) && sw[i].1.len() <= max by {
                assert(sw =~= seq![s[0]] + swt);
                if i == 0 {
                    assert(sw[0] == s[0]);
                    assert(s[0].0 == identifier_of(s[0].1) && s[0].1.len() <= max);
                } else {
                    assert(sw[i] == swt[i - 1]);
                    assert(store_inv(swt, max));
                    assert(swt[i - 1].0 == identifier_of(swt[i - 1].1) && swt[i - 1].1.len()
                        <= max);
                }
            }
        }
    }
}

/// Round trip: after content is put, its identifier finds exactly that
/// content (and the refreshed modification time), provided no other stored
/// blob collides with the content's identifier.
pub proof fn lemma_round_trip(s: Seq<(Seq<char>, Seq<u8>, int)>, data: Seq<u8>, now: int)
    requires
        ids_unique(s),
        forall|i: int|
            0 <= i < s.len() && #[trigger] s[i].0 == identifier_of(data) ==> s[i].1 == data,
    ensures
        store_find(store_put(s, data, now), identifier_of(data)) == Some(
            (identifier_of(data), data, now),
        ),
{
    let id = identifier_of(data);
    let p = store_put(s, data, now);
    if store_contains(s, id) {
        let i = choose|i: int| 0 <= i < s.len() && #[trigger] s[i].0 == id;
        assert(p[i] == (id, data, now));
        assert forall|j: int| 0 <= j < i implies #[trigger] p[j].0 != id by {
            assert(s[j].0 != s[i].0);
        }
        lemma_store_find_index(p, id, i);
    } else {
        assert forall|j: int| 0 <= j < s.len() implies #[trigger] p[j].0 != id by {
            assert(!(0 <= j < s.len() && s[j].0 == id));
        }
        assert(p[s.len() as int] == (id, data, now));
        lemma_store_find_index(p, id, s.len() as int);
    }
}

/// A store with unique identifiers that contains an identifier holds
/// exactly one blob under it.
proof fn lemma_unique_count(s: Seq<(Seq<char>, Seq<u8>, int)>, id: Seq<char>)
    requires
        ids_unique(s),
    ensures
        store_contains(s, id) ==> count_with_id(s, id) == 1,
        !store_contains(s, id) ==> count_with_id(s, id) == 0,
    decreases s.len(),
{
    if s.len() > 0 {
        let tail = s.subrange(1, s.len() as int);
        lemma_unique_count(tail, id);
        if s[0].0 == id {
            assert forall|j: int| 0 <= j < tail.len() implies #[trigger] tail[j].0 != id by {
                assert(s[0].0 != s[j + 1].0);
            }
            assert(!store_contains(tail, id));
        } else {
            if store_contains(s, id) {
                let i = choose|i: int| 0 <= i < s.len() && #[trigger] s[i].0 == id;
                assert(tail[i - 1].0 == id);
                assert(store_contains(tail, id));
            }
            if store_contains(tail, id) {
                let i = choose|i: int| 0 <= i < tail.len() && #[trigger] tail[i].0 == id;
                assert(s[i + 1].0 == id);
            }
        }
    }
}

/// Idempotent dedup: putting the same content twice leaves exactly one blob
/// under its identifier, and the second put adds nothing.
pub proof fn lemma_dedup_idempotent(
    s: Seq<(Seq<char>, Seq<u8>, int)>,
    data: Seq<u8>,
    now1: int,
    now2: int,
)
    requires
        ids_unique(s),
        forall|i: int| 0 <= i < s.len() ==> #[trigger] s[i].0 == identifier_of(s[i].1),
    ensures
        count_with_id(store_put(s, data, now1), identifier_of(data)) == 1,
        store_put(store_put(s, data, now1), data, now2).len() == store_put(s, data, now1).len(),
        count_with_id(store_put(store_put(s, data, now1), data, now2), identifier_of(data)) == 1,
{
    let id = identifier_of(data);
    let s1 = store_put(s, data, now1);
    lemma_put_unique(s, data, now1);
    if store_contains(s, id) {
        let i = choose|i: int| 0 <= i < s.len() && #[trigger] s[i].0 == id;
        assert(s1[i].0 == id);
        assert(store_contains(s1, id));
    } else {
        assert(s1[s.len() as int].0 == id);
        assert(store_contains(s1, id));
    }
    lemma_unique_count(s1, id);
    let s2 = store_put(s1, data, now2);
    assert(s2.len() == s1.len());
    lemma_put_unique(s1, data, now2);
    let i = choose|i: int| 0 <= i < s1.len() && #[trigger] s1[i].0 == id;
    assert(s2[i].0 == id);
    assert(store_contains(s2, id));
    lemma_unique_count(s2, id);
}

/// Retention: a sweep deletes a blob whose modification time lies before
/// the cutoff and keeps one whose time is at or after it.
pub proof fn lemma_retention(s: Seq<(Seq<char>, Seq<u8>, int)>, cutoff: int, id: Seq<char>)
    requires
        ids_unique(s),
    ensures
        (store_find(s, id) matches Some(e) ==> (e.2 >= cutoff ==> store_find(
            store_swept(s, cutoff),
            id,
        ) == Some(e)) && (e.2 < cutoff ==> store_find(store_swept(s, cutoff), id) is None)),
    decreases s.len(),
{
    if s.len() > 0 && store_find(s, id) is Some {
        let tail = s.subrange(1, s.len() as int);
        lemma_retention(tail, cutoff, id);
        let sw = store_swept(s, cutoff);
        if s[0].0 == id {
            let e = s[0];
            if e.2 >= cutoff {
                assert(sw == seq![e] + store_swept(tail, cutoff));
                assert(sw[0] == e);
            } else {
                assert(sw == store_swept(tail, cutoff));
                assert forall|j: int| 0 <= j < tail.len() implies #[trigger] tail[j].0 != id by {
                    assert(s[0].0 != s[j + 1].0);
                }
                lemma_swept_sub(tail, cutoff);
                assert forall|j: int| 0 <= j < sw.len() implies #[trigger] sw[j].0 != id by {
                    assert(sw.contains(sw[j]));
                    let k = choose|k: int| 0 <= k < tail.len() && tail[k] == sw[j];
                }
                lemma_store_find_none(sw, id);
            }
        } else {
            assert(store_find(s, id) == store_find(tail, id));
            if s[0].2 >= cutoff {
                assert(sw == seq![s[0]] + store_swept(tail, cutoff));
                assert(sw[0].0 != id);
                assert(sw.subrange(1, sw.len() as int) =~= store_swept(tail, cutoff));
            } else {
                assert(sw == store_swept(tail, cutoff));
            }
        }
    }
}

} // verus!
