//! The fingerprint cache: request fingerprint → the job most recently
//! created for it, with a time-to-live and a capacity bound. When the bound
//! is reached the entry that has sat there longest is evicted.

use crate::text::str_eq;
use vstd::prelude::*;

verus! {

struct CacheEntry {
    fingerprint: String,
    job_id: u64,
    inserted_at: u64,
}

/// The cache, modelled as a sequence of `(fingerprint, job id, inserted
/// at)` triples with pairwise distinct fingerprints.
pub struct FingerprintCache {
    entries: Vec<CacheEntry>,
    ttl_seconds: u64,
    max_capacity: u64,
}

spec fn cache_entries_view(es: Seq<CacheEntry>) -> Seq<(Seq<char>, u64, int)> {
    Seq::new(es.len(), |i: int| (es[i].fingerprint@, es[i].job_id, es[i].inserted_at as int))
}

impl View for FingerprintCache {
    type V = Seq<(Seq<char>, u64, int)>;

    closed spec fn view(&self) -> Seq<(Seq<char>, u64, int)> {
        cache_entries_view(self.entries@)
    }
}

/// The first entry in `s` with fingerprint `fp`, if any.
pub open spec fn cache_find(s: Seq<(Seq<char>, u64, int)>, fp: Seq<char>) -> Option<
    (Seq<char>, u64, int),
>
    decreases s.len(),
{
    if s.len() == 0 {
        None
    } else if s[0].0 == fp {
        Some(s[0])
    } else {
        cache_find(s.subrange(1, s.len() as int), fp)
    }
}

/// An entry is live at `now` while its age is under the time-to-live.
pub open spec fn cache_live(e: (Seq<char>, u64, int), now: int, ttl: int) -> bool {
    now < e.2 + ttl
}

/// Distinct entries never share a fingerprint.
pub open spec fn cache_fps_unique(s: Seq<(Seq<char>, u64, int)>) -> bool {
    forall|i: int, j: int| 0 <= i < j < s.len() ==> #[trigger] s[i].0 != #[trigger] s[j].0
}

/// The first index of an entry whose insertion time is minimal: the one an
/// over-full cache evicts.
pub open spec fn oldest_index(s: Seq<(Seq<char>, u64, int)>) -> int
    decreases s.len(),
{
    if s.len() <= 1 {
        0
    } else {
        let rest = oldest_index(s.subrange(1, s.len() as int));
        if s[0].2 <= s[rest + 1].2 {
            0
        } else {
            rest + 1
        }
    }
}

impl FingerprintCache {
    /// The configured time-to-live, in seconds.
    pub closed spec fn spec_ttl(&self) -> u64 {
        self.ttl_seconds
    }

    /// The configured capacity bound.
    pub closed spec fn spec_capacity(&self) -> u64 {
        self.max_capacity
    }

    /// Fingerprints are unique and the size respects the bound.
    pub open spec fn wf(&self) -> bool {
        &&& cache_fps_unique(self@)
        &&& self@.len() <= (if self.spec_capacity() == 0 {
            1int
        } else {
            self.spec_capacity() as int
        })
    }

    /// An empty cache with the given time-to-live and capacity bound.
    pub fn new(ttl_seconds: u64, max_capacity: u64) -> (r: FingerprintCache)
        ensures
            r.wf(),
            r@ == Seq::<(Seq<char>, u64, int)>::empty(),
            r.spec_ttl() == ttl_seconds,
            r.spec_capacity() == max_capacity,
    {
        let r = FingerprintCache { entries: Vec::new(), ttl_seconds, max_capacity };
        proof {
            assert(r@ =~= Seq::<(Seq<char>, u64, int)>::empty());
        }
        r
    }

    /// The job id cached under `fp`, provided the entry is still live at
    /// `now`; an expired or missing entry yields nothing.
    #[verifier::loop_isolation(false)]
    pub fn get(&self, fp: &str, now: u64) -> (r: Option<u64>)
        requires
            self.wf(),
        ensures
            r == match cache_find(self@, fp@) {
                Some(e) => if cache_live(e, now as int, self.spec_ttl() as int) {
                    Some(e.1)
                } else {
                    None::<u64>
                },
                None => None::<u64>,
            },
    {
        let n = self.entries.len();
        let mut i: usize = 0;
        while i < n
            invariant
                i <= n,
                forall|j: int| 0 <= j < i ==> #[trigger] self@[j].0 != fp@,
            decreases n - i,
        {
            if str_eq(self.entries[i].fingerprint.as_str(), fp) {
                proof {
                    lemma_cache_find_index(self@, fp@, i as int);
                }
                let e = &self.entries[i];
                let live = if now < e.inserted_at {
                    true
                } else {
                    now - e.inserted_at < self.ttl_seconds
                };
                if live {
                    return Some(e.job_id);
                }
                return None;
            }
            i = i + 1;
        }
        proof {
            lemma_cache_find_none(self@, fp@);
        }
        None
    }

    /// Caches `job_id` under `fp` at time `now`. An entry already carrying
    /// `fp` is overwritten in place; otherwise the entry is appended, after
    /// evicting the longest-seated entry if the cache is full.
    #[verifier::loop_isolation(false)]
    pub fn insert(&mut self, fp: String, job_id: u64, now: u64)
        requires
            old(self).wf(),
        ensures
            final(self).wf(),
            final(self).spec_ttl() == old(self).spec_ttl(),
            final(self).spec_capacity() == old(self).spec_capacity(),
            cache_find(old(self)@, fp@) is Some ==> final(self)@ == Seq::new(
                old(self)@.len(),
                |i: int|
                    if old(self)@[i].0 == fp@ {
                        (fp@, job_id, now as int)
                    } else {
                        old(self)@[i]
                    },
            ),
            cache_find(old(self)@, fp@) is None && old(self)@.len() < old(self).spec_capacity()
                ==> final(self)@ == old(self)@.push((fp@, job_id, now as int)),
            cache_find(old(self)@, fp@) is None && old(self)@.len() >= old(self).spec_capacity()
                && old(self)@.len() > 0 ==> final(self)@ == old(self)@.remove(
                oldest_index(old(self)@),
            ).push((fp@, job_id, now as int)),
            cache_find(old(self)@, fp@) is None && old(self)@.len() == 0 ==> final(self)@
                == old(self)@.push((fp@, job_id, now as int)),
            cache_find(final(self)@, fp@) == Some((fp@, job_id, now as int)),
    {
        let ghost pre = self@;
        let n = self.entries.len();
        let mut i: usize = 0;
        while i < n
            invariant
                i <= n,
                *self == *old(self),
                forall|j: int| 0 <= j < i ==> #[trigger] self@[j].0 != fp@,
            decreases n - i,
        {
            if str_eq(self.entries[i].fingerprint.as_str(), fp.as_str()) {
                proof {
                    lemma_cache_find_index(pre, fp@, i as int);
                }
                let _ = self.entries.remove(i);
                self.entries.insert(i, CacheEntry { fingerprint: fp, job_id, inserted_at: now });
                proof {
                    assert forall|k: int| 0 <= k < pre.len() && k != i implies pre[k].0
                        != fp@ by {
                        if k >= i {
                            assert(pre[i as int].0 != pre[k].0);
                        }
                    }
                    assert(self@ =~~= Seq::new(
                        pre.len(),
                        |k: int|
                            if pre[k].0 == fp@ {
                                (fp@, job_id, now as int)
                            } else {
                                pre[k]
                            },
                    ));
                    assert(self@[i as int].0 == fp@);
                    lemma_cache_find_index(self@, fp@, i as int);
                }
                return ;
            }
            i = i + 1;
        }
        proof {
            lemma_cache_find_none(pre, fp@);
        }
        if self.entries.len() as u64 >= self.max_capacity && self.entries.len() > 0 {
            let evict = self.oldest_entry_index();
            let _ = self.entries.remove(evict);
            proof {
                assert(self@ =~~= pre.remove(oldest_index(pre)));
            }
        }
        let ghost mid = self@;
        self.entries.push(CacheEntry { fingerprint: fp, job_id, inserted_at: now });
        proof {
            assert(self@ =~~= mid.push((fp@, job_id, now as int)));
            assert forall|k: int| 0 <= k < mid.len() implies #[trigger] mid[k].0 != fp@ by {
                if mid == pre {
                    assert(pre[k].0 != fp@);
                } else {
                    lemma_remove_keeps(pre, oldest_index(pre), k);
                }
            }
            lemma_cache_find_last(self@, fp@);
            assert forall|a: int, b: int| 0 <= a < b < self@.len() implies #[trigger] self@[a].0
                != #[trigger] self@[b].0 by {
                if b < mid.len() {
                    if mid == pre {
                    } else {
                        lemma_remove_pair(pre, oldest_index(pre), a, b);
                    }
                } else {
                    assert(self@[b].0 == fp@);
                    assert(mid[a].0 != fp@);
                }
            }
        }
    }

    /// The index of the entry an eviction removes.
    #[verifier::loop_isolation(false)]
    fn oldest_entry_index(&self) -> (r: usize)
        requires
            self@.len() > 0,
        ensures
            r as int == oldest_index(self@),
            r < self@.len(),
    {
        let n = self.entries.len();
        let mut best: usize = 0;
        let mut i: usize = 1;
        while i < n
            invariant
                best < i <= n,
                best as int == oldest_index(self@.subrange(0, i as int)),
                self@[best as int].2 == self.entries@[best as int].inserted_at as int,
            decreases n - i,
        {
            proof {
                lemma_oldest_extend(self@, i as int);
            }
            if self.entries[i].inserted_at < self.entries[best].inserted_at {
                best = i;
            }
            i = i + 1;
        }
        proof {
            assert(self@.subrange(0, n as int) =~= self@);
        }
        best
    }
}

/// Finding by fingerprint returns the first index that carries it.
proof fn lemma_cache_find_index(s: Seq<(Seq<char>, u64, int)>, fp: Seq<char>, i: int)
    requires
        0 <= i < s.len(),
        s[i].0 == fp,
        forall|j: int| 0 <= j < i ==> #[trigger] s[j].0 != fp,
    ensures
        cache_find(s, fp) == Some(s[i]),
    decreases i,
{
    if i > 0 {
        lemma_cache_find_index(s.subrange(1, s.len() as int), fp, i - 1);
    }
}

/// When no entry carries the fingerprint, finding it yields nothing.
proof fn lemma_cache_find_none(s: Seq<(Seq<char>, u64, int)>, fp: Seq<char>)
    requires
        forall|j: int| 0 <= j < s.len() ==> #[trigger] s[j].0 != fp,
    ensures
        cache_find(s, fp) is None,
    decreases s.len(),
{
    if s.len() > 0 {
        lemma_cache_find_none(s.subrange(1, s.len() as int), fp);
    }
}

/// A fingerprint carried only by the last entry is found there.
proof fn lemma_cache_find_last(s: Seq<(Seq<char>, u64, int)>, fp: Seq<char>)
    requires
        s.len() > 0,
        s[s.len() - 1].0 == fp,
        forall|j: int| 0 <= j < s.len() - 1 ==> #[trigger] s[j].0 != fp,
    ensures
        cache_find(s, fp) == Some(s[s.len() - 1]),
{
    lemma_cache_find_index(s, fp, s.len() - 1);
}

/// Removing one entry keeps every other entry's fingerprint.
proof fn lemma_remove_keeps(s: Seq<(Seq<char>, u64, int)>, at: int, k: int)
    requires
        0 <= at < s.len(),
        0 <= k < s.len() - 1,
    ensures
        exists|j: int| 0 <= j < s.len() && #[trigger] s[j] == s.remove(at)[k],
{
    if k < at {
        assert(s[k] == s.remove(at)[k]);
    } else {
        assert(s[k + 1] == s.remove(at)[k]);
    }
}

/// Removal preserves pairwise distinct fingerprints.
proof fn lemma_remove_pair(s: Seq<(Seq<char>, u64, int)>, at: int, a: int, b: int)
    requires
        cache_fps_unique(s),
        0 <= at < s.len(),
        0 <= a < b < s.len() - 1,
    ensures
        s.remove(at)[a].0 != s.remove(at)[b].0,
{
    let sa: int = if a < at {
        a
    } else {
        a + 1
    };
    let sb: int = if b < at {
        b
    } else {
        b + 1
    };
    assert(s.remove(at)[a] == s[sa]);
    assert(s.remove(at)[b] == s[sb]);
    assert(s[sa].0 != s[sb].0);
}

/// The oldest index lies within the sequence.
proof fn lemma_oldest_bound(s: Seq<(Seq<char>, u64, int)>)
    requires
        s.len() > 0,
    ensures
        0 <= oldest_index(s) < s.len(),
    decreases s.len(),
{
    if s.len() > 1 {
        lemma_oldest_bound(s.subrange(1, s.len() as int));
    }
}

/// Extending a prefix by one entry moves the oldest index only if the new
/// entry is strictly older.
proof fn lemma_oldest_extend(s: Seq<(Seq<char>, u64, int)>, i: int)
    requires
        1 <= i < s.len(),
    ensures
        oldest_index(s.subrange(0, i)) < i,
        oldest_index(s.subrange(0, i + 1)) == if s[i].2 < s[oldest_index(s.subrange(0, i))].2 {
            i
        } else {
            oldest_index(s.subrange(0, i))
        },
    decreases i,
{
    let p = s.subrange(0, i + 1);
    let q = s.subrange(0, i);
    lemma_oldest_bound(q);
    lemma_oldest_bound(p);
    if i == 1 {
        assert(p.subrange(1, 2) =~= seq![s[1]]);
        assert(oldest_index(p.subrange(1, p.len() as int)) == 0);
        assert(oldest_index(q) == 0);
    } else {
        let pt = p.subrange(1, p.len() as int);
        let st = s.subrange(1, s.len() as int);
        assert(pt =~= st.subrange(0, i));
        assert(q.subrange(1, i) =~= st.subrange(0, i - 1));
        lemma_oldest_extend(st, i - 1);
        let roq = oldest_index(st.subrange(0, i - 1));
        lemma_oldest_bound(st.subrange(0, i - 1));
        assert(st[i - 1] == s[i]);
        assert(st[roq] == s[roq + 1]);
        assert(oldest_index(q) == if q[0].2 <= q[roq + 1].2 {
            0int
        } else {
            roq + 1
        });
        let rop = oldest_index(pt);
        lemma_oldest_bound(pt);
        assert(st[rop] == s[rop + 1]);
        assert(oldest_index(p) == if p[0].2 <= p[rop + 1].2 {
            0int
        } else {
            rop + 1
        });
        assert(rop == if st[i - 1].2 < st[roq].2 {
            i - 1
        } else {
            roq
        });
    }
}

} // verus!
