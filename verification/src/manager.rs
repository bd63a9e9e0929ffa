//! The fetch job manager. `submit` serves repeated requests from a
//! completed cached job, otherwise admits a new job against a bounded
//! concurrency pool — or rejects it outright; it never queues. The
//! remaining methods are the steps of the background pipeline: the job
//! moves forward through its states, its concurrency slot is released
//! exactly when it reaches a terminal state, and a completed job is put
//! back into the fingerprint cache for later reuse.

use crate::cache::{cache_find, cache_live, FingerprintCache};
use crate::fingerprint::ProxyRequest;
use crate::jobs::{
    active_count, lemma_active_count_nonneg, lemma_active_count_push, lemma_active_count_replace,
    lemma_reg_find_member, lemma_reg_find_replace, lemma_shaped_push, lemma_shaped_replace,
    records_shaped, reg_find, JobRegistry, JobState, JobStatus,
};
use crate::models::{surfaced_message_of, AppError};
use crate::store::{identifier_of, store_put, ContentStore};
use crate::text::{dec_str, u64_to_string};
use crate::urltext::{
    last_segment, percent_encoded, trim_end_slashes, trimmed_end_slashes, url_last_segment,
    urlencode,
};
use vstd::prelude::*;
use vstd::string::{StrSliceExecFns, StringExecFns, StringSliceAdditionalSpecFns};
use vstd::utf8::encode_utf8;

verus! {

/// What a submitted fetch returns: the job to poll and where to poll it.
pub struct ProxyResponse {
    pub job_id: u64,
    pub status_url: String,
}

/// The URL a caller polls for a job's status.
pub open spec fn status_url_chars(base: Seq<char>, id: u64) -> Seq<char> {
    trimmed_end_slashes(base) + "/proxy/status/"@ + dec_str(id as nat)
}

/// The URL a completed job's content is retrieved from.
pub open spec fn download_url_chars(base: Seq<char>, short: Seq<char>, filename: Seq<char>) -> Seq<
    char,
> {
    trimmed_end_slashes(base) + "/download/"@ + short + "?filename="@ + percent_encoded(
        encode_utf8(filename),
    )
}

fn build_status_url(base: &str, id: u64) -> (r: String)
    ensures
        r@ == status_url_chars(base@, id),
{
    let mut s = trim_end_slashes(base);
    s.append("/proxy/status/");
    let d = u64_to_string(id);
    s.append(d.as_str());
    proof {
        assert(s@ =~= status_url_chars(base@, id));
    }
    s
}

fn build_download_url(base: &str, short: &str, filename: &str) -> (r: String)
    ensures
        r@ == download_url_chars(base@, short@, filename@),
{
    let mut s = trim_end_slashes(base);
    s.append("/download/");
    s.append(short);
    s.append("?filename=");
    let enc = urlencode(filename);
    s.append(enc.as_str());
    proof {
        assert(s@ =~= download_url_chars(base@, short@, filename@));
    }
    s
}

/// The fetch job manager: job registry, fingerprint cache, and the
/// concurrency pool that admits new jobs.
pub struct FetchManager {
    registry: JobRegistry,
    cache: FingerprintCache,
    slots_in_use: usize,
    max_concurrent_jobs: usize,
    base_url: String,
}

impl FetchManager {
    /// The job records, in creation order.
    pub closed spec fn jobs(&self) -> Seq<JobStatus> {
        self.registry@
    }

    /// The cache's `(fingerprint, job id, inserted at)` entries.
    pub closed spec fn cache_view(&self) -> Seq<(Seq<char>, u64, int)> {
        self.cache@
    }

    /// How many concurrency slots are taken.
    pub closed spec fn spec_slots(&self) -> usize {
        self.slots_in_use
    }

    /// The size of the concurrency pool.
    pub closed spec fn spec_pool(&self) -> usize {
        self.max_concurrent_jobs
    }

    /// The id the next admitted job will get.
    pub closed spec fn spec_next_id(&self) -> u64 {
        self.registry.spec_next_id()
    }

    /// The cache's time-to-live, in seconds.
    pub closed spec fn spec_ttl(&self) -> u64 {
        self.cache.spec_ttl()
    }

    /// The base under which status and download URLs are built.
    pub closed spec fn spec_base_url(&self) -> Seq<char> {
        self.base_url@
    }

    /// The registry and cache are well formed; the slots in use count
    /// exactly the jobs that are not yet terminal, never exceeding the
    /// pool; and every record carries its retrieval reference exactly when
    /// it completed and its error exactly when it failed.
    pub closed spec fn wf(&self) -> bool {
        &&& self.registry.wf()
        &&& self.cache.wf()
        &&& self.spec_slots() as int == active_count(self.jobs())
        &&& self.spec_slots() <= self.spec_pool()
        &&& records_shaped(self.jobs())
    }

    /// The job a fresh submission of fingerprint `fp` would be served from:
    /// the cached job, provided its entry is live and it has completed.
    pub open spec fn cached_completed(&self, fp: Seq<char>, now: int) -> Option<u64> {
        match cache_find(self.cache_view(), fp) {
            Some(e) => if cache_live(e, now, self.spec_ttl() as int) {
                match reg_find(self.jobs(), e.1) {
                    Some(j) => if j.state is Completed {
                        Some(e.1)
                    } else {
                        None
                    },
                    None => None,
                }
            } else {
                None
            },
            None => None,
        }
    }

    /// Whether the registry can still hand out a fresh job id.
    pub fn can_accept(&self) -> (r: bool)
        ensures
            r == (self.spec_next_id() < u64::MAX),
    {
        self.registry.has_fresh_ids()
    }

    /// A manager with no jobs, an empty cache, and a free pool.
    pub fn new(max_concurrent_jobs: usize, cache_ttl_seconds: u64, cache_max_capacity: u64, base_url: String) -> (r:
        FetchManager)
        ensures
            r.wf(),
            r.jobs() == Seq::<JobStatus>::empty(),
            r.cache_view() == Seq::<(Seq<char>, u64, int)>::empty(),
            r.spec_slots() == 0,
            r.spec_pool() == max_concurrent_jobs,
            r.spec_next_id() == 0,
            r.spec_ttl() == cache_ttl_seconds,
            r.spec_base_url() == base_url@,
    {
        FetchManager {
            registry: JobRegistry::new(),
            cache: FingerprintCache::new(cache_ttl_seconds, cache_max_capacity),
            slots_in_use: 0,
            max_concurrent_jobs,
            base_url,
        }
    }

    /// Submits a fetch request. A live cache entry whose job has completed
    /// is returned as it is — no new job, no slot taken. Otherwise a slot
    /// is acquired, a fresh `Pending` job is registered and cached, and its
    /// reference returned; with the pool exhausted the request is rejected
    /// with `ServiceUnavailable` and nothing changes.
    pub fn submit(&mut self, request: &ProxyRequest, now: u64) -> (r: Result<
        ProxyResponse,
        AppError,
    >)
        requires
            old(self).wf(),
            old(self).spec_next_id() < u64::MAX,
        ensures
            final(self).wf(),
            final(self).spec_pool() == old(self).spec_pool(),
            final(self).spec_ttl() == old(self).spec_ttl(),
            final(self).spec_base_url() == old(self).spec_base_url(),
            old(self).cached_completed(request.fingerprint_of(), now as int) matches Some(id)
                ==> ((r matches Ok(p) && p.job_id == id && p.status_url@ == status_url_chars(
                old(self).spec_base_url(),
                id,
            )) && *final(self) == *old(self)),
            old(self).cached_completed(request.fingerprint_of(), now as int) is None && old(
                self,
            ).spec_slots() == old(self).spec_pool() ==> ((r matches Err(e)
                && e is ServiceUnavailable) && *final(self) == *old(self)),
            old(self).cached_completed(request.fingerprint_of(), now as int) is None && old(
                self,
            ).spec_slots() < old(self).spec_pool() ==> ((r matches Ok(p) && p.job_id == old(
                self,
            ).spec_next_id() && p.status_url@ == status_url_chars(
                old(self).spec_base_url(),
                old(self).spec_next_id(),
            )) && final(self).spec_slots() == old(self).spec_slots() + 1 && final(self).jobs()
                == old(self).jobs().push(
                JobStatus {
                    job_id: old(self).spec_next_id(),
                    state: JobState::Pending,
                    final_url: None,
                    error_message: None,
                    created_at: now,
                    updated_at: now,
                },
            ) && final(self).spec_next_id() == old(self).spec_next_id() + 1 && cache_find(
                final(self).cache_view(),
                request.fingerprint_of(),
            ) == Some((request.fingerprint_of(), old(self).spec_next_id(), now as int))),
    {
        let fp = request.generate_cache_key();
        match self.cache.get(fp.as_str(), now) {
            Some(cached_id) => {
                match self.registry.get(cached_id) {
                    Some(job) => {
                        match job.state {
                            JobState::Completed => {
                                let status_url = build_status_url(self.base_url.as_str(), cached_id);
                                return Ok(ProxyResponse { job_id: cached_id, status_url });
                            },
                            _ => {},
                        }
                    },
                    None => {},
                }
            },
            None => {},
        }
        if self.slots_in_use >= self.max_concurrent_jobs {
            return Err(
                AppError::ServiceUnavailable(
                    String::from_str("No available slots for new download jobs"),
                ),
            );
        }
        self.slots_in_use = self.slots_in_use + 1;
        let job_id = self.registry.create(now);
        self.cache.insert(fp, job_id, now);
        proof {
            let rec = JobStatus {
                job_id,
                state: JobState::Pending,
                final_url: None,
                error_message: None,
                created_at: now,
                updated_at: now,
            };
            lemma_active_count_push(old(self).jobs(), rec);
            lemma_shaped_push(old(self).jobs(), rec);
        }
        let status_url = build_status_url(self.base_url.as_str(), job_id);
        Ok(ProxyResponse { job_id, status_url })
    }

    /// A snapshot of the job under `job_id`, or `NotFound` naming that id.
    /// Never waits. A returned snapshot is well shaped: it carries its
    /// retrieval reference exactly when it completed, and its error exactly
    /// when it failed.
    pub fn get_job_status(&self, job_id: u64) -> (r: Result<JobStatus, AppError>)
        requires
            self.wf(),
        ensures
            reg_find(self.jobs(), job_id) matches Some(j) ==> r == Ok::<JobStatus, AppError>(j),
            reg_find(self.jobs(), job_id) is None ==> (r matches Err(e) && e is NotFound
                && surfaced_message_of(e) == "Job with ID "@ + dec_str(job_id as nat)
                + " not found"@),
            r matches Ok(s) ==> ((s.final_url is Some <==> s.state is Completed) && (
            s.error_message is Some <==> s.state is Failed)),
    {
        match self.registry.get(job_id) {
            Some(j) => {
                proof {
                    lemma_reg_find_member(self.jobs(), job_id);
                }
                Ok(j)
            },
            None => {
                let mut m = String::from_str("Job with ID ");
                let d = u64_to_string(job_id);
                m.append(d.as_str());
                m.append(" not found");
                proof {
                    assert(m@ =~= "Job with ID "@ + dec_str(job_id as nat) + " not found"@);
                }
                Err(AppError::NotFound(m))
            },
        }
    }

    /// Marks the job as downloading. Succeeds exactly when the job exists
    /// and is still `Pending`; anything else changes nothing.
    pub fn begin_download(&mut self, job_id: u64, now: u64) -> (updated: bool)
        requires
            old(self).wf(),
        ensures
            final(self).wf(),
            final(self).unchanged_config(old(self)),
            final(self).spec_slots() == old(self).spec_slots(),
            final(self).cache_view() == old(self).cache_view(),
            updated == (reg_find(old(self).jobs(), job_id) matches Some(j)
                && j.state is Pending),
            !updated ==> final(self).jobs() == old(self).jobs(),
            updated ==> (reg_find(final(self).jobs(), job_id) matches Some(rec)
                && rec.job_id == job_id && rec.state is Downloading && rec.final_url is None
                && rec.error_message is None && rec.updated_at == now && (reg_find(
                old(self).jobs(),
                job_id,
            ) matches Some(j) && rec.created_at == j.created_at)),
            final(self).jobs().len() == old(self).jobs().len(),
            forall|k: int|
                0 <= k < old(self).jobs().len() && (#[trigger] old(self).jobs()[k]).job_id
                    != job_id ==> final(self).jobs()[k] == old(self).jobs()[k],
    {
        let updated = self.registry.advance(job_id, JobState::Downloading, None, None, now);
        proof {
            if updated {
                let j = reg_find(old(self).jobs(), job_id)->Some_0;
                let rec = JobStatus {
                    job_id,
                    state: JobState::Downloading,
                    final_url: None,
                    error_message: None,
                    created_at: j.created_at,
                    updated_at: now,
                };
                lemma_reg_find_replace(old(self).jobs(), job_id, rec);
                lemma_active_count_replace(old(self).jobs(), job_id, rec);
                lemma_shaped_replace(old(self).jobs(), job_id, rec);
            }
        }
        updated
    }

    /// Marks the job as processing its downloaded bytes. Succeeds exactly
    /// when the job exists and is `Downloading`.
    pub fn begin_processing(&mut self, job_id: u64, now: u64) -> (updated: bool)
        requires
            old(self).wf(),
        ensures
            final(self).wf(),
            final(self).unchanged_config(old(self)),
            final(self).spec_slots() == old(self).spec_slots(),
            final(self).cache_view() == old(self).cache_view(),
            updated == (reg_find(old(self).jobs(), job_id) matches Some(j)
                && j.state is Downloading),
            !updated ==> final(self).jobs() == old(self).jobs(),
            updated ==> (reg_find(final(self).jobs(), job_id) matches Some(rec)
                && rec.job_id == job_id && rec.state is Processing && rec.final_url is None
                && rec.error_message is None && rec.updated_at == now && (reg_find(
                old(self).jobs(),
                job_id,
            ) matches Some(j) && rec.created_at == j.created_at)),
            final(self).jobs().len() == old(self).jobs().len(),
            forall|k: int|
                0 <= k < old(self).jobs().len() && (#[trigger] old(self).jobs()[k]).job_id
                    != job_id ==> final(self).jobs()[k] == old(self).jobs()[k],
    {
        let updated = self.registry.advance(job_id, JobState::Processing, None, None, now);
        proof {
            if updated {
                let j = reg_find(old(self).jobs(), job_id)->Some_0;
                let rec = JobStatus {
                    job_id,
                    state: JobState::Processing,
                    final_url: None,
                    error_message: None,
                    created_at: j.created_at,
                    updated_at: now,
                };
                lemma_reg_find_replace(old(self).jobs(), job_id, rec);
                lemma_active_count_replace(old(self).jobs(), job_id, rec);
                lemma_shaped_replace(old(self).jobs(), job_id, rec);
            }
        }
        updated
    }

    /// Records a failure: the job moves to `Failed` with the message, and
    /// its concurrency slot is released. Succeeds exactly when the job is
    /// `Downloading` or `Processing`.
    pub fn fail_job(&mut self, job_id: u64, error_message: String, now: u64) -> (updated: bool)
        requires
            old(self).wf(),
        ensures
            final(self).wf(),
            final(self).unchanged_config(old(self)),
            final(self).cache_view() == old(self).cache_view(),
            updated == (reg_find(old(self).jobs(), job_id) matches Some(j) && (
            j.state is Downloading || j.state is Processing)),
            !updated ==> final(self).jobs() == old(self).jobs() && final(self).spec_slots() == old(
                self,
            ).spec_slots(),
            updated ==> (reg_find(final(self).jobs(), job_id) matches Some(rec)
                && rec.job_id == job_id && rec.state is Failed && rec.final_url is None && (
            rec.error_message matches Some(m) && m == error_message) && rec.updated_at == now && (
            reg_find(old(self).jobs(), job_id) matches Some(j) && rec.created_at == j.created_at))
                && final(self).spec_slots() == old(self).spec_slots() - 1,
            final(self).jobs().len() == old(self).jobs().len(),
            forall|k: int|
                0 <= k < old(self).jobs().len() && (#[trigger] old(self).jobs()[k]).job_id
                    != job_id ==> final(self).jobs()[k] == old(self).jobs()[k],
    {
        let updated = self.registry.advance(
            job_id,
            JobState::Failed,
            Some(error_message),
            None,
            now,
        );
        if updated {
            proof {
                let j = reg_find(old(self).jobs(), job_id)->Some_0;
                let rec = JobStatus {
                    job_id,
                    state: JobState::Failed,
                    final_url: None,
                    error_message: Some(error_message),
                    created_at: j.created_at,
                    updated_at: now,
                };
                lemma_reg_find_replace(old(self).jobs(), job_id, rec);
                lemma_active_count_replace(old(self).jobs(), job_id, rec);
                lemma_shaped_replace(old(self).jobs(), job_id, rec);
                lemma_active_count_nonneg(self.jobs());
            }
            self.slots_in_use = self.slots_in_use - 1;
        }
        updated
    }


    /// Finishes a job whose bytes arrived: the content goes into the
    /// store under a filename taken from the URL's trailing segment, the
    /// job moves to `Completed` with its retrieval reference (or to
    /// `Failed` when storing is refused), the fingerprint cache is updated
    /// on success, and the concurrency slot is released either way.
    /// A job that is not currently `Processing` is left untouched.
    pub fn complete_job(
        &mut self,
        store: &mut ContentStore,
        request: &ProxyRequest,
        job_id: u64,
        data: Vec<u8>,
        now: u64,
    ) -> (r: Result<String, AppError>)
        requires
            old(self).wf(),
            old(store).wf(),
        ensures
            final(self).wf(),
            final(store).wf(),
            final(store).spec_max() == old(store).spec_max(),
            final(self).unchanged_config(old(self)),
            final(self).jobs().len() == old(self).jobs().len(),
            forall|k: int|
                0 <= k < old(self).jobs().len() && (#[trigger] old(self).jobs()[k]).job_id
                    != job_id ==> final(self).jobs()[k] == old(self).jobs()[k],
            !(reg_find(old(self).jobs(), job_id) matches Some(j) && j.state is Processing) ==> (
            r is Err && *final(self) == *old(self) && final(store)@ == old(store)@),
            (reg_find(old(self).jobs(), job_id) matches Some(j) && j.state is Processing) && (
            last_segment(request.url@).len() == 0 || data@.len() > old(store).spec_max()) ==> ((
            r matches Err(e) && (last_segment(request.url@).len() == 0 ==> e is UserError) && (
            last_segment(request.url@).len() > 0 ==> e is PayloadTooLarge) && (reg_find(
                final(self).jobs(),
                job_id,
            ) matches Some(rec) && rec.state is Failed && rec.final_url is None && (
            rec.error_message matches Some(m) && m@ == "Failed to save file: "@
                + surfaced_message_of(e)) && rec.updated_at == now)) && final(store)@ == old(
                store,
            )@ && final(self).spec_slots() == old(self).spec_slots() - 1
                && final(self).cache_view() == old(self).cache_view()),
            (reg_find(old(self).jobs(), job_id) matches Some(j) && j.state is Processing)
                && last_segment(request.url@).len() > 0 && data@.len() <= old(store).spec_max()
                ==> ((r matches Ok(u) && u@ == download_url_chars(
                old(self).spec_base_url(),
                identifier_of(data@),
                last_segment(request.url@),
            ) && (reg_find(final(self).jobs(), job_id) matches Some(rec)
                && rec.state is Completed && rec.error_message is None && (
            rec.final_url matches Some(u2) && u2@ == download_url_chars(
                old(self).spec_base_url(),
                identifier_of(data@),
                last_segment(request.url@),
            )) && rec.updated_at == now)) && final(store)@ == store_put(
                old(store)@,
                data@,
                now as int,
            ) && final(self).spec_slots() == old(self).spec_slots() - 1 && cache_find(
                final(self).cache_view(),
                request.fingerprint_of(),
            ) == Some((request.fingerprint_of(), job_id, now as int))),
    {
        let known = match self.registry.get(job_id) {
            Some(j) => match j.state {
                JobState::Processing => true,
                _ => false,
            },
            None => false,
        };
        if !known {
            return Err(
                AppError::NotFound(String::from_str("Job is not awaiting processing")),
            );
        }
        let filename = url_last_segment(request.url.as_str());
        match store.save_file_from_bytes(filename.as_str(), data, now) {
            Ok(meta) => {
                let final_url = build_download_url(
                    self.base_url.as_str(),
                    meta.short_hash.as_str(),
                    filename.as_str(),
                );
                let url_for_job = final_url.clone();
                let updated = self.registry.advance(
                    job_id,
                    JobState::Completed,
                    None,
                    Some(url_for_job),
                    now,
                );
                proof {
                    let j = reg_find(old(self).jobs(), job_id)->Some_0;
                    let rec = JobStatus {
                        job_id,
                        state: JobState::Completed,
                        final_url: Some(url_for_job),
                        error_message: None,
                        created_at: j.created_at,
                        updated_at: now,
                    };
                    lemma_reg_find_replace(old(self).jobs(), job_id, rec);
                    lemma_active_count_replace(old(self).jobs(), job_id, rec);
                    lemma_shaped_replace(old(self).jobs(), job_id, rec);
                    lemma_active_count_nonneg(self.jobs());
                }
                self.slots_in_use = self.slots_in_use - 1;
                let fp = request.generate_cache_key();
                self.cache.insert(fp, job_id, now);
                Ok(final_url)
            },
            Err(e) => {
                let mut msg = String::from_str("Failed to save file: ");
                let em = e.surfaced_message();
                msg.append(em.as_str());
                let ghost msg_snapshot = msg;
                let updated = self.registry.advance(
                    job_id,
                    JobState::Failed,
                    Some(msg),
                    None,
                    now,
                );
                proof {
                    let j = reg_find(old(self).jobs(), job_id)->Some_0;
                    let rec = JobStatus {
                        job_id,
                        state: JobState::Failed,
                        final_url: None,
                        error_message: Some(msg_snapshot),
                        created_at: j.created_at,
                        updated_at: now,
                    };
                    lemma_reg_find_replace(old(self).jobs(), job_id, rec);
                    lemma_active_count_replace(old(self).jobs(), job_id, rec);
                    lemma_shaped_replace(old(self).jobs(), job_id, rec);
                    lemma_active_count_nonneg(self.jobs());
                }
                self.slots_in_use = self.slots_in_use - 1;
                Err(e)
            },
        }
    }

    /// The configuration never changes underneath a running manager.
    pub open spec fn unchanged_config(&self, prior: &FetchManager) -> bool {
        &&& self.spec_pool() == prior.spec_pool()
        &&& self.spec_ttl() == prior.spec_ttl()
        &&& self.spec_base_url() == prior.spec_base_url()
        &&& self.spec_next_id() == prior.spec_next_id()
    }
}


/// How many of `k` new, non-cached submissions in a row are admitted when
/// the pool of `pool` slots starts free and no job finishes in between:
/// each submission is admitted exactly when the slots its predecessors
/// took still leave room, as `FetchManager::submit` ensures.
pub open spec fn admissions(k: nat, pool: nat) -> nat
    decreases k,
{
    if k == 0 {
        0
    } else {
        admissions((k - 1) as nat, pool) + (if admissions((k - 1) as nat, pool) < pool {
            1nat
        } else {
            0nat
        })
    }
}

/// Concurrency bound: of `k` simultaneous new submissions against a free
/// pool of `pool` slots, exactly `min(k, pool)` are admitted; in
/// particular, of `pool + 1` submissions exactly one is rejected.
pub proof fn lemma_concurrency_bound(k: nat, pool: nat)
    ensures
        admissions(k, pool) == if k <= pool {
            k
        } else {
            pool
        },
        k == pool + 1 ==> k - admissions(k, pool) == 1,
    decreases k,
{
    if k > 0 {
        lemma_concurrency_bound((k - 1) as nat, pool);
    }
}

} // verus!
