//! Background fetch jobs: the forward-only state machine and the registry
//! of job records. A record is never edited in place; every transition
//! replaces it wholesale, so a reader always sees a consistent snapshot.

use vstd::prelude::*;

verus! {

/// Where a fetch job stands. States only ever move forward:
/// `Pending → Downloading → Processing → Completed`, with `Failed`
/// reachable from `Downloading` and `Processing`.
#[derive(Clone, Copy, PartialEq, Eq, Structural, Debug)]
pub enum JobState {
    Pending,
    Downloading,
    Processing,
    Completed,
    Failed,
}

/// The position of a state in the forward order; both terminal states rank
/// last.
pub open spec fn state_rank(s: JobState) -> int {
    match s {
        JobState::Pending => 0,
        JobState::Downloading => 1,
        JobState::Processing => 2,
        JobState::Completed => 3,
        JobState::Failed => 3,
    }
}

/// A state from which a job never moves again.
pub open spec fn is_terminal(s: JobState) -> bool {
    s is Completed || s is Failed
}

/// The transitions the state machine allows, and no others.
pub open spec fn allowed_transition(from: JobState, to: JobState) -> bool {
    ||| (from is Pending && to is Downloading)
    ||| (from is Downloading && to is Processing)
    ||| (from is Downloading && to is Failed)
    ||| (from is Processing && to is Completed)
    ||| (from is Processing && to is Failed)
}

/// Whether the state machine allows moving from `from` to `to`.
pub fn transition_allowed(from: JobState, to: JobState) -> (r: bool)
    ensures
        r == allowed_transition(from, to),
{
    match (from, to) {
        (JobState::Pending, JobState::Downloading) => true,
        (JobState::Downloading, JobState::Processing) => true,
        (JobState::Downloading, JobState::Failed) => true,
        (JobState::Processing, JobState::Completed) => true,
        (JobState::Processing, JobState::Failed) => true,
        _ => false,
    }
}

/// Job monotonicity: along any chain of allowed transitions, the state's
/// rank strictly increases, so no state is ever revisited and nothing
/// follows a terminal state.
pub proof fn lemma_states_monotone(chain: Seq<JobState>)
    requires
        forall|i: int|
            0 <= i < chain.len() - 1 ==> allowed_transition(
                #[trigger] chain[i],
                chain[i + 1],
            ),
    ensures
        forall|i: int, j: int|
            0 <= i < j < chain.len() ==> state_rank(#[trigger] chain[i]) < state_rank(
                #[trigger] chain[j],
            ),
        forall|i: int, j: int| 0 <= i < j < chain.len() ==> #[trigger] chain[i] != #[trigger] chain[j],
        forall|i: int| 0 <= i < chain.len() - 1 ==> !is_terminal(#[trigger] chain[i]),
{
    assert forall|i: int, j: int| 0 <= i < j < chain.len() implies state_rank(#[trigger] chain[i])
        < state_rank(#[trigger] chain[j]) by {
        lemma_rank_increases(chain, i, j);
    }
}

proof fn lemma_rank_increases(chain: Seq<JobState>, i: int, j: int)
    requires
        forall|k: int|
            0 <= k < chain.len() - 1 ==> allowed_transition(#[trigger] chain[k], chain[k + 1]),
        0 <= i < j < chain.len(),
    ensures
        state_rank(chain[i]) < state_rank(chain[j]),
    decreases j - i,
{
    if j == i + 1 {
        assert(allowed_transition(chain[i], chain[j]));
    } else {
        lemma_rank_increases(chain, i, j - 1);
        assert(allowed_transition(chain[j - 1], chain[j]));
    }
}

/// One fetch job's record: its identity, where it stands, the retrieval
/// reference once it completed, the error once it failed, and timestamps.
pub struct JobStatus {
    pub job_id: u64,
    pub state: JobState,
    pub final_url: Option<String>,
    pub error_message: Option<String>,
    pub created_at: u64,
    pub updated_at: u64,
}

impl JobStatus {
    /// An equal, independently owned copy of this record.
    pub fn snapshot(&self) -> (r: JobStatus)
        ensures
            r == *self,
    {
        JobStatus {
            job_id: self.job_id,
            state: self.state,
            final_url: match &self.final_url {
                Some(u) => Some(u.clone()),
                None => None,
            },
            error_message: match &self.error_message {
                Some(m) => Some(m.clone()),
                None => None,
            },
            created_at: self.created_at,
            updated_at: self.updated_at,
        }
    }
}

/// The first record in `s` with the given id, if any.
pub open spec fn reg_find(s: Seq<JobStatus>, id: u64) -> Option<JobStatus>
    decreases s.len(),
{
    if s.len() == 0 {
        None
    } else if s[0].job_id == id {
        Some(s[0])
    } else {
        reg_find(s.subrange(1, s.len() as int), id)
    }
}

/// `s` with the record carrying `id` replaced by `rec`.
pub open spec fn reg_replace(s: Seq<JobStatus>, id: u64, rec: JobStatus) -> Seq<JobStatus> {
    Seq::new(
        s.len(),
        |i: int|
            if s[i].job_id == id {
                rec
            } else {
                s[i]
            },
    )
}

/// Distinct records never share an id.
pub open spec fn reg_ids_unique(s: Seq<JobStatus>) -> bool {
    forall|i: int, j: int|
        0 <= i < j < s.len() ==> #[trigger] s[i].job_id != #[trigger] s[j].job_id
}

/// How many records are not yet in a terminal state. Exactly these hold a
/// concurrency slot.
pub open spec fn active_count(s: Seq<JobStatus>) -> int
    decreases s.len(),
{
    if s.len() == 0 {
        0
    } else {
        (if is_terminal(s[0].state) {
            0int
        } else {
            1int
        }) + active_count(s.subrange(1, s.len() as int))
    }
}

/// The in-memory registry of job records, which also hands out fresh ids.
pub struct JobRegistry {
    jobs: Vec<JobStatus>,
    next_id: u64,
}

impl View for JobRegistry {
    type V = Seq<JobStatus>;

    closed spec fn view(&self) -> Seq<JobStatus> {
        self.jobs@
    }
}

impl JobRegistry {
    /// The id the next created job will get.
    pub closed spec fn spec_next_id(&self) -> u64 {
        self.next_id
    }

    /// Ids are unique and below the next fresh id.
    pub open spec fn wf(&self) -> bool {
        &&& reg_ids_unique(self@)
        &&& forall|i: int| 0 <= i < self@.len() ==> #[trigger] self@[i].job_id < self.spec_next_id()
    }

    /// An empty registry.
    pub fn new() -> (r: JobRegistry)
        ensures
            r.wf(),
            r@ == Seq::<JobStatus>::empty(),
            r.spec_next_id() == 0,
    {
        JobRegistry { jobs: Vec::new(), next_id: 0 }
    }

    /// Whether a fresh id is still available.
    pub fn has_fresh_ids(&self) -> (r: bool)
        ensures
            r == (self.spec_next_id() < u64::MAX),
    {
        self.next_id < u64::MAX
    }

    /// Creates a job in `Pending` under a fresh id and returns that id.
    pub fn create(&mut self, now: u64) -> (id: u64)
        requires
            old(self).wf(),
            old(self).spec_next_id() < u64::MAX,
        ensures
            final(self).wf(),
            id == old(self).spec_next_id(),
            final(self).spec_next_id() == id + 1,
            final(self)@ == old(self)@.push(
                JobStatus {
                    job_id: id,
                    state: JobState::Pending,
                    final_url: None,
                    error_message: None,
                    created_at: now,
                    updated_at: now,
                },
            ),
    {
        let id = self.next_id;
        self.jobs.push(
            JobStatus {
                job_id: id,
                state: JobState::Pending,
                final_url: None,
                error_message: None,
                created_at: now,
                updated_at: now,
            },
        );
        self.next_id = self.next_id + 1;
        id
    }

    /// A snapshot of the record under `id`, if the registry knows it.
    #[verifier::loop_isolation(false)]
    pub fn get(&self, id: u64) -> (r: Option<JobStatus>)
        requires
            self.wf(),
        ensures
            r == reg_find(self@, id),
    {
        let n = self.jobs.len();
        let mut i: usize = 0;
        while i < n
            invariant
                i <= n,
                forall|j: int| 0 <= j < i ==> #[trigger] self@[j].job_id != id,
            decreases n - i,
        {
            if self.jobs[i].job_id == id {
                proof {
                    lemma_reg_find_index(self@, id, i as int);
                }
                return Some(self.jobs[i].snapshot());
            }
            i = i + 1;
        }
        proof {
            lemma_reg_find_none(self@, id);
        }
        None
    }

    /// Moves the job under `job_id` to `new_state`, replacing its record
    /// and stamping the update time, but only along an allowed transition;
    /// anything else leaves the registry untouched and reports `false`.
    #[verifier::loop_isolation(false)]
    pub fn advance(
        &mut self,
        job_id: u64,
        new_state: JobState,
        error_message: Option<String>,
        final_url: Option<String>,
        now: u64,
    ) -> (updated: bool)
        requires
            old(self).wf(),
        ensures
            final(self).wf(),
            final(self).spec_next_id() == old(self).spec_next_id(),
            updated == match reg_find(old(self)@, job_id) {
                Some(j) => allowed_transition(j.state, new_state),
                None => false,
            },
            !updated ==> final(self)@ == old(self)@,
            updated ==> (reg_find(old(self)@, job_id) matches Some(j) && final(self)@
                == reg_replace(
                old(self)@,
                job_id,
                JobStatus {
                    job_id,
                    state: new_state,
                    final_url,
                    error_message,
                    created_at: j.created_at,
                    updated_at: now,
                },
            )),
    {
        let ghost pre = self@;
        let n = self.jobs.len();
        let mut i: usize = 0;
        while i < n
            invariant
                i <= n,
                *self == *old(self),
                forall|j: int| 0 <= j < i ==> #[trigger] self@[j].job_id != job_id,
            decreases n - i,
        {
            if self.jobs[i].job_id == job_id {
                proof {
                    lemma_reg_find_index(pre, job_id, i as int);
                }
                if !transition_allowed(self.jobs[i].state, new_state) {
                    return false;
                }
                let prior = self.jobs.remove(i);
                let rec = JobStatus {
                    job_id,
                    state: new_state,
                    final_url,
                    error_message,
                    created_at: prior.created_at,
                    updated_at: now,
                };
                self.jobs.insert(i, rec);
                proof {
                    assert forall|k: int| 0 <= k < pre.len() && k != i implies pre[k].job_id
                        != job_id by {
                        if k >= i {
                            assert(pre[i as int].job_id != pre[k].job_id);
                        }
                    }
                    assert(self@ =~= reg_replace(pre, job_id, rec));
                }
                return true;
            }
            i = i + 1;
        }
        proof {
            lemma_reg_find_none(pre, job_id);
        }
        false
    }
}

/// Finding by id returns the first index that carries it.
proof fn lemma_reg_find_index(s: Seq<JobStatus>, id: u64, i: int)
    requires
        0 <= i < s.len(),
        s[i].job_id == id,
        forall|j: int| 0 <= j < i ==> #[trigger] s[j].job_id != id,
    ensures
        reg_find(s, id) == Some(s[i]),
    decreases i,
{
    if i > 0 {
        lemma_reg_find_index(s.subrange(1, s.len() as int), id, i - 1);
    }
}

/// When no record carries the id, finding it yields nothing.
proof fn lemma_reg_find_none(s: Seq<JobStatus>, id: u64)
    requires
        forall|j: int| 0 <= j < s.len() ==> #[trigger] s[j].job_id != id,
    ensures
        reg_find(s, id) is None,
    decreases s.len(),
{
    if s.len() > 0 {
        lemma_reg_find_none(s.subrange(1, s.len() as int), id);
    }
}

/// Appending a record adds its slot use to the active count.
pub proof fn lemma_active_count_push(s: Seq<JobStatus>, j: JobStatus)
    ensures
        active_count(s.push(j)) == active_count(s) + (if is_terminal(j.state) {
            0int
        } else {
            1int
        }),
    decreases s.len(),
{
    if s.len() == 0 {
        assert(s.push(j)[0] == j);
        assert(s.push(j).subrange(1, 1) =~= Seq::<JobStatus>::empty());
        assert(active_count(Seq::<JobStatus>::empty()) == 0);
        assert(active_count(s) == 0);
    } else {
        assert(s.push(j)[0] == s[0]);
        assert(s.push(j).subrange(1, s.len() as int + 1) =~= s.subrange(1, s.len() as int).push(
            j,
        ));
        lemma_active_count_push(s.subrange(1, s.len() as int), j);
    }
}

/// Replacing one record adjusts the active count by exactly the difference
/// between the old record's slot use and the new one's.
pub proof fn lemma_active_count_replace(s: Seq<JobStatus>, id: u64, rec: JobStatus)
    requires
        reg_ids_unique(s),
        reg_find(s, id) is Some,
    ensures
        active_count(reg_replace(s, id, rec)) == active_count(s) - (if is_terminal(
            reg_find(s, id)->Some_0.state,
        ) {
            0int
        } else {
            1int
        }) + (if is_terminal(rec.state) {
            0int
        } else {
            1int
        }),
    decreases s.len(),
{
    let r = reg_replace(s, id, rec);
    let tail = s.subrange(1, s.len() as int);
    if s[0].job_id == id {
        assert forall|k: int| 0 <= k < tail.len() implies #[trigger] tail[k].job_id != id by {
            assert(s[0].job_id != s[k + 1].job_id);
        }
        lemma_reg_find_none(tail, id);
        lemma_reg_replace_absent(tail, id, rec);
        assert(r.subrange(1, r.len() as int) =~= reg_replace(tail, id, rec));
        assert(reg_replace(tail, id, rec) =~= tail);
    } else {
        lemma_active_count_replace(tail, id, rec);
        assert(r.subrange(1, r.len() as int) =~= reg_replace(tail, id, rec));
    }
}

/// The active count is never negative.
pub proof fn lemma_active_count_nonneg(s: Seq<JobStatus>)
    ensures
        active_count(s) >= 0,
    decreases s.len(),
{
    if s.len() > 0 {
        lemma_active_count_nonneg(s.subrange(1, s.len() as int));
    }
}

/// After a replacement under a unique id, that id is found at the new
/// record, and every other record is untouched.
pub proof fn lemma_reg_find_replace(s: Seq<JobStatus>, id: u64, rec: JobStatus)
    requires
        reg_ids_unique(s),
        reg_find(s, id) is Some,
        rec.job_id == id,
    ensures
        reg_find(reg_replace(s, id, rec), id) == Some(rec),
        forall|k: int|
            0 <= k < s.len() && s[k].job_id != id ==> reg_replace(s, id, rec)[k] == s[k],
    decreases s.len(),
{
    let r = reg_replace(s, id, rec);
    if s[0].job_id == id {
        assert(r[0] == rec);
    } else {
        let tail = s.subrange(1, s.len() as int);
        lemma_reg_find_replace(tail, id, rec);
        assert(r.subrange(1, r.len() as int) =~= reg_replace(tail, id, rec));
    }
}

/// Replacing an id that no record carries changes nothing.
proof fn lemma_reg_replace_absent(s: Seq<JobStatus>, id: u64, rec: JobStatus)
    requires
        forall|j: int| 0 <= j < s.len() ==> #[trigger] s[j].job_id != id,
    ensures
        reg_replace(s, id, rec) =~= s,
{
}


/// Every published record carries its retrieval reference exactly when it
/// completed, and its error exactly when it failed.
pub open spec fn records_shaped(s: Seq<JobStatus>) -> bool {
    forall|i: int|
        0 <= i < s.len() ==> (((#[trigger] s[i]).final_url is Some <==> s[i].state is Completed)
            && (s[i].error_message is Some <==> s[i].state is Failed))
}

/// Replacing a record by a well-shaped one keeps the registry well shaped.
pub proof fn lemma_shaped_replace(s: Seq<JobStatus>, id: u64, rec: JobStatus)
    requires
        records_shaped(s),
        rec.final_url is Some <==> rec.state is Completed,
        rec.error_message is Some <==> rec.state is Failed,
    ensures
        records_shaped(reg_replace(s, id, rec)),
{
    let r = reg_replace(s, id, rec);
    assert forall|i: int|
        0 <= i < r.len() implies (((#[trigger] r[i]).final_url is Some
        <==> r[i].state is Completed) && (r[i].error_message is Some
        <==> r[i].state is Failed)) by {
        if s[i].job_id != id {
            assert(r[i] == s[i]);
            assert(s[i].final_url is Some <==> s[i].state is Completed);
            assert(s[i].error_message is Some <==> s[i].state is Failed);
        }
    }
}

/// Appending a well-shaped record keeps the registry well shaped.
pub proof fn lemma_shaped_push(s: Seq<JobStatus>, rec: JobStatus)
    requires
        records_shaped(s),
        rec.final_url is Some <==> rec.state is Completed,
        rec.error_message is Some <==> rec.state is Failed,
    ensures
        records_shaped(s.push(rec)),
{
    let r = s.push(rec);
    assert forall|i: int|
        0 <= i < r.len() implies (((#[trigger] r[i]).final_url is Some
        <==> r[i].state is Completed) && (r[i].error_message is Some
        <==> r[i].state is Failed)) by {
        if i < s.len() {
            assert(r[i] == s[i]);
            assert(s[i].final_url is Some <==> s[i].state is Completed);
            assert(s[i].error_message is Some <==> s[i].state is Failed);
        } else {
            assert(r[i] == rec);
        }
    }
}

/// A found record is one of the registry's records.
pub proof fn lemma_reg_find_member(s: Seq<JobStatus>, id: u64)
    requires
        reg_find(s, id) is Some,
    ensures
        exists|i: int| 0 <= i < s.len() && #[trigger] s[i] == reg_find(s, id)->Some_0,
    decreases s.len(),
{
    if s.len() > 0 && s[0].job_id != id {
        let tail = s.subrange(1, s.len() as int);
        lemma_reg_find_member(tail, id);
        let i = choose|i: int| 0 <= i < tail.len() && #[trigger] tail[i] == reg_find(tail, id)->Some_0;
        assert(s[i + 1] == reg_find(s, id)->Some_0);
    }
}

} // verus!
