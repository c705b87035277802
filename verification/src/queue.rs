//! The durable sync outbox queue: a strictly-ordered list of pending remote
//! actions. Ids are store-assigned, strictly increasing and never reused;
//! listing is ascending by id; a job persists until explicitly deleted, so
//! delivery is at least once.
use vstd::prelude::*;
use vstd::string::*;

verus! {

/// How many jobs `list_default` returns at most.
pub const DEFAULT_LIST_LIMIT: usize = 200;

/// One queued action awaiting delivery to the remote backend.
pub struct SyncJob {
    /// Store-assigned identity; strictly increasing, never reused.
    pub id: u64,
    /// Discriminator for the remote operation.
    pub action: String,
    /// HTTP method; defaults to "POST" when unspecified at enqueue.
    pub method: String,
    /// Opaque serialized parameter structure.
    pub params: String,
    /// Opaque serialized payload structure.
    pub payload: String,
    /// Millisecond timestamp at enqueue.
    pub created_at: u64,
}

/// Mathematical image of one queued job.
pub ghost struct JobModel {
    pub id: u64,
    pub action: Seq<char>,
    pub method: Seq<char>,
    pub params: Seq<char>,
    pub payload: Seq<char>,
    pub created_at: u64,
}

impl View for SyncJob {
    type V = JobModel;

    open spec fn view(&self) -> JobModel {
        JobModel {
            id: self.id,
            action: self.action@,
            method: self.method@,
            params: self.params@,
            payload: self.payload@,
            created_at: self.created_at,
        }
    }
}

impl Clone for SyncJob {
    /// A field-for-field copy of the job.
    fn clone(&self) -> (r: Self)
        ensures
            r@ == self@,
    {
        SyncJob {
            id: self.id,
            action: self.action.clone(),
            method: self.method.clone(),
            params: self.params.clone(),
            payload: self.payload.clone(),
            created_at: self.created_at,
        }
    }
}

/// True when ids appear in strictly increasing order.
pub open spec fn ids_ascending(s: Seq<JobModel>) -> bool {
    forall|i: int, j: int| 0 <= i < j < s.len() ==> s[i].id < s[j].id
}

/// `s` with every job carrying `id` removed, in order.
pub open spec fn drop_id(s: Seq<JobModel>, id: u64) -> Seq<JobModel>
    decreases s.len(),
{
    if s.len() == 0 {
        Seq::empty()
    } else {
        let d = drop_id(s.drop_last(), id);
        if s.last().id == id {
            d
        } else {
            d.push(s.last())
        }
    }
}

/// True when some job of `s` carries `id`.
pub open spec fn has_job(s: Seq<JobModel>, id: u64) -> bool {
    exists|i: int| 0 <= i < s.len() && s[i].id == id
}

proof fn lemma_drop_id_absent(s: Seq<JobModel>, id: u64)
    requires
        forall|i: int| 0 <= i < s.len() ==> s[i].id != id,
    ensures
        drop_id(s, id) == s,
    decreases s.len(),
{
    if s.len() > 0 {
        let d = s.drop_last();
        assert(forall|i: int| 0 <= i < d.len() ==> d[i] == s[i]);
        lemma_drop_id_absent(d, id);
        assert(drop_id(s, id) =~= s);
    }
}

proof fn lemma_drop_id_found(s: Seq<JobModel>, id: u64, i: int)
    requires
        forall|a: int, b: int| 0 <= a < b < s.len() ==> s[a].id != s[b].id,
        0 <= i < s.len(),
        s[i].id == id,
    ensures
        drop_id(s, id) == s.remove(i),
    decreases s.len(),
{
    let d = s.drop_last();
    assert(forall|a: int| 0 <= a < d.len() ==> d[a] == s[a]);
    if i == s.len() - 1 {
        assert(forall|a: int| 0 <= a < d.len() ==> d[a].id != id);
        lemma_drop_id_absent(d, id);
        assert(drop_id(s, id) =~= s.remove(i));
    } else {
        assert(s.last().id != id);
        lemma_drop_id_found(d, id, i);
        assert(d.remove(i).push(s.last()) =~= s.remove(i));
    }
}

/// Sequential enqueues yield strictly increasing ids, and what is pending
/// afterwards is still ascending by id: the three states and two enqueued
/// jobs are related exactly as `add` relates them.
pub proof fn lemma_sequential_adds_ascend(
    q0: SyncQueue,
    q1: SyncQueue,
    q2: SyncQueue,
    m1: JobModel,
    m2: JobModel,
)
    requires
        q2.wf(),
        m1.id == q0.next_id(),
        q1@ == q0@.push(m1),
        q1.next_id() == m1.id + 1,
        m2.id == q1.next_id(),
        q2@ == q1@.push(m2),
        q2.next_id() == m2.id + 1,
    ensures
        m2.id > m1.id,
        ids_ascending(q2@),
{
    q2.lemma_wf();
}

/// Deleting an id leaves no job carrying it, and the pending count drops by
/// exactly one when the id was pending, else not at all. The two states are
/// related exactly as `delete` relates them.
pub proof fn lemma_delete_removes_id(q0: SyncQueue, q1: SyncQueue, id: u64)
    requires
        q0.wf(),
        q1@ == drop_id(q0@, id),
    ensures
        forall|i: int| 0 <= i < q1@.len() ==> (#[trigger] q1@[i]).id != id,
        q1@.len() == if has_job(q0@, id) {
            q0@.len() - 1
        } else {
            q0@.len() as int
        },
{
    q0.lemma_wf();
    lemma_drop_id_no_id(q0@, id);
    if has_job(q0@, id) {
        let i = choose|i: int| 0 <= i < q0@.len() && q0@[i].id == id;
        assert(forall|a: int, b: int|
            0 <= a < b < q0@.len() ==> q0@[a].id != q0@[b].id) by {
            assert(forall|a: int, b: int| 0 <= a < b < q0@.len() ==> q0@[a].id < q0@[b].id);
        }
        lemma_drop_id_found(q0@, id, i);
    } else {
        assert(forall|i: int| 0 <= i < q0@.len() ==> q0@[i].id != id);
        lemma_drop_id_absent(q0@, id);
    }
}

proof fn lemma_drop_id_no_id(s: Seq<JobModel>, id: u64)
    ensures
        forall|i: int| 0 <= i < drop_id(s, id).len() ==> (#[trigger] drop_id(s, id)[i]).id != id,
    decreases s.len(),
{
    if s.len() > 0 {
        lemma_drop_id_no_id(s.drop_last(), id);
        let t = drop_id(s, id);
        let td = drop_id(s.drop_last(), id);
        if s.last().id != id {
            assert(forall|i: int| 0 <= i < td.len() ==> t[i] == td[i]);
            assert(t[t.len() - 1] == s.last());
        }
    }
}

/// The sync queue. The head of `view` is the oldest pending job.
pub struct SyncQueue {
    jobs: Vec<SyncJob>,
    next_id: u64,
}

impl SyncQueue {
    /// Internal well-formedness: ids ascend strictly, stay below the next
    /// id to assign, and the first assigned id is 1.
    pub closed spec fn wf(&self) -> bool {
        &&& ids_ascending(self@)
        &&& forall|i: int| 0 <= i < self@.len() ==> #[trigger] self@[i].id < self.next_id
        &&& self.next_id >= 1
    }

    /// The pending jobs, oldest first.
    pub closed spec fn view(&self) -> Seq<JobModel> {
        self.jobs@.map_values(|j: SyncJob| j@)
    }

    /// The id the next enqueued job will get.
    pub closed spec fn next_id(&self) -> u64 {
        self.next_id
    }

    /// Everything `wf` guarantees about the visible state.
    pub proof fn lemma_wf(&self)
        requires
            self.wf(),
        ensures
            ids_ascending(self@),
            forall|i: int| 0 <= i < self@.len() ==> #[trigger] self@[i].id < self.next_id(),
            self.next_id() >= 1,
    {
    }

    /// An empty queue; the first job enqueued will get id 1.
    pub fn new() -> (r: SyncQueue)
        ensures
            r.wf(),
            r@ == Seq::<JobModel>::empty(),
            r.next_id() == 1,
    {
        let r = SyncQueue { jobs: Vec::new(), next_id: 1 };
        proof {
            assert(r@ =~= Seq::<JobModel>::empty());
        }
        r
    }

    /// Rebuild a queue from rows read back from durable storage. Accepts
    /// exactly the states the queue itself can reach: ids strictly
    /// ascending, all below `next_id`, and `next_id` at least 1.
    pub fn from_rows(rows: Vec<SyncJob>, next_id: u64) -> (r: Option<SyncQueue>)
        ensures
            ({
                let models = rows@.map_values(|j: SyncJob| j@);
                let valid = next_id >= 1 && ids_ascending(models) && (forall|i: int|
                    0 <= i < models.len() ==> (#[trigger] models[i]).id < next_id);
                match r {
                    Some(q) => {
                        &&& valid
                        &&& q.wf()
                        &&& q@ == models
                        &&& q.next_id() == next_id
                    },
                    None => !valid,
                }
            }),
    {
        let ghost models = rows@.map_values(|j: SyncJob| j@);
        if next_id < 1 {
            return None;
        }
        let n = rows.len();
        let mut i: usize = 0;
        while i < n
            invariant
                0 <= i <= n,
                n == rows@.len(),
                models == rows@.map_values(|j: SyncJob| j@),
                forall|a: int, b: int| 0 <= a < b < i ==> models[a].id < models[b].id,
                forall|a: int| 0 <= a < i ==> (#[trigger] models[a]).id < next_id,
            decreases n - i,
        {
            if rows[i].id >= next_id {
                proof {
                    assert(models[i as int].id >= next_id);
                }
                return None;
            }
            if i > 0 && rows[i - 1].id >= rows[i].id {
                proof {
                    assert(models[i as int - 1].id >= models[i as int].id);
                }
                return None;
            }
            proof {
                assert forall|a: int, b: int| 0 <= a < b < i + 1 implies models[a].id
                    < models[b].id by {
                    if b == i {
                        if a < i - 1 {
                            assert(models[a].id < models[i as int - 1].id);
                        }
                    }
                }
            }
            i = i + 1;
        }
        let q = SyncQueue { jobs: rows, next_id };
        Some(q)
    }

    /// The id the next enqueued job will get, readable at run time so that
    /// callers can rule out id exhaustion before calling `add`.
    pub fn peek_next_id(&self) -> (r: u64)
        ensures
            r == self.next_id(),
    {
        self.next_id
    }

    /// Enqueue an action. Assigns the next id, appends the job, and returns
    /// the new id. `method` defaults to "POST" and `params` to an empty
    /// object when unspecified; `now_ms` is the caller's clock reading.
    pub fn add(
        &mut self,
        action: &str,
        payload: &str,
        method: Option<&str>,
        params: Option<&str>,
        now_ms: u64,
    ) -> (id: u64)
        requires
            old(self).wf(),
            old(self).next_id() < u64::MAX,
        ensures
            final(self).wf(),
            id == old(self).next_id(),
            final(self).next_id() == id + 1,
            final(self)@ == old(self)@.push(
                JobModel {
                    id: id,
                    action: action@,
                    method: match method {
                        Some(m) => m@,
                        None => "POST"@,
                    },
                    params: match params {
                        Some(p) => p@,
                        None => "{}"@,
                    },
                    payload: payload@,
                    created_at: now_ms,
                },
            ),
    {
        let id = self.next_id;
        let method_s: String = match method {
            Some(m) => m.to_owned(),
            None => String::from_str("POST"),
        };
        let params_s: String = match params {
            Some(p) => p.to_owned(),
            None => String::from_str("{}"),
        };
        let job = SyncJob {
            id,
            action: action.to_owned(),
            method: method_s,
            params: params_s,
            payload: payload.to_owned(),
            created_at: now_ms,
        };
        self.jobs.push(job);
        self.next_id = id + 1;
        proof {
            assert(final(self)@ =~= old(self)@.push(self.jobs@.last()@));
        }
        id
    }

    /// The first `limit` pending jobs (all of them when fewer are pending),
    /// ascending by id, oldest first. Copies rows; removes nothing.
    pub fn list(&self, limit: usize) -> (r: Vec<SyncJob>)
        requires
            self.wf(),
        ensures
            r@.map_values(|j: SyncJob| j@) == self@.take(if limit <= self@.len() {
                limit as int
            } else {
                self@.len() as int
            }),
            ids_ascending(r@.map_values(|j: SyncJob| j@)),
    {
        let n = self.jobs.len();
        let take = if limit <= n {
            limit
        } else {
            n
        };
        let mut r: Vec<SyncJob> = Vec::new();
        let mut i: usize = 0;
        while i < take
            invariant
                self.wf(),
                0 <= i <= take,
                take <= n,
                n == self.jobs@.len(),
                r@.len() == i,
                forall|j: int| 0 <= j < i ==> #[trigger] r@[j]@ == self@[j],
            decreases take - i,
        {
            r.push(self.jobs[i].clone());
            i = i + 1;
        }
        proof {
            assert(r@.map_values(|j: SyncJob| j@) =~= self@.take(take as int));
        }
        r
    }

    /// `list` with the default bound on retrieval cost.
    pub fn list_default(&self) -> (r: Vec<SyncJob>)
        requires
            self.wf(),
        ensures
            r@.map_values(|j: SyncJob| j@) == self@.take(
                if DEFAULT_LIST_LIMIT <= self@.len() {
                    DEFAULT_LIST_LIMIT as int
                } else {
                    self@.len() as int
                },
            ),
            ids_ascending(r@.map_values(|j: SyncJob| j@)),
    {
        self.list(DEFAULT_LIST_LIMIT)
    }

    /// Remove the job carrying `id`, if it is pending; returns whether one
    /// was. Invoked by the external sync loop after confirmed remote
    /// success.
    pub fn delete(&mut self, id: u64) -> (r: bool)
        requires
            old(self).wf(),
        ensures
            final(self).wf(),
            final(self).next_id() == old(self).next_id(),
            r == has_job(old(self)@, id),
            final(self)@ == drop_id(old(self)@, id),
    {
        let n = self.jobs.len();
        let mut i: usize = 0;
        while i < n
            invariant
                old(self).wf(),
                self == old(self),
                0 <= i <= n,
                n == self.jobs@.len(),
                forall|j: int| 0 <= j < i ==> self@[j].id != id,
            decreases n - i,
        {
            if self.jobs[i].id == id {
                proof {
                    assert(old(self)@[i as int].id == id);
                }
                let _ = self.jobs.remove(i);
                proof {
                    assert(self@ =~= old(self)@.remove(i as int));
                    lemma_drop_id_found(old(self)@, id, i as int);
                    assert(has_job(old(self)@, id)) by {
                        assert(0 <= i < old(self)@.len() && old(self)@[i as int].id == id);
                    }
                }
                return true;
            }
            i = i + 1;
        }
        proof {
            lemma_drop_id_absent(self@, id);
        }
        false
    }

    /// Remove every pending job: a full state reset. Ids are still never
    /// reused afterwards.
    pub fn clear(&mut self)
        requires
            old(self).wf(),
        ensures
            final(self).wf(),
            final(self).next_id() == old(self).next_id(),
            final(self)@ == Seq::<JobModel>::empty(),
    {
        self.jobs.clear();
        proof {
            assert(final(self)@ =~= Seq::<JobModel>::empty());
        }
    }

    /// The number of pending jobs.
    pub fn count(&self) -> (r: usize)
        ensures
            r == self@.len(),
    {
        self.jobs.len()
    }
}

} // verus!
