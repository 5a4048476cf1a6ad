//! The scheduling core: a fixed set of execution slots and a FIFO backlog.
//!
//! The pool decides which job runs where and what each poll reports. Running
//! the payloads, and moving them to and from the execution threads, is done by
//! the caller: every assignment comes back as a [`Dispatch`] to hand to the
//! named worker thread, and every poll takes what each worker thread reported.
use std::collections::VecDeque;
use vstd::prelude::*;

verus! {

/// One unit of submitted work: a process-unique id and the payload that a
/// worker runs exactly once.
pub struct Job<P> {
    pub id: usize,
    pub payload: P,
}

impl<P> Job<P> {
    pub fn new(id: usize, payload: P) -> (r: Self)
        ensures
            r.id == id,
            r.payload == payload,
    {
        Job { id, payload }
    }
}

/// Raised when a job is handed to a worker that already runs one.
#[derive(Debug, PartialEq, Eq, Structural)]
pub struct AlreadyBusy;

/// A single execution slot: its stable id and the job in flight on it, if any.
#[derive(Clone, Copy)]
pub struct Worker {
    id: usize,
    job: Option<usize>,
}

impl Worker {
    pub closed spec fn spec_id(&self) -> usize {
        self.id
    }

    /// The id of the job in flight on this worker.
    pub closed spec fn current_job(&self) -> Option<usize> {
        self.job
    }

    pub fn new(id: usize) -> (r: Self)
        ensures
            r.spec_id() == id,
            r.current_job() is None,
    {
        Worker { id, job: None }
    }

    pub fn id(&self) -> (r: usize)
        ensures
            r == self.spec_id(),
    {
        self.id
    }

    pub fn is_running(&self) -> (r: bool)
        ensures
            r == self.current_job() is Some,
    {
        self.job.is_some()
    }

    /// Records `job_id` as in flight; refuses, and changes nothing, while
    /// another job is in flight.
    pub fn run_job(&mut self, job_id: usize) -> (r: Result<usize, AlreadyBusy>)
        ensures
            final(self).spec_id() == old(self).spec_id(),
            old(self).current_job() is Some ==> r == Err::<usize, AlreadyBusy>(AlreadyBusy)
                && final(self).current_job() == old(self).current_job(),
            old(self).current_job() is None ==> r == Ok::<usize, AlreadyBusy>(job_id)
                && final(self).current_job() == Some(job_id),
    {
        if self.is_running() {
            Err(AlreadyBusy)
        } else {
            self.job = Some(job_id);
            Ok(job_id)
        }
    }

    /// Takes what the worker's thread reported since the last poll. A result
    /// frees the worker and is returned with the id of the job it belongs to.
    pub fn update<O>(&mut self, result: Option<O>) -> (r: Option<(usize, O)>)
        ensures
            final(self).spec_id() == old(self).spec_id(),
            match result {
                Some(o) => {
                    &&& final(self).current_job() is None
                    &&& r == match old(self).current_job() {
                        Some(id) => Some((id, o)),
                        None => None::<(usize, O)>,
                    }
                },
                None => final(self).current_job() == old(self).current_job() && r is None,
            },
    {
        match result {
            Some(o) => match self.job.take() {
                Some(id) => Some((id, o)),
                None => None,
            },
            None => None,
        }
    }
}

/// A job handed to a worker: the caller forwards `job` to the thread of the
/// worker whose id is `worker`.
pub struct Dispatch<P> {
    pub worker: usize,
    pub job: Job<P>,
}

/// What one poll of the pool observed.
pub struct UpdateReport<O> {
    /// Jobs whose worker reported completion, with their outcome.
    pub finished_jobs: Vec<(usize, O)>,
    /// Jobs that went to a worker since the previous poll, as (job id, worker id).
    pub started_jobs: Vec<(usize, usize)>,
}

/// The pool as a mathematical value.
pub struct PoolView {
    /// For each worker, in id order, the job in flight on it.
    pub slots: Seq<Option<usize>>,
    /// Ids of the jobs waiting for a worker, the oldest first.
    pub backlog: Seq<usize>,
    /// Assignments made on submission that no poll has reported yet.
    pub announced: Seq<(usize, usize)>,
    /// The id that the next submitted job receives.
    pub next_id: nat,
}

pub open spec fn all_busy(slots: Seq<Option<usize>>) -> bool {
    forall|i: int| 0 <= i < slots.len() ==> #[trigger] slots[i] is Some
}

/// `i` is the lowest id of an idle worker.
pub open spec fn is_first_idle(slots: Seq<Option<usize>>, i: int) -> bool {
    &&& 0 <= i < slots.len()
    &&& slots[i] is None
    &&& forall|j: int| 0 <= j < i ==> #[trigger] slots[j] is Some
}

pub open spec fn first_idle(slots: Seq<Option<usize>>) -> int {
    choose|i: int| is_first_idle(slots, i)
}

/// The pool after a submission, the id given to the job and the worker that
/// took it, if one was idle.
pub open spec fn register_spec(v: PoolView) -> (PoolView, nat, Option<usize>) {
    let id = v.next_id;
    if all_busy(v.slots) {
        (PoolView { backlog: v.backlog.push(id as usize), next_id: id + 1, ..v }, id, None)
    } else {
        let w = first_idle(v.slots);
        (
            PoolView {
                slots: v.slots.update(w, Some(id as usize)),
                announced: v.announced.push((id as usize, w as usize)),
                next_id: id + 1,
                ..v
            },
            id,
            Some(w as usize),
        )
    }
}

/// The slots once every worker that reported a result is freed.
pub open spec fn drain_slots<O>(slots: Seq<Option<usize>>, results: Seq<Option<O>>) -> Seq<
    Option<usize>,
> {
    Seq::new(slots.len(), |i: int| if results[i] is Some { None } else { slots[i] })
}

/// The finished pairs collected from the first `k` workers, in id order.
pub open spec fn finished_spec<O>(
    slots: Seq<Option<usize>>,
    results: Seq<Option<O>>,
    k: int,
) -> Seq<(usize, O)>
    decreases k,
{
    if k <= 0 {
        Seq::empty()
    } else {
        let prev = finished_spec(slots, results, k - 1);
        if slots[k - 1] is Some && results[k - 1] is Some {
            prev.push((slots[k - 1]->0, results[k - 1]->0))
        } else {
            prev
        }
    }
}

/// Backlog promotion over the first `k` workers: each idle one, in id order,
/// takes the front of the backlog. Gives the slots, the rest of the backlog
/// and the (job id, worker id) pairs started.
pub open spec fn promote(slots: Seq<Option<usize>>, backlog: Seq<usize>, k: int) -> (
    Seq<Option<usize>>,
    Seq<usize>,
    Seq<(usize, usize)>,
)
    decreases k,
{
    if k <= 0 {
        (slots, backlog, Seq::empty())
    } else {
        let (s, b, st) = promote(slots, backlog, k - 1);
        if s[k - 1] is None && b.len() > 0 {
            (s.update(k - 1, Some(b[0])), b.drop_first(), st.push((b[0], (k - 1) as usize)))
        } else {
            (s, b, st)
        }
    }
}

/// The pool after a poll that received `results` (one entry per worker), and
/// the started pairs that the poll reports.
pub open spec fn update_spec<O>(v: PoolView, results: Seq<Option<O>>) -> (
    PoolView,
    Seq<(usize, usize)>,
) {
    let n = v.slots.len() as int;
    let (s, b, st) = promote(drain_slots(v.slots, results), v.backlog, n);
    (PoolView { slots: s, backlog: b, announced: Seq::empty(), next_id: v.next_id }, v.announced + st)
}

pub open spec fn increasing(s: Seq<usize>) -> bool {
    forall|i: int, j: int| 0 <= i < j < s.len() ==> s[i] < s[j]
}

/// Ids are ordered and distinct: the backlog is increasing, every job in
/// flight is older than every waiting one, and all are below `next_id`.
pub open spec fn ids_wf(slots: Seq<Option<usize>>, backlog: Seq<usize>, next_id: nat) -> bool {
    &&& increasing(backlog)
    &&& forall|k: int| 0 <= k < backlog.len() ==> #[trigger] backlog[k] < next_id
    &&& forall|i: int, k: int|
        0 <= i < slots.len() && 0 <= k < backlog.len() && #[trigger] slots[i] is Some
            ==> slots[i]->0 < #[trigger] backlog[k]
    &&& forall|i: int| 0 <= i < slots.len() && #[trigger] slots[i] is Some ==> slots[i]->0 < next_id
    &&& forall|i: int, j: int|
        0 <= i < j < slots.len() && #[trigger] slots[i] is Some && #[trigger] slots[j] is Some
            ==> slots[i]->0 != slots[j]->0
}

/// The bookkeeping that every operation of the pool keeps.
pub open spec fn view_wf(v: PoolView) -> bool {
    &&& ids_wf(v.slots, v.backlog, v.next_id)
    &&& v.backlog.len() > 0 ==> all_busy(v.slots)
    &&& forall|k: int|
        0 <= k < v.announced.len() ==> {
            let (id, w) = #[trigger] v.announced[k];
            &&& w < v.slots.len()
            &&& v.slots[w as int] == Some(id)
        }
    &&& forall|k1: int, k2: int|
        0 <= k1 < k2 < v.announced.len() ==> #[trigger] v.announced[k1].1 != #[trigger] v.announced[k2].1
}

pub(crate) proof fn lemma_drain_wf<O>(v: PoolView, results: Seq<Option<O>>)
    requires
        ids_wf(v.slots, v.backlog, v.next_id),
        results.len() == v.slots.len(),
    ensures
        ids_wf(drain_slots(v.slots, results), v.backlog, v.next_id),
{
    let d = drain_slots(v.slots, results);
    assert forall|i: int, j: int|
        0 <= i < j < d.len() && #[trigger] d[i] is Some && #[trigger] d[j] is Some
        implies d[i]->0 != d[j]->0 by {
        assert(v.slots[i] is Some && v.slots[j] is Some);
    }
    assert forall|i: int, k: int|
        0 <= i < d.len() && 0 <= k < v.backlog.len() && #[trigger] d[i] is Some
        implies d[i]->0 < #[trigger] v.backlog[k] by {
        assert(v.slots[i] is Some);
    }
    assert forall|i: int| 0 <= i < d.len() && #[trigger] d[i] is Some implies d[i]->0 < v.next_id by {
        assert(v.slots[i] is Some);
    }
}

/// What backlog promotion over the first `k` workers does.
pub(crate) proof fn lemma_promote(s0: Seq<Option<usize>>, b0: Seq<usize>, next: nat, k: int)
    requires
        ids_wf(s0, b0, next),
        0 <= k <= s0.len(),
        s0.len() <= usize::MAX,
    ensures
        ({
            let (s, b, st) = promote(s0, b0, k);
            &&& s.len() == s0.len()
            &&& ids_wf(s, b, next)
            &&& st.len() <= b0.len()
            &&& b == b0.skip(st.len() as int)
            &&& forall|j: int|
                0 <= j < st.len() ==> {
                    &&& (#[trigger] st[j]).0 == b0[j]
                    &&& st[j].1 < k
                    &&& s0[st[j].1 as int] is None
                    &&& s[st[j].1 as int] == Some(st[j].0)
                }
            &&& forall|j1: int, j2: int| 0 <= j1 < j2 < st.len() ==> #[trigger] st[j1].1 < #[trigger] st[j2].1
            &&& b.len() > 0 ==> forall|i: int| 0 <= i < k ==> #[trigger] s[i] is Some
            &&& forall|i: int|
                0 <= i < s0.len() && (i >= k || s0[i] is Some) ==> #[trigger] s[i] == s0[i]
            &&& forall|i: int|
                0 <= i < k && s0[i] is None && #[trigger] s[i] is Some ==> exists|j: int|
                    0 <= j < st.len() && #[trigger] st[j].1 == i
        }),
    decreases k,
{
    if k > 0 {
        lemma_promote(s0, b0, next, k - 1);
        let (s, b, st) = promote(s0, b0, k - 1);
        if s[k - 1] is None && b.len() > 0 {
            let s2 = s.update(k - 1, Some(b[0]));
            let b2 = b.drop_first();
            let st2 = st.push((b[0], (k - 1) as usize));
            assert(promote(s0, b0, k) == (s2, b2, st2));
            assert(b2 =~= b0.skip(st2.len() as int));
            assert(b[0] == b0[st.len() as int]);
            assert forall|i: int, j: int|
                0 <= i < j < s2.len() && #[trigger] s2[i] is Some && #[trigger] s2[j] is Some
                implies s2[i]->0 != s2[j]->0 by {
                if i == k - 1 {
                    assert(s[j] is Some);
                    assert(s[j]->0 < b[0]);
                } else if j == k - 1 {
                    assert(s[i] is Some);
                    assert(s[i]->0 < b[0]);
                } else {
                    assert(s[i] is Some && s[j] is Some);
                }
            }
            assert forall|i: int, m: int|
                0 <= i < s2.len() && 0 <= m < b2.len() && #[trigger] s2[i] is Some
                implies s2[i]->0 < #[trigger] b2[m] by {
                assert(b2[m] == b[m + 1]);
                if i != k - 1 {
                    assert(s[i] is Some);
                }
            }
            assert forall|m: int| 0 <= m < b2.len() implies #[trigger] b2[m] < next by {
                assert(b2[m] == b[m + 1]);
            }
            assert(increasing(b2)) by {
                assert forall|x: int, y: int| 0 <= x < y < b2.len() implies b2[x] < b2[y] by {
                    assert(b2[x] == b[x + 1] && b2[y] == b[y + 1]);
                }
            }
            assert forall|i: int| 0 <= i < s2.len() && #[trigger] s2[i] is Some implies s2[i]->0 < next by {
                if i != k - 1 {
                    assert(s[i] is Some);
                }
            }
            assert forall|i: int|
                0 <= i < k && s0[i] is None && #[trigger] s2[i] is Some implies exists|j: int|
                    0 <= j < st2.len() && #[trigger] st2[j].1 == i by {
                if i == k - 1 {
                    assert(st2[st.len() as int].1 == i);
                } else {
                    assert(s[i] is Some);
                    let j = choose|j: int| 0 <= j < st.len() && #[trigger] st[j].1 == i;
                    assert(st2[j].1 == i);
                }
            }
            assert(b2.len() > 0 ==> forall|i: int| 0 <= i < k ==> #[trigger] s2[i] is Some) by {
                if b2.len() > 0 {
                    assert forall|i: int| 0 <= i < k implies #[trigger] s2[i] is Some by {
                        if i != k - 1 {
                            assert(s[i] is Some);
                        }
                    }
                }
            }
            assert forall|j: int| 0 <= j < st2.len() implies {
                &&& (#[trigger] st2[j]).0 == b0[j]
                &&& st2[j].1 < k
                &&& s0[st2[j].1 as int] is None
                &&& s2[st2[j].1 as int] == Some(st2[j].0)
            } by {
                if j < st.len() {
                    assert(st2[j] == st[j]);
                }
            }
        } else {
            assert(promote(s0, b0, k) == (s, b, st));
            assert forall|i: int|
                0 <= i < k && s0[i] is None && #[trigger] s[i] is Some implies exists|j: int|
                    0 <= j < st.len() && #[trigger] st[j].1 == i by {
                if i == k - 1 {
                    assert(s[i] == s0[i]);
                }
            }
        }
    }
}

pub(crate) proof fn lemma_first_idle_from(slots: Seq<Option<usize>>, k: int)
    requires
        0 <= k <= slots.len(),
        forall|j: int| 0 <= j < k ==> #[trigger] slots[j] is Some,
        exists|i: int| k <= i < slots.len() && #[trigger] slots[i] is None,
    ensures
        is_first_idle(slots, first_idle(slots)),
    decreases slots.len() - k,
{
    if slots[k] is None {
        assert(is_first_idle(slots, k));
    } else {
        lemma_first_idle_from(slots, k + 1);
    }
}

/// Submission keeps the bookkeeping.
pub(crate) proof fn lemma_register_wf(v: PoolView)
    requires
        view_wf(v),
        v.next_id < usize::MAX,
        v.slots.len() <= usize::MAX,
    ensures
        view_wf(register_spec(v).0),
        register_spec(v).0.slots.len() == v.slots.len(),
        !all_busy(v.slots) ==> is_first_idle(v.slots, first_idle(v.slots)),
{
    let (nv, id, w) = register_spec(v);
    if all_busy(v.slots) {
        assert forall|a: int, k: int|
            0 <= a < nv.slots.len() && 0 <= k < nv.backlog.len() && #[trigger] nv.slots[a] is Some
            implies nv.slots[a]->0 < #[trigger] nv.backlog[k] by {
            if k < v.backlog.len() {
                assert(v.backlog[k] == nv.backlog[k]);
            }
        }
    } else {
        lemma_first_idle_from(v.slots, 0);
        let i = first_idle(v.slots);
        assert(v.backlog.len() == 0);
        assert forall|a: int, b: int|
            0 <= a < b < nv.slots.len() && #[trigger] nv.slots[a] is Some && #[trigger] nv.slots[b] is Some
            implies nv.slots[a]->0 != nv.slots[b]->0 by {
            if a != i && b != i {
                assert(v.slots[a] is Some && v.slots[b] is Some);
            } else if a == i {
                assert(v.slots[b] is Some);
            } else {
                assert(v.slots[a] is Some);
            }
        }
        assert forall|a: int| 0 <= a < nv.slots.len() && #[trigger] nv.slots[a] is Some implies nv.slots[a]->0
            < nv.next_id by {
            if a != i {
                assert(v.slots[a] is Some);
            }
        }
        assert forall|k: int| 0 <= k < nv.announced.len() implies {
            let (jid, wid) = #[trigger] nv.announced[k];
            &&& wid < nv.slots.len()
            &&& nv.slots[wid as int] == Some(jid)
        } by {
            if k < v.announced.len() {
                let (jid, wid) = v.announced[k];
                assert(v.announced[k] == nv.announced[k]);
                assert(v.slots[wid as int] is Some);
            }
        }
        assert forall|k1: int, k2: int|
            0 <= k1 < k2 < nv.announced.len() implies #[trigger] nv.announced[k1].1
            != #[trigger] nv.announced[k2].1 by {
            if k2 == v.announced.len() {
                let (jid, wid) = v.announced[k1];
                assert(v.announced[k1] == nv.announced[k1]);
                assert(v.slots[wid as int] is Some);
            } else {
                assert(v.announced[k1] == nv.announced[k1]);
                assert(v.announced[k2] == nv.announced[k2]);
            }
        }
    }
}

pub(crate) proof fn lemma_update_wf<O>(v: PoolView, results: Seq<Option<O>>)
    requires
        view_wf(v),
        results.len() == v.slots.len(),
        v.slots.len() <= usize::MAX,
    ensures
        view_wf(update_spec(v, results).0),
        update_spec(v, results).0.slots.len() == v.slots.len(),
{
    let d = drain_slots(v.slots, results);
    lemma_drain_wf(v, results);
    lemma_promote(d, v.backlog, v.next_id, d.len() as int);
}

/// The fixed-size worker pool with its FIFO backlog.
pub struct ThreadPool<P> {
    workers: Vec<Worker>,
    jobs: VecDeque<Job<P>>,
    announced: Vec<(usize, usize)>,
    next_id: usize,
}

impl<P> ThreadPool<P> {
    pub closed spec fn view(&self) -> PoolView {
        PoolView {
            slots: self.workers@.map_values(|w: Worker| w.job),
            backlog: self.jobs@.map_values(|j: Job<P>| j.id),
            announced: self.announced@,
            next_id: self.next_id as nat,
        }
    }

    /// The jobs waiting for a worker, the oldest first.
    pub closed spec fn backlog_jobs(&self) -> Seq<Job<P>> {
        self.jobs@
    }

    pub closed spec fn wf(&self) -> bool {
        &&& forall|i: int| 0 <= i < self.workers@.len() ==> (#[trigger] self.workers@[i]).id == i
        &&& self.workers@.len() <= usize::MAX
        &&& view_wf(self.view())
    }

    /// A well-formed pool's view keeps the bookkeeping that the laws of the
    /// pool assume.
    pub proof fn lemma_view_wf(&self)
        requires
            self.wf(),
        ensures
            view_wf(self.view()),
            self.view().slots.len() <= usize::MAX,
    {
    }

    /// Another job can still be given a fresh id.
    pub open spec fn can_register(&self) -> bool {
        self.view().next_id < usize::MAX
    }

    pub fn new(size: usize) -> (r: Self)
        ensures
            r.wf(),
            view_wf(r.view()),
            r.view() == (PoolView {
                slots: Seq::new(size as nat, |i: int| None::<usize>),
                backlog: Seq::empty(),
                announced: Seq::empty(),
                next_id: 0,
            }),
            r.backlog_jobs().len() == 0,
    {
        let mut workers: Vec<Worker> = Vec::with_capacity(size);
        let mut i: usize = 0;
        while i < size
            invariant
                i <= size,
                workers@.len() == i,
                forall|k: int| 0 <= k < i ==> (#[trigger] workers@[k]).id == k && workers@[k].job is None,
            decreases size - i,
        {
            workers.push(Worker::new(i));
            i = i + 1;
        }
        let r = ThreadPool { workers, jobs: VecDeque::new(), announced: Vec::new(), next_id: 0 };
        assert(r.view().slots =~= Seq::new(size as nat, |i: int| None::<usize>));
        assert(r.view().backlog =~= Seq::empty());
        r
    }

    pub fn size(&self) -> (r: usize)
        ensures
            r == self.view().slots.len(),
    {
        self.workers.len()
    }

    /// Whether another job can still be given a fresh id.
    pub fn has_free_id(&self) -> (r: bool)
        ensures
            r == self.can_register(),
    {
        self.next_id < usize::MAX
    }
    /// The lowest id of an idle worker, if any.
    fn next_available(&self) -> (r: Option<usize>)
        requires
            self.wf(),
        ensures
            match r {
                Some(i) => is_first_idle(self.view().slots, i as int),
                None => all_busy(self.view().slots),
            },
    {
        let n = self.workers.len();
        let mut i: usize = 0;
        while i < n
            invariant
                i <= n,
                n == self.view().slots.len(),
                forall|j: int| 0 <= j < i ==> #[trigger] self.view().slots[j] is Some,
            decreases n - i,
        {
            if !self.workers[i].is_running() {
                return Some(i);
            }
            i = i + 1;
        }
        None
    }

    /// Submits `payload` as a new job with a fresh id. The idle worker with
    /// the lowest id takes it at once, and the returned dispatch names it;
    /// when every worker is busy the job joins the back of the backlog.
    pub fn register(&mut self, payload: P) -> (r: (usize, Option<Dispatch<P>>))
        requires
            old(self).wf(),
            old(self).can_register(),
        ensures
            final(self).wf(),
            view_wf(final(self).view()),
            final(self).view().slots.len() == old(self).view().slots.len(),
            ({
                let (v, id, w) = register_spec(old(self).view());
                &&& final(self).view() == v
                &&& r.0 == id
                &&& match r.1 {
                    Some(d) => {
                        &&& w == Some(d.worker)
                        &&& is_first_idle(old(self).view().slots, d.worker as int)
                        &&& d.job.id == id
                        &&& d.job.payload == payload
                        &&& final(self).backlog_jobs() == old(self).backlog_jobs()
                    },
                    None => {
                        &&& w is None
                        &&& final(self).backlog_jobs() == old(self).backlog_jobs().push(
                            Job { id: r.0, payload },
                        )
                    },
                }
            }),
    {
        let ghost v = self.view();
        let n = self.workers.len();
        assert(v.slots.len() == n);
        let id = self.next_id;
        let job = Job::new(id, payload);
        match self.next_available() {
            Some(i) => {
                assert(is_first_idle(v.slots, first_idle(v.slots)));
                assert(first_idle(v.slots) == i as int) by {
                    let f = first_idle(v.slots);
                    if f < i as int {
                        assert(v.slots[f] is Some);
                    } else if f > i as int {
                        assert(v.slots[i as int] is Some);
                    }
                }
                let mut w = self.workers[i];
                let _ = w.run_job(id);
                self.workers.set(i, w);
                self.announced.push((id, i));
                self.next_id = id + 1;
                proof {
                    let (nv, _, _) = register_spec(v);
                    assert(self.view().slots =~= nv.slots);
                    assert(self.view().backlog =~= nv.backlog);
                    lemma_register_wf(v);
                }
                (id, Some(Dispatch { worker: i, job }))
            },
            None => {
                self.jobs.push_back(job);
                self.next_id = id + 1;
                proof {
                    let (nv, _, _) = register_spec(v);
                    assert(self.view().slots =~= nv.slots);
                    assert(self.view().backlog =~= nv.backlog);
                    lemma_register_wf(v);
                }
                (id, None)
            },
        }
    }
    /// Polls the pool. `results` holds, for each worker in id order, what
    /// its thread reported since the last poll. First every worker with a
    /// result is freed and its job reported finished; then each idle worker,
    /// in id order, takes the front of the backlog. The returned dispatches
    /// are the jobs so taken, to be handed to their workers' threads.
    pub fn update<O>(&mut self, results: Vec<Option<O>>) -> (r: (UpdateReport<O>, Vec<Dispatch<P>>))
        requires
            old(self).wf(),
            results@.len() == old(self).view().slots.len(),
        ensures
            final(self).wf(),
            view_wf(final(self).view()),
            final(self).view().slots.len() == old(self).view().slots.len(),
            ({
                let v = old(self).view();
                let n = v.slots.len() as int;
                let (nv, started) = update_spec(v, results@);
                let promoted = promote(drain_slots(v.slots, results@), v.backlog, n).2;
                &&& final(self).view() == nv
                &&& r.0.finished_jobs@ == finished_spec(v.slots, results@, n)
                &&& r.0.started_jobs@ == started
                &&& r.1@.len() == promoted.len()
                &&& forall|j: int|
                    0 <= j < promoted.len() ==> (#[trigger] r.1@[j]).worker == promoted[j].1
                        && r.1@[j].job.id == promoted[j].0
                        && r.1@[j].job == old(self).backlog_jobs()[j]
                &&& final(self).backlog_jobs() == old(self).backlog_jobs().skip(promoted.len() as int)
            }),
    {
        let ghost v = self.view();
        let ghost res0 = results@;
        let ghost jobs0 = self.jobs@;
        let n = self.workers.len();
        let mut results = results;
        let mut finished_jobs: Vec<(usize, O)> = Vec::new();
        let mut i: usize = 0;
        while i < n
            invariant
                i <= n,
                n == self.workers@.len(),
                n == res0.len(),
                v == old(self).view(),
                v.slots.len() == n,
                results@ == res0.skip(i as int),
                self.jobs@ == jobs0,
                self.announced@ == v.announced,
                self.next_id == v.next_id,
                forall|k: int| 0 <= k < n ==> (#[trigger] self.workers@[k]).id == k,
                forall|k: int| 0 <= k < i ==> #[trigger] self.view().slots[k] == drain_slots(v.slots, res0)[k],
                forall|k: int| i <= k < n ==> #[trigger] self.view().slots[k] == v.slots[k],
                finished_jobs@ == finished_spec(v.slots, res0, i as int),
            decreases n - i,
        {
            let ghost before = self.view().slots;
            let res = results.remove(0);
            assert(res == res0[i as int]);
            let mut w = self.workers[i];
            assert(self.view().slots[i as int] == v.slots[i as int]);
            assert(w.job == v.slots[i as int]);
            let f = w.update(res);
            self.workers.set(i, w);
            assert(self.view().slots =~= before.update(i as int, w.job));
            assert(drain_slots(v.slots, res0)[i as int] == w.job);
            match f {
                Some(p) => finished_jobs.push(p),
                None => {},
            }
            assert(results@ =~= res0.skip(i + 1));
            assert(finished_jobs@ == finished_spec(v.slots, res0, i + 1));
            i = i + 1;
        }
        proof {
            assert(self.view().slots =~= drain_slots(v.slots, res0));
            lemma_drain_wf(v, res0);
            lemma_promote(drain_slots(v.slots, res0), v.backlog, v.next_id, n as int);
        }
        let ghost drained = self.view().slots;
        let mut started_jobs: Vec<(usize, usize)> = Vec::new();
        std::mem::swap(&mut started_jobs, &mut self.announced);
        let mut dispatches: Vec<Dispatch<P>> = Vec::new();
        let mut i: usize = 0;
        while i < n
            invariant
                i <= n,
                n == self.workers@.len(),
                n == drained.len(),
                v == old(self).view(),
                drained == drain_slots(v.slots, res0),
                ids_wf(drained, v.backlog, v.next_id),
                jobs0.map_values(|j: Job<P>| j.id) == v.backlog,
                self.announced@ == Seq::<(usize, usize)>::empty(),
                self.next_id == v.next_id,
                forall|k: int| 0 <= k < n ==> (#[trigger] self.workers@[k]).id == k,
                ({
                    let (s, b, st) = promote(drained, v.backlog, i as int);
                    &&& self.view().slots == s
                    &&& self.view().backlog == b
                    &&& started_jobs@ == v.announced + st
                    &&& dispatches@.len() == st.len()
                    &&& st.len() <= jobs0.len()
                    &&& self.jobs@ == jobs0.skip(st.len() as int)
                    &&& forall|j: int|
                        0 <= j < st.len() ==> (#[trigger] dispatches@[j]).worker == st[j].1
                            && dispatches@[j].job == jobs0[j]
                }),
            decreases n - i,
        {
            proof {
                lemma_promote(drained, v.backlog, v.next_id, i as int);
            }
            let ghost (s, b, st) = promote(drained, v.backlog, i as int);
            if !self.workers[i].is_running() && self.jobs.len() > 0 {
                match self.jobs.pop_front() {
                    Some(job) => {
                        assert(job == jobs0[st.len() as int]);
                        let mut w = self.workers[i];
                        let _ = w.run_job(job.id);
                        self.workers.set(i, w);
                        started_jobs.push((job.id, i));
                        dispatches.push(Dispatch { worker: i, job });
                        proof {
                            let (s2, b2, st2) = promote(drained, v.backlog, i + 1);
                            assert(self.view().slots =~= s2);
                            assert(self.view().backlog =~= b2);
                            assert(started_jobs@ =~= v.announced + st2);
                            assert(self.jobs@ =~= jobs0.skip(st2.len() as int));
                        }
                    },
                    None => {},
                }
            } else {
                proof {
                    assert(self.jobs@.len() == 0 ==> b.len() == 0);
                }
            }
            i = i + 1;
        }
        proof {
            lemma_promote(drained, v.backlog, v.next_id, n as int);
            lemma_update_wf(v, res0);
            let st = promote(drained, v.backlog, n as int).2;
            assert forall|j: int| 0 <= j < st.len() implies (#[trigger] dispatches@[j]).job.id == st[j].0 by {
                assert(v.backlog[j] == jobs0[j].id);
            }
            assert(self.view() == update_spec(v, res0).0);
        }
        (UpdateReport { finished_jobs, started_jobs }, dispatches)
    }
}

} // verus!
