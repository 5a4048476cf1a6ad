//! What holds of the pool across its operations, stated over [`PoolView`].
use vstd::prelude::*;
use vstd::seq_lib::{lemma_no_dup_in_concat, seq_to_set_distributes_over_add};

use crate::threadpool::{
    all_busy, drain_slots, finished_spec, ids_wf, lemma_first_idle_from, lemma_register_wf, lemma_drain_wf, lemma_promote, lemma_update_wf, promote, register_spec,
    update_spec, view_wf, PoolView,
};

verus! {

/// Ids of the jobs in flight.
pub open spec fn slot_ids(slots: Seq<Option<usize>>) -> Set<usize> {
    Set::new(|id: usize| exists|i: int| 0 <= i < slots.len() && slots[i] == Some(id))
}

/// Ids of the jobs submitted and not yet reported finished.
pub open spec fn pending(v: PoolView) -> Set<usize> {
    slot_ids(v.slots) + v.backlog.to_set()
}

/// Ids of the jobs that a poll with `results` reports finished, in order.
pub open spec fn finished_ids<O>(slots: Seq<Option<usize>>, results: Seq<Option<O>>) -> Seq<usize> {
    finished_spec(slots, results, slots.len() as int).map_values(|p: (usize, O)| p.0)
}

/// Worker `i` held the job of the finished pair `p` and reported its outcome.
pub open spec fn finished_source<O>(
    slots: Seq<Option<usize>>,
    results: Seq<Option<O>>,
    i: int,
    p: (usize, O),
) -> bool {
    slots[i] is Some && results[i] is Some && p == (slots[i]->0, results[i]->0)
}

/// Some worker among the first `k` held the job of `p` and reported its outcome.
pub open spec fn has_source<O>(
    slots: Seq<Option<usize>>,
    results: Seq<Option<O>>,
    k: int,
    p: (usize, O),
) -> bool {
    exists|i: int| 0 <= i < k && #[trigger] finished_source(slots, results, i, p)
}

pub open spec fn distinct_slots(slots: Seq<Option<usize>>) -> bool {
    forall|i: int, j: int|
        0 <= i < j < slots.len() && #[trigger] slots[i] is Some && #[trigger] slots[j] is Some
            ==> slots[i]->0 != slots[j]->0
}

/// Each finished pair comes from a worker that held that job and reported.
proof fn lemma_finished_source<O>(slots: Seq<Option<usize>>, results: Seq<Option<O>>, k: int)
    requires
        0 <= k <= slots.len(),
        results.len() == slots.len(),
    ensures
        forall|j: int|
            0 <= j < finished_spec(slots, results, k).len() ==> #[trigger] has_source(
                slots,
                results,
                k,
                finished_spec(slots, results, k)[j],
            ),
    decreases k,
{
    if k > 0 {
        lemma_finished_source(slots, results, k - 1);
        let prev = finished_spec(slots, results, k - 1);
        let f = finished_spec(slots, results, k);
        assert forall|j: int| 0 <= j < f.len() implies #[trigger] has_source(slots, results, k, f[j]) by {
            if slots[k - 1] is Some && results[k - 1] is Some {
                assert(f == prev.push((slots[k - 1]->0, results[k - 1]->0)));
            } else {
                assert(f == prev);
            }
            if j < prev.len() {
                assert(f[j] == prev[j]);
                assert(has_source(slots, results, k - 1, prev[j]));
                let i = choose|i: int| 0 <= i < k - 1 && #[trigger] finished_source(slots, results, i, prev[j]);
                assert(finished_source(slots, results, i, f[j]));
            } else {
                assert(finished_source(slots, results, k - 1, f[j]));
            }
        }
    }
}

/// Each worker that held a job and reported appears in the finished pairs.
proof fn lemma_finished_complete<O>(slots: Seq<Option<usize>>, results: Seq<Option<O>>, k: int)
    requires
        0 <= k <= slots.len(),
        results.len() == slots.len(),
    ensures
        forall|i: int|
            0 <= i < k && slots[i] is Some && results[i] is Some ==> exists|j: int|
                0 <= j < finished_spec(slots, results, k).len() && #[trigger] finished_spec(
                    slots,
                    results,
                    k,
                )[j] == (slots[i]->0, results[i]->0),
    decreases k,
{
    if k > 0 {
        lemma_finished_complete(slots, results, k - 1);
        let prev = finished_spec(slots, results, k - 1);
        let f = finished_spec(slots, results, k);
        assert forall|i: int| 0 <= i < k && slots[i] is Some && results[i] is Some implies exists|j: int|
            0 <= j < f.len() && #[trigger] f[j] == (slots[i]->0, results[i]->0) by {
            if i < k - 1 {
                let j = choose|j: int| 0 <= j < prev.len() && #[trigger] prev[j] == (slots[i]->0, results[i]->0);
                assert(f[j] == prev[j]);
            } else {
                assert(f[prev.len() as int] == (slots[i]->0, results[i]->0));
            }
        }
    }
}

/// No job is reported twice by one poll.
proof fn lemma_finished_distinct<O>(slots: Seq<Option<usize>>, results: Seq<Option<O>>, k: int)
    requires
        0 <= k <= slots.len(),
        results.len() == slots.len(),
        distinct_slots(slots),
    ensures
        forall|j1: int, j2: int|
            0 <= j1 < j2 < finished_spec(slots, results, k).len() ==> #[trigger] finished_spec(
                slots,
                results,
                k,
            )[j1].0 != #[trigger] finished_spec(slots, results, k)[j2].0,
    decreases k,
{
    if k > 0 {
        lemma_finished_distinct(slots, results, k - 1);
        lemma_finished_source(slots, results, k - 1);
        let prev = finished_spec(slots, results, k - 1);
        let f = finished_spec(slots, results, k);
        assert forall|j1: int, j2: int| 0 <= j1 < j2 < f.len() implies #[trigger] f[j1].0 != #[trigger] f[j2].0 by {
            assert(f[j1] == prev[j1]);
            if j2 < prev.len() {
                assert(f[j2] == prev[j2]);
            } else {
                assert(has_source(slots, results, k - 1, prev[j1]));
                let i = choose|i: int| 0 <= i < k - 1 && #[trigger] finished_source(slots, results, i, prev[j1]);
                assert(slots[i] is Some && slots[k - 1] is Some);
            }
        }
    }
}

proof fn lemma_finished_ids<O>(slots: Seq<Option<usize>>, results: Seq<Option<O>>)
    requires
        results.len() == slots.len(),
        distinct_slots(slots),
    ensures
        finished_ids(slots, results).no_duplicates(),
        finished_ids(slots, results).to_set() == Set::new(
            |id: usize|
                exists|i: int|
                    0 <= i < slots.len() && slots[i] == Some(id) && #[trigger] results[i] is Some,
        ),
{
    let n = slots.len() as int;
    lemma_finished_source(slots, results, n);
    lemma_finished_complete(slots, results, n);
    lemma_finished_distinct(slots, results, n);
    let f = finished_spec(slots, results, n);
    let ids = finished_ids(slots, results);
    assert forall|a: int, b: int| 0 <= a < ids.len() && 0 <= b < ids.len() && a != b implies ids[a] != ids[b] by {
        if a < b {
            assert(f[a].0 != f[b].0);
        } else {
            assert(f[b].0 != f[a].0);
        }
    }
    let target = Set::new(
        |id: usize|
            exists|i: int| 0 <= i < slots.len() && slots[i] == Some(id) && #[trigger] results[i] is Some,
    );
    assert forall|id: usize| ids.to_set().contains(id) <==> target.contains(id) by {
        if ids.to_set().contains(id) {
            let j = choose|j: int| 0 <= j < ids.len() && ids[j] == id;
            assert(has_source(slots, results, n, f[j]));
            let i = choose|i: int| 0 <= i < n && #[trigger] finished_source(slots, results, i, f[j]);
            assert(slots[i] == Some(id));
        }
        if target.contains(id) {
            let i = choose|i: int| 0 <= i < slots.len() && slots[i] == Some(id) && #[trigger] results[i] is Some;
            let j = choose|j: int| 0 <= j < f.len() && #[trigger] f[j] == (slots[i]->0, results[i]->0);
            assert(ids[j] == id);
        }
    }
    assert(ids.to_set() =~= target);
}

/// Promotion moves jobs from the backlog onto workers without losing or
/// adding any.
proof fn lemma_promote_pending(s0: Seq<Option<usize>>, b0: Seq<usize>, next: nat, k: int)
    requires
        ids_wf(s0, b0, next),
        0 <= k <= s0.len(),
        s0.len() <= usize::MAX,
    ensures
        ({
            let (s, b, st) = promote(s0, b0, k);
            slot_ids(s) + b.to_set() == slot_ids(s0) + b0.to_set()
        }),
    decreases k,
{
    if k > 0 {
        lemma_promote_pending(s0, b0, next, k - 1);
        lemma_promote(s0, b0, next, k - 1);
        let (s, b, st) = promote(s0, b0, k - 1);
        if s[k - 1] is None && b.len() > 0 {
            let s2 = s.update(k - 1, Some(b[0]));
            let b2 = b.drop_first();
            assert(promote(s0, b0, k).0 == s2 && promote(s0, b0, k).1 == b2);
            assert forall|id: usize| (slot_ids(s2) + b2.to_set()).contains(id) <==> (slot_ids(s)
                + b.to_set()).contains(id) by {
                if slot_ids(s2).contains(id) {
                    let i = choose|i: int| 0 <= i < s2.len() && s2[i] == Some(id);
                    if i == k - 1 {
                        assert(b[0] == id);
                        assert(b.to_set().contains(id));
                    } else {
                        assert(s[i] == Some(id));
                        assert(slot_ids(s).contains(id));
                    }
                }
                if b2.to_set().contains(id) {
                    let m = choose|m: int| 0 <= m < b2.len() && b2[m] == id;
                    assert(b[m + 1] == id);
                    assert(b.to_set().contains(id));
                }
                if slot_ids(s).contains(id) {
                    let i = choose|i: int| 0 <= i < s.len() && s[i] == Some(id);
                    assert(i != k - 1);
                    assert(s2[i] == Some(id));
                    assert(slot_ids(s2).contains(id));
                }
                if b.to_set().contains(id) {
                    let m = choose|m: int| 0 <= m < b.len() && b[m] == id;
                    if m == 0 {
                        assert(s2[k - 1] == Some(id));
                        assert(slot_ids(s2).contains(id));
                    } else {
                        assert(b2[m - 1] == id);
                        assert(b2.to_set().contains(id));
                    }
                }
            }
            assert(slot_ids(s2) + b2.to_set() =~= slot_ids(s) + b.to_set());
        } else {
            assert(promote(s0, b0, k) == (s, b, st));
        }
    }
}

/// Submission gives the new job an id that no pending job holds, and makes
/// exactly that job pending.
pub proof fn law_register_fresh_id(v: PoolView)
    requires
        view_wf(v),
        v.next_id < usize::MAX,
        v.slots.len() <= usize::MAX,
    ensures
        ({
            let (v2, id, _) = register_spec(v);
            &&& id == v.next_id
            &&& !pending(v).contains(id as usize)
            &&& pending(v2) == pending(v).insert(id as usize)
            &&& v2.next_id == v.next_id + 1
        }),
{
    let (v2, id, w) = register_spec(v);
    if !all_busy(v.slots) {
        lemma_first_idle_from(v.slots, 0);
    }
    assert(!pending(v).contains(id as usize)) by {
        if slot_ids(v.slots).contains(id as usize) {
            let i = choose|i: int| 0 <= i < v.slots.len() && v.slots[i] == Some(id as usize);
            assert(v.slots[i] is Some);
        }
        if v.backlog.to_set().contains(id as usize) {
            let m = choose|m: int| 0 <= m < v.backlog.len() && v.backlog[m] == id as usize;
            assert(v.backlog[m] < v.next_id);
        }
    }
    assert forall|x: usize| pending(v2).contains(x) <==> pending(v).insert(id as usize).contains(x) by {
        match w {
            Some(wi) => {
                let wk = wi as int;
                assert(v2.slots == v.slots.update(wk, Some(id as usize)));
                assert(v.slots[wk] is None);
                if slot_ids(v2.slots).contains(x) {
                    let i = choose|i: int| 0 <= i < v2.slots.len() && v2.slots[i] == Some(x);
                    if i != wk {
                        assert(v.slots[i] == Some(x));
                        assert(slot_ids(v.slots).contains(x));
                    }
                }
                if slot_ids(v.slots).contains(x) {
                    let i = choose|i: int| 0 <= i < v.slots.len() && v.slots[i] == Some(x);
                    assert(i != wk);
                    assert(v2.slots[i] == Some(x));
                }
                if x == id as usize {
                    assert(v2.slots[wk] == Some(x));
                }
            },
            None => {
                assert(v2.backlog == v.backlog.push(id as usize));
                if v2.backlog.to_set().contains(x) {
                    let m = choose|m: int| 0 <= m < v2.backlog.len() && v2.backlog[m] == x;
                    if m < v.backlog.len() {
                        assert(v.backlog[m] == x);
                    }
                }
                if v.backlog.to_set().contains(x) {
                    let m = choose|m: int| 0 <= m < v.backlog.len() && v.backlog[m] == x;
                    assert(v2.backlog[m] == x);
                }
                if x == id as usize {
                    assert(v2.backlog[v.backlog.len() as int] == x);
                }
            },
        }
    }
    assert(pending(v2) =~= pending(v).insert(id as usize));
}

/// A poll loses and duplicates nothing: the jobs it reports finished were
/// pending, each is reported once, and none of them is pending afterwards;
/// every other pending job is still pending. Their ids are below the next
/// id, which the poll keeps; as submission only hands out the next id and
/// raises it, a job reported finished is never pending again.
pub proof fn law_update_conserves_jobs<O>(v: PoolView, results: Seq<Option<O>>)
    requires
        view_wf(v),
        results.len() == v.slots.len(),
        v.slots.len() <= usize::MAX,
    ensures
        ({
            let f = finished_ids(v.slots, results);
            let v2 = update_spec(v, results).0;
            &&& f.no_duplicates()
            &&& f.to_set().subset_of(pending(v))
            &&& pending(v2) == pending(v) - f.to_set()
            &&& forall|x: usize| #[trigger] f.to_set().contains(x) ==> x < v.next_id
            &&& v2.next_id == v.next_id
        }),
{
    let n = v.slots.len() as int;
    let d = drain_slots(v.slots, results);
    lemma_finished_ids(v.slots, results);
    lemma_drain_wf(v, results);
    lemma_promote_pending(d, v.backlog, v.next_id, n);
    let f = finished_ids(v.slots, results);
    let v2 = update_spec(v, results).0;
    assert(pending(v2) == slot_ids(d) + v.backlog.to_set());
    assert forall|x: usize| (slot_ids(d) + v.backlog.to_set()).contains(x) <==> (pending(v) - f.to_set()).contains(
        x,
    ) by {
        if slot_ids(d).contains(x) {
            let i = choose|i: int| 0 <= i < d.len() && d[i] == Some(x);
            assert(v.slots[i] == Some(x) && results[i] is None);
            assert(slot_ids(v.slots).contains(x));
            if f.to_set().contains(x) {
                let i2 = choose|i2: int| 0 <= i2 < v.slots.len() && v.slots[i2] == Some(x) && #[trigger] results[i2] is Some;
                assert(i2 != i);
                if i < i2 {
                    assert(v.slots[i] is Some && v.slots[i2] is Some);
                } else {
                    assert(v.slots[i2] is Some && v.slots[i] is Some);
                }
            }
        }
        if v.backlog.to_set().contains(x) {
            let m = choose|m: int| 0 <= m < v.backlog.len() && v.backlog[m] == x;
            if f.to_set().contains(x) {
                let i2 = choose|i2: int| 0 <= i2 < v.slots.len() && v.slots[i2] == Some(x) && #[trigger] results[i2] is Some;
                assert(v.slots[i2] is Some);
                assert(v.slots[i2]->0 < v.backlog[m]);
            }
        }
        if (pending(v) - f.to_set()).contains(x) && slot_ids(v.slots).contains(x) {
            let i = choose|i: int| 0 <= i < v.slots.len() && v.slots[i] == Some(x);
            if results[i] is Some {
                assert(f.to_set().contains(x));
            }
            assert(d[i] == Some(x));
        }
    }
    assert(pending(v2) =~= pending(v) - f.to_set());
    assert forall|x: usize| f.to_set().contains(x) implies pending(v).contains(x) && x < v.next_id by {
        let i2 = choose|i2: int| 0 <= i2 < v.slots.len() && v.slots[i2] == Some(x) && #[trigger] results[i2] is Some;
        assert(slot_ids(v.slots).contains(x));
        assert(v.slots[i2] is Some);
    }
}

/// Promotion onto workers that are all idle starts as many jobs as there are
/// workers, or the whole backlog if it is shorter.
proof fn lemma_promote_idle(s0: Seq<Option<usize>>, b0: Seq<usize>, next: nat, k: int)
    requires
        ids_wf(s0, b0, next),
        0 <= k <= s0.len(),
        s0.len() <= usize::MAX,
        forall|i: int| 0 <= i < s0.len() ==> #[trigger] s0[i] is None,
    ensures
        promote(s0, b0, k).2.len() == if k < b0.len() { k } else { b0.len() as int },
    decreases k,
{
    if k > 0 {
        lemma_promote_idle(s0, b0, next, k - 1);
        lemma_promote(s0, b0, next, k - 1);
        let (s, b, st) = promote(s0, b0, k - 1);
        assert(s[k - 1] == s0[k - 1]);
    }
}

/// Promotion changes nothing when the backlog is empty or no worker is idle.
proof fn lemma_promote_none(s0: Seq<Option<usize>>, b0: Seq<usize>, k: int)
    requires
        0 <= k <= s0.len(),
        b0.len() == 0 || all_busy(s0),
    ensures
        promote(s0, b0, k) == (s0, b0, Seq::<(usize, usize)>::empty()),
    decreases k,
{
    if k > 0 {
        lemma_promote_none(s0, b0, k - 1);
        if b0.len() > 0 {
            assert(s0[k - 1] is Some);
        }
    }
}

proof fn lemma_finished_none<O>(slots: Seq<Option<usize>>, results: Seq<Option<O>>, k: int)
    requires
        0 <= k <= slots.len(),
        results.len() == slots.len(),
        forall|i: int| 0 <= i < results.len() ==> #[trigger] results[i] is None,
    ensures
        finished_spec(slots, results, k) == Seq::<(usize, O)>::empty(),
    decreases k,
{
    if k > 0 {
        lemma_finished_none(slots, results, k - 1);
        assert(results[k - 1] is None);
    }
}

/// When every job in flight has completed before a poll, the poll reports
/// all of them, and the front of the backlog moves onto the freed workers:
/// one job per worker, or the whole backlog if it is shorter.
pub proof fn law_update_progress<O>(v: PoolView, results: Seq<Option<O>>)
    requires
        view_wf(v),
        results.len() == v.slots.len(),
        v.slots.len() <= usize::MAX,
        forall|i: int| 0 <= i < v.slots.len() && #[trigger] v.slots[i] is Some ==> results[i] is Some,
    ensures
        finished_ids(v.slots, results).to_set() == slot_ids(v.slots),
        update_spec(v, results).0.backlog == v.backlog.skip(
            if v.slots.len() < v.backlog.len() { v.slots.len() as int } else { v.backlog.len() as int },
        ),
{
    let n = v.slots.len() as int;
    let d = drain_slots(v.slots, results);
    lemma_finished_ids(v.slots, results);
    lemma_drain_wf(v, results);
    assert forall|i: int| 0 <= i < d.len() implies #[trigger] d[i] is None by {
        if results[i] is None {
            assert(v.slots[i] is None);
        }
    }
    lemma_promote_idle(d, v.backlog, v.next_id, n);
    lemma_promote(d, v.backlog, v.next_id, n);
    assert forall|id: usize| finished_ids(v.slots, results).to_set().contains(id) <==> slot_ids(v.slots).contains(id) by {
        if slot_ids(v.slots).contains(id) {
            let i = choose|i: int| 0 <= i < v.slots.len() && v.slots[i] == Some(id);
            assert(v.slots[i] is Some);
            assert(results[i] is Some);
        }
    }
    assert(finished_ids(v.slots, results).to_set() =~= slot_ids(v.slots));
}

/// A poll on which every worker reports.
pub open spec fn all_report(n: nat) -> Seq<Option<()>> {
    Seq::new(n, |i: int| Some(()))
}

/// `k` polls in a row, each finding every job in flight completed: the pool
/// afterwards and the ids reported finished, in order.
pub open spec fn rounds(v: PoolView, k: nat) -> (PoolView, Seq<usize>)
    decreases k,
{
    if k == 0 {
        (v, Seq::empty())
    } else {
        let r = all_report(v.slots.len());
        let next = rounds(update_spec(v, r).0, (k - 1) as nat);
        (next.0, finished_ids(v.slots, r) + next.1)
    }
}

proof fn lemma_rounds_idle(v: PoolView, k: nat)
    requires
        view_wf(v),
        v.slots.len() <= usize::MAX,
        pending(v) == Set::<usize>::empty(),
    ensures
        rounds(v, k).1 == Seq::<usize>::empty(),
        pending(rounds(v, k).0) == Set::<usize>::empty(),
    decreases k,
{
    if k > 0 {
        let r = all_report(v.slots.len());
        law_update_conserves_jobs(v, r);
        lemma_update_wf(v, r);
        let v1 = update_spec(v, r).0;
        let f = finished_ids(v.slots, r);
        assert(pending(v1) =~= Set::<usize>::empty());
        assert(f.len() == 0) by {
            if f.len() > 0 {
                assert(f.to_set().contains(f[0]));
            }
        }
        lemma_rounds_idle(v1, (k - 1) as nat);
        assert(rounds(v, k).1 =~= f + rounds(v1, (k - 1) as nat).1);
    }
}

proof fn lemma_rounds(v: PoolView, k: nat)
    requires
        view_wf(v),
        0 < v.slots.len() <= usize::MAX,
        k >= v.backlog.len() + 1,
    ensures
        ({
            let (w, fs) = rounds(v, k);
            &&& pending(w) == Set::<usize>::empty()
            &&& fs.no_duplicates()
            &&& fs.to_set() == pending(v)
        }),
    decreases k,
{
    let r = all_report(v.slots.len());
    let v1 = update_spec(v, r).0;
    let f = finished_ids(v.slots, r);
    law_update_conserves_jobs(v, r);
    law_update_progress(v, r);
    lemma_update_wf(v, r);
    if v.backlog.len() == 0 {
        assert(pending(v) =~= slot_ids(v.slots));
        assert(pending(v1) =~= Set::<usize>::empty());
        lemma_rounds_idle(v1, (k - 1) as nat);
        assert(rounds(v, k).1 =~= f);
    } else {
        lemma_rounds(v1, (k - 1) as nat);
        let fs1 = rounds(v1, (k - 1) as nat).1;
        assert forall|i: int, j: int| 0 <= i < f.len() && 0 <= j < fs1.len() implies f[i] != fs1[j] by {
            assert(f.to_set().contains(f[i]));
            assert(fs1.to_set().contains(fs1[j]));
        }
        lemma_no_dup_in_concat(f, fs1);
        seq_to_set_distributes_over_add(f, fs1);
        assert(rounds(v, k).1 == f + fs1);
        assert((f + fs1).to_set() =~= pending(v));
    }
}

/// Every job is eventually reported finished, exactly once: when each poll
/// finds the jobs in flight completed, then after one poll more than the
/// backlog is long nothing is pending, and the ids reported over those polls
/// are the pending ones, each reported once.
pub proof fn law_every_job_finishes_once(v: PoolView)
    requires
        view_wf(v),
        0 < v.slots.len() <= usize::MAX,
    ensures
        ({
            let (w, fs) = rounds(v, (v.backlog.len() + 1) as nat);
            &&& pending(w) == Set::<usize>::empty()
            &&& fs.no_duplicates()
            &&& fs.to_set() == pending(v)
        }),
{
    lemma_rounds(v, (v.backlog.len() + 1) as nat);
}

/// Backlog promotion is first in, first out: the jobs that a poll starts
/// from the backlog are its oldest ones, in submission order, reported after
/// the jobs that went to a worker on submission; the rest keep their order.
/// So of two waiting jobs, the older is started in the same poll as the
/// younger or in an earlier one, and ahead of it in the started pairs.
pub proof fn law_fifo<O>(v: PoolView, results: Seq<Option<O>>)
    requires
        view_wf(v),
        results.len() == v.slots.len(),
        v.slots.len() <= usize::MAX,
    ensures
        ({
            let (v2, started) = update_spec(v, results);
            let m = started.len() - v.announced.len();
            &&& 0 <= m <= v.backlog.len()
            &&& forall|j: int| 0 <= j < m ==> #[trigger] started[v.announced.len() + j].0 == v.backlog[j]
            &&& v2.backlog == v.backlog.skip(m)
        }),
{
    let n = v.slots.len() as int;
    let d = drain_slots(v.slots, results);
    lemma_drain_wf(v, results);
    lemma_promote(d, v.backlog, v.next_id, n);
    let (v2, started) = update_spec(v, results);
    let st = promote(d, v.backlog, n).2;
    let na = v.announced.len() as int;
    assert(started == v.announced + st);
    assert(started.len() - na == st.len());
    assert forall|j: int| 0 <= j < st.len() implies #[trigger] started[na + j].0 == v.backlog[j] by {
        assert(started[na + j] == st[j]);
    }
    assert(v2.backlog == v.backlog.skip(st.len() as int));
}

/// A worker never holds two jobs: every started pair names a real worker,
/// and a worker named twice in one poll's started pairs was first given a
/// job on submission and then, within the poll, reported that job finished
/// before it took the next one from the backlog.
pub proof fn law_one_job_per_worker<O>(v: PoolView, results: Seq<Option<O>>)
    requires
        view_wf(v),
        results.len() == v.slots.len(),
        v.slots.len() <= usize::MAX,
    ensures
        ({
            let (v2, started) = update_spec(v, results);
            let fin = finished_spec(v.slots, results, v.slots.len() as int);
            &&& forall|j: int| 0 <= j < started.len() ==> (#[trigger] started[j]).1 < v.slots.len()
            &&& forall|j1: int, j2: int|
                0 <= j1 < j2 < started.len() && (#[trigger] started[j1]).1 == (#[trigger] started[j2]).1
                    ==> exists|f: int| 0 <= f < fin.len() && #[trigger] fin[f].0 == started[j1].0
            &&& forall|j1: int, j2: int|
                0 <= j1 < j2 < started.len() && (#[trigger] started[j1]).1 == (#[trigger] started[j2]).1
                    ==> j1 < v.announced.len() <= j2
        }),
{
    let n = v.slots.len() as int;
    let d = drain_slots(v.slots, results);
    lemma_drain_wf(v, results);
    lemma_promote(d, v.backlog, v.next_id, n);
    lemma_finished_complete(v.slots, results, n);
    let (v2, started) = update_spec(v, results);
    let st = promote(d, v.backlog, n).2;
    let na = v.announced.len() as int;
    let fin = finished_spec(v.slots, results, n);
    assert(started == v.announced + st);
    assert forall|j: int| 0 <= j < started.len() implies (#[trigger] started[j]).1 < v.slots.len() by {
        if j >= na {
            assert(st[j - na] == started[j]);
        }
    }
    assert forall|j1: int, j2: int|
        0 <= j1 < j2 < started.len() && (#[trigger] started[j1]).1 == (#[trigger] started[j2]).1 implies
        j1 < na <= j2 && exists|f: int| 0 <= f < fin.len() && #[trigger] fin[f].0 == started[j1].0 by {
        if j2 < na {
            assert(v.announced[j1].1 != v.announced[j2].1);
        } else if j1 >= na {
            assert(st[j1 - na].1 < st[j2 - na].1);
        } else {
            let (id, w) = v.announced[j1];
            assert(v.slots[w as int] == Some(id));
            assert(st[j2 - na] == started[j2]);
            assert(d[w as int] is None);
            assert(results[w as int] is Some);
            let f = choose|f: int| 0 <= f < fin.len() && #[trigger] fin[f] == (
                v.slots[w as int]->0,
                results[w as int]->0,
            );
            assert(fin[f].0 == started[j1].0);
        }
    }
}

/// Polling again at once reports nothing: when no worker reported anything
/// since a poll, the next poll has no finished and no started pairs and
/// leaves the pool as it was.
pub proof fn law_update_idempotent<O, Q>(v: PoolView, r1: Seq<Option<O>>, r2: Seq<Option<Q>>)
    requires
        view_wf(v),
        r1.len() == v.slots.len(),
        r2.len() == v.slots.len(),
        v.slots.len() <= usize::MAX,
        forall|i: int| 0 <= i < r2.len() ==> #[trigger] r2[i] is None,
    ensures
        ({
            let v1 = update_spec(v, r1).0;
            &&& finished_spec(v1.slots, r2, v1.slots.len() as int) == Seq::<(usize, Q)>::empty()
            &&& update_spec(v1, r2).1 == Seq::<(usize, usize)>::empty()
            &&& update_spec(v1, r2).0 == v1
        }),
{
    lemma_update_wf(v, r1);
    let v1 = update_spec(v, r1).0;
    let n = v1.slots.len() as int;
    lemma_finished_none(v1.slots, r2, n);
    let d = drain_slots(v1.slots, r2);
    assert(d =~= v1.slots);
    lemma_promote_none(v1.slots, v1.backlog, n);
    assert(update_spec(v1, r2).1 =~= Seq::<(usize, usize)>::empty());
}

/// A pool of `size` idle workers to which nothing was submitted.
pub open spec fn fresh(size: nat) -> PoolView {
    PoolView {
        slots: Seq::new(size, |i: int| None::<usize>),
        backlog: Seq::empty(),
        announced: Seq::empty(),
        next_id: 0,
    }
}

/// The pool after `n` submissions with no poll in between.
pub open spec fn submitted(v: PoolView, n: nat) -> PoolView
    decreases n,
{
    if n == 0 {
        v
    } else {
        register_spec(submitted(v, (n - 1) as nat)).0
    }
}

proof fn lemma_submitted(size: nat, n: nat)
    requires
        size <= usize::MAX,
        n < usize::MAX,
    ensures
        view_wf(submitted(fresh(size), n)),
        submitted(fresh(size), n).slots.len() == size,
        submitted(fresh(size), n).next_id == n,
        pending(submitted(fresh(size), n)) == Set::new(|id: usize| id < n),
    decreases n,
{
    if n == 0 {
        let v = fresh(size);
        assert(pending(v) =~= Set::new(|id: usize| id < 0)) by {
            assert forall|id: usize| !slot_ids(v.slots).contains(id) by {
                if slot_ids(v.slots).contains(id) {
                    let i = choose|i: int| 0 <= i < v.slots.len() && v.slots[i] == Some(id);
                }
            }
        }
    } else {
        lemma_submitted(size, (n - 1) as nat);
        let v = submitted(fresh(size), (n - 1) as nat);
        lemma_register_wf(v);
        law_register_fresh_id(v);
        assert(pending(register_spec(v).0) =~= Set::new(|id: usize| id < n));
    }
}

/// Every submitted job is reported finished, exactly once: after `n`
/// submissions to a pool of `size` workers, polls that each find the running
/// jobs completed report, within one poll more than the backlog is long, the
/// ids 0 to `n - 1`, each of them once, and leave nothing pending.
pub proof fn law_submitted_jobs_finish_once(size: nat, n: nat)
    requires
        0 < size <= usize::MAX,
        n < usize::MAX,
    ensures
        ({
            let v = submitted(fresh(size), n);
            let (w, fs) = rounds(v, (v.backlog.len() + 1) as nat);
            &&& pending(w) == Set::<usize>::empty()
            &&& fs.no_duplicates()
            &&& fs.to_set() == Set::new(|id: usize| id < n)
        }),
{
    lemma_submitted(size, n);
    law_every_job_finishes_once(submitted(fresh(size), n));
}

/// On a pool whose workers are all busy, promotion over the first `k`
/// workers starts no more jobs than those workers report finished.
proof fn lemma_promote_after_busy<O>(slots: Seq<Option<usize>>, backlog: Seq<usize>, results: Seq<Option<O>>, next: nat, k: int)
    requires
        all_busy(slots),
        results.len() == slots.len(),
        ids_wf(drain_slots(slots, results), backlog, next),
        slots.len() <= usize::MAX,
        0 <= k <= slots.len(),
    ensures
        promote(drain_slots(slots, results), backlog, k).2.len() <= finished_spec(slots, results, k).len(),
    decreases k,
{
    if k > 0 {
        let d = drain_slots(slots, results);
        lemma_promote_after_busy(slots, backlog, results, next, k - 1);
        lemma_promote(d, backlog, next, k - 1);
        let (s, b, st) = promote(d, backlog, k - 1);
        assert(s[k - 1] == d[k - 1]);
        assert(slots[k - 1] is Some);
    }
}

/// After a poll, the next one starts no more jobs than it reports finished:
/// the first poll leaves either an empty backlog or every worker busy, so
/// only workers freed by completions can take new jobs.
pub proof fn law_repoll_starts_only_freed_workers<O, Q>(v: PoolView, r1: Seq<Option<O>>, r2: Seq<Option<Q>>)
    requires
        view_wf(v),
        r1.len() == v.slots.len(),
        r2.len() == v.slots.len(),
        v.slots.len() <= usize::MAX,
    ensures
        ({
            let v1 = update_spec(v, r1).0;
            update_spec(v1, r2).1.len() <= finished_spec(v1.slots, r2, v1.slots.len() as int).len()
        }),
{
    lemma_update_wf(v, r1);
    let v1 = update_spec(v, r1).0;
    let n = v1.slots.len() as int;
    let d = drain_slots(v1.slots, r2);
    lemma_drain_wf(v1, r2);
    assert(update_spec(v1, r2).1 == v1.announced + promote(d, v1.backlog, n).2);
    if v1.backlog.len() == 0 {
        lemma_promote_none(d, v1.backlog, n);
    } else {
        lemma_promote_after_busy(v1.slots, v1.backlog, r2, v1.next_id, n);
    }
}

} // verus!
