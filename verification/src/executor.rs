//! The executor: a run list of suspendable tasks driven by readiness
//! flags.
//!
//! One step of the executor delivers the readiness reports it is handed,
//! sweeps the run list polling every task whose flag is set, drops the
//! tasks that completed, and admits the tasks spawned meanwhile.  The
//! blocking wait between steps belongs to the driver: it blocks on the
//! watched descriptors and hands the readable ones to the next step, so
//! the executor itself never busy-spins and never polls a task whose flag
//! is clear.

use vstd::prelude::*;
use crate::events::{
    Event, history_wf, has_completed, count_polled, woken_since_clear,
    lemma_history_wf_extend_woken, lemma_history_wf_push_woken, lemma_history_wf_empty,
    lemma_history_wf_push_poll, lemma_history_wf_push_completed,
    lemma_has_completed_split, lemma_no_completed_all_woken,
    lemma_no_spurious_repoll, lemma_terminal_idempotence,
    lemma_count_polled_add, lemma_count_polled_all_woken,
    lemma_count_polled_pair, lemma_count_polled_completed,
    lemma_no_completed_pair, polled_pos, lemma_polled_pos, lemma_polled_pos_add,
    lemma_polled_pos_no_poll, lemma_polled_pos_pair, has_woken, lemma_has_woken_split,
};
use crate::reactor::fire_result;
use crate::state::InterfaceState;
use crate::wake::WakeHandle;

verus! {

/// What a poll of a task reports: the task is done, or it cannot make
/// progress yet.
#[derive(Clone, Copy, PartialEq, Eq, Structural, Debug)]
pub enum PollStatus {
    /// The task completed; it is never polled again.
    Ready,
    /// The task is suspended; it runs again once its flag is set.
    Pending,
}

/// A suspendable computation the executor can run.
///
/// A poll that returns [`PollStatus::Pending`] should first have arranged
/// its own wake-up: registered a descriptor with `state.add_waker`, woken
/// a handle, or relied on some other holder of its handle.  Through
/// `state` a task may only add: set flags, append registrations, enqueue
/// spawned tasks.  The contract records exactly that, and it is what
/// keeps the executor's scheduling laws true whatever the task does.
pub trait Pollable: Sized {
    /// The relation a task type publishes about a single poll call: the
    /// task value before and after, the `status` the poll returned, the
    /// number `me_id` of the handle it was polled with, and the sibling
    /// tasks `spawned` it enqueued, in order.  The default holds always;
    /// a task type whose runs should be predictable from the executor's
    /// step contract gives this a real body — say, that a certain task
    /// value always returns ready, or never spawns — and its `poll` is
    /// then verified against it.
    open spec fn poll_spec(
        pre: Self,
        post: Self,
        me_id: u64,
        status: PollStatus,
        spawned: Seq<Self>,
    ) -> bool {
        true
    }

    fn poll(&mut self, state: &mut InterfaceState<Self>, me: WakeHandle) -> (status: PollStatus)
        requires
            old(state).wf(),
        ensures
            final(state).wf(),
            old(state).history().is_prefix_of(final(state).history()),
            forall |k: int|
                old(state).history().len() <= k < final(state).history().len()
                    ==> (#[trigger] final(state).history()[k]) is Woken,
            forall |x: u64| old(state).flagged(x) ==> final(state).flagged(x),
            forall |x: u64| #[trigger] final(state).flagged(x) ==> old(state).flagged(x)
                || has_woken(
                    final(state).history().skip(old(state).history().len() as int),
                    x,
                ),
            old(state).queued().is_prefix_of(final(state).queued()),
            old(state).regs().is_prefix_of(final(state).regs()),
            Self::poll_spec(
                *old(self),
                *final(self),
                me.id_spec(),
                status,
                final(state).queued().skip(old(state).queued().len() as int),
            ),
    ;
}

/// A task in the run list: the computation and the number that names its
/// readiness flag.
struct TaskEntry<T> {
    id: u64,
    fut: T,
}

/// Some entry of `s` carries task number `id`.
spec fn in_entries<T>(s: Seq<TaskEntry<T>>, id: u64) -> bool {
    exists |k: int| 0 <= k < s.len() && (#[trigger] s[k]).id == id
}

proof fn lemma_in_entries_take_step<T>(s: Seq<TaskEntry<T>>, p: int, id: u64)
    requires
        0 <= p < s.len(),
    ensures
        in_entries(s.take(p + 1), id) == (in_entries(s.take(p), id) || s[p].id == id),
{
    if in_entries(s.take(p + 1), id) {
        let k = choose |k: int|
            0 <= k < s.take(p + 1).len() && (#[trigger] s.take(p + 1)[k]).id == id;
        if k < p {
            assert(s.take(p)[k] == s[k]);
            assert(in_entries(s.take(p), id));
        } else {
            assert(s.take(p + 1)[k] == s[p]);
        }
    }
    if in_entries(s.take(p), id) {
        let k = choose |k: int|
            0 <= k < s.take(p).len() && (#[trigger] s.take(p)[k]).id == id;
        assert(s.take(p + 1)[k] == s[k]);
        assert(s.take(p)[k] == s[k]);
    }
    if s[p].id == id {
        assert(s.take(p + 1)[p] == s[p]);
    }
}

proof fn lemma_in_entries_push<T>(s: Seq<TaskEntry<T>>, e: TaskEntry<T>, id: u64)
    ensures
        in_entries(s.push(e), id) == (in_entries(s, id) || e.id == id),
{
    if in_entries(s.push(e), id) {
        let k = choose |k: int|
            0 <= k < s.push(e).len() && (#[trigger] s.push(e)[k]).id == id;
        if k < s.len() {
            assert(s[k] == s.push(e)[k]);
        } else {
            assert(s.push(e)[k] == e);
        }
    }
    if in_entries(s, id) {
        let k = choose |k: int| 0 <= k < s.len() && (#[trigger] s[k]).id == id;
        assert(s.push(e)[k] == s[k]);
    }
    if e.id == id {
        assert(s.push(e)[s.len() as int] == e);
    }
}

proof fn lemma_in_entries_skip_step<T>(s: Seq<TaskEntry<T>>, p: int, id: u64)
    requires
        0 <= p < s.len(),
    ensures
        in_entries(s.skip(p), id) == (s[p].id == id || in_entries(s.skip(p + 1), id)),
{
    if in_entries(s.skip(p), id) {
        let k = choose |k: int|
            0 <= k < s.skip(p).len() && (#[trigger] s.skip(p)[k]).id == id;
        if k == 0 {
            assert(s.skip(p)[0] == s[p]);
        } else {
            assert(s.skip(p + 1)[k - 1] == s.skip(p)[k]);
            assert(in_entries(s.skip(p + 1), id));
        }
    }
    if s[p].id == id {
        assert(s.skip(p)[0] == s[p]);
        assert(in_entries(s.skip(p), id));
    }
    if in_entries(s.skip(p + 1), id) {
        let k = choose |k: int|
            0 <= k < s.skip(p + 1).len() && (#[trigger] s.skip(p + 1)[k]).id == id;
        assert(s.skip(p)[k + 1] == s.skip(p + 1)[k]);
        assert(in_entries(s.skip(p), id));
    }
}

/// All the tasks the polls of a trace spawned, in trace order.
pub open spec fn spawn_concat<T: Pollable>(
    tr: Seq<(int, T, T, PollStatus, Seq<T>)>,
) -> Seq<T>
    decreases tr.len(),
{
    if tr.len() == 0 {
        Seq::empty()
    } else {
        spawn_concat(tr.drop_last()) + tr.last().4
    }
}

/// A trace whose polls all spawned nothing contributes no spawns.
pub proof fn lemma_spawn_concat_empty<T: Pollable>(
    tr: Seq<(int, T, T, PollStatus, Seq<T>)>,
)
    requires
        forall |i: int| 0 <= i < tr.len() ==> (#[trigger] tr[i]).4.len() == 0,
    ensures
        spawn_concat(tr).len() == 0,
    decreases tr.len(),
{
    if tr.len() > 0 {
        assert forall |i: int| 0 <= i < tr.drop_last().len()
            implies (#[trigger] tr.drop_last()[i]).4.len() == 0 by {
            assert(tr.drop_last()[i] == tr[i]);
        }
        lemma_spawn_concat_empty(tr.drop_last());
        assert(tr.last() == tr[tr.len() - 1]);
    }
}

/// A record of the polls one step performed on the run list of `ex`: for
/// each polled task, its position in the list, the task value before and
/// after, the status the poll returned, and the siblings it spawned.
/// The records stand in list order; a task completed in `delta` exactly
/// when its poll returned ready, and every task polled once has a
/// record.
#[verifier::opaque]
pub open spec fn poll_trace_ok<T: Pollable>(
    ex: FdExecutor<T>,
    delta: Seq<Event>,
    tr: Seq<(int, T, T, PollStatus, Seq<T>)>,
) -> bool {
    &&& forall |i: int| 0 <= i < tr.len() ==> {
        let r = #[trigger] tr[i];
        &&& 0 <= r.0 < ex.task_count()
        &&& r.1 == ex.task_at(r.0)
        &&& T::poll_spec(r.1, r.2, ex.live_id_at(r.0), r.3, r.4)
        &&& has_completed(delta, ex.live_id_at(r.0)) == (r.3 is Ready)
        &&& count_polled(delta, ex.live_id_at(r.0)) == 1
    }
    &&& forall |i: int, j: int|
        0 <= i < j < tr.len() ==> (#[trigger] tr[i]).0 < (#[trigger] tr[j]).0
    &&& forall |k: int|
        0 <= k < ex.task_count()
            && count_polled(delta, #[trigger] ex.live_id_at(k)) == 1
            ==> exists |i: int| 0 <= i < tr.len() && (#[trigger] tr[i]).0 == k
}

/// Being a prefix is transitive.
proof fn lemma_prefix_trans<A>(a: Seq<A>, b: Seq<A>, c: Seq<A>)
    requires
        a.is_prefix_of(b),
        b.is_prefix_of(c),
    ensures
        a.is_prefix_of(c),
{
    assert forall |i: int| 0 <= i < a.len() implies a[i] == c[i] by {
        assert(a[i] == b.take(a.len() as int)[i]);
        assert(b[i] == c.take(b.len() as int)[i]);
    }
    assert(a =~= c.take(a.len() as int));
}

/// Dropping a common prefix commutes with appending.
proof fn lemma_skip_of_append(h: Seq<Event>, t: Seq<Event>, k: int)
    requires
        0 <= k <= h.len(),
    ensures
        (h + t).skip(k) == h.skip(k) + t,
{
    assert((h + t).skip(k) =~= h.skip(k) + t);
}

/// Clear the flag of task `id`, poll `fut` once with a fresh handle, and
/// record completion if the poll returned ready.  The log grows by
/// exactly one poll of `id` (with whatever wakes the task issued), and by
/// a completion of `id` exactly when the status is ready.
#[verifier::spinoff_prover]
fn poll_task<T: Pollable>(fut: &mut T, state: &mut InterfaceState<T>, id: u64)
    -> (status: PollStatus)
    requires
        old(state).wf(),
        old(state).flagged(id),
        history_wf(old(state).history()),
        !has_completed(old(state).history(), id),
    ensures
        final(state).wf(),
        history_wf(final(state).history()),
        old(state).history().is_prefix_of(final(state).history()),
        ({
            let delta = final(state).history().skip(old(state).history().len() as int);
            &&& forall |x: u64| #[trigger] count_polled(delta, x)
                == if x == id { 1nat } else { 0nat }
            &&& forall |x: u64| #[trigger] has_completed(delta, x)
                == (status is Ready && x == id)
            &&& forall |x: u64| #[trigger] polled_pos(delta, x)
                == if x == id { 1int } else { -1int }
        }),
        forall |x: u64| old(state).flagged(x) && x != id ==> final(state).flagged(x),
        forall |x: u64| #[trigger] final(state).flagged(x) ==> old(state).flagged(x)
            || has_woken(
                final(state).history().skip(old(state).history().len() as int),
                x,
            ),
        final(state).queued() == old(state).queued()
            + final(state).queued().skip(old(state).queued().len() as int),
        old(state).regs().is_prefix_of(final(state).regs()),
        T::poll_spec(
            *old(fut),
            *final(fut),
            id,
            status,
            final(state).queued().skip(old(state).queued().len() as int),
        ),
{
    let ghost h_a = state.history();
    state.note_poll(id);
    proof {
        lemma_history_wf_push_poll(h_a, id);
    }
    let ghost h_b = state.history();
    let ghost q_b = state.queued();
    let ghost flags_b = *state;
    let status = fut.poll(state, WakeHandle::mint(id));
    let ghost h_c = state.history();
    let ghost q_c = state.queued();
    let ghost flags_c = *state;
    let ghost wseq = h_c.skip(h_b.len() as int);
    let ghost pairseq = seq![Event::Cleared { id }, Event::Polled { id }];
    proof {
        assert(h_c.take(h_b.len() as int) =~= h_b);
        assert(h_c =~= h_b + wseq);
        assert forall |k: int| 0 <= k < wseq.len()
            implies (#[trigger] wseq[k]) is Woken by {
            assert(wseq[k] == h_c[h_b.len() + k]);
        }
        lemma_history_wf_extend_woken(h_b, h_c);
        assert(h_b =~= h_a + pairseq);
    }
    proof {
        assert(q_b == old(state).queued());
    }
    match status {
        PollStatus::Pending => {
            proof {
                let delta = state.history().skip(h_a.len() as int);
                lemma_skip_of_append(h_a, pairseq, h_a.len() as int);
                lemma_skip_of_append(h_b, wseq, h_a.len() as int);
                assert(delta =~= pairseq + wseq);
                assert forall |x: u64|
                    #[trigger] count_polled(delta, x)
                        == (if x == id { 1nat } else { 0nat }) by {
                    lemma_count_polled_add(pairseq, wseq, x);
                    lemma_count_polled_pair(id, x);
                    lemma_count_polled_all_woken(wseq, x);
                }
                assert forall |x: u64| #[trigger] has_completed(delta, x) == false by {
                    lemma_has_completed_split(pairseq, wseq, x);
                    lemma_no_completed_pair(id, x);
                    lemma_no_completed_all_woken(wseq, x);
                }
                assert forall |x: u64| #[trigger] polled_pos(delta, x)
                    == (if x == id { 1int } else { -1int }) by {
                    lemma_polled_pos_add(pairseq, wseq, x);
                    lemma_polled_pos_pair(id, x);
                    assert forall |k: int| 0 <= k < wseq.len()
                        implies !((#[trigger] wseq[k]) is Polled) by {}
                    lemma_polled_pos_no_poll(wseq, x);
                }
            }
        }
        PollStatus::Ready => {
            proof {
                lemma_history_wf_push_completed(h_c, id);
            }
            state.note_complete(id);
            proof {
                let cseq = seq![Event::Completed { id }];
                let delta = state.history().skip(h_a.len() as int);
                assert(state.history() =~= h_c + cseq);
                lemma_skip_of_append(h_a, pairseq, h_a.len() as int);
                lemma_skip_of_append(h_b, wseq, h_a.len() as int);
                lemma_skip_of_append(h_c, cseq, h_a.len() as int);
                assert(delta =~= pairseq + wseq + cseq);
                assert forall |x: u64|
                    #[trigger] count_polled(delta, x)
                        == (if x == id { 1nat } else { 0nat }) by {
                    lemma_count_polled_add(pairseq + wseq, cseq, x);
                    lemma_count_polled_add(pairseq, wseq, x);
                    lemma_count_polled_pair(id, x);
                    lemma_count_polled_all_woken(wseq, x);
                    lemma_count_polled_completed(id, x);
                }
                assert forall |x: u64| #[trigger] has_completed(delta, x) == (x == id) by {
                    lemma_has_completed_split(pairseq + wseq, cseq, x);
                    lemma_has_completed_split(pairseq, wseq, x);
                    lemma_no_completed_pair(id, x);
                    lemma_no_completed_all_woken(wseq, x);
                    assert(has_completed(cseq, x) == (x == id)) by {
                        if x == id {
                            assert(cseq[0] == (Event::Completed { id: x }));
                        }
                        if has_completed(cseq, x) {
                            let i = choose |i: int|
                                0 <= i < cseq.len()
                                    && #[trigger] cseq[i] == (Event::Completed { id: x });
                            assert(cseq[i] == cseq[0]);
                        }
                    }
                }
                assert forall |x: u64| #[trigger] polled_pos(delta, x)
                    == (if x == id { 1int } else { -1int }) by {
                    lemma_polled_pos_add(pairseq + wseq, cseq, x);
                    lemma_polled_pos_add(pairseq, wseq, x);
                    lemma_polled_pos_pair(id, x);
                    assert forall |k: int| 0 <= k < wseq.len()
                        implies !((#[trigger] wseq[k]) is Polled) by {}
                    lemma_polled_pos_no_poll(wseq, x);
                    assert forall |k: int| 0 <= k < cseq.len()
                        implies !((#[trigger] cseq[k]) is Polled) by {
                        assert(cseq[k] == cseq[0]);
                    }
                    lemma_polled_pos_no_poll(cseq, x);
                }
            }
        }
    }
    proof {
        let delta = state.history().skip(h_a.len() as int);
        let spawned = state.queued().skip(q_b.len() as int);
        assert(state.queued() == q_c);
        assert(spawned =~= q_c.skip(q_b.len() as int));
        assert(state.queued() =~= q_b + spawned) by {
            assert(q_b.is_prefix_of(q_c));
        }
        assert(T::poll_spec(*old(fut), *fut, id, status, spawned));
        assert forall |x: u64| #[trigger] state.flagged(x)
            implies old(state).flagged(x) || has_woken(delta, x) by {
            assert(flags_c.flagged(x));
            if flags_b.flagged(x) {
                assert(old(state).flagged(x));
            } else {
                assert(has_woken(wseq, x));
                lemma_has_woken_split(pairseq, wseq, x);
                assert(has_woken(pairseq + wseq, x));
                if status is Ready {
                    let cs = seq![Event::Completed { id }];
                    lemma_has_woken_split(pairseq + wseq, cs, x);
                    assert(delta =~= (pairseq + wseq) + cs);
                } else {
                    assert(delta =~= pairseq + wseq);
                }
            }
        }
    }
    status
}

/// Two executors with the same run list agree on who is live.
proof fn lemma_live_eq<T: Pollable>(a: FdExecutor<T>, b: FdExecutor<T>)
    requires
        a.futures@ == b.futures@,
    ensures
        forall |id: u64| #[trigger] a.is_live(id) == b.is_live(id),
{
    assert forall |id: u64| #[trigger] a.is_live(id) == b.is_live(id) by {
        if a.is_live(id) {
            let k = choose |k: int|
                0 <= k < a.futures@.len() && (#[trigger] a.futures@[k]).id == id;
            assert(b.futures@[k].id == id);
        }
        if b.is_live(id) {
            let k = choose |k: int|
                0 <= k < b.futures@.len() && (#[trigger] b.futures@[k]).id == id;
            assert(a.futures@[k].id == id);
        }
    }
}

/// One iteration of the sweep keeps the polls in list order: every poll
/// recorded so far keeps its position, and the entry processed now, if
/// polled, is polled after all of them.
#[verifier::spinoff_prover]
proof fn sweep_order_restore<T>(
    w0: Seq<TaskEntry<T>>,
    p: int,
    d_a: Seq<Event>,
    d_new: Seq<Event>,
    entry_id: u64,
    polled: bool,
)
    requires
        0 <= p < w0.len(),
        entry_id == w0[p].id,
        entries_nodup(w0),
        d_a.len() <= d_new.len(),
        polled ==> d_new.len() >= d_a.len() + 2,
        forall |x: u64| #[trigger] polled_pos(d_new, x)
            == if polled && x == entry_id { d_a.len() + 1int } else { polled_pos(d_a, x) },
        forall |i: int, j: int|
            0 <= i < j < p
                && polled_pos(d_a, (#[trigger] w0[i]).id) != -1
                && polled_pos(d_a, (#[trigger] w0[j]).id) != -1
                ==> polled_pos(d_a, w0[i].id) < polled_pos(d_a, w0[j].id),
        forall |i: int| 0 <= i < p && polled_pos(d_a, (#[trigger] w0[i]).id) != -1
            ==> polled_pos(d_a, w0[i].id) < d_a.len(),
        forall |id: u64| #[trigger] in_entries(w0.skip(p), id) ==> polled_pos(d_a, id) == -1,
    ensures
        forall |i: int, j: int|
            0 <= i < j < p + 1
                && polled_pos(d_new, (#[trigger] w0[i]).id) != -1
                && polled_pos(d_new, (#[trigger] w0[j]).id) != -1
                ==> polled_pos(d_new, w0[i].id) < polled_pos(d_new, w0[j].id),
        forall |i: int| 0 <= i < p + 1 && polled_pos(d_new, (#[trigger] w0[i]).id) != -1
            ==> polled_pos(d_new, w0[i].id) < d_new.len(),
        forall |id: u64| #[trigger] in_entries(w0.skip(p + 1), id)
            ==> polled_pos(d_new, id) == -1,
{
    assert(in_entries(w0.skip(p), entry_id)) by {
        assert(w0.skip(p)[0] == w0[p]);
        assert(w0.skip(p)[0].id == entry_id);
    }
    assert(polled_pos(d_a, entry_id) == -1);
    assert forall |i: int| 0 <= i < p implies (#[trigger] w0[i]).id != entry_id by {}
    assert forall |i: int, j: int|
        0 <= i < j < p + 1
            && polled_pos(d_new, (#[trigger] w0[i]).id) != -1
            && polled_pos(d_new, (#[trigger] w0[j]).id) != -1
        implies polled_pos(d_new, w0[i].id) < polled_pos(d_new, w0[j].id) by {
        if j < p {
            assert(polled_pos(d_new, w0[i].id) == polled_pos(d_a, w0[i].id));
            assert(polled_pos(d_new, w0[j].id) == polled_pos(d_a, w0[j].id));
        } else {
            assert(j == p);
            assert(polled_pos(d_new, w0[i].id) == polled_pos(d_a, w0[i].id));
            assert(w0[j].id == entry_id);
            assert(polled);
            assert(polled_pos(d_new, w0[j].id) == d_a.len() + 1);
            assert(polled_pos(d_a, w0[i].id) < d_a.len());
        }
    }
    assert forall |i: int| 0 <= i < p + 1 && polled_pos(d_new, (#[trigger] w0[i]).id) != -1
        implies polled_pos(d_new, w0[i].id) < d_new.len() by {
        if i < p {
            assert(polled_pos(d_new, w0[i].id) == polled_pos(d_a, w0[i].id));
        } else {
            assert(w0[i].id == entry_id);
        }
    }
    assert forall |id: u64| #[trigger] in_entries(w0.skip(p + 1), id)
        implies polled_pos(d_new, id) == -1 by {
        lemma_in_entries_skip_step(w0, p, id);
        assert(in_entries(w0.skip(p), id));
        assert(id != entry_id) by {
            if id == entry_id {
                let k = choose |k: int|
                    0 <= k < w0.skip(p + 1).len()
                        && (#[trigger] w0.skip(p + 1)[k]).id == id;
                assert(w0.skip(p + 1)[k] == w0[p + 1 + k]);
                assert(w0[p + 1 + k].id == w0[p].id);
            }
        }
    }
}

/// Repackages the sweep's per-record bookkeeping, stated over the raw
/// entry sequence, as a [`poll_trace_ok`] trace of the executor it swept.
#[verifier::spinoff_prover]
proof fn sweep_finish_trace<T: Pollable>(
    pre: FdExecutor<T>,
    w0: Seq<TaskEntry<T>>,
    delta: Seq<Event>,
    tr: Seq<(int, T, T, PollStatus, Seq<T>)>,
)
    requires
        w0 == pre.futures@,
        forall |i: int| 0 <= i < tr.len() ==> {
            let r = #[trigger] tr[i];
            &&& 0 <= r.0 < w0.len()
            &&& r.1 == w0[r.0].fut
            &&& T::poll_spec(r.1, r.2, w0[r.0].id, r.3, r.4)
            &&& has_completed(delta, w0[r.0].id) == (r.3 is Ready)
            &&& count_polled(delta, w0[r.0].id) == 1
        },
        forall |i: int, j: int|
            0 <= i < j < tr.len() ==> (#[trigger] tr[i]).0 < (#[trigger] tr[j]).0,
        forall |k: int|
            0 <= k < w0.len() && count_polled(delta, (#[trigger] w0[k]).id) == 1
                ==> exists |i: int| 0 <= i < tr.len() && (#[trigger] tr[i]).0 == k,
    ensures
        poll_trace_ok(pre, delta, tr),
{
    reveal(poll_trace_ok);
    assert forall |i: int| 0 <= i < tr.len() implies {
        let r = #[trigger] tr[i];
        &&& 0 <= r.0 < pre.task_count()
        &&& r.1 == pre.task_at(r.0)
        &&& T::poll_spec(r.1, r.2, pre.live_id_at(r.0), r.3, r.4)
        &&& has_completed(delta, pre.live_id_at(r.0)) == (r.3 is Ready)
        &&& count_polled(delta, pre.live_id_at(r.0)) == 1
    } by {
        assert(pre.task_at(tr[i].0) == w0[tr[i].0].fut);
        assert(pre.live_id_at(tr[i].0) == w0[tr[i].0].id);
    }
    assert forall |k: int|
        0 <= k < pre.task_count()
            && count_polled(delta, #[trigger] pre.live_id_at(k)) == 1
        implies exists |i: int| 0 <= i < tr.len() && (#[trigger] tr[i]).0 == k by {
        assert(pre.live_id_at(k) == w0[k].id);
        let i = choose |i: int| 0 <= i < tr.len() && (#[trigger] tr[i]).0 == k;
    }
}

/// No two entries carry the same task number.
spec fn entries_nodup<T>(s: Seq<TaskEntry<T>>) -> bool {
    forall |i: int, j: int|
        0 <= i < j < s.len() ==> (#[trigger] s[i]).id != (#[trigger] s[j]).id
}

/// One iteration of the sweep moves the bookkeeping from position `p` to
/// position `p + 1`: the processed entry was polled at most once, kept
/// exactly when it did not complete, and every other count is untouched.
#[verifier::spinoff_prover]
proof fn sweep_iter_restore<T: Pollable>(
    base: FdExecutor<T>,
    h0: Seq<Event>,
    w0: Seq<TaskEntry<T>>,
    p: int,
    kept_head: Seq<TaskEntry<T>>,
    d_a: Seq<Event>,
    d_new: Seq<Event>,
    kept_new: Seq<TaskEntry<T>>,
    work_new: Seq<TaskEntry<T>>,
    entry: TaskEntry<T>,
    polled: bool,
    completed: bool,
)
    requires
        0 <= p < w0.len(),
        entry.id == w0[p].id,
        work_new == w0.skip(p + 1),
        entries_nodup(w0),
        completed ==> polled,
        base.flagged(entry.id) ==> polled,
        kept_new == if completed { kept_head } else { kept_head.push(entry) },
        forall |id: u64| #[trigger] count_polled(d_new, id)
            == count_polled(d_a, id)
                + (if polled && id == entry.id { 1nat } else { 0nat }),
        forall |id: u64| #[trigger] has_completed(d_new, id)
            == (has_completed(d_a, id) || (completed && id == entry.id)),
        forall |id: u64| #[trigger] count_polled(d_a, id) <= 1,
        forall |id: u64| !in_entries(w0, id)
            ==> #[trigger] count_polled(d_a, id) == 0 && !has_completed(d_a, id),
        forall |id: u64| #[trigger] in_entries(w0.skip(p), id)
            ==> count_polled(d_a, id) == 0 && !has_completed(d_a, id),
        forall |id: u64| in_entries(w0.take(p), id) && base.flagged(id)
            ==> #[trigger] count_polled(d_a, id) == 1,
        forall |id: u64| #[trigger] in_entries(w0.take(p), id)
            ==> (in_entries(kept_head, id) == !has_completed(d_a, id)),
        forall |id: u64| #[trigger] has_completed(d_a, id) ==> in_entries(w0.take(p), id),
        forall |j: int| 0 <= j < kept_head.len()
            ==> in_entries(w0.take(p), (#[trigger] kept_head[j]).id),
        entries_nodup(kept_head),
    ensures
        forall |j: int| 0 <= j < kept_new.len()
            ==> in_entries(w0.take(p + 1), (#[trigger] kept_new[j]).id),
        entries_nodup(kept_new),
        forall |id: u64| #[trigger] count_polled(d_new, id) <= 1,
        forall |id: u64| !in_entries(w0, id)
            ==> #[trigger] count_polled(d_new, id) == 0 && !has_completed(d_new, id),
        forall |id: u64| #[trigger] in_entries(work_new, id)
            ==> count_polled(d_new, id) == 0 && !has_completed(d_new, id),
        forall |id: u64| in_entries(w0.take(p + 1), id) && base.flagged(id)
            ==> #[trigger] count_polled(d_new, id) == 1,
        forall |id: u64| #[trigger] in_entries(w0.take(p + 1), id)
            ==> (in_entries(kept_new, id) == !has_completed(d_new, id)),
        forall |id: u64| #[trigger] has_completed(d_new, id)
            ==> in_entries(w0.take(p + 1), id),
    {
        assert(in_entries(w0.skip(p), entry.id)) by {
            assert(w0.skip(p)[0] == w0[p]);
            assert(w0.skip(p)[0].id == entry.id);
        }
        assert(count_polled(d_a, entry.id) == 0 && !has_completed(d_a, entry.id));
        assert(!in_entries(w0.take(p), entry.id)) by {
            if in_entries(w0.take(p), entry.id) {
                let k = choose |k: int|
                    0 <= k < w0.take(p).len() && (#[trigger] w0.take(p)[k]).id == entry.id;
                assert(w0[k].id == entry.id);
                assert(w0[p].id == entry.id);
            }
        }
        assert(!in_entries(kept_head, entry.id)) by {
            if in_entries(kept_head, entry.id) {
                let k = choose |k: int|
                    0 <= k < kept_head.len() && (#[trigger] kept_head[k]).id == entry.id;
                assert(in_entries(w0.take(p), kept_head[k].id));
            }
        }
        assert forall |j: int| 0 <= j < kept_new.len()
            implies in_entries(w0.take(p + 1), (#[trigger] kept_new[j]).id) by {
            lemma_in_entries_take_step(w0, p, kept_new[j].id);
            if completed {
                assert(kept_new[j] == kept_head[j]);
            } else {
                if j < kept_head.len() {
                    assert(kept_new[j] == kept_head[j]);
                } else {
                    assert(kept_new[j] == entry);
                }
            }
        }
        assert(entries_nodup(kept_new)) by {
            if !completed {
                assert forall |i: int, j: int| 0 <= i < j < kept_new.len()
                    implies (#[trigger] kept_new[i]).id != (#[trigger] kept_new[j]).id by {
                    if j < kept_head.len() {
                        assert(kept_new[i] == kept_head[i]);
                        assert(kept_new[j] == kept_head[j]);
                    } else {
                        assert(kept_new[j] == entry);
                        assert(kept_new[i] == kept_head[i]);
                        if kept_head[i].id == entry.id {
                            assert(in_entries(kept_head, entry.id)) by {
                                assert(kept_head[i].id == entry.id);
                            }
                        }
                    }
                }
            }
        }
        assert forall |id: u64| #[trigger] in_entries(work_new, id)
            implies count_polled(d_new, id) == 0 && !has_completed(d_new, id) by {
            lemma_in_entries_skip_step(w0, p, id);
            assert(in_entries(w0.skip(p), id));
            assert(id != entry.id) by {
                if id == entry.id {
                    let k = choose |k: int|
                        0 <= k < work_new.len() && (#[trigger] work_new[k]).id == id;
                    assert(w0.skip(p + 1)[k] == w0[p + 1 + k]);
                    assert(w0[p + 1 + k].id == w0[p].id);
                }
            }
        }
        assert forall |id: u64| in_entries(w0.take(p + 1), id) && base.flagged(id)
            implies #[trigger] count_polled(d_new, id) == 1 by {
            lemma_in_entries_take_step(w0, p, id);
            if in_entries(w0.take(p), id) {
                assert(id != entry.id);
                assert(count_polled(d_a, id) == 1);
            } else {
                assert(id == entry.id);
                assert(polled);
            }
        }
        assert forall |id: u64| #[trigger] in_entries(w0.take(p + 1), id)
            implies (in_entries(kept_new, id) == !has_completed(d_new, id)) by {
            lemma_in_entries_take_step(w0, p, id);
            if completed {
                assert(kept_new == kept_head);
                if in_entries(w0.take(p), id) {
                    assert(id != entry.id);
                } else {
                    assert(id == entry.id);
                    assert(has_completed(d_new, id));
                    assert(!in_entries(kept_new, id));
                }
            } else {
                lemma_in_entries_push(kept_head, entry, id);
                if in_entries(w0.take(p), id) {
                    assert(id != entry.id);
                    assert(in_entries(kept_new, id) == in_entries(kept_head, id));
                } else {
                    assert(id == entry.id);
                    assert(in_entries(kept_new, id));
                    assert(!has_completed(d_new, id));
                }
            }
        }
        assert forall |id: u64| #[trigger] has_completed(d_new, id)
            implies in_entries(w0.take(p + 1), id) by {
            lemma_in_entries_take_step(w0, p, id);
            if has_completed(d_a, id) {
                assert(in_entries(w0.take(p), id));
            } else {
                assert(id == entry.id);
            }
        }
    }

/// The run list, the waking state, and the counter for fresh task
/// numbers.
pub struct FdExecutor<T: Pollable> {
    futures: Vec<TaskEntry<T>>,
    state: InterfaceState<T>,
    next_id: u64,
}

impl<T: Pollable> FdExecutor<T> {
    /// The ghost log of everything that happened to the readiness flags.
    pub closed spec fn history(self) -> Seq<Event> {
        self.state.history()
    }

    /// How many tasks are in the run list.
    pub closed spec fn task_count(self) -> nat {
        self.futures@.len()
    }

    /// The task number at position `k` of the run list.
    pub closed spec fn live_id_at(self, k: int) -> u64 {
        self.futures@[k].id
    }

    /// The task value at position `k` of the run list.
    pub closed spec fn task_at(self, k: int) -> T {
        self.futures@[k].fut
    }

    /// Task `id` is in the run list.
    pub closed spec fn is_live(self, id: u64) -> bool {
        exists |k: int|
            0 <= k < self.futures@.len() && (#[trigger] self.futures@[k]).id == id
    }

    /// The readiness flag of task `id` is set.
    pub closed spec fn flagged(self, id: u64) -> bool {
        self.state.flagged(id)
    }

    /// The live registrations of the reactor.
    pub closed spec fn regs(self) -> Seq<crate::reactor::Registration> {
        self.state.regs()
    }

    /// How many spawned tasks wait for admission.
    pub closed spec fn queued_count(self) -> nat {
        self.state.queued().len()
    }

    /// The spawned tasks waiting for admission, oldest first.
    pub closed spec fn queued_tasks(self) -> Seq<T> {
        self.state.queued()
    }

    /// The next task number to hand out.
    pub closed spec fn next_id_spec(self) -> u64 {
        self.next_id
    }

    /// The executor's invariant: the waking state is consistent, the log
    /// is well formed, task numbers in the run list are distinct and
    /// below the counter, and a completed task is gone for good.
    pub closed spec fn wf(self) -> bool {
        &&& self.state.wf()
        &&& history_wf(self.history())
        &&& forall |i: int, j: int|
            0 <= i < j < self.futures@.len()
                ==> (#[trigger] self.futures@[i]).id != (#[trigger] self.futures@[j]).id
        &&& forall |k: int|
            0 <= k < self.futures@.len()
                ==> (#[trigger] self.futures@[k]).id < self.next_id
        &&& forall |id: u64| #[trigger] has_completed(self.history(), id)
            ==> !self.is_live(id) && id < self.next_id
    }

    /// The log of a well-formed executor is well formed, so the log
    /// lemmas apply to it.
    pub proof fn lemma_wf_history(self)
        requires
            self.wf(),
        ensures
            history_wf(self.history()),
    {
    }

    /// Terminal idempotence, half two: a task that completed is absent
    /// from the run list.
    pub proof fn lemma_completed_gone(self, id: u64)
        requires
            self.wf(),
            has_completed(self.history(), id),
        ensures
            !self.is_live(id),
    {
    }

    /// No spurious re-poll: between any two polls of the same task in
    /// this executor's log stands a wake of that task.  A task that
    /// returned pending is left alone until its descriptor fires or some
    /// other holder of its handle wakes it.
    pub proof fn lemma_repoll_needs_wake(self, id: u64, j: int, k: int)
        requires
            self.wf(),
            0 <= j < k < self.history().len(),
            self.history()[j] == (Event::Polled { id }),
            self.history()[k] == (Event::Polled { id }),
        ensures
            exists |w: int| j < w < k && #[trigger] self.history()[w] == (Event::Woken { id }),
    {
        lemma_no_spurious_repoll(self.history(), id, j, k);
    }

    /// Key uniqueness for a running executor: its reactor never holds
    /// two live registrations under one token, whatever register and
    /// fire operations led here.
    pub proof fn lemma_registration_tokens_unique(self, i: int, j: int)
        requires
            self.wf(),
            0 <= i < self.regs().len(),
            0 <= j < self.regs().len(),
            i != j,
        ensures
            self.regs()[i].token != self.regs()[j].token,
    {
        self.state.lemma_registration_tokens_unique(i, j);
    }

    /// The run list is empty exactly when no task is live, which turns
    /// per-task liveness facts into the step's done condition.
    pub proof fn lemma_task_count_zero(self)
        ensures
            (self.task_count() == 0) <==> (forall |id: u64| !self.is_live(id)),
    {
        if self.task_count() > 0 {
            assert(self.is_live(self.futures@[0].id));
        }
        if self.task_count() == 0 {
            assert forall |id: u64| !self.is_live(id) by {
                if self.is_live(id) {
                    let k = choose |k: int|
                        0 <= k < self.futures@.len()
                            && (#[trigger] self.futures@[k]).id == id;
                }
            }
        }
    }

    /// Each position of the run list holds a live task, and no two
    /// positions hold the same task number, so the number of distinct
    /// live task numbers is exactly the run list's length.
    pub proof fn lemma_live_positions(self)
        requires
            self.wf(),
        ensures
            forall |k: int| 0 <= k < self.task_count()
                ==> self.is_live(#[trigger] self.live_id_at(k)),
            forall |i: int, j: int|
                0 <= i < j < self.task_count()
                    ==> #[trigger] self.live_id_at(i) != #[trigger] self.live_id_at(j),
    {
        assert forall |k: int| 0 <= k < self.task_count()
            implies self.is_live(#[trigger] self.live_id_at(k)) by {
            assert(self.futures@[k].id == self.live_id_at(k));
        }
    }

    /// Terminal idempotence: after the entry that completed a task, the
    /// executor's log never polls that task again.
    pub proof fn lemma_completed_never_polled(self, id: u64, i: int, j: int)
        requires
            self.wf(),
            0 <= i < j < self.history().len(),
            self.history()[i] == (Event::Completed { id }),
        ensures
            self.history()[j] != (Event::Polled { id }),
    {
        lemma_terminal_idempotence(self.history(), id, i, j);
    }

    /// Start an executor over `initial` tasks, numbered in order; every
    /// flag starts set, so every task is polled in the first step.  The
    /// task numbers are `u64`, so the initial list must leave numbering
    /// room, which any list that fits in memory does.
    pub fn new(initial: Vec<T>) -> (ex: FdExecutor<T>)
        requires
            initial@.len() < u64::MAX,
        ensures
            ex.wf(),
            ex.task_count() == initial@.len(),
            forall |id: u64| ex.is_live(id) == (id < initial@.len()),
            forall |id: u64| id < initial@.len() ==> ex.flagged(id),
            ex.queued_count() == 0,
            ex.next_id_spec() == initial@.len(),
            ex.regs() == Seq::<crate::reactor::Registration>::empty(),
            forall |k: int| 0 <= k < initial@.len()
                ==> #[trigger] ex.live_id_at(k) == k && ex.task_at(k) == initial@[k],
    {
        let mut ex = FdExecutor {
            futures: Vec::new(),
            state: InterfaceState::new(),
            next_id: 0,
        };
        let ghost init0 = initial@;
        let mut init = initial;
        let ghost n = init0.len();
        proof {
            lemma_history_wf_empty();
        }
        while init.len() > 0
            invariant
                n < u64::MAX,
                n == init0.len(),
                init@.len() + ex.futures@.len() == n,
                ex.next_id == ex.futures@.len(),
                init@ == init0.skip(ex.futures@.len() as int),
                forall |k: int| 0 <= k < ex.futures@.len()
                    ==> (#[trigger] ex.futures@[k]).id == k
                        && ex.futures@[k].fut == init0[k],
                forall |x: u64| ex.state.flagged(x) == (x < ex.futures@.len()),
                ex.state.wf(),
                history_wf(ex.state.history()),
                forall |k: int|
                    0 <= k < ex.state.history().len()
                        ==> (#[trigger] ex.state.history()[k]) is Woken,
                ex.state.queued().len() == 0,
                ex.state.regs().len() == 0,
            decreases init@.len(),
        {
            let fut = init.remove(0);
            let id: u64 = ex.next_id;
            proof {
                lemma_history_wf_push_woken(ex.state.history(), id);
                assert(ex.futures@.len() < n);
                assert(init0.skip(ex.futures@.len() as int)[0]
                    == init0[ex.futures@.len() as int]);
                assert(init0.skip(ex.futures@.len() as int).remove(0)
                    =~= init0.skip(ex.futures@.len() as int + 1));
            }
            ex.state.wake(WakeHandle::mint(id));
            ex.futures.push(TaskEntry { id, fut });
            ex.next_id = id + 1;
        }
        proof {
            assert forall |id: u64| ex.is_live(id) == (id < n) by {
                if id < n {
                    assert(ex.futures@[id as int].id == id);
                }
            }
            assert forall |id: u64| #[trigger] has_completed(ex.history(), id)
                implies !ex.is_live(id) && id < ex.next_id by {
                lemma_no_completed_all_woken(ex.history(), id);
            }
        }
        ex
    }

    /// The run list is empty: nothing is left to drive.
    pub fn is_done(&self) -> (done: bool)
        ensures
            done == (self.task_count() == 0),
    {
        self.futures.len() == 0
    }

    /// The descriptors the driver should block on before the next step.
    pub fn watched_fds(&self) -> (v: Vec<i32>)
        ensures
            v@.len() == self.regs().len(),
            forall |i: int| 0 <= i < v@.len() ==> v@[i] == (#[trigger] self.regs()[i]).fd,
    {
        self.state.watched_fds()
    }

    /// How many tasks are in the run list.
    pub fn live_count(&self) -> (n: usize)
        ensures
            n == self.task_count(),
    {
        self.futures.len()
    }

    /// One pass over the run list, in list order: every task whose flag
    /// is set has the flag cleared and is polled once with a fresh handle
    /// to its own flag; a task whose poll returns ready is dropped from
    /// the list, and a task whose flag is clear is not touched at all.
    #[verifier::rlimit(100)]
    #[verifier::spinoff_prover]
    fn sweep(&mut self)
        requires
            old(self).wf(),
        ensures
            final(self).wf(),
            old(self).history().is_prefix_of(final(self).history()),
            final(self).next_id_spec() == old(self).next_id_spec(),
            old(self).regs().is_prefix_of(final(self).regs()),
            forall |id: u64|
                #[trigger] count_polled(final(self).history().skip(old(self).history().len() as int), id) <= 1,
            forall |id: u64|
                !old(self).flagged(id) && !has_woken(final(self).history().skip(old(self).history().len() as int), id)
                    ==> #[trigger] count_polled(final(self).history().skip(old(self).history().len() as int), id) == 0,
            forall |id: u64|
                #[trigger] has_completed(final(self).history().skip(old(self).history().len() as int), id)
                    ==> count_polled(final(self).history().skip(old(self).history().len() as int), id) == 1,
            exists |tr: Seq<(int, T, T, PollStatus, Seq<T>)>|
                #[trigger] poll_trace_ok(*old(self), final(self).history().skip(old(self).history().len() as int), tr)
                    && final(self).queued_tasks()
                        == old(self).queued_tasks() + spawn_concat(tr),
            forall |id: u64|
                !old(self).is_live(id)
                    ==> #[trigger] count_polled(final(self).history().skip(old(self).history().len() as int), id) == 0
                        && !has_completed(final(self).history().skip(old(self).history().len() as int), id),
            forall |id: u64|
                old(self).is_live(id) && old(self).flagged(id)
                    ==> #[trigger] count_polled(final(self).history().skip(old(self).history().len() as int), id) == 1,
            forall |id: u64|
                old(self).is_live(id)
                    ==> (final(self).is_live(id)
                        == !(#[trigger] has_completed(final(self).history().skip(old(self).history().len() as int), id))),
            forall |id: u64| #[trigger] final(self).is_live(id) ==> old(self).is_live(id),
            forall |i: int, j: int|
                0 <= i < j < old(self).task_count()
                    && polled_pos(final(self).history().skip(old(self).history().len() as int), #[trigger] old(self).live_id_at(i)) != -1
                    && polled_pos(final(self).history().skip(old(self).history().len() as int), #[trigger] old(self).live_id_at(j)) != -1
                    ==> polled_pos(final(self).history().skip(old(self).history().len() as int), old(self).live_id_at(i))
                        < polled_pos(final(self).history().skip(old(self).history().len() as int), old(self).live_id_at(j)),
    {
        let ghost base = *self;
        let ghost h0 = self.state.history();
        let ghost w0 = base.futures@;
        let mut work: Vec<TaskEntry<T>> = Vec::new();
        core::mem::swap(&mut work, &mut self.futures);
        let ghost mut p: int = 0;
        let ghost mut tr: Seq<(int, T, T, PollStatus, Seq<T>)> = Seq::empty();
        proof {
            assert(spawn_concat(tr) =~= Seq::<T>::empty());
            assert(self.state.queued() =~= base.state.queued() + spawn_concat(tr));
            assert(work@ =~= w0.skip(0));
            assert(w0.take(0) =~= Seq::<TaskEntry<T>>::empty());
            assert(base.state.regs().is_prefix_of(self.state.regs())) by {
                assert(self.state.regs().take(base.state.regs().len() as int)
                    =~= base.state.regs());
            }
            assert(self.state.history().skip(h0.len() as int) =~= Seq::<Event>::empty());
            assert forall |id: u64| #[trigger] count_polled(Seq::<Event>::empty(), id) == 0
                && !has_completed(Seq::<Event>::empty(), id) by {}
            assert forall |id: u64| #[trigger] polled_pos(Seq::<Event>::empty(), id) == -1
                by {}
        }
        while work.len() > 0
            invariant
                base.wf(),
                h0 == base.history(),
                w0 == base.futures@,
                self.state.wf(),
                history_wf(self.state.history()),
                h0.is_prefix_of(self.state.history()),
                self.next_id == base.next_id,
                0 <= p <= w0.len(),
                work@ == w0.skip(p),
                forall |i: int, j: int| 0 <= i < j < w0.len()
                    ==> (#[trigger] w0[i]).id != (#[trigger] w0[j]).id,
                forall |k: int| 0 <= k < w0.len() ==> (#[trigger] w0[k]).id < base.next_id,
                forall |id: u64| #[trigger] has_completed(h0, id)
                    ==> !in_entries(w0, id) && id < base.next_id,
                forall |j: int| 0 <= j < self.futures@.len()
                    ==> in_entries(w0.take(p), (#[trigger] self.futures@[j]).id),
                forall |i: int, j: int| 0 <= i < j < self.futures@.len()
                    ==> (#[trigger] self.futures@[i]).id != (#[trigger] self.futures@[j]).id,
                forall |id: u64| #[trigger] in_entries(work@, id) && base.flagged(id)
                    ==> self.state.flagged(id),
                self.state.queued() == base.state.queued() + spawn_concat(tr),
                base.state.regs().is_prefix_of(self.state.regs()),
                ({
                    let delta = self.state.history().skip(h0.len() as int);
                    &&& forall |id: u64| #[trigger] self.state.flagged(id)
                        ==> base.flagged(id) || has_woken(delta, id)
                    &&& forall |id: u64| !base.flagged(id) && !has_woken(delta, id)
                        ==> #[trigger] count_polled(delta, id) == 0
                    &&& forall |id: u64| #[trigger] has_completed(delta, id)
                        ==> count_polled(delta, id) == 1
                    &&& forall |i: int| 0 <= i < tr.len() ==> {
                        let r = #[trigger] tr[i];
                        &&& 0 <= r.0 < p
                        &&& r.1 == w0[r.0].fut
                        &&& T::poll_spec(r.1, r.2, w0[r.0].id, r.3, r.4)
                        &&& has_completed(delta, w0[r.0].id) == (r.3 is Ready)
                        &&& count_polled(delta, w0[r.0].id) == 1
                    }
                    &&& forall |i: int, j: int|
                        0 <= i < j < tr.len() ==> (#[trigger] tr[i]).0 < (#[trigger] tr[j]).0
                    &&& forall |k: int|
                        0 <= k < p && count_polled(delta, (#[trigger] w0[k]).id) == 1
                            ==> exists |i: int| 0 <= i < tr.len() && (#[trigger] tr[i]).0 == k
                    &&& forall |i: int, j: int|
                        0 <= i < j < p
                            && polled_pos(delta, (#[trigger] w0[i]).id) != -1
                            && polled_pos(delta, (#[trigger] w0[j]).id) != -1
                            ==> polled_pos(delta, w0[i].id) < polled_pos(delta, w0[j].id)
                    &&& forall |i: int|
                        0 <= i < p && polled_pos(delta, (#[trigger] w0[i]).id) != -1
                            ==> polled_pos(delta, w0[i].id) < delta.len()
                    &&& forall |id: u64| #[trigger] in_entries(work@, id)
                        ==> polled_pos(delta, id) == -1
                    &&& forall |id: u64| #[trigger] count_polled(delta, id) <= 1
                    &&& forall |id: u64| !in_entries(w0, id)
                        ==> #[trigger] count_polled(delta, id) == 0
                            && !has_completed(delta, id)
                    &&& forall |id: u64| #[trigger] in_entries(work@, id)
                        ==> count_polled(delta, id) == 0 && !has_completed(delta, id)
                    &&& forall |id: u64| in_entries(w0.take(p), id) && base.flagged(id)
                        ==> #[trigger] count_polled(delta, id) == 1
                    &&& forall |id: u64| #[trigger] in_entries(w0.take(p), id)
                        ==> (in_entries(self.futures@, id) == !has_completed(delta, id))
                    &&& forall |id: u64| #[trigger] has_completed(delta, id)
                        ==> in_entries(w0.take(p), id)
                }),
            decreases work@.len(),
        {
            let ghost work_head = work@;
            let ghost kept_head = self.futures@;
            let ghost dA = self.state.history().skip(h0.len() as int);
            let mut entry = work.remove(0);
            proof {
                assert(work_head[0] == entry);
                assert(entry == w0[p]);
                assert(work@ =~= w0.skip(p + 1));
                assert(in_entries(work_head, entry.id)) by {
                    assert(work_head[0].id == entry.id);
                }
                assert(in_entries(w0, entry.id)) by {
                    assert(w0[p].id == entry.id);
                }
                assert(count_polled(dA, entry.id) == 0 && !has_completed(dA, entry.id));
                assert(!in_entries(self.futures@, entry.id)) by {
                    if in_entries(self.futures@, entry.id) {
                        assert(in_entries(w0.take(p), entry.id));
                        let k = choose |k: int|
                            0 <= k < w0.take(p).len()
                                && (#[trigger] w0.take(p)[k]).id == entry.id;
                        assert(w0[k].id == entry.id);
                        assert(w0[p].id == entry.id);
                        assert(false);
                    }
                }
                assert(!in_entries(work@, entry.id)) by {
                    if in_entries(work@, entry.id) {
                        let k = choose |k: int|
                            0 <= k < work@.len() && (#[trigger] work@[k]).id == entry.id;
                        assert(w0[p + 1 + k].id == entry.id);
                        assert(w0[p].id == entry.id);
                        assert(false);
                    }
                }
            }
            let me_h = WakeHandle::mint(entry.id);
            let woken = self.state.is_woken(&me_h);
            let ghost hA = self.state.history();
            if woken {
                proof {
                    assert(hA =~= h0 + dA);
                    lemma_has_completed_split(h0, dA, entry.id);
                    assert(!has_completed(hA, entry.id));
                }
                let ghost regs_head = self.state.regs();
                let ghost q_head = self.state.queued();
                let ghost flags_head = *self;
                let ghost pre_fut = entry.fut;
                let r = poll_task(&mut entry.fut, &mut self.state, entry.id);
                let ghost post_fut = entry.fut;
                let ghost spawned_pt = self.state.queued().skip(q_head.len() as int);
                let ghost dpt = self.state.history().skip(hA.len() as int);
                proof {
                    lemma_prefix_trans(base.state.regs(), regs_head, self.state.regs());
                }
                let ghost completed = r is Ready;
                match r {
                    PollStatus::Pending => {
                        self.futures.push(entry);
                    }
                    PollStatus::Ready => {
                    }
                }
                proof {
                    let dNew = self.state.history().skip(h0.len() as int);
                    assert(self.state.history().take(hA.len() as int) =~= hA);
                    assert(self.state.history() =~= hA + dpt);
                    lemma_skip_of_append(hA, dpt, h0.len() as int);
                    assert(dNew =~= dA + dpt);
                    assert(h0.is_prefix_of(self.state.history())) by {
                        assert(self.state.history().take(h0.len() as int)
                            =~= hA.take(h0.len() as int));
                    }
                    assert forall |id: u64|
                        #[trigger] count_polled(dNew, id)
                            == count_polled(dA, id)
                                + (if id == entry.id { 1nat } else { 0nat }) by {
                        lemma_count_polled_add(dA, dpt, id);
                    }
                    assert forall |id: u64|
                        #[trigger] has_completed(dNew, id)
                            == (has_completed(dA, id) || (completed && id == entry.id)) by {
                        lemma_has_completed_split(dA, dpt, id);
                    }
                    sweep_iter_restore::<T>(
                        base, h0, w0, p, kept_head, dA, dNew,
                        self.futures@, work@, entry, true, completed,
                    );
                    assert(polled_pos(dA, entry.id) == -1) by {
                        assert(in_entries(work_head, entry.id));
                    }
                    assert(dpt.len() >= 2) by {
                        assert(polled_pos(dpt, entry.id) == 1);
                        lemma_polled_pos(dpt, entry.id);
                    }
                    assert forall |x: u64| #[trigger] polled_pos(dNew, x)
                        == (if x == entry.id { dA.len() + 1int } else { polled_pos(dA, x) })
                        by {
                        lemma_polled_pos_add(dA, dpt, x);
                    }
                    sweep_order_restore::<T>(w0, p, dA, dNew, entry.id, true);
                    assert forall |id: u64|
                        #[trigger] in_entries(work@, id) && base.flagged(id)
                        implies self.state.flagged(id) by {
                        assert(in_entries(work_head, id)) by {
                            lemma_in_entries_skip_step(w0, p, id);
                        }
                        assert(id != entry.id);
                    }
                    let ghost rec = (p, pre_fut, post_fut, r, spawned_pt);
                    let ghost tr2 = tr.push(rec);
                    assert(spawn_concat(tr2) =~= spawn_concat(tr) + spawned_pt) by {
                        assert(tr2.drop_last() =~= tr);
                        assert(tr2.last() == rec);
                    }
                    assert(self.state.queued()
                        =~= base.state.queued() + spawn_concat(tr2));
                    assert forall |i: int| 0 <= i < tr2.len() implies {
                        let rr = #[trigger] tr2[i];
                        &&& 0 <= rr.0 < p + 1
                        &&& rr.1 == w0[rr.0].fut
                        &&& T::poll_spec(rr.1, rr.2, w0[rr.0].id, rr.3, rr.4)
                        &&& has_completed(dNew, w0[rr.0].id) == (rr.3 is Ready)
                        &&& count_polled(dNew, w0[rr.0].id) == 1
                    } by {
                        if i < tr.len() {
                            assert(tr2[i] == tr[i]);
                            assert(w0[tr[i].0].id != entry.id) by {
                                if w0[tr[i].0].id == w0[p].id {
                                    assert(tr[i].0 != p);
                                }
                            }
                        } else {
                            assert(tr2[i] == rec);
                            assert(pre_fut == w0[p].fut);
                        }
                    }
                    assert forall |i: int, j: int| 0 <= i < j < tr2.len()
                        implies (#[trigger] tr2[i]).0 < (#[trigger] tr2[j]).0 by {
                        assert(tr2[i] == if i < tr.len() { tr[i] } else { rec });
                        assert(tr2[j] == if j < tr.len() { tr[j] } else { rec });
                        if j == tr.len() && i < tr.len() {
                            assert(tr[i].0 < p);
                        }
                    }
                    assert forall |k: int|
                        0 <= k < p + 1 && count_polled(dNew, (#[trigger] w0[k]).id) == 1
                        implies exists |i: int|
                            0 <= i < tr2.len() && (#[trigger] tr2[i]).0 == k by {
                        if k < p {
                            assert(count_polled(dA, w0[k].id) == 1) by {
                                if w0[k].id == entry.id {
                                    assert(k != p);
                                }
                            }
                            let i = choose |i: int|
                                0 <= i < tr.len() && (#[trigger] tr[i]).0 == k;
                            assert(tr2[i] == tr[i]);
                        } else {
                            assert(tr2[tr.len() as int] == rec);
                        }
                    }
                    assert forall |id: u64| #[trigger] self.state.flagged(id)
                        implies base.flagged(id) || has_woken(dNew, id) by {
                        lemma_has_woken_split(dA, dpt, id);
                        if !base.flagged(id) {
                            assert(flags_head.state.flagged(id) || has_woken(dpt, id));
                        }
                    }
                    assert forall |id: u64| !base.flagged(id) && !has_woken(dNew, id)
                        implies #[trigger] count_polled(dNew, id) == 0 by {
                        lemma_has_woken_split(dA, dpt, id);
                        assert(count_polled(dA, id) == 0);
                        if id == entry.id {
                            assert(flags_head.state.flagged(entry.id));
                            assert(base.flagged(id) || has_woken(dA, id));
                            assert(false);
                        }
                    }
                    assert forall |id: u64| #[trigger] has_completed(dNew, id)
                        implies count_polled(dNew, id) == 1 by {
                        if has_completed(dA, id) {
                            assert(count_polled(dA, id) == 1);
                            assert(id != entry.id);
                        }
                    }
                    tr = tr2;
                    p = p + 1;
                }
            } else {
                self.futures.push(entry);
                proof {
                    let dNew = self.state.history().skip(h0.len() as int);
                    assert(dNew == dA);
                    assert(!base.flagged(entry.id)) by {
                        if base.flagged(entry.id) {
                            assert(in_entries(work_head, entry.id));
                            assert(self.state.flagged(entry.id));
                        }
                    }
                    sweep_iter_restore::<T>(
                        base, h0, w0, p, kept_head, dA, dNew,
                        self.futures@, work@, entry, false, false,
                    );
                    assert forall |x: u64| #[trigger] polled_pos(dNew, x)
                        == polled_pos(dA, x) by {}
                    sweep_order_restore::<T>(w0, p, dA, dNew, entry.id, false);
                    assert forall |id: u64|
                        #[trigger] in_entries(work@, id) && base.flagged(id)
                        implies self.state.flagged(id) by {
                        assert(in_entries(work_head, id)) by {
                            lemma_in_entries_skip_step(w0, p, id);
                        }
                    }
                    assert forall |k: int|
                        0 <= k < p + 1 && count_polled(dNew, (#[trigger] w0[k]).id) == 1
                        implies exists |i: int|
                            0 <= i < tr.len() && (#[trigger] tr[i]).0 == k by {
                        if k == p {
                            assert(count_polled(dA, entry.id) == 0);
                        } else {
                            let i = choose |i: int|
                                0 <= i < tr.len() && (#[trigger] tr[i]).0 == k;
                        }
                    }
                    assert forall |i: int| 0 <= i < tr.len() implies (#[trigger] tr[i]).0 < p + 1
                        by {}
                    p = p + 1;
                }
            }
        }
        proof {
            assert(w0.take(p) =~= w0);
            assert(p == w0.len());
            let delta = self.state.history().skip(h0.len() as int);
            assert forall |id: u64| #[trigger] has_completed(self.state.history(), id)
                implies !self.is_live(id) && id < self.next_id by {
                assert(self.state.history() =~= h0 + delta);
                lemma_has_completed_split(h0, delta, id);
                if has_completed(h0, id) {
                    assert(!in_entries(w0, id));
                    if self.is_live(id) {
                        let k = choose |k: int|
                            0 <= k < self.futures@.len()
                                && (#[trigger] self.futures@[k]).id == id;
                        assert(in_entries(w0.take(p), self.futures@[k].id));
                    }
                } else {
                    assert(has_completed(delta, id));
                    assert(in_entries(w0, id));
                    let k = choose |k: int|
                        0 <= k < w0.len() && (#[trigger] w0[k]).id == id;
                    assert(w0[k].id < base.next_id);
                    assert(!in_entries(self.futures@, id));
                    if self.is_live(id) {
                        let k2 = choose |k2: int|
                            0 <= k2 < self.futures@.len()
                                && (#[trigger] self.futures@[k2]).id == id;
                        assert(false);
                    }
                }
            }
            assert forall |k: int| 0 <= k < self.futures@.len()
                implies (#[trigger] self.futures@[k]).id < self.next_id by {
                assert(in_entries(w0.take(p), self.futures@[k].id));
                let k2 = choose |k2: int|
                    0 <= k2 < w0.len() && (#[trigger] w0[k2]).id == self.futures@[k].id;
            }
            assert forall |id: u64| old(self).is_live(id)
                implies (self.is_live(id) == !has_completed(delta, id)) by {
                assert(in_entries(w0, id) == old(self).is_live(id));
                assert(in_entries(w0.take(p), id) == in_entries(w0, id));
                if old(self).is_live(id) {
                    assert(in_entries(self.futures@, id) == !has_completed(delta, id));
                    assert(self.is_live(id) == in_entries(self.futures@, id));
                }
            }
            assert forall |id: u64| #[trigger] self.is_live(id)
                implies old(self).is_live(id) by {
                let k = choose |k: int|
                    0 <= k < self.futures@.len() && (#[trigger] self.futures@[k]).id == id;
                assert(in_entries(w0.take(p), id));
                let k2 = choose |k2: int|
                    0 <= k2 < w0.len() && (#[trigger] w0[k2]).id == id;
                assert(old(self).futures@[k2].id == id);
            }
            assert forall |id: u64| !old(self).is_live(id)
                implies #[trigger] count_polled(delta, id) == 0
                    && !has_completed(delta, id) by {
                assert(!in_entries(w0, id)) by {
                    if in_entries(w0, id) {
                        let k = choose |k: int|
                            0 <= k < w0.len() && (#[trigger] w0[k]).id == id;
                        assert(old(self).futures@[k].id == id);
                    }
                }
            }
            assert forall |id: u64| old(self).is_live(id) && old(self).flagged(id)
                implies #[trigger] count_polled(delta, id) == 1 by {
                assert(in_entries(w0, id) == old(self).is_live(id));
                assert(in_entries(w0.take(p), id) == in_entries(w0, id));
            }
            assert forall |i: int, j: int|
                0 <= i < j < old(self).task_count()
                    && polled_pos(delta, #[trigger] old(self).live_id_at(i)) != -1
                    && polled_pos(delta, #[trigger] old(self).live_id_at(j)) != -1
                implies polled_pos(delta, old(self).live_id_at(i))
                    < polled_pos(delta, old(self).live_id_at(j)) by {
                assert(old(self).live_id_at(i) == w0[i].id);
                assert(old(self).live_id_at(j) == w0[j].id);
            }
            assert forall |id: u64| !old(self).flagged(id) && !has_woken(delta, id)
                implies #[trigger] count_polled(delta, id) == 0 by {
                assert(!base.flagged(id));
            }
            sweep_finish_trace::<T>(*old(self), w0, delta, tr);
            assert(self.queued_tasks() == old(self).queued_tasks() + spawn_concat(tr));
        }
    }

    /// One iteration of the run loop.  The readiness reports in
    /// `readable` are delivered first: each fires its latest registration
    /// one-shot and sets that task's flag.  Then the list is swept: every
    /// live task whose flag is set is polled exactly once, no other task
    /// is polled at all, and completed tasks leave the list.  Finally the
    /// tasks spawned during the sweep are admitted with their flags set.
    /// The executor is done when the run list is empty; until then the
    /// driver blocks on [`FdExecutor::watched_fds`] and calls `step`
    /// again with what became readable.
    #[verifier::rlimit(60)]
    #[verifier::spinoff_prover]
    pub fn step(&mut self, readable: &Vec<i32>) -> (done: bool)
        requires
            old(self).wf(),
        ensures
            final(self).wf(),
            done == (final(self).task_count() == 0),
            old(self).history().is_prefix_of(final(self).history()),
            old(self).next_id_spec() <= final(self).next_id_spec(),
            forall |id: u64|
                #[trigger] count_polled(final(self).history().skip(old(self).history().len() as int), id) <= 1,
            forall |id: u64|
                !old(self).is_live(id)
                    ==> #[trigger] count_polled(final(self).history().skip(old(self).history().len() as int), id) == 0
                        && !has_completed(final(self).history().skip(old(self).history().len() as int), id),
            forall |id: u64|
                !old(self).flagged(id) && !has_woken(final(self).history().skip(old(self).history().len() as int), id)
                    ==> #[trigger] count_polled(final(self).history().skip(old(self).history().len() as int), id) == 0,
            forall |id: u64|
                #[trigger] has_completed(final(self).history().skip(old(self).history().len() as int), id)
                    ==> count_polled(final(self).history().skip(old(self).history().len() as int), id) == 1,
            forall |id: u64|
                old(self).is_live(id)
                    && (old(self).flagged(id)
                        || fire_result(old(self).regs(), readable@).1.contains(id))
                    ==> #[trigger] count_polled(final(self).history().skip(old(self).history().len() as int), id) == 1,
            forall |id: u64|
                old(self).is_live(id)
                    ==> (final(self).is_live(id)
                        == !(#[trigger] has_completed(final(self).history().skip(old(self).history().len() as int), id))),
            exists |tr: Seq<(int, T, T, PollStatus, Seq<T>)>|
                #[trigger] poll_trace_ok(*old(self), final(self).history().skip(old(self).history().len() as int), tr)
                    && final(self).next_id_spec() - old(self).next_id_spec()
                        <= old(self).queued_count() + spawn_concat(tr).len(),
            forall |i: int, j: int|
                0 <= i < j < old(self).task_count()
                    && polled_pos(final(self).history().skip(old(self).history().len() as int), #[trigger] old(self).live_id_at(i)) != -1
                    && polled_pos(final(self).history().skip(old(self).history().len() as int), #[trigger] old(self).live_id_at(j)) != -1
                    ==> polled_pos(final(self).history().skip(old(self).history().len() as int), old(self).live_id_at(i))
                        < polled_pos(final(self).history().skip(old(self).history().len() as int), old(self).live_id_at(j)),
            forall |id: u64|
                old(self).next_id_spec() <= id < final(self).next_id_spec()
                    ==> final(self).is_live(id) && final(self).flagged(id),
            forall |id: u64| #[trigger] final(self).is_live(id)
                ==> old(self).is_live(id)
                    || old(self).next_id_spec() <= id < final(self).next_id_spec(),
            final(self).next_id_spec() < u64::MAX ==> final(self).queued_count() == 0,
            fire_result(old(self).regs(), readable@).0.is_prefix_of(final(self).regs()),
    {
        let ghost h0 = self.state.history();
        self.state.wake_readable(readable);
        let ghost s_a = *self;
        let ghost d_o = s_a.history().skip(h0.len() as int);
        proof {
            assert(s_a.history().take(h0.len() as int) =~= h0);
            lemma_history_wf_extend_woken(h0, s_a.history());
            assert forall |k: int| 0 <= k < d_o.len()
                implies (#[trigger] d_o[k]) is Woken by {
                assert(d_o[k] == s_a.history()[h0.len() + k]);
            }
            assert forall |id: u64| #[trigger] has_completed(s_a.history(), id)
                implies !s_a.is_live(id) && id < s_a.next_id by {
                assert(s_a.history() =~= h0 + d_o);
                lemma_has_completed_split(h0, d_o, id);
                lemma_no_completed_all_woken(d_o, id);
                assert(has_completed(h0, id));
                assert(!old(self).is_live(id) && id < old(self).next_id);
                lemma_live_eq::<T>(*old(self), s_a);
            }
            assert(self.wf());
        }
        self.sweep();
        let ghost s_b = *self;
        let ghost d_s = s_b.history().skip(s_a.history().len() as int);
        self.drain_spawned();
        let ghost d_d = self.history().skip(s_b.history().len() as int);
        let done = self.futures.len() == 0;
        proof {
            let delta = self.history().skip(h0.len() as int);
            assert(s_b.history().take(s_a.history().len() as int) =~= s_a.history());
            assert(self.history().take(s_b.history().len() as int) =~= s_b.history());
            assert(s_b.history() =~= s_a.history() + d_s);
            assert(self.history() =~= s_b.history() + d_d);
            assert(h0.is_prefix_of(self.history())) by {
                assert(self.history().take(h0.len() as int)
                    =~= s_a.history().take(h0.len() as int));
            }
            assert(delta =~= d_o + d_s + d_d);
            assert forall |k: int| 0 <= k < d_d.len()
                implies (#[trigger] d_d[k]) is Woken by {
                assert(d_d[k] == self.history()[s_b.history().len() + k]);
            }
            lemma_live_eq::<T>(*old(self), s_a);
            assert forall |id: u64|
                #[trigger] count_polled(delta, id) == count_polled(d_s, id) by {
                lemma_count_polled_add(d_o + d_s, d_d, id);
                lemma_count_polled_add(d_o, d_s, id);
                lemma_count_polled_all_woken(d_o, id);
                lemma_count_polled_all_woken(d_d, id);
            }
            assert forall |id: u64|
                #[trigger] has_completed(delta, id) == has_completed(d_s, id) by {
                lemma_has_completed_split(d_o + d_s, d_d, id);
                lemma_has_completed_split(d_o, d_s, id);
                lemma_no_completed_all_woken(d_o, id);
                lemma_no_completed_all_woken(d_d, id);
            }
            assert forall |id: u64|
                old(self).is_live(id)
                    && (old(self).flagged(id)
                        || fire_result(old(self).regs(), readable@).1.contains(id))
                implies #[trigger] count_polled(delta, id) == 1 by {
                assert(s_a.is_live(id));
                assert(s_a.flagged(id));
                assert(count_polled(d_s, id) == 1);
            }
            assert forall |id: u64| !old(self).is_live(id)
                implies #[trigger] count_polled(delta, id) == 0 by {
                assert(!s_a.is_live(id));
                assert(count_polled(d_s, id) == 0);
            }
            assert forall |id: u64| old(self).is_live(id)
                implies (self.is_live(id) == !(#[trigger] has_completed(delta, id))) by {
                assert(s_a.is_live(id));
                let k = choose |k: int|
                    0 <= k < s_a.futures@.len() && (#[trigger] s_a.futures@[k]).id == id;
                assert(id < s_a.next_id);
                assert(s_b.is_live(id) == !has_completed(d_s, id));
                assert(s_b.next_id == s_a.next_id);
                assert(self.is_live(id) == (s_b.is_live(id)
                    || s_b.next_id <= id < self.next_id));
            }
            assert forall |id: u64| #[trigger] self.is_live(id)
                implies old(self).is_live(id)
                    || old(self).next_id_spec() <= id < self.next_id_spec() by {
                if !(s_b.next_id <= id < self.next_id) {
                    assert(s_b.is_live(id));
                    assert(s_a.is_live(id));
                }
            }
            assert(fire_result(old(self).regs(), readable@).0
                .is_prefix_of(self.regs())) by {
                assert(s_a.regs() == fire_result(old(self).regs(), readable@).0);
                assert(self.regs() == s_b.regs());
            }
            assert forall |x: u64| #[trigger] polled_pos(delta, x)
                == (if polled_pos(d_s, x) == -1 {
                    -1int
                } else {
                    d_o.len() + polled_pos(d_s, x)
                }) by {
                lemma_polled_pos_add(d_o + d_s, d_d, x);
                lemma_polled_pos_add(d_o, d_s, x);
                assert forall |k: int| 0 <= k < d_o.len()
                    implies !((#[trigger] d_o[k]) is Polled) by {}
                lemma_polled_pos_no_poll(d_o, x);
                assert forall |k: int| 0 <= k < d_d.len()
                    implies !((#[trigger] d_d[k]) is Polled) by {}
                lemma_polled_pos_no_poll(d_d, x);
                lemma_polled_pos(d_s, x);
            }
            assert(s_a.task_count() == old(self).task_count());
            assert forall |i: int, j: int|
                0 <= i < j < old(self).task_count()
                    && polled_pos(delta, #[trigger] old(self).live_id_at(i)) != -1
                    && polled_pos(delta, #[trigger] old(self).live_id_at(j)) != -1
                implies polled_pos(delta, old(self).live_id_at(i))
                    < polled_pos(delta, old(self).live_id_at(j)) by {
                let a = old(self).live_id_at(i);
                let b = old(self).live_id_at(j);
                assert(s_a.live_id_at(i) == a);
                assert(s_a.live_id_at(j) == b);
                assert(polled_pos(d_s, a) != -1);
                assert(polled_pos(d_s, b) != -1);
                assert(polled_pos(d_s, a) < polled_pos(d_s, b));
            }
            assert forall |id: u64| !old(self).is_live(id)
                implies #[trigger] count_polled(delta, id) == 0
                    && !has_completed(delta, id) by {
                assert(!s_a.is_live(id));
                assert(count_polled(d_s, id) == 0);
                assert(!has_completed(d_s, id));
            }
            assert forall |id: u64| #[trigger] has_completed(delta, id)
                implies count_polled(delta, id) == 1 by {
                assert(has_completed(d_s, id));
                assert(count_polled(d_s, id) == 1);
            }
            assert forall |id: u64| !old(self).flagged(id) && !has_woken(delta, id)
                implies #[trigger] count_polled(delta, id) == 0 by {
                lemma_has_woken_split(d_o + d_s, d_d, id);
                lemma_has_woken_split(d_o, d_s, id);
                assert(!has_woken(d_o, id) && !has_woken(d_s, id));
                assert(!s_a.flagged(id)) by {
                    if s_a.flagged(id) {
                        let fired = fire_result(old(self).regs(), readable@).1;
                        assert(fired.contains(id));
                        let k = choose |k: int| 0 <= k < fired.len() && fired[k] == id;
                        assert(d_o =~= fired.map_values(|x: u64| Event::Woken { id: x }));
                        assert(d_o[k] == (Event::Woken { id }));
                        assert(has_woken(d_o, id));
                    }
                }
                assert(count_polled(d_s, id) == 0);
            }
            let tr = choose |tr: Seq<(int, T, T, PollStatus, Seq<T>)>|
                #[trigger] poll_trace_ok(s_a, d_s, tr)
                    && s_b.queued_tasks() == s_a.queued_tasks() + spawn_concat(tr);
            assert(poll_trace_ok(*old(self), delta, tr)) by {
                reveal(poll_trace_ok);
                assert forall |i: int| 0 <= i < tr.len() implies {
                    let r = #[trigger] tr[i];
                    &&& 0 <= r.0 < old(self).task_count()
                    &&& r.1 == old(self).task_at(r.0)
                    &&& T::poll_spec(r.1, r.2, old(self).live_id_at(r.0), r.3, r.4)
                    &&& has_completed(delta, old(self).live_id_at(r.0)) == (r.3 is Ready)
                    &&& count_polled(delta, old(self).live_id_at(r.0)) == 1
                } by {
                    assert(old(self).task_at(tr[i].0) == s_a.task_at(tr[i].0));
                    assert(old(self).live_id_at(tr[i].0) == s_a.live_id_at(tr[i].0));
                    assert(has_completed(d_s, s_a.live_id_at(tr[i].0))
                        == (tr[i].3 is Ready));
                    assert(count_polled(d_s, s_a.live_id_at(tr[i].0)) == 1);
                }
                assert forall |k: int|
                    0 <= k < old(self).task_count()
                        && count_polled(delta, #[trigger] old(self).live_id_at(k)) == 1
                    implies exists |i: int|
                        0 <= i < tr.len() && (#[trigger] tr[i]).0 == k by {
                    assert(old(self).live_id_at(k) == s_a.live_id_at(k));
                    assert(count_polled(d_s, s_a.live_id_at(k)) == 1);
                    let i = choose |i: int| 0 <= i < tr.len() && (#[trigger] tr[i]).0 == k;
                }
            }
            assert(self.next_id_spec() - old(self).next_id_spec()
                <= old(self).queued_count() + spawn_concat(tr).len()) by {
                assert(s_b.queued_tasks().len()
                    == s_a.queued_tasks().len() + spawn_concat(tr).len());
                assert(s_a.queued_tasks() == old(self).queued_tasks());
                assert(self.next_id_spec() - s_b.next_id_spec()
                    == s_b.queued_count() - self.queued_count());
                assert(s_b.next_id_spec() == old(self).next_id_spec());
            }
        }
        done
    }

    /// Admit the tasks spawned during the last sweep: each gets a fresh
    /// number, joins the run list, and starts with its flag set, so it is
    /// polled in the next step's sweep.
    fn drain_spawned(&mut self)
        requires
            old(self).wf(),
        ensures
            final(self).wf(),
            old(self).history().is_prefix_of(final(self).history()),
            forall |k: int|
                old(self).history().len() <= k < final(self).history().len()
                    ==> (#[trigger] final(self).history()[k]) is Woken,
            old(self).next_id_spec() <= final(self).next_id_spec(),
            forall |id: u64|
                final(self).is_live(id) == (old(self).is_live(id)
                    || old(self).next_id_spec() <= id < final(self).next_id_spec()),
            forall |id: u64|
                old(self).next_id_spec() <= id < final(self).next_id_spec()
                    ==> final(self).flagged(id),
            forall |x: u64| old(self).flagged(x) ==> final(self).flagged(x),
            final(self).next_id_spec() < u64::MAX ==> final(self).queued_count() == 0,
            final(self).next_id_spec() - old(self).next_id_spec()
                == old(self).queued_count() - final(self).queued_count(),
            final(self).regs() == old(self).regs(),
    {
        let ghost base = *self;
        let ghost h0 = self.state.history();
        while self.state.queued_len() > 0 && self.next_id < u64::MAX
            invariant
                base.wf(),
                h0 == base.history(),
                self.state.wf(),
                history_wf(self.state.history()),
                h0.is_prefix_of(self.state.history()),
                forall |k: int|
                    h0.len() <= k < self.state.history().len()
                        ==> (#[trigger] self.state.history()[k]) is Woken,
                base.next_id <= self.next_id,
                self.next_id - base.next_id
                    == base.state.queued().len() - self.state.queued().len(),
                forall |i: int, j: int|
                    0 <= i < j < self.futures@.len()
                        ==> (#[trigger] self.futures@[i]).id
                            != (#[trigger] self.futures@[j]).id,
                forall |k: int|
                    0 <= k < self.futures@.len()
                        ==> (#[trigger] self.futures@[k]).id < self.next_id,
                forall |id: u64|
                    #[trigger] in_entries(self.futures@, id)
                        == (in_entries(base.futures@, id)
                            || base.next_id <= id < self.next_id),
                forall |id: u64|
                    base.next_id <= id < self.next_id ==> self.state.flagged(id),
                forall |x: u64| base.flagged(x) ==> self.state.flagged(x),
                self.state.regs() == base.state.regs(),
                forall |id: u64| #[trigger] has_completed(self.state.history(), id)
                    ==> has_completed(h0, id),
            decreases self.state.queued().len(),
        {
            let fut = self.state.pop_queued();
            let id: u64 = self.next_id;
            proof {
                lemma_history_wf_push_woken(self.state.history(), id);
            }
            let ghost before = *self;
            self.state.wake(WakeHandle::mint(id));
            self.futures.push(TaskEntry { id, fut });
            self.next_id = id + 1;
            proof {
                assert(self.state.history().take(before.state.history().len() as int)
                    =~= before.state.history());
                assert(h0.is_prefix_of(self.state.history())) by {
                    assert(self.state.history().take(h0.len() as int)
                        =~= before.state.history().take(h0.len() as int));
                }
                assert forall |id2: u64|
                    #[trigger] in_entries(self.futures@, id2)
                        == (in_entries(base.futures@, id2)
                            || base.next_id <= id2 < self.next_id) by {
                    lemma_in_entries_push(before.futures@, TaskEntry { id, fut: arbitrary() }, id2);
                    assert(self.futures@ =~= before.futures@.push(self.futures@[self.futures@.len() - 1]));
                    lemma_in_entries_push(
                        before.futures@,
                        self.futures@[self.futures@.len() - 1],
                        id2,
                    );
                }
                assert forall |id2: u64|
                    #[trigger] has_completed(self.state.history(), id2)
                    implies has_completed(h0, id2) by {
                    lemma_has_completed_split(
                        before.state.history(),
                        seq![Event::Woken { id }],
                        id2,
                    );
                    assert(self.state.history()
                        =~= before.state.history() + seq![Event::Woken { id }]);
                    if has_completed(seq![Event::Woken { id }], id2) {
                        let i = choose |i: int|
                            0 <= i < 1 && #[trigger] seq![Event::Woken { id }][i]
                                == (Event::Completed { id: id2 });
                        assert(false);
                    }
                }
            }
        }
        proof {
            assert forall |id: u64| #[trigger] has_completed(self.state.history(), id)
                implies !self.is_live(id) && id < self.next_id by {
                assert(has_completed(h0, id));
                assert(!base.is_live(id) && id < base.next_id);
                assert(!in_entries(base.futures@, id)) by {
                    if in_entries(base.futures@, id) {
                        let k = choose |k: int|
                            0 <= k < base.futures@.len()
                                && (#[trigger] base.futures@[k]).id == id;
                        assert(base.is_live(id));
                    }
                }
                if self.is_live(id) {
                    let k = choose |k: int|
                        0 <= k < self.futures@.len()
                            && (#[trigger] self.futures@[k]).id == id;
                    assert(in_entries(self.futures@, id));
                }
            }
            assert forall |id: u64|
                self.is_live(id) == (base.is_live(id)
                    || base.next_id <= id < self.next_id) by {
                if self.is_live(id) {
                    let k = choose |k: int|
                        0 <= k < self.futures@.len()
                            && (#[trigger] self.futures@[k]).id == id;
                    assert(in_entries(self.futures@, id));
                }
                if in_entries(self.futures@, id) {
                    let k = choose |k: int|
                        0 <= k < self.futures@.len()
                            && (#[trigger] self.futures@[k]).id == id;
                    assert(self.is_live(id));
                }
                if base.is_live(id) {
                    let k = choose |k: int|
                        0 <= k < base.futures@.len()
                            && (#[trigger] base.futures@[k]).id == id;
                    assert(in_entries(base.futures@, id));
                }
                if in_entries(base.futures@, id) {
                    let k = choose |k: int|
                        0 <= k < base.futures@.len()
                            && (#[trigger] base.futures@[k]).id == id;
                    assert(base.is_live(id));
                }
            }
        }
    }
}

} // verus!
