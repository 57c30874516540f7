//! Contract-level derivations: scheduling outcomes concluded from the
//! public contracts alone, with no knowledge of the executor's body.
//!
//! The chain for a one-task run whose task is immediately ready: the
//! task is polled exactly once, its recorded poll status must be ready
//! by [`DemoTask`]'s `poll_spec`, so it completes and leaves the run
//! list; its `poll_spec` also spawns nothing, so nothing is admitted,
//! and the step reports the run over — the driver never reaches a wait.
//! With a waiting sibling, the same chain shows the ready task leaves
//! the list while the pending one stays live in it.

use vstd::prelude::*;
use crate::events::{count_polled, has_completed};
use crate::executor::{
    FdExecutor, Pollable, PollStatus, poll_trace_ok, spawn_concat,
    lemma_spawn_concat_empty,
};
use crate::tasks::DemoTask;

verus! {

/// An immediately-ready single task ends the run in its first step,
/// before any reactor wait could happen.
pub fn immediate_task_ends_run_in_one_step() -> (ex: FdExecutor<DemoTask>)
    ensures
        ex.task_count() == 0,
{
    let tasks = vec![DemoTask::Immediate];
    let ghost ts = tasks@;
    proof {
        assert(ts.len() == 1);
        assert(ts[0] == DemoTask::Immediate);
    }
    let mut ex = FdExecutor::new(tasks);
    let ghost pre = ex;
    assert(pre.is_live(0) && pre.flagged(0));
    assert(pre.live_id_at(0) == 0);
    assert(pre.task_at(0) == DemoTask::Immediate);
    let empty: Vec<i32> = Vec::new();
    let done = ex.step(&empty);
    proof {
        let delta = ex.history().skip(pre.history().len() as int);
        assert(count_polled(delta, 0) == 1);
        let tr = choose |tr: Seq<(int, DemoTask, DemoTask, PollStatus, Seq<DemoTask>)>|
            #[trigger] poll_trace_ok(pre, delta, tr)
                && ex.next_id_spec() - pre.next_id_spec()
                    <= pre.queued_count() + spawn_concat(tr).len();
        reveal(poll_trace_ok);
        let i = choose |i: int| 0 <= i < tr.len() && (#[trigger] tr[i]).0 == 0;
        assert(tr[i].1 == pre.task_at(0));
        assert(DemoTask::poll_spec(tr[i].1, tr[i].2, 0, tr[i].3, tr[i].4));
        assert(tr[i].3 is Ready);
        assert(has_completed(delta, 0));
        assert(!ex.is_live(0));
        assert forall |j: int| 0 <= j < tr.len() implies (#[trigger] tr[j]).0 == 0 by {
            assert(0 <= tr[j].0 < 1);
        }
        assert(spawn_concat(tr).len() == 0) by {
            if tr.len() == 0 {
                assert(spawn_concat(tr).len() == 0);
            } else {
                assert(tr.len() == 1) by {
                    if tr.len() > 1 {
                        assert(tr[0].0 < tr[1].0);
                    }
                }
                assert(spawn_concat(tr.drop_last()).len() == 0);
                assert(tr.last().4.len() == 0) by {
                    assert(tr.last() == tr[0]);
                    assert(DemoTask::poll_spec(
                        tr[0].1, tr[0].2, 0, tr[0].3, tr[0].4,
                    ));
                }
            }
        }
        assert(ex.next_id_spec() == 1);
        assert forall |id: u64| !ex.is_live(id) by {
            if ex.is_live(id) {
                assert(pre.is_live(id) || 1 <= id < 1);
                assert(pre.is_live(id));
                assert(id == 0) by {
                    if id != 0 {
                        assert(!pre.is_live(id));
                    }
                }
            }
        }
        ex.lemma_task_count_zero();
        assert(ex.task_count() == 0);
        assert(done);
    }
    ex
}

/// Of two tasks — one immediately ready, one registering a descriptor
/// and waiting — the first step completes and removes the ready one,
/// while the waiter stays, and it alone, in the run list.
pub fn ready_task_leaves_while_waiter_stays() -> (ex: FdExecutor<DemoTask>)
    ensures
        ex.task_count() == 1,
        ex.is_live(1),
        !ex.is_live(0),
{
    let tasks = vec![
        DemoTask::Immediate,
        DemoTask::WaitFd { fd: 7, registered: false },
    ];
    let ghost ts = tasks@;
    proof {
        assert(ts.len() == 2);
        assert(ts[0] == DemoTask::Immediate);
        assert(ts[1] == (DemoTask::WaitFd { fd: 7, registered: false }));
    }
    let mut ex = FdExecutor::new(tasks);
    let ghost pre = ex;
    assert(pre.is_live(0) && pre.flagged(0));
    assert(pre.is_live(1) && pre.flagged(1));
    assert(pre.live_id_at(0) == 0 && pre.live_id_at(1) == 1);
    assert(pre.task_at(0) == DemoTask::Immediate);
    assert(pre.task_at(1) == (DemoTask::WaitFd { fd: 7, registered: false }));
    let empty: Vec<i32> = Vec::new();
    let done = ex.step(&empty);
    proof {
        let delta = ex.history().skip(pre.history().len() as int);
        assert(count_polled(delta, 0) == 1);
        assert(count_polled(delta, 1) == 1);
        let tr = choose |tr: Seq<(int, DemoTask, DemoTask, PollStatus, Seq<DemoTask>)>|
            #[trigger] poll_trace_ok(pre, delta, tr)
                && ex.next_id_spec() - pre.next_id_spec()
                    <= pre.queued_count() + spawn_concat(tr).len();
        reveal(poll_trace_ok);
        let i0 = choose |i: int| 0 <= i < tr.len() && (#[trigger] tr[i]).0 == 0;
        assert(tr[i0].1 == pre.task_at(0));
        assert(DemoTask::poll_spec(tr[i0].1, tr[i0].2, 0, tr[i0].3, tr[i0].4));
        assert(tr[i0].3 is Ready);
        assert(has_completed(delta, 0));
        assert(!ex.is_live(0));
        let i1 = choose |i: int| 0 <= i < tr.len() && (#[trigger] tr[i]).0 == 1;
        assert(tr[i1].1 == pre.task_at(1));
        assert(DemoTask::poll_spec(tr[i1].1, tr[i1].2, 1, tr[i1].3, tr[i1].4));
        assert(tr[i1].3 is Pending);
        assert(!has_completed(delta, 1));
        assert(ex.is_live(1));
        assert forall |j: int| 0 <= j < tr.len()
            implies (#[trigger] tr[j]).4.len() == 0 by {
            assert(0 <= tr[j].0 < 2);
            assert(tr[j].1 == pre.task_at(tr[j].0));
            assert(DemoTask::poll_spec(
                tr[j].1, tr[j].2, pre.live_id_at(tr[j].0), tr[j].3, tr[j].4,
            ));
        }
        lemma_spawn_concat_empty::<DemoTask>(tr);
        assert(ex.next_id_spec() == 2);
        assert forall |id: u64| #[trigger] ex.is_live(id) implies id == 1 by {
            assert(pre.is_live(id) || 2 <= id < 2);
            if id != 0 && id != 1 {
                assert(!pre.is_live(id));
            }
        }
        ex.lemma_live_positions();
        assert(ex.task_count() == 1) by {
            if ex.task_count() == 0 {
                ex.lemma_task_count_zero();
            }
            if ex.task_count() >= 2 {
                assert(ex.is_live(ex.live_id_at(0)));
                assert(ex.is_live(ex.live_id_at(1)));
                assert(ex.live_id_at(0) != ex.live_id_at(1));
                assert(ex.live_id_at(0) == 1 && ex.live_id_at(1) == 1);
            }
        }
    }
    ex
}

} // verus!
