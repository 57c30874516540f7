//! Small verified tasks that exercise the executor.
//!
//! These are the library's own [`Pollable`] implementations: a task that
//! completes at once, a task that re-wakes itself a fixed number of
//! times, a task that waits for a descriptor, and a task that spawns a
//! sibling.  They are enough to drive every scheduling scenario without
//! any operating-system resource, and their `poll` bodies are verified
//! against the task contract like any caller-supplied task would wish to
//! be.

use vstd::prelude::*;
use crate::events::{Event, has_woken};
use crate::executor::{Pollable, PollStatus};
use crate::state::InterfaceState;
use crate::wake::WakeHandle;

verus! {

/// A demonstration task.
#[derive(Clone, Copy, PartialEq, Eq, Structural, Debug)]
pub enum DemoTask {
    /// Completes on its first poll.
    Immediate,
    /// Wakes itself and stays pending until it has been polled
    /// `remaining` more times.
    CountDown { remaining: u64 },
    /// Registers `fd` on its first poll and completes when the readiness
    /// of `fd` gets it polled again.
    WaitFd { fd: i32, registered: bool },
    /// Spawns an [`DemoTask::Immediate`] sibling and completes.
    SpawnOne,
}

impl Pollable for DemoTask {
    /// Exactly what each variant's poll does: which variants return
    /// ready, how the pending ones move, and that only
    /// [`DemoTask::SpawnOne`] spawns — one immediate sibling.
    open spec fn poll_spec(
        pre: DemoTask,
        post: DemoTask,
        me_id: u64,
        status: PollStatus,
        spawned: Seq<DemoTask>,
    ) -> bool {
        match pre {
            DemoTask::Immediate => status is Ready && spawned.len() == 0,
            DemoTask::CountDown { remaining } => {
                &&& spawned.len() == 0
                &&& if remaining == 0 {
                    status is Ready
                } else {
                    status is Pending
                        && post == (DemoTask::CountDown { remaining: (remaining - 1) as u64 })
                }
            }
            DemoTask::WaitFd { fd, registered } => {
                &&& spawned.len() == 0
                &&& if registered {
                    status is Ready
                } else {
                    status is Pending
                        && (post == (DemoTask::WaitFd { fd, registered: true }) || post == pre)
                }
            }
            DemoTask::SpawnOne => status is Ready && spawned == seq![DemoTask::Immediate],
        }
    }

    fn poll(&mut self, state: &mut InterfaceState<DemoTask>, me: WakeHandle)
        -> (status: PollStatus)
        ensures
            (status is Ready) == match *old(self) {
                DemoTask::Immediate => true,
                DemoTask::CountDown { remaining } => remaining == 0,
                DemoTask::WaitFd { fd: _, registered } => registered,
                DemoTask::SpawnOne => true,
            },
            *old(self) matches DemoTask::CountDown { remaining }
                ==> remaining > 0
                ==> *final(self) == (DemoTask::CountDown { remaining: (remaining - 1) as u64 })
                    && final(state).flagged(me.id_spec()),
            *old(self) matches DemoTask::WaitFd { fd, registered }
                ==> !registered && old(state).token_counter() < u64::MAX
                ==> {
                    &&& *final(self) == (DemoTask::WaitFd { fd, registered: true })
                    &&& final(state).regs().len() == old(state).regs().len() + 1
                    &&& final(state).regs().last().fd == fd
                    &&& final(state).regs().last().handle == me
                },
            *old(self) is SpawnOne
                ==> final(state).queued() == old(state).queued().push(DemoTask::Immediate),
    {
        proof {
            assert(old(state).history().is_prefix_of(old(state).history())) by {
                assert(old(state).history().take(old(state).history().len() as int)
                    =~= old(state).history());
            }
            assert(old(state).queued().is_prefix_of(old(state).queued())) by {
                assert(old(state).queued().take(old(state).queued().len() as int)
                    =~= old(state).queued());
            }
            assert(old(state).regs().is_prefix_of(old(state).regs())) by {
                assert(old(state).regs().take(old(state).regs().len() as int)
                    =~= old(state).regs());
            }
        }
        match *self {
            DemoTask::Immediate => PollStatus::Ready,
            DemoTask::CountDown { remaining } => {
                if remaining == 0 {
                    PollStatus::Ready
                } else {
                    *self = DemoTask::CountDown { remaining: remaining - 1 };
                    state.wake(me);
                    proof {
                        prefix_after_push_event(old(state).history(), state.history());
                        self_wake_justified(*old(state), *state, me);
                    }
                    PollStatus::Pending
                }
            }
            DemoTask::WaitFd { fd, registered } => {
                if registered {
                    PollStatus::Ready
                } else if state.can_register() {
                    let _token = state.add_waker(fd, me);
                    *self = DemoTask::WaitFd { fd, registered: true };
                    proof {
                        assert(old(state).regs()
                            .is_prefix_of(state.regs())) by {
                            assert(state.regs().take(old(state).regs().len() as int)
                                =~= old(state).regs());
                        }
                    }
                    PollStatus::Pending
                } else {
                    state.wake(me);
                    proof {
                        prefix_after_push_event(old(state).history(), state.history());
                        self_wake_justified(*old(state), *state, me);
                    }
                    PollStatus::Pending
                }
            }
            DemoTask::SpawnOne => {
                state.add_future(DemoTask::Immediate);
                proof {
                    assert(old(state).queued().is_prefix_of(state.queued())) by {
                        assert(state.queued().take(old(state).queued().len() as int)
                            =~= old(state).queued());
                    }
                    assert(state.queued().skip(old(state).queued().len() as int)
                        =~= seq![DemoTask::Immediate]);
                }
                PollStatus::Ready
            }
        }
    }
}

/// The decision inside the stdin example computation: an ASCII digit
/// byte `d` yields the run `0, 1, .., d - 1`; any other byte yields
/// nothing, meaning the computation must keep waiting.
pub fn digit_run(b: u8) -> (r: Option<Vec<u8>>)
    ensures
        (48 <= b <= 57) == (r is Some),
        r matches Some(v) ==> v@.len() == b - 48
            && forall |i: int| 0 <= i < v@.len() ==> v@[i] == i,
{
    if b >= 48 && b <= 57 {
        let n: u8 = b - 48;
        let mut v: Vec<u8> = Vec::new();
        let mut i: u8 = 0;
        while i < n
            invariant
                i <= n,
                v@.len() == i,
                forall |k: int| 0 <= k < i ==> v@[k] == k,
            decreases n - i,
        {
            v.push(i);
            i = i + 1;
        }
        Some(v)
    } else {
        None
    }
}

/// A log extended by one entry keeps the old log as a prefix, and the
/// new entry is the only addition.
/// After `state.wake(me)`, every set flag is the old flag or the one the
/// appended `Woken` entry just justified.
proof fn self_wake_justified(
    pre: InterfaceState<DemoTask>,
    post: InterfaceState<DemoTask>,
    me: WakeHandle,
)
    requires
        post.history() == pre.history().push(Event::Woken { id: me.id_spec() }),
        forall |x: u64| post.flagged(x) == (pre.flagged(x) || x == me.id_spec()),
    ensures
        forall |x: u64| #[trigger] post.flagged(x) ==> pre.flagged(x)
            || has_woken(post.history().skip(pre.history().len() as int), x),
{
    let ap = post.history().skip(pre.history().len() as int);
    assert(ap =~= seq![Event::Woken { id: me.id_spec() }]);
    assert forall |x: u64| #[trigger] post.flagged(x)
        implies pre.flagged(x) || has_woken(ap, x) by {
        if !pre.flagged(x) {
            assert(x == me.id_spec());
            assert(ap[0] == (Event::Woken { id: x }));
        }
    }
}

proof fn prefix_after_push_event(
    h: Seq<crate::events::Event>,
    g: Seq<crate::events::Event>,
)
    requires
        g.len() == h.len() + 1,
        forall |k: int| 0 <= k < h.len() ==> g[k] == h[k],
    ensures
        h.is_prefix_of(g),
{
    assert(g.take(h.len() as int) =~= h);
}

} // verus!
