//! The waking state a running task can see.
//!
//! While the executor polls a task, the task receives exclusive access to
//! an [`InterfaceState`]: the reactor's registration table, the readiness
//! flags of all tasks, and the queue of newly spawned tasks that have not
//! yet joined the run list.  A task may register a descriptor
//! ([`InterfaceState::add_waker`]), set any flag whose handle it holds
//! ([`InterfaceState::wake`]), and enqueue new sibling tasks
//! ([`InterfaceState::add_future`]).  Every mutation is recorded in the
//! ghost event log, so the executor's scheduling laws survive arbitrary
//! task behaviour.

use vstd::prelude::*;
use crate::events::{
    Event, woken_since_clear, lemma_woken_since_clear_extend,
};
use crate::reactor::{
    Reactor, Registration, latest_for, fire_result, has_token, lemma_latest_for,
};
use crate::wake::{WakeHandle, WakeSet};

verus! {

/// Reactor, readiness flags, spawn queue, and the ghost log of what
/// happened to the flags.  `T` is the task type the executor runs.
pub struct InterfaceState<T> {
    pub(crate) reactor: Reactor,
    pub(crate) wakes: WakeSet,
    pub(crate) new_futures: Vec<T>,
    pub(crate) history: Ghost<Seq<Event>>,
}

impl<T> InterfaceState<T> {
    /// The ghost log of flag events so far.
    pub closed spec fn history(self) -> Seq<Event> {
        self.history@
    }

    /// The readiness flag of task `id` is set.
    pub closed spec fn flagged(self, id: u64) -> bool {
        self.wakes.contains(id)
    }

    /// The spawned tasks waiting to be admitted to the run list.
    pub closed spec fn queued(self) -> Seq<T> {
        self.new_futures@
    }

    /// The live registrations of the reactor.
    pub closed spec fn regs(self) -> Seq<Registration> {
        self.reactor.regs()
    }

    /// The reactor's token counter.
    pub closed spec fn token_counter(self) -> u64 {
        self.reactor.next_token_spec()
    }

    /// The state is consistent: the reactor's tokens are unique, the
    /// flags hold no duplicates, and every set flag was set by a `Woken`
    /// entry after the task's last `Cleared` entry.
    pub closed spec fn wf(self) -> bool {
        &&& self.reactor.wf()
        &&& self.wakes.wf()
        &&& forall |id: u64| self.flagged(id) ==> woken_since_clear(self.history(), id)
    }

    /// A set flag is always justified by the log.
    pub proof fn lemma_flagged_justified(self, id: u64)
        requires
            self.wf(),
            self.flagged(id),
        ensures
            woken_since_clear(self.history(), id),
    {
    }

    /// Key uniqueness, exported at this level: in a consistent state no
    /// two live registrations share a token.
    pub proof fn lemma_registration_tokens_unique(self, i: int, j: int)
        requires
            self.wf(),
            0 <= i < self.regs().len(),
            0 <= j < self.regs().len(),
            i != j,
        ensures
            self.regs()[i].token != self.regs()[j].token,
    {
        self.reactor.lemma_tokens_unique(i, j);
    }

    /// An empty state: nothing watched, nothing flagged, nothing queued.
    pub fn new() -> (s: InterfaceState<T>)
        ensures
            s.wf(),
            s.history() == Seq::<Event>::empty(),
            forall |id: u64| !s.flagged(id),
            s.queued() == Seq::<T>::empty(),
            s.regs() == Seq::<Registration>::empty(),
            s.token_counter() == 0,
    {
        let s = InterfaceState {
            reactor: Reactor::new(),
            wakes: WakeSet::new(),
            new_futures: Vec::new(),
            history: Ghost(Seq::empty()),
        };
        assert(s.queued() =~= Seq::<T>::empty());
        s
    }

    /// Set the readiness flag of the task behind `h`.  Waking is
    /// idempotent, and waking a task that already left the run list only
    /// sets a flag nobody reads.
    pub fn wake(&mut self, h: WakeHandle)
        requires
            old(self).wf(),
        ensures
            final(self).wf(),
            final(self).history()
                == old(self).history().push(Event::Woken { id: h.id_spec() }),
            forall |x: u64|
                final(self).flagged(x) == (old(self).flagged(x) || x == h.id_spec()),
            final(self).queued() == old(self).queued(),
            final(self).regs() == old(self).regs(),
            final(self).token_counter() == old(self).token_counter(),
    {
        let id: u64 = h.id();
        self.wakes.set(id);
        proof {
            self.history@ = self.history@.push(Event::Woken { id });
        }
        proof {
            reveal(woken_since_clear);
            let h0 = old(self).history();
            let h1 = self.history();
            assert(h1.take(h0.len() as int) =~= h0);
            assert forall |x: u64| self.flagged(x)
                implies woken_since_clear(h1, x) by {
                if x == id {
                    let w = h0.len() as int;
                    assert(h1[w] == (Event::Woken { id: x }));
                    assert(forall |c: int| w < c < h1.len()
                        ==> #[trigger] h1[c] != (Event::Cleared { id: x }));
                } else {
                    assert(old(self).flagged(x));
                    lemma_woken_since_clear_extend(h0, h1, x);
                }
            }
        }
    }

    /// Same effect as [`InterfaceState::wake`], for a borrowed handle.
    pub fn wake_by_ref(&mut self, h: &WakeHandle)
        requires
            old(self).wf(),
        ensures
            final(self).wf(),
            final(self).history()
                == old(self).history().push(Event::Woken { id: h.id_spec() }),
            forall |x: u64|
                final(self).flagged(x) == (old(self).flagged(x) || x == h.id_spec()),
            final(self).queued() == old(self).queued(),
            final(self).regs() == old(self).regs(),
            final(self).token_counter() == old(self).token_counter(),
    {
        let copy = *h;
        self.wake(copy);
    }

    /// The flag of the task behind `h` is set.
    pub fn is_woken(&self, h: &WakeHandle) -> (b: bool)
        ensures
            b == self.flagged(h.id_spec()),
    {
        self.wakes.is_set(h.id())
    }

    /// Token allocation has room for another registration.
    pub fn can_register(&self) -> (b: bool)
        ensures
            b == (self.token_counter() < u64::MAX),
    {
        self.reactor.can_allocate()
    }

    /// Ask the reactor to wake `handle`'s task when `fd` becomes
    /// readable; returns the registration's fresh token.  Asks for room
    /// in the token space, which [`InterfaceState::can_register`] tests;
    /// the space runs out only after `u64::MAX` registrations.
    pub fn add_waker(&mut self, fd: i32, handle: WakeHandle) -> (token: u64)
        requires
            old(self).wf(),
            old(self).token_counter() < u64::MAX,
        ensures
            final(self).wf(),
            final(self).regs()
                == old(self).regs().push(Registration { token, fd, handle }),
            !has_token(old(self).regs(), token),
            final(self).token_counter() == token,
            old(self).token_counter() <= token,
            final(self).history() == old(self).history(),
            forall |x: u64| final(self).flagged(x) == old(self).flagged(x),
            final(self).queued() == old(self).queued(),
    {
        let token: u64 = self.reactor.add_waker(fd, handle);
        proof {
            assert forall |x: u64| self.flagged(x)
                implies woken_since_clear(self.history(), x) by {
                assert(old(self).flagged(x));
            }
        }
        token
    }

    /// Enqueue a newly spawned task; the executor admits it to the run
    /// list at the end of the current step.
    pub fn add_future(&mut self, fut: T)
        requires
            old(self).wf(),
        ensures
            final(self).wf(),
            final(self).queued() == old(self).queued().push(fut),
            final(self).history() == old(self).history(),
            forall |x: u64| final(self).flagged(x) == old(self).flagged(x),
            final(self).regs() == old(self).regs(),
            final(self).token_counter() == old(self).token_counter(),
    {
        self.new_futures.push(fut);
        proof {
            assert forall |x: u64| self.flagged(x)
                implies woken_since_clear(self.history(), x) by {
                assert(old(self).flagged(x));
            }
        }
    }

    /// The watched descriptors, in registration order.
    pub fn watched_fds(&self) -> (v: Vec<i32>)
        ensures
            v@.len() == self.regs().len(),
            forall |i: int| 0 <= i < v@.len() ==> v@[i] == (#[trigger] self.regs()[i]).fd,
    {
        self.reactor.watched_fds()
    }

    /// Fire the registrations of the readable descriptors, one-shot, and
    /// set the flags of the tasks they name.  What remains and who is
    /// woken is exactly [`fire_result`] of the old table.
    pub fn wake_readable(&mut self, readable: &Vec<i32>)
        requires
            old(self).wf(),
        ensures
            final(self).wf(),
            final(self).regs() == fire_result(old(self).regs(), readable@).0,
            final(self).history() == old(self).history()
                + fire_result(old(self).regs(), readable@).1
                    .map_values(|id: u64| Event::Woken { id }),
            forall |x: u64| final(self).flagged(x)
                == (old(self).flagged(x)
                    || fire_result(old(self).regs(), readable@).1.contains(x)),
            final(self).queued() == old(self).queued(),
            final(self).token_counter() == old(self).token_counter(),
            forall |k: int|
                old(self).history().len() <= k < final(self).history().len()
                    ==> (#[trigger] final(self).history()[k]) is Woken,
    {
        let ghost base = *self;
        let ghost r0 = self.regs();
        let ghost rd = readable@;
        let ghost h0 = self.history();
        let ghost mut acc: Seq<u64> = Seq::empty();
        proof {
            assert(rd.skip(0) =~= rd);
            assert(h0 + acc.map_values(|id: u64| Event::Woken { id }) =~= h0);
        }
        let mut i: usize = 0;
        while i < readable.len()
            invariant
                base.wf(),
                self.wf(),
                0 <= i <= rd.len(),
                readable@ == rd,
                r0 == base.regs(),
                h0 == base.history(),
                fire_result(r0, rd).0 == fire_result(self.regs(), rd.skip(i as int)).0,
                fire_result(r0, rd).1 == acc + fire_result(self.regs(), rd.skip(i as int)).1,
                self.history() == h0 + acc.map_values(|id: u64| Event::Woken { id }),
                forall |x: u64| #[trigger] self.flagged(x)
                    == (base.flagged(x) || acc.contains(x)),
                self.queued() == base.queued(),
                self.token_counter() == base.token_counter(),
            decreases rd.len() - i,
        {
            let fd = readable[i];
            let ghost regs_before = self.regs();
            let ghost rest = rd.skip(i as int);
            proof {
                assert(rest[0] == fd);
                assert(rest.skip(1) =~= rd.skip(i + 1 as int));
            }
            let ghost flags_before = *self;
            let fired = self.reactor.fire_fd(fd);
            proof {
                assert forall |x: u64| self.flagged(x)
                    implies woken_since_clear(self.history(), x) by {
                    assert(flags_before.flagged(x));
                }
                assert forall |x: u64|
                    #[trigger] self.flagged(x) == (base.flagged(x) || acc.contains(x)) by {
                    assert(self.flagged(x) == flags_before.flagged(x));
                }
                assert(self.history() == flags_before.history());
            }
            match fired {
                Some(reg) => {
                    proof {
                        lemma_latest_for(regs_before, fd);
                        let l = latest_for(regs_before, fd);
                        assert(l >= 0);
                        assert(reg == regs_before[l]);
                        assert(fire_result(regs_before, rest).0
                            == fire_result(regs_before.remove(l), rest.skip(1)).0);
                        assert(fire_result(regs_before, rest).1
                            == seq![regs_before[l].handle.id_spec()]
                                + fire_result(regs_before.remove(l), rest.skip(1)).1);
                    }
                    let ghost mid = *self;
                    self.wake(reg.handle);
                    proof {
                        let id = reg.handle.id_spec();
                        let ghost acc2 = acc.push(id);
                        assert(acc + (seq![id]
                            + fire_result(self.regs(), rd.skip(i + 1 as int)).1)
                            =~= acc2 + fire_result(self.regs(), rd.skip(i + 1 as int)).1);
                        assert(acc2.map_values(|x: u64| Event::Woken { id: x })
                            =~= acc.map_values(|x: u64| Event::Woken { id: x })
                                .push(Event::Woken { id }));
                        assert((h0 + acc.map_values(|x: u64| Event::Woken { id: x }))
                            .push(Event::Woken { id })
                            =~= h0 + acc2.map_values(|x: u64| Event::Woken { id: x }));
                        assert forall |x: u64| #[trigger] self.flagged(x)
                            == (base.flagged(x) || acc2.contains(x)) by {
                            assert(self.flagged(x) == (mid.flagged(x) || x == id));
                            assert(mid.flagged(x)
                                == (base.flagged(x) || acc.contains(x)));
                            if acc.contains(x) {
                                let k = choose |k: int|
                                    0 <= k < acc.len() && acc[k] == x;
                                assert(acc2[k] == x);
                            }
                            if acc2.contains(x) && x != id {
                                let k = choose |k: int|
                                    0 <= k < acc2.len() && acc2[k] == x;
                                assert(k < acc.len());
                                assert(acc[k] == x);
                            }
                            if x == id {
                                assert(acc2[acc.len() as int] == x);
                            }
                        }
                        acc = acc2;
                    }
                }
                None => {
                    proof {
                        lemma_latest_for(regs_before, fd);
                        assert(latest_for(regs_before, fd) < 0);
                        assert(fire_result(regs_before, rest)
                            == fire_result(regs_before, rest.skip(1)));
                    }
                }
            }
            i = i + 1;
        }
        proof {
            assert(rd.skip(rd.len() as int) =~= Seq::<i32>::empty());
            assert(fire_result(self.regs(), Seq::empty()).1 =~= Seq::<u64>::empty());
            assert(acc + Seq::<u64>::empty() =~= acc);
            assert(acc == fire_result(r0, rd).1);
            let m = acc.map_values(|id: u64| Event::Woken { id });
            assert forall |k: int|
                old(self).history().len() <= k < self.history().len()
                implies (#[trigger] self.history()[k]) is Woken by {
                assert(self.history()[k] == m[k - h0.len()]);
            }
            assert forall |x: u64| self.flagged(x)
                == (old(self).flagged(x)
                    || fire_result(old(self).regs(), readable@).1.contains(x)) by {
                assert(self.flagged(x) == (base.flagged(x) || acc.contains(x)));
            }
        }
    }

    /// Clear the flag of task `id` and record that the task is being
    /// polled.  Only the executor does this, right before the poll.
    pub(crate) fn note_poll(&mut self, id: u64)
        requires
            old(self).wf(),
            old(self).flagged(id),
        ensures
            final(self).wf(),
            woken_since_clear(old(self).history(), id),
            final(self).history() == old(self).history()
                .push(Event::Cleared { id }).push(Event::Polled { id }),
            forall |x: u64|
                final(self).flagged(x) == (old(self).flagged(x) && x != id),
            final(self).queued() == old(self).queued(),
            final(self).regs() == old(self).regs(),
            final(self).token_counter() == old(self).token_counter(),
    {
        self.wakes.clear(id);
        proof {
            self.history@ = self.history@
                .push(Event::Cleared { id }).push(Event::Polled { id });
        }
        proof {
            let h0 = old(self).history();
            let h1 = self.history();
            assert(h1.take(h0.len() as int) =~= h0);
            assert forall |x: u64| self.flagged(x)
                implies woken_since_clear(h1, x) by {
                assert(old(self).flagged(x) && x != id);
                assert forall |k: int| h0.len() <= k < h1.len()
                    implies #[trigger] h1[k] != (Event::Cleared { id: x }) by {}
                lemma_woken_since_clear_extend(h0, h1, x);
            }
        }
    }

    /// Record that task `id`'s poll returned ready: the task is done and
    /// its flag, if it woke itself meanwhile, is discarded with it.
    pub(crate) fn note_complete(&mut self, id: u64)
        requires
            old(self).wf(),
        ensures
            final(self).wf(),
            final(self).history() == old(self).history().push(Event::Completed { id }),
            forall |x: u64|
                final(self).flagged(x) == (old(self).flagged(x) && x != id),
            final(self).queued() == old(self).queued(),
            final(self).regs() == old(self).regs(),
            final(self).token_counter() == old(self).token_counter(),
    {
        self.wakes.clear(id);
        proof {
            self.history@ = self.history@.push(Event::Completed { id });
        }
        proof {
            let h0 = old(self).history();
            let h1 = self.history();
            assert(h1.take(h0.len() as int) =~= h0);
            assert forall |x: u64| self.flagged(x)
                implies woken_since_clear(h1, x) by {
                assert(old(self).flagged(x) && x != id);
                assert forall |k: int| h0.len() <= k < h1.len()
                    implies #[trigger] h1[k] != (Event::Cleared { id: x }) by {}
                lemma_woken_since_clear_extend(h0, h1, x);
            }
        }
    }

    /// How many spawned tasks wait for admission.
    pub(crate) fn queued_len(&self) -> (n: usize)
        ensures
            n == self.queued().len(),
    {
        self.new_futures.len()
    }

    /// Take the oldest queued task out for admission to the run list.
    pub(crate) fn pop_queued(&mut self) -> (fut: T)
        requires
            old(self).wf(),
            old(self).queued().len() > 0,
        ensures
            final(self).wf(),
            fut == old(self).queued()[0],
            final(self).queued() == old(self).queued().remove(0),
            final(self).history() == old(self).history(),
            forall |x: u64| final(self).flagged(x) == old(self).flagged(x),
            final(self).regs() == old(self).regs(),
            final(self).token_counter() == old(self).token_counter(),
    {
        let fut = self.new_futures.remove(0);
        proof {
            assert forall |x: u64| self.flagged(x)
                implies woken_since_clear(self.history(), x) by {
                assert(old(self).flagged(x));
            }
        }
        fut
    }
}

} // verus!
