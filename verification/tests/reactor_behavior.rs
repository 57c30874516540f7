//! Reactor-facing behaviour: one-shot firing, unknown descriptors,
//! double registration, and wake handles passed between tasks.

use std::cell::RefCell;
use std::rc::Rc;

use fd_executor::executor::{FdExecutor, Pollable, PollStatus};
use fd_executor::state::InterfaceState;
use fd_executor::tasks::DemoTask;
use fd_executor::wake::WakeHandle;

#[test]
fn readiness_of_an_unwatched_descriptor_is_a_no_op() {
    let mut ex = FdExecutor::new(vec![DemoTask::WaitFd { fd: 9, registered: false }]);
    assert!(!ex.step(&vec![]));
    // Descriptor 42 is watched by nobody: nothing fires, nothing is
    // polled, the task would have completed had it been polled.
    assert!(!ex.step(&vec![42]));
    assert_eq!(ex.watched_fds(), vec![9]);
    assert!(ex.step(&vec![9]));
}

#[test]
fn double_registration_honours_the_latest() {
    // Two registrations for the same descriptor: the readiness report
    // fires the later one; the earlier stays allocated until a further
    // report falsely fires it.
    let mut ex = FdExecutor::new(vec![
        DemoTask::WaitFd { fd: 4, registered: false },
        DemoTask::WaitFd { fd: 4, registered: false },
    ]);
    assert!(!ex.step(&vec![]));
    assert_eq!(ex.watched_fds(), vec![4, 4]);

    assert!(!ex.step(&vec![4]));
    assert_eq!(ex.live_count(), 1);
    assert_eq!(ex.watched_fds(), vec![4]);

    assert!(ex.step(&vec![4]));
    assert_eq!(ex.watched_fds().len(), 0);
}

/// Counts its polls in a shared cell; registers `fd` on the first poll
/// and completes on the second.
struct CountingWaiter {
    fd: i32,
    registered: bool,
    polls: Rc<RefCell<u64>>,
}

impl Pollable for CountingWaiter {
    fn poll(&mut self, state: &mut InterfaceState<Self>, me: WakeHandle) -> PollStatus {
        *self.polls.borrow_mut() += 1;
        if self.registered {
            PollStatus::Ready
        } else {
            state.add_waker(self.fd, me);
            self.registered = true;
            PollStatus::Pending
        }
    }
}

#[test]
fn one_readiness_event_means_one_poll() {
    let polls = Rc::new(RefCell::new(0u64));
    let mut ex = FdExecutor::new(vec![CountingWaiter {
        fd: 3,
        registered: false,
        polls: polls.clone(),
    }]);
    assert!(!ex.step(&vec![]));
    assert_eq!(*polls.borrow(), 1);

    // The descriptor is reported readable twice in one wait: the
    // registration is one-shot, so the task is polled exactly once more.
    assert!(ex.step(&vec![3, 3]));
    assert_eq!(*polls.borrow(), 2);
}

/// One task parks its wake handle in a shared cell and waits; its peer
/// picks the handle up and wakes it.
enum Peer {
    Sleeper { cell: Rc<RefCell<Option<WakeHandle>>>, polls: Rc<RefCell<u64>> },
    Waker { cell: Rc<RefCell<Option<WakeHandle>>> },
}

impl Pollable for Peer {
    fn poll(&mut self, state: &mut InterfaceState<Self>, me: WakeHandle) -> PollStatus {
        match self {
            Peer::Sleeper { cell, polls } => {
                *polls.borrow_mut() += 1;
                if *polls.borrow() == 1 {
                    *cell.borrow_mut() = Some(me);
                    PollStatus::Pending
                } else {
                    PollStatus::Ready
                }
            }
            Peer::Waker { cell } => {
                let handle = cell.borrow_mut().take();
                match handle {
                    Some(h) => {
                        state.wake(h);
                        PollStatus::Ready
                    }
                    None => PollStatus::Ready,
                }
            }
        }
    }
}

#[test]
fn a_peer_can_wake_a_sleeping_task_by_handle() {
    let cell = Rc::new(RefCell::new(None));
    let polls = Rc::new(RefCell::new(0u64));
    let mut ex = FdExecutor::new(vec![
        Peer::Sleeper { cell: cell.clone(), polls: polls.clone() },
        Peer::Waker { cell: cell.clone() },
    ]);
    // First sweep: the sleeper parks its handle and stays; the waker,
    // later in the list, wakes it and completes.  The wake arrives after
    // the sleeper's visit, so it acts on the next sweep.
    assert!(!ex.step(&vec![]));
    assert_eq!(ex.live_count(), 1);
    assert_eq!(*polls.borrow(), 1);

    assert!(ex.step(&vec![]));
    assert_eq!(*polls.borrow(), 2);
}

/// Wakes itself twice in its first poll; waking is idempotent, so it is
/// polled exactly once more.
struct DoubleWaker {
    polls: Rc<RefCell<u64>>,
}

impl Pollable for DoubleWaker {
    fn poll(&mut self, state: &mut InterfaceState<Self>, me: WakeHandle) -> PollStatus {
        *self.polls.borrow_mut() += 1;
        if *self.polls.borrow() == 1 {
            state.wake(me);
            state.wake(me);
            PollStatus::Pending
        } else {
            PollStatus::Ready
        }
    }
}

#[test]
fn waking_twice_means_one_more_poll() {
    let polls = Rc::new(RefCell::new(0u64));
    let mut ex = FdExecutor::new(vec![DoubleWaker { polls: polls.clone() }]);
    assert!(!ex.step(&vec![]));
    assert_eq!(*polls.borrow(), 1);
    assert!(ex.step(&vec![]));
    assert_eq!(*polls.borrow(), 2);
}

/// One task completes at once, leaving its handle behind; the other
/// wakes that handle after its owner is gone.
enum Stale {
    Dier { cell: Rc<RefCell<Option<WakeHandle>>> },
    Kicker { cell: Rc<RefCell<Option<WakeHandle>>>, kicked: bool },
}

impl Pollable for Stale {
    fn poll(&mut self, state: &mut InterfaceState<Self>, me: WakeHandle) -> PollStatus {
        match self {
            Stale::Dier { cell } => {
                *cell.borrow_mut() = Some(me);
                PollStatus::Ready
            }
            Stale::Kicker { cell, kicked } => {
                if *kicked {
                    PollStatus::Ready
                } else {
                    *kicked = true;
                    let handle = cell.borrow_mut().take();
                    if let Some(h) = handle {
                        // The handle's task already left the run list:
                        // this sets a flag nobody reads.
                        state.wake(h);
                    }
                    state.wake(me);
                    PollStatus::Pending
                }
            }
        }
    }
}

#[test]
fn waking_a_completed_task_is_harmless() {
    let cell = Rc::new(RefCell::new(None));
    let mut ex = FdExecutor::new(vec![
        Stale::Dier { cell: cell.clone() },
        Stale::Kicker { cell: cell.clone(), kicked: false },
    ]);
    assert!(!ex.step(&vec![]));
    assert_eq!(ex.live_count(), 1);
    assert!(ex.step(&vec![]));
    assert_eq!(ex.live_count(), 0);
}

#[test]
fn an_unwoken_task_is_never_polled() {
    let cell = Rc::new(RefCell::new(None));
    let polls = Rc::new(RefCell::new(0u64));
    let mut ex = FdExecutor::new(vec![Peer::Sleeper {
        cell: cell.clone(),
        polls: polls.clone(),
    }]);
    assert!(!ex.step(&vec![]));
    for _ in 0..5 {
        assert!(!ex.step(&vec![]));
    }
    // Nobody woke the sleeper: one poll, and only one.
    assert_eq!(*polls.borrow(), 1);
}
