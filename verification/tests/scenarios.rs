//! End-to-end scheduling scenarios, driven the way the run loop drives
//! the executor: sweep, then hand in whatever "became readable".

use fd_executor::executor::FdExecutor;
use fd_executor::tasks::DemoTask;

#[test]
fn immediate_task_completes_without_any_wait() {
    // One task that is ready on its first poll: the first step already
    // empties the run list, so a driver would never reach its wait.
    let mut ex = FdExecutor::new(vec![DemoTask::Immediate]);
    assert_eq!(ex.live_count(), 1);
    assert!(!ex.is_done());
    let done = ex.step(&vec![]);
    assert!(done);
    assert!(ex.is_done());
    assert_eq!(ex.live_count(), 0);
    assert_eq!(ex.watched_fds().len(), 0);
}

#[test]
fn pending_task_waits_for_its_descriptor() {
    // The task registers descriptor 5 and is pending; only the readiness
    // of 5 completes it.
    let mut ex = FdExecutor::new(vec![DemoTask::WaitFd { fd: 5, registered: false }]);
    let done = ex.step(&vec![]);
    assert!(!done);
    assert_eq!(ex.watched_fds(), vec![5]);

    // No readiness, no poll: were the task polled again while
    // registered, it would complete; it must not.
    let done = ex.step(&vec![]);
    assert!(!done);
    let done = ex.step(&vec![]);
    assert!(!done);
    assert_eq!(ex.watched_fds(), vec![5]);

    // One byte arrives: the registration fires one-shot, the task is
    // polled once more and completes.
    let done = ex.step(&vec![5]);
    assert!(done);
    assert_eq!(ex.watched_fds().len(), 0);
}

#[test]
fn ready_task_leaves_while_waiter_stays() {
    // Task 1 is immediately ready, task 2 registers and waits.  After
    // the first sweep only task 2 remains; it completes only once its
    // descriptor is ready, and the run ends after both are done.
    let mut ex = FdExecutor::new(vec![
        DemoTask::Immediate,
        DemoTask::WaitFd { fd: 7, registered: false },
    ]);
    let done = ex.step(&vec![]);
    assert!(!done);
    assert_eq!(ex.live_count(), 1);
    assert_eq!(ex.watched_fds(), vec![7]);

    let done = ex.step(&vec![7]);
    assert!(done);
    assert_eq!(ex.live_count(), 0);
}

#[test]
fn spawned_task_is_admitted_on_the_next_sweep() {
    // A running task enqueues a sibling mid-run: the sibling joins the
    // run list at the end of that very step and is polled to completion
    // in the next sweep.
    let mut ex = FdExecutor::new(vec![DemoTask::SpawnOne]);
    let done = ex.step(&vec![]);
    assert!(!done);
    assert_eq!(ex.live_count(), 1);

    let done = ex.step(&vec![]);
    assert!(done);
}

#[test]
fn self_waking_task_is_polled_once_per_sweep() {
    // A task that wakes itself during its own poll is re-polled on the
    // next sweep, not re-entrantly within the current one: three
    // self-wakes mean exactly four steps.
    let mut ex = FdExecutor::new(vec![DemoTask::CountDown { remaining: 3 }]);
    assert!(!ex.step(&vec![]));
    assert!(!ex.step(&vec![]));
    assert!(!ex.step(&vec![]));
    assert!(ex.step(&vec![]));
}

#[test]
fn empty_executor_is_done_at_once() {
    let mut ex = FdExecutor::new(Vec::<DemoTask>::new());
    assert!(ex.is_done());
    assert!(ex.step(&vec![]));
}

#[test]
fn derived_immediate_run_is_empty() {
    let ex = fd_executor::derivations::immediate_task_ends_run_in_one_step();
    assert_eq!(ex.live_count(), 0);
    assert!(ex.is_done());
}

#[test]
fn derived_waiter_outlives_ready_sibling() {
    let ex = fd_executor::derivations::ready_task_leaves_while_waiter_stays();
    assert_eq!(ex.live_count(), 1);
    assert!(!ex.is_done());
}

#[test]
fn run_test_exercises_the_disk_traits() {
    fd_executor::disk::run_test();
}

#[test]
fn digit_run_of_zero_is_empty() {
    let run = fd_executor::tasks::digit_run(b'0');
    assert_eq!(run, Some(vec![]));
}

#[test]
fn digit_run_of_seven_counts_up_to_six() {
    let run = fd_executor::tasks::digit_run(b'7');
    assert_eq!(run, Some(vec![0, 1, 2, 3, 4, 5, 6]));
}

#[test]
fn digit_run_of_a_letter_is_nothing() {
    assert_eq!(fd_executor::tasks::digit_run(b'a'), None);
    assert_eq!(fd_executor::tasks::digit_run(b'\n'), None);
    assert_eq!(fd_executor::tasks::digit_run(b'0' - 1), None);
    assert_eq!(fd_executor::tasks::digit_run(b'9' + 1), None);
}
