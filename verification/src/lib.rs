//! A single-threaded cooperative task executor with an I/O-readiness reactor.
//!
//! The executor drives suspendable computations ("tasks") to completion.  A
//! task that cannot make progress registers interest in a file descriptor
//! with the reactor and suspends; the reactor later reports the descriptor
//! readable and the task is woken and polled again.  The blocking OS wait
//! itself lives outside this library: a driver asks for the watched
//! descriptors, blocks on them, and hands the readable ones back to
//! [`executor::FdExecutor::step`].
//!
//! The scheduling discipline is stated and proved, not just implemented:
//!
//! - a step polls a live task exactly once when its flag was set or its
//!   descriptor was reported readable; a task whose flag is clear and
//!   for which no wake was logged is not polled at all (the counting
//!   clauses of [`executor::FdExecutor::step`]);
//! - every poll is tied to its result: a task completes in a step
//!   exactly when a poll that satisfies the task type's
//!   [`executor::Pollable::poll_spec`] returned ready, each polled task
//!   received the handle of its own flag, and the spawned siblings of
//!   all polls bound the step's admissions (the
//!   [`executor::poll_trace_ok`] clause of
//!   [`executor::FdExecutor::step`]; [`derivations`] walks a full run
//!   through it);
//! - a task polled twice was woken anew strictly between the two polls
//!   ([`executor::FdExecutor::lemma_repoll_needs_wake`]);
//! - a completed task leaves the run list for good and is never polled
//!   again ([`executor::FdExecutor::lemma_completed_gone`] and
//!   [`executor::FdExecutor::lemma_completed_never_polled`]);
//! - no two live reactor registrations share a token
//!   ([`reactor::Reactor::lemma_tokens_unique`], exported for a running
//!   executor as
//!   [`executor::FdExecutor::lemma_registration_tokens_unique`]), and a
//!   fired
//!   registration is removed one-shot, the latest one for its descriptor
//!   first ([`state::InterfaceState::wake_readable`]);
//! - a task spawned during a sweep joins the run list at the end of the
//!   same step with its flag set, so it is polled in the next sweep
//!   (the admission clauses of [`executor::FdExecutor::step`]), and an
//!   executor starts with exactly the submitted tasks, in submission
//!   order under numbers `0, 1, ..` ([`executor::FdExecutor::new`]);
//! - within one sweep, tasks are polled in list order (the
//!   [`events::polled_pos`] ordering clause of
//!   [`executor::FdExecutor::step`]).
//!
//! These hold for every implementation of [`executor::Pollable`], because
//! the task contract lets a poll only add things: set flags, append
//! registrations, enqueue spawned tasks.

pub mod derivations;
pub mod disk;
pub mod events;
pub mod executor;
pub mod reactor;
pub mod state;
pub mod tasks;
pub mod wake;
