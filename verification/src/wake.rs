//! Wake handles and the set of readiness flags.
//!
//! Every task owns one readiness flag, identified by the task's number.
//! A [`WakeHandle`] is an unforgeable, copyable reference to one flag:
//! only the executor mints handles, and invoking one (through
//! `InterfaceState::wake`) sets the flag of exactly that task.  The flags
//! themselves live in a [`WakeSet`], the set of task numbers whose flag is
//! currently set.  Waking is idempotent and waking the handle of a task
//! that has already left the run list is a harmless no-op, so a stale
//! handle can never corrupt another task's scheduling.

use vstd::prelude::*;

verus! {

/// A reference to one task's readiness flag.  Copying or cloning a handle
/// yields another handle for the same flag.
#[derive(Clone, Copy, PartialEq, Eq, Structural)]
pub struct WakeHandle {
    id: u64,
}

impl WakeHandle {
    /// The number of the task whose flag this handle sets.
    pub closed spec fn id_spec(self) -> u64 {
        self.id
    }

    /// Only the executor mints handles; tasks receive theirs when polled.
    pub(crate) fn mint(id: u64) -> (h: WakeHandle)
        ensures
            h.id_spec() == id,
    {
        WakeHandle { id }
    }

    /// The number of the task whose flag this handle sets.
    pub fn id(&self) -> (i: u64)
        ensures
            i == self.id_spec(),
    {
        self.id
    }
}

/// The set of task numbers whose readiness flag is set.
pub(crate) struct WakeSet {
    pub(crate) woken: Vec<u64>,
}

impl WakeSet {
    /// The flag of task `id` is set.
    pub(crate) open spec fn contains(self, id: u64) -> bool {
        self.woken@.contains(id)
    }

    /// No task number appears twice.
    pub(crate) open spec fn wf(self) -> bool {
        forall |i: int, j: int|
            0 <= i < j < self.woken@.len() ==> self.woken@[i] != self.woken@[j]
    }

    pub(crate) fn new() -> (s: WakeSet)
        ensures
            s.wf(),
            forall |id: u64| !s.contains(id),
    {
        let s = WakeSet { woken: Vec::new() };
        assert forall |id: u64| !s.contains(id) by {
            assert(s.woken@.len() == 0);
        }
        s
    }

    pub(crate) fn is_set(&self, id: u64) -> (b: bool)
        ensures
            b == self.contains(id),
    {
        let mut i: usize = 0;
        while i < self.woken.len()
            invariant
                0 <= i <= self.woken@.len(),
                forall |k: int| 0 <= k < i ==> self.woken@[k] != id,
            decreases self.woken@.len() - i,
        {
            if self.woken[i] == id {
                return true;
            }
            i = i + 1;
        }
        false
    }

    /// Set the flag of task `id`; setting an already-set flag changes
    /// nothing.
    pub(crate) fn set(&mut self, id: u64)
        requires
            old(self).wf(),
        ensures
            final(self).wf(),
            forall |x: u64| final(self).contains(x) == (old(self).contains(x) || x == id),
    {
        if !self.is_set(id) {
            let ghost before = self.woken@;
            self.woken.push(id);
            assert forall |x: u64| self.contains(x) == (before.contains(x) || x == id) by {
                assert(self.woken@ == before.push(id));
                if x == id {
                    assert(self.woken@[before.len() as int] == x);
                    assert(self.woken@.contains(x));
                } else if before.contains(x) {
                    let k = choose |k: int| 0 <= k < before.len() && before[k] == x;
                    assert(self.woken@[k] == x);
                    assert(self.woken@.contains(x));
                } else {
                    if self.woken@.contains(x) {
                        let k = choose |k: int|
                            0 <= k < self.woken@.len() && self.woken@[k] == x;
                        assert(k < before.len());
                        assert(before[k] == x);
                        assert(false);
                    }
                }
            }
        }
    }

    /// Clear the flag of task `id`.
    pub(crate) fn clear(&mut self, id: u64)
        requires
            old(self).wf(),
        ensures
            final(self).wf(),
            forall |x: u64| final(self).contains(x) == (old(self).contains(x) && x != id),
    {
        let ghost before = self.woken@;
        let mut i: usize = 0;
        while i < self.woken.len()
            invariant
                0 <= i <= self.woken@.len(),
                self.woken@ == before,
                before == old(self).woken@,
                old(self).wf(),
                forall |p: int, q: int| 0 <= p < q < before.len() ==> before[p] != before[q],
                forall |k: int| 0 <= k < i ==> self.woken@[k] != id,
            decreases self.woken@.len() - i,
        {
            if self.woken[i] == id {
                self.woken.remove(i);
                assert forall |x: u64| self.contains(x) == (before.contains(x) && x != id) by {
                    lemma_remove_contains(before, self.woken@, i as int, x);
                }
                return;
            }
            i = i + 1;
        }
        assert forall |x: u64| self.contains(x) == (before.contains(x) && x != id) by {
            if before.contains(x) && x == id {
                let k = choose |k: int| 0 <= k < before.len() && before[k] == x;
            }
        }
    }
}

/// Membership in a duplicate-free sequence after removing position `i`.
proof fn lemma_remove_contains(before: Seq<u64>, after: Seq<u64>, i: int, x: u64)
    requires
        0 <= i < before.len(),
        after == before.remove(i),
        forall |p: int, q: int| 0 <= p < q < before.len() ==> before[p] != before[q],
    ensures
        after.contains(x) == (before.contains(x) && x != before[i]),
        forall |p: int, q: int| 0 <= p < q < after.len() ==> after[p] != after[q],
{
    assert forall |p: int, q: int| 0 <= p < q < after.len() implies after[p] != after[q] by {
        if p < i {
            assert(after[p] == before[p]);
        } else {
            assert(after[p] == before[p + 1]);
        }
        if q < i {
            assert(after[q] == before[q]);
        } else {
            assert(after[q] == before[q + 1]);
        }
    }
    if after.contains(x) {
        let k = choose |k: int| 0 <= k < after.len() && after[k] == x;
        if k < i {
            assert(before[k] == x);
            assert(x != before[i]);
        } else {
            assert(before[k + 1] == x);
            assert(x != before[i]);
        }
        assert(before.contains(x));
    } else {
        if before.contains(x) && x != before[i] {
            let k = choose |k: int| 0 <= k < before.len() && before[k] == x;
            assert(k != i);
            if k < i {
                assert(after[k] == x);
            } else {
                assert(after[k - 1] == x);
            }
            assert(false);
        }
    }
}

} // verus!
