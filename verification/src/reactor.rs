//! The reactor's registration table.
//!
//! A task that cannot make progress asks to be woken when a file
//! descriptor becomes readable.  The reactor records each such request as
//! a [`Registration`] under a token that is unique among the live
//! registrations.  The blocking wait on the descriptors happens outside
//! the library; the reactor's own work is the bookkeeping: allocating
//! tokens, listing the watched descriptors, and firing registrations
//! one-shot when a descriptor is reported readable.  When the same
//! descriptor was registered more than once, the latest registration is
//! the one honoured; the earlier one stays in the table until it is fired
//! by a later readiness report or leaks, which mirrors the accepted
//! ambiguity of the design.

use vstd::prelude::*;
use crate::wake::WakeHandle;

verus! {

/// One watch request: wake the task behind `handle` when `fd` becomes
/// readable.  Live registrations never share a `token`.
#[derive(Clone, Copy)]
pub struct Registration {
    pub token: u64,
    pub fd: i32,
    pub handle: WakeHandle,
}

/// Index of the latest live registration for `fd`, or -1 when `fd` is not
/// watched.
pub open spec fn latest_for(regs: Seq<Registration>, fd: i32) -> int
    decreases regs.len(),
{
    if regs.len() == 0 {
        -1
    } else if regs.last().fd == fd {
        regs.len() - 1
    } else {
        latest_for(regs.drop_last(), fd)
    }
}

/// What `latest_for` returns: -1 exactly when no registration watches
/// `fd`, and otherwise the greatest index that does.
pub proof fn lemma_latest_for(regs: Seq<Registration>, fd: i32)
    ensures
        latest_for(regs, fd) == -1 ==> forall |i: int|
            0 <= i < regs.len() ==> (#[trigger] regs[i]).fd != fd,
        latest_for(regs, fd) != -1 ==> {
            let i = latest_for(regs, fd);
            &&& 0 <= i < regs.len()
            &&& regs[i].fd == fd
            &&& forall |j: int| i < j < regs.len() ==> (#[trigger] regs[j]).fd != fd
        },
    decreases regs.len(),
{
    if regs.len() > 0 {
        lemma_latest_for(regs.drop_last(), fd);
        if regs.last().fd != fd {
            assert forall |i: int| 0 <= i < regs.len() - 1
                implies regs.drop_last()[i] == regs[i] by {}
        }
    }
}

/// What firing a sequence of readiness reports leaves behind: the
/// registrations that remain, and the task numbers woken, in order.  Each
/// readable descriptor fires its latest registration, once; a descriptor
/// with no registration is a no-op.
pub open spec fn fire_result(regs: Seq<Registration>, readable: Seq<i32>)
    -> (Seq<Registration>, Seq<u64>)
    decreases readable.len(),
{
    if readable.len() == 0 {
        (regs, Seq::empty())
    } else {
        let i = latest_for(regs, readable[0]);
        if i >= 0 {
            let rest = fire_result(regs.remove(i), readable.skip(1));
            (rest.0, seq![regs[i].handle.id_spec()] + rest.1)
        } else {
            fire_result(regs, readable.skip(1))
        }
    }
}

/// Some live registration holds this token.
pub open spec fn has_token(regs: Seq<Registration>, token: u64) -> bool {
    exists |i: int| 0 <= i < regs.len() && (#[trigger] regs[i]).token == token
}

/// The table of live registrations and the token counter the next
/// allocation scans from.
pub struct Reactor {
    pub(crate) token_map: Vec<Registration>,
    pub(crate) next_token: u64,
}

impl Reactor {
    /// The live registrations, oldest first.
    pub closed spec fn regs(self) -> Seq<Registration> {
        self.token_map@
    }

    /// The counter the next token allocation scans from.
    pub closed spec fn next_token_spec(self) -> u64 {
        self.next_token
    }

    /// Tokens are unique among live registrations and never exceed the
    /// counter, so a fresh token is always found within one step of it.
    pub closed spec fn wf(self) -> bool {
        &&& forall |i: int, j: int|
            0 <= i < j < self.regs().len()
                ==> (#[trigger] self.regs()[i]).token != (#[trigger] self.regs()[j]).token
        &&& forall |i: int| 0 <= i < self.regs().len()
            ==> (#[trigger] self.regs()[i]).token <= self.next_token
    }

    /// Key uniqueness: whatever register and fire operations built a
    /// well-formed table, no two live registrations share a token.
    pub proof fn lemma_tokens_unique(self, i: int, j: int)
        requires
            self.wf(),
            0 <= i < self.regs().len(),
            0 <= j < self.regs().len(),
            i != j,
        ensures
            self.regs()[i].token != self.regs()[j].token,
    {
    }

    pub fn new() -> (r: Reactor)
        ensures
            r.wf(),
            r.regs() == Seq::<Registration>::empty(),
            r.next_token_spec() == 0,
    {
        let r = Reactor { token_map: Vec::new(), next_token: 0 };
        assert(r.regs() =~= Seq::<Registration>::empty());
        r
    }

    /// The token counter has room for another allocation.
    pub fn can_allocate(&self) -> (b: bool)
        ensures
            b == (self.next_token_spec() < u64::MAX),
    {
        self.next_token < u64::MAX
    }

    pub fn contains_token(&self, token: u64) -> (b: bool)
        ensures
            b == has_token(self.regs(), token),
    {
        let mut i: usize = 0;
        while i < self.token_map.len()
            invariant
                0 <= i <= self.regs().len(),
                forall |k: int| 0 <= k < i ==> (#[trigger] self.regs()[k]).token != token,
            decreases self.regs().len() - i,
        {
            if self.token_map[i].token == token {
                return true;
            }
            i = i + 1;
        }
        false
    }

    /// Record that `handle`'s task wants a wake when `fd` is readable.
    /// The token is allocated by scanning the counter past the values
    /// still in use, so it is fresh among the live registrations.
    pub fn add_waker(&mut self, fd: i32, handle: WakeHandle) -> (token: u64)
        requires
            old(self).wf(),
            old(self).next_token_spec() < u64::MAX,
        ensures
            final(self).wf(),
            final(self).regs() == old(self).regs().push(Registration { token, fd, handle }),
            !has_token(old(self).regs(), token),
            final(self).next_token_spec() == token,
            old(self).next_token_spec() <= token,
    {
        let mut t: u64 = self.next_token;
        while self.contains_token(t)
            invariant
                self == old(self),
                old(self).wf(),
                old(self).next_token_spec() < u64::MAX,
                old(self).next_token_spec() <= t <= old(self).next_token_spec() + 1,
                t == old(self).next_token_spec() + 1 ==> !has_token(self.regs(), t),
            decreases old(self).next_token_spec() + 1 - t,
        {
            assert(t <= self.next_token_spec());
            t = t + 1;
            assert forall |i: int| 0 <= i < self.regs().len()
                implies (#[trigger] self.regs()[i]).token != t by {}
        }
        self.next_token = t;
        self.token_map.push(Registration { token: t, fd, handle });
        t
    }

    /// List the watched descriptors, in registration order, for the
    /// driver to block on.
    pub fn watched_fds(&self) -> (v: Vec<i32>)
        ensures
            v@.len() == self.regs().len(),
            forall |i: int| 0 <= i < v@.len() ==> v@[i] == (#[trigger] self.regs()[i]).fd,
    {
        let mut v: Vec<i32> = Vec::new();
        let mut i: usize = 0;
        while i < self.token_map.len()
            invariant
                0 <= i <= self.regs().len(),
                v@.len() == i,
                forall |k: int| 0 <= k < i ==> v@[k] == (#[trigger] self.regs()[k]).fd,
            decreases self.regs().len() - i,
        {
            v.push(self.token_map[i].fd);
            i = i + 1;
        }
        v
    }

    /// Fire the latest registration for a readable `fd`, removing it:
    /// one-shot semantics.  A descriptor nobody watches is a no-op.
    pub fn fire_fd(&mut self, fd: i32) -> (fired: Option<Registration>)
        requires
            old(self).wf(),
        ensures
            final(self).wf(),
            latest_for(old(self).regs(), fd) < 0 ==> fired is None
                && final(self).regs() == old(self).regs(),
            latest_for(old(self).regs(), fd) >= 0 ==> {
                let i = latest_for(old(self).regs(), fd);
                &&& fired == Some(old(self).regs()[i])
                &&& final(self).regs() == old(self).regs().remove(i)
            },
            final(self).next_token_spec() == old(self).next_token_spec(),
    {
        proof {
            lemma_latest_for(old(self).regs(), fd);
        }
        let mut i: usize = self.token_map.len();
        while i > 0
            invariant
                self == old(self),
                old(self).wf(),
                0 <= i <= self.regs().len(),
                forall |j: int| i <= j < self.regs().len()
                    ==> (#[trigger] self.regs()[j]).fd != fd,
            decreases i,
        {
            i = i - 1;
            if self.token_map[i].fd == fd {
                let fired = self.token_map.remove(i);
                proof {
                    let before = old(self).regs();
                    assert(latest_for(before, fd) == i) by {
                        lemma_latest_for(before, fd);
                        if latest_for(before, fd) < 0 {
                            assert(before[i as int].fd != fd);
                        } else {
                            let l = latest_for(before, fd);
                            if l < i {
                                assert(before[i as int].fd != fd);
                            }
                            if l > i {
                                assert(before[l].fd != fd);
                            }
                        }
                    }
                    assert forall |p: int, q: int| 0 <= p < q < self.regs().len()
                        implies (#[trigger] self.regs()[p]).token
                            != (#[trigger] self.regs()[q]).token by {
                        reg_remove_index(before, i as int, p);
                        reg_remove_index(before, i as int, q);
                    }
                    assert forall |p: int| 0 <= p < self.regs().len()
                        implies (#[trigger] self.regs()[p]).token
                            <= self.next_token_spec() by {
                        reg_remove_index(before, i as int, p);
                    }
                }
                return Some(fired);
            }
        }
        assert(latest_for(old(self).regs(), fd) < 0) by {
            lemma_latest_for(old(self).regs(), fd);
            if latest_for(old(self).regs(), fd) >= 0 {
                let l = latest_for(old(self).regs(), fd);
                assert(old(self).regs()[l].fd != fd);
            }
        }
        None
    }
}

/// An element of a sequence with one position removed is an element of
/// the original, at the same or the next position.
proof fn reg_remove_index(s: Seq<Registration>, i: int, p: int)
    requires
        0 <= i < s.len(),
        0 <= p < s.remove(i).len(),
    ensures
        p < i ==> s.remove(i)[p] == s[p],
        p >= i ==> s.remove(i)[p] == s[p + 1],
{
}

} // verus!
