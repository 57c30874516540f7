//! A ghost log of scheduling events, and the laws that every run obeys.
//!
//! The executor records what happens to each task's readiness flag in a
//! ghost sequence of [`Event`]s: the flag is set (`Woken`), the flag is
//! cleared just before a poll (`Cleared`), the task is polled (`Polled`),
//! and the task finishes (`Completed`).  [`history_wf`] is the shape every
//! log produced by the executor has; the lemmas at the bottom turn that
//! shape into the scheduling guarantees: a task is re-polled only after a
//! fresh wake, and a completed task is never polled again.

use vstd::prelude::*;

verus! {

/// One entry in the executor's scheduling log.  Each entry names the task
/// it concerns by the task's identifier.
pub enum Event {
    /// The task's readiness flag was set.
    Woken { id: u64 },
    /// The executor cleared the task's readiness flag, about to poll it.
    Cleared { id: u64 },
    /// The executor polled the task.
    Polled { id: u64 },
    /// The task's poll returned ready; the task left the run list for good.
    Completed { id: u64 },
}

/// The flag of task `id` has been set since it was last cleared: some
/// `Woken` entry is not followed by a `Cleared` entry for the same task.
#[verifier::opaque]
pub open spec fn woken_since_clear(h: Seq<Event>, id: u64) -> bool {
    exists |w: int|
        0 <= w < h.len() && #[trigger] h[w] == (Event::Woken { id })
            && (forall |c: int| w < c < h.len() ==> #[trigger] h[c] != (Event::Cleared { id }))
}

/// Every `Cleared` entry is justified: the flag it clears had been set
/// after the task's previous clear.
#[verifier::opaque]
pub open spec fn cleared_justified(h: Seq<Event>) -> bool {
    forall |j: int| 0 <= j < h.len() && #[trigger] h[j] is Cleared
        ==> woken_since_clear(h.take(j), h[j]->Cleared_id)
}

/// Every poll directly follows the clearing of the polled task's flag.
#[verifier::opaque]
pub open spec fn polled_after_clear(h: Seq<Event>) -> bool {
    forall |j: int| 0 <= j < h.len() && #[trigger] h[j] is Polled
        ==> j >= 1 && h[j - 1] == (Event::Cleared { id: h[j]->Polled_id })
}

/// A completed task is never polled afterwards.
#[verifier::opaque]
pub open spec fn completed_terminal(h: Seq<Event>) -> bool {
    forall |i: int, j: int|
        0 <= i < j < h.len() && #[trigger] h[i] is Completed && #[trigger] h[j] is Polled
            ==> h[i]->Completed_id != h[j]->Polled_id
}

/// The shape of every log the executor produces.
pub open spec fn history_wf(h: Seq<Event>) -> bool {
    cleared_justified(h) && polled_after_clear(h) && completed_terminal(h)
}

/// Task `id` has completed somewhere in `h`.
pub open spec fn has_completed(h: Seq<Event>, id: u64) -> bool {
    exists |i: int| 0 <= i < h.len() && #[trigger] h[i] == (Event::Completed { id })
}

/// Task `id` was woken somewhere in `h`.
pub open spec fn has_woken(h: Seq<Event>, id: u64) -> bool {
    exists |i: int| 0 <= i < h.len() && #[trigger] h[i] == (Event::Woken { id })
}

/// A wake somewhere in a concatenation is a wake in one part.
pub proof fn lemma_has_woken_split(a: Seq<Event>, b: Seq<Event>, id: u64)
    ensures
        has_woken(a + b, id) == (has_woken(a, id) || has_woken(b, id)),
{
    if has_woken(a, id) {
        let i = choose |i: int| 0 <= i < a.len() && #[trigger] a[i] == (Event::Woken { id });
        assert((a + b)[i] == a[i]);
    }
    if has_woken(b, id) {
        let i = choose |i: int| 0 <= i < b.len() && #[trigger] b[i] == (Event::Woken { id });
        assert((a + b)[a.len() + i] == b[i]);
    }
    if has_woken(a + b, id) {
        let i = choose |i: int|
            0 <= i < (a + b).len() && #[trigger] (a + b)[i] == (Event::Woken { id });
        if i < a.len() {
            assert(a[i] == (Event::Woken { id }));
        } else {
            assert(b[i - a.len()] == (Event::Woken { id }));
        }
    }
}

/// How often task `id` was polled in `h`.
pub open spec fn count_polled(h: Seq<Event>, id: u64) -> nat
    decreases h.len(),
{
    if h.len() == 0 {
        0
    } else {
        count_polled(h.drop_last(), id)
            + if h.last() == (Event::Polled { id }) { 1nat } else { 0nat }
    }
}

/// The position of the poll of task `id` in `h`, or -1 when `h` holds
/// none.  In a log segment that polls each task at most once this is the
/// position; in general it is the first.
pub open spec fn polled_pos(h: Seq<Event>, id: u64) -> int
    decreases h.len(),
{
    if h.len() == 0 {
        -1
    } else if h[0] == (Event::Polled { id }) {
        0
    } else if polled_pos(h.skip(1), id) == -1 {
        -1
    } else {
        polled_pos(h.skip(1), id) + 1
    }
}

/// What `polled_pos` returns: -1 exactly when `h` holds no poll of `id`,
/// and otherwise a position that does poll `id`.
pub proof fn lemma_polled_pos(h: Seq<Event>, id: u64)
    ensures
        polled_pos(h, id) == -1 ==> forall |k: int|
            0 <= k < h.len() ==> #[trigger] h[k] != (Event::Polled { id }),
        polled_pos(h, id) != -1 ==> 0 <= polled_pos(h, id) < h.len()
            && h[polled_pos(h, id)] == (Event::Polled { id }),
    decreases h.len(),
{
    if h.len() > 0 {
        lemma_polled_pos(h.skip(1), id);
        if polled_pos(h, id) == -1 {
            assert forall |k: int| 0 <= k < h.len()
                implies #[trigger] h[k] != (Event::Polled { id }) by {
                if k > 0 {
                    assert(h.skip(1)[k - 1] == h[k]);
                }
            }
        } else if polled_pos(h, id) > 0 {
            assert(h.skip(1)[polled_pos(h, id) - 1] == h[polled_pos(h, id)]);
        }
    }
}

/// Where the poll of `id` sits in a concatenation: in the first part if
/// that part polls `id`, else past it in the second.
pub proof fn lemma_polled_pos_add(a: Seq<Event>, b: Seq<Event>, id: u64)
    ensures
        polled_pos(a + b, id) == if polled_pos(a, id) != -1 {
            polled_pos(a, id)
        } else if polled_pos(b, id) != -1 {
            a.len() + polled_pos(b, id)
        } else {
            -1int
        },
    decreases a.len(),
{
    if a.len() == 0 {
        assert(a + b =~= b);
        assert(polled_pos(a, id) == -1);
        assert(polled_pos(a + b, id) == polled_pos(b, id));
    } else {
        lemma_polled_pos_add(a.skip(1), b, id);
        let t = (a + b).skip(1);
        assert(t =~= a.skip(1) + b);
        assert((a + b)[0] == a[0]);
        if a[0] == (Event::Polled { id }) {
            assert(polled_pos(a + b, id) == 0);
            assert(polled_pos(a, id) == 0);
        } else {
            if polled_pos(a.skip(1), id) != -1 {
                lemma_polled_pos(a.skip(1), id);
                assert(polled_pos(t, id) == polled_pos(a.skip(1), id));
                assert(polled_pos(a + b, id) == polled_pos(t, id) + 1);
                assert(polled_pos(a, id) == polled_pos(a.skip(1), id) + 1);
            } else if polled_pos(b, id) != -1 {
                lemma_polled_pos(b, id);
                assert(polled_pos(a, id) == -1);
                assert(polled_pos(t, id) == a.skip(1).len() + polled_pos(b, id));
                assert(polled_pos(t, id) >= 0);
                assert(polled_pos(a + b, id) == polled_pos(t, id) + 1);
            } else {
                assert(polled_pos(a, id) == -1);
                assert(polled_pos(t, id) == -1);
                assert(polled_pos(a + b, id) == -1);
            }
        }
    }
}

/// A log segment with no poll entry at all polls nobody.
pub proof fn lemma_polled_pos_no_poll(h: Seq<Event>, id: u64)
    requires
        forall |k: int| 0 <= k < h.len() ==> !((#[trigger] h[k]) is Polled),
    ensures
        polled_pos(h, id) == -1,
    decreases h.len(),
{
    if h.len() > 0 {
        assert forall |k: int| 0 <= k < h.skip(1).len()
            implies !((#[trigger] h.skip(1)[k]) is Polled) by {
            assert(h.skip(1)[k] == h[k + 1]);
        }
        lemma_polled_pos_no_poll(h.skip(1), id);
        assert(!(h[0] is Polled));
    }
}

/// The clear-and-poll pair polls its task at position one, nobody else.
pub proof fn lemma_polled_pos_pair(id: u64, x: u64)
    ensures
        polled_pos(seq![Event::Cleared { id }, Event::Polled { id }], x)
            == if x == id { 1int } else { -1int },
{
    let s = seq![Event::Cleared { id }, Event::Polled { id }];
    let s1 = s.skip(1);
    assert(s1.len() == 1);
    assert(s1[0] == (Event::Polled { id }));
    assert(s1.skip(1) =~= Seq::<Event>::empty());
    assert(s[0] != (Event::Polled { id: x }));
    if x == id {
        assert(polled_pos(s1, x) == 0);
        assert(polled_pos(s, x) == 1);
    } else {
        assert(s1[0] != (Event::Polled { id: x }));
        assert(polled_pos(Seq::<Event>::empty(), x) == -1);
        assert(polled_pos(s1, x) == -1);
        assert(polled_pos(s, x) == -1);
    }
}

/// An empty log is well formed.
pub proof fn lemma_history_wf_empty()
    ensures
        history_wf(Seq::<Event>::empty()),
{
    reveal(cleared_justified);
    reveal(polled_after_clear);
    reveal(completed_terminal);
}

/// Counting polls distributes over concatenation.
pub proof fn lemma_count_polled_add(a: Seq<Event>, b: Seq<Event>, id: u64)
    ensures
        count_polled(a + b, id) == count_polled(a, id) + count_polled(b, id),
    decreases b.len(),
{
    if b.len() == 0 {
        assert(a + b =~= a);
    } else {
        lemma_count_polled_add(a, b.drop_last(), id);
        assert((a + b).drop_last() =~= a + b.drop_last());
    }
}

/// A log segment that holds no poll of `id` counts zero polls of `id`.
pub proof fn lemma_count_polled_zero(h: Seq<Event>, id: u64)
    requires
        forall |k: int| 0 <= k < h.len() ==> #[trigger] h[k] != (Event::Polled { id }),
    ensures
        count_polled(h, id) == 0,
    decreases h.len(),
{
    if h.len() > 0 {
        lemma_count_polled_zero(h.drop_last(), id);
    }
}

/// A log segment whose entries are all `Woken` counts zero polls of anyone.
pub proof fn lemma_count_polled_all_woken(h: Seq<Event>, id: u64)
    requires
        forall |k: int| 0 <= k < h.len() ==> #[trigger] h[k] is Woken,
    ensures
        count_polled(h, id) == 0,
{
    lemma_count_polled_zero(h, id);
}

/// Completion somewhere in a concatenation is completion in one part.
pub proof fn lemma_has_completed_split(a: Seq<Event>, b: Seq<Event>, id: u64)
    ensures
        has_completed(a + b, id) == (has_completed(a, id) || has_completed(b, id)),
{
    if has_completed(a, id) {
        let i = choose |i: int| 0 <= i < a.len() && #[trigger] a[i] == (Event::Completed { id });
        assert((a + b)[i] == a[i]);
    }
    if has_completed(b, id) {
        let i = choose |i: int| 0 <= i < b.len() && #[trigger] b[i] == (Event::Completed { id });
        assert((a + b)[a.len() + i] == b[i]);
    }
    if has_completed(a + b, id) {
        let i = choose |i: int|
            0 <= i < (a + b).len() && #[trigger] (a + b)[i] == (Event::Completed { id });
        if i < a.len() {
            assert(a[i] == (Event::Completed { id }));
        } else {
            assert(b[i - a.len()] == (Event::Completed { id }));
        }
    }
}

/// A log segment of `Woken` entries completes nobody.
pub proof fn lemma_no_completed_all_woken(h: Seq<Event>, id: u64)
    requires
        forall |k: int| 0 <= k < h.len() ==> #[trigger] h[k] is Woken,
    ensures
        !has_completed(h, id),
{
    if has_completed(h, id) {
        let i = choose |i: int| 0 <= i < h.len() && #[trigger] h[i] == (Event::Completed { id });
        assert(h[i] is Woken);
        assert(false);
    }
}

/// The clear-and-poll pair counts one poll for its task, none for others.
pub proof fn lemma_count_polled_pair(id: u64, x: u64)
    ensures
        count_polled(seq![Event::Cleared { id }, Event::Polled { id }], x)
            == if x == id { 1nat } else { 0nat },
{
    let s = seq![Event::Cleared { id }, Event::Polled { id }];
    let s1 = seq![Event::Cleared { id }];
    assert(s.drop_last() =~= s1);
    assert(s1.drop_last() =~= Seq::<Event>::empty());
    assert(count_polled(Seq::<Event>::empty(), x) == 0);
    assert(count_polled(s1, x) == 0);
    assert(s.last() == (Event::Polled { id }));
}

/// A lone completion entry counts no poll.
pub proof fn lemma_count_polled_completed(id: u64, x: u64)
    ensures
        count_polled(seq![Event::Completed { id }], x) == 0,
{
    let s = seq![Event::Completed { id }];
    assert(s.drop_last() =~= Seq::<Event>::empty());
    assert(count_polled(Seq::<Event>::empty(), x) == 0);
}

/// The clear-and-poll pair completes nobody.
pub proof fn lemma_no_completed_pair(id: u64, x: u64)
    ensures
        !has_completed(seq![Event::Cleared { id }, Event::Polled { id }], x),
{
    let s = seq![Event::Cleared { id }, Event::Polled { id }];
    if has_completed(s, x) {
        let i = choose |i: int| 0 <= i < s.len() && #[trigger] s[i] == (Event::Completed { id: x });
        assert(false);
    }
}

/// Extending a log by entries that are all `Woken` keeps it well formed.
pub proof fn lemma_history_wf_extend_woken(h: Seq<Event>, g: Seq<Event>)
    requires
        history_wf(h),
        h.is_prefix_of(g),
        forall |k: int| h.len() <= k < g.len() ==> #[trigger] g[k] is Woken,
    ensures
        history_wf(g),
{
    reveal(cleared_justified);
    reveal(polled_after_clear);
    reveal(completed_terminal);

    assert forall |j: int| 0 <= j < g.len() && #[trigger] g[j] is Cleared
        implies woken_since_clear(g.take(j), g[j]->Cleared_id) by {
        assert(g[j] == h[j]);
        assert(g.take(j) =~= h.take(j));
    }
    assert forall |j: int| 0 <= j < g.len() && #[trigger] g[j] is Polled
        implies j >= 1 && g[j - 1] == (Event::Cleared { id: g[j]->Polled_id }) by {
        assert(g[j] == h[j]);
        assert(g[j - 1] == h[j - 1]);
    }
    assert forall |i: int, j: int|
        0 <= i < j < g.len() && #[trigger] g[i] is Completed && #[trigger] g[j] is Polled
        implies g[i]->Completed_id != g[j]->Polled_id by {
        assert(g[j] == h[j]);
        assert(g[i] == h[i]);
    }
}

/// Appending a `Woken` entry keeps the log well formed.
pub proof fn lemma_history_wf_push_woken(h: Seq<Event>, id: u64)
    requires
        history_wf(h),
    ensures
        history_wf(h.push(Event::Woken { id })),
{
    let g = h.push(Event::Woken { id });
    assert(h.is_prefix_of(g)) by {
        assert(g.take(h.len() as int) =~= h);
    }
    lemma_history_wf_extend_woken(h, g);
}

/// A set flag may be cleared and the cleared task polled at once:
/// appending `Cleared` then `Polled` for a task whose flag is justified
/// and that has not completed keeps the log well formed.
pub proof fn lemma_history_wf_push_poll(h: Seq<Event>, id: u64)
    requires
        history_wf(h),
        woken_since_clear(h, id),
        !has_completed(h, id),
    ensures
        history_wf(h.push(Event::Cleared { id }).push(Event::Polled { id })),
{
    reveal(cleared_justified);
    reveal(polled_after_clear);
    reveal(completed_terminal);
    let g1 = h.push(Event::Cleared { id });
    let g = g1.push(Event::Polled { id });
    assert(g1.take(h.len() as int) =~= h);
    assert forall |j: int| 0 <= j < g.len() && #[trigger] g[j] is Cleared
        implies woken_since_clear(g.take(j), g[j]->Cleared_id) by {
        if j < h.len() {
            assert(g[j] == h[j]);
            assert(g.take(j) =~= h.take(j));
        } else {
            assert(j == h.len());
            assert(g.take(j) =~= h);
        }
    }
    assert forall |j: int| 0 <= j < g.len() && #[trigger] g[j] is Polled
        implies j >= 1 && g[j - 1] == (Event::Cleared { id: g[j]->Polled_id }) by {
        if j < h.len() {
            assert(g[j] == h[j]);
            assert(g[j - 1] == h[j - 1]);
        }
    }
    assert forall |i: int, j: int|
        0 <= i < j < g.len() && #[trigger] g[i] is Completed && #[trigger] g[j] is Polled
        implies g[i]->Completed_id != g[j]->Polled_id by {
        if j < h.len() {
            assert(g[i] == h[i]);
            assert(g[j] == h[j]);
        } else {
            assert(i < h.len());
            assert(g[i] == h[i]);
            if g[i]->Completed_id == id {
                assert(h[i] == (Event::Completed { id }));
                assert(has_completed(h, id));
            }
        }
    }
}

/// Appending a `Completed` entry keeps the log well formed.
pub proof fn lemma_history_wf_push_completed(h: Seq<Event>, id: u64)
    requires
        history_wf(h),
    ensures
        history_wf(h.push(Event::Completed { id })),
{
    reveal(cleared_justified);
    reveal(polled_after_clear);
    reveal(completed_terminal);
    let g = h.push(Event::Completed { id });
    assert forall |j: int| 0 <= j < g.len() && #[trigger] g[j] is Cleared
        implies woken_since_clear(g.take(j), g[j]->Cleared_id) by {
        assert(g[j] == h[j]);
        assert(g.take(j) =~= h.take(j));
    }
    assert forall |j: int| 0 <= j < g.len() && #[trigger] g[j] is Polled
        implies j >= 1 && g[j - 1] == (Event::Cleared { id: g[j]->Polled_id }) by {
        assert(g[j] == h[j]);
        assert(g[j - 1] == h[j - 1]);
    }
    assert forall |i: int, j: int|
        0 <= i < j < g.len() && #[trigger] g[i] is Completed && #[trigger] g[j] is Polled
        implies g[i]->Completed_id != g[j]->Polled_id by {
        assert(g[j] == h[j]);
        if i < h.len() {
            assert(g[i] == h[i]);
        }
    }
}

/// A justified flag stays justified while no `Cleared` entry for the task
/// is appended.
pub proof fn lemma_woken_since_clear_extend(h: Seq<Event>, g: Seq<Event>, id: u64)
    requires
        woken_since_clear(h, id),
        h.is_prefix_of(g),
        forall |k: int| h.len() <= k < g.len() ==> #[trigger] g[k] != (Event::Cleared { id }),
    ensures
        woken_since_clear(g, id),
{
    reveal(woken_since_clear);
    let w = choose |w: int|
        0 <= w < h.len() && #[trigger] h[w] == (Event::Woken { id })
            && (forall |c: int| w < c < h.len() ==> #[trigger] h[c] != (Event::Cleared { id }));
    assert(g[w] == h[w]);
    assert forall |c: int| w < c < g.len() implies #[trigger] g[c] != (Event::Cleared { id }) by {
        if c < h.len() {
            assert(g[c] == h[c]);
        }
    }
}

/// No spurious re-poll: when a task is polled twice, its flag was set
/// anew strictly between the two polls.  A task that returns pending is
/// left alone until something wakes it again.
pub proof fn lemma_no_spurious_repoll(h: Seq<Event>, id: u64, j: int, k: int)
    requires
        history_wf(h),
        0 <= j < k < h.len(),
        h[j] == (Event::Polled { id }),
        h[k] == (Event::Polled { id }),
    ensures
        exists |w: int| j < w < k && #[trigger] h[w] == (Event::Woken { id }),
{
    reveal(cleared_justified);
    reveal(polled_after_clear);
    reveal(woken_since_clear);
    assert(h[k] is Polled);
    assert(h[k - 1] == (Event::Cleared { id }));
    assert(h[j] is Polled);
    assert(h[j - 1] == (Event::Cleared { id }));
    assert(k - 1 != j);
    assert(h[k - 1] is Cleared);
    assert(woken_since_clear(h.take(k - 1), id));
    let w = choose |w: int|
        0 <= w < k - 1 && #[trigger] h.take(k - 1)[w] == (Event::Woken { id })
            && (forall |c: int| w < c < k - 1 ==> #[trigger] h.take(k - 1)[c] != (Event::Cleared { id }));
    assert(h.take(k - 1)[w] == h[w]);
    assert(w != j && w != j - 1);
    if w < j - 1 {
        assert(h.take(k - 1)[j - 1] == h[j - 1]);
        assert(false);
    }
    assert(j < w < k);
    assert(h[w] == (Event::Woken { id }));
}

/// Terminal idempotence, half one: once a task has completed, no later
/// entry polls it.
pub proof fn lemma_terminal_idempotence(h: Seq<Event>, id: u64, i: int, j: int)
    requires
        history_wf(h),
        0 <= i < j < h.len(),
        h[i] == (Event::Completed { id }),
    ensures
        h[j] != (Event::Polled { id }),
{
    reveal(completed_terminal);
    if h[j] == (Event::Polled { id }) {
        assert(h[i] is Completed && h[j] is Polled);
        assert(false);
    }
}

} // verus!
