//! The queue operator as a state machine over its abstract state, and what
//! holds of every sequence of calls made to it.

use vstd::prelude::*;
use crate::count_map::{holds_back, ledger_merge, lemma_merge_twice_is_sum};
use crate::keyed::{has_key, lemma_as_map_at, lemma_as_map_empty_iff, position};
use crate::ports::{Batch, TargetPort};
use crate::queue::{
    enabled, one_each, releasable, safe, step, with_guarantee, QueueCall, QueueScope, QueueView,
};
use crate::timestamp::{PathSummary, Timestamp};

verus! {

/// The state after the first `n` of `calls` have been made, starting from `start`.
pub open spec fn state_at<T: Timestamp, D>(
    start: QueueView<T, D>,
    calls: Seq<QueueCall<T, D>>,
    n: int,
) -> QueueView<T, D>
    decreases n,
{
    if n <= 0 {
        start
    } else {
        step(state_at(start, calls, n - 1), calls[n - 1])
    }
}

/// Call number `n` can happen in the state that the calls before it lead to.
pub open spec fn enabled_at<T: Timestamp, D>(
    start: QueueView<T, D>,
    calls: Seq<QueueCall<T, D>>,
    n: int,
) -> bool {
    enabled(state_at(start, calls, n), calls[n])
}

/// Every call of the sequence can happen when its turn comes.
pub open spec fn valid<T: Timestamp, D>(start: QueueView<T, D>, calls: Seq<QueueCall<T, D>>) -> bool {
    forall|n: int| 0 <= n < calls.len() ==> #[trigger] enabled_at(start, calls, n)
}

/// One of the first `n` calls was a `push_external_progress` that left the
/// guarantee without any entry at or before `time`.
pub open spec fn cleared<T: Timestamp, D>(
    start: QueueView<T, D>,
    calls: Seq<QueueCall<T, D>>,
    n: int,
    time: T,
) -> bool {
    exists|m: int|
        0 <= m < n && #[trigger] calls[m] is PushProgress && safe(
            state_at(start, calls, m + 1).guarantee,
            time,
        )
}

/// Whatever is staged was cleared by an earlier `push_external_progress`.
pub proof fn lemma_staged_was_cleared<T: Timestamp, D>(
    start: QueueView<T, D>,
    calls: Seq<QueueCall<T, D>>,
    n: int,
)
    requires
        start.staged == Map::<T, Seq<D>>::empty(),
        0 <= n <= calls.len(),
    ensures
        forall|t: T| #[trigger]
            state_at(start, calls, n).staged.contains_key(t) ==> cleared(start, calls, n, t),
    decreases n,
{
    if n > 0 {
        lemma_staged_was_cleared(start, calls, n - 1);
        let before = state_at(start, calls, n - 1);
        let after = state_at(start, calls, n);
        assert forall|t: T| #[trigger] after.staged.contains_key(t) implies cleared(
            start,
            calls,
            n,
            t,
        ) by {
            if before.staged.contains_key(t) {
                let m = choose|m: int|
                    0 <= m < n - 1 && #[trigger] calls[m] is PushProgress && safe(
                        state_at(start, calls, m + 1).guarantee,
                        t,
                    );
                assert(calls[m] is PushProgress);
            } else {
                match calls[n - 1] {
                    QueueCall::PushProgress { progress } => {
                        assert(releasable(with_guarantee(before, progress), t));
                        assert(after.guarantee == with_guarantee(before, progress).guarantee);
                        assert(calls[n - 1] is PushProgress);
                    },
                    _ => {},
                }
            }
        }
    }
}

/// Safety: when a call of `pull_internal_progress` sends data of timestamp
/// `time` to the targets, an earlier call of `push_external_progress` has left
/// the guarantee without any entry at or before `time`.
pub proof fn lemma_sent_only_after_cleared<T: Timestamp, D>(
    start: QueueView<T, D>,
    calls: Seq<QueueCall<T, D>>,
    n: int,
    time: T,
)
    requires
        start.staged == Map::<T, Seq<D>>::empty(),
        valid(start, calls),
        0 <= n < calls.len(),
        calls[n] is PullProgress,
        has_key(calls[n]->batches, time),
    ensures
        cleared(start, calls, n, time),
{
    lemma_staged_was_cleared(start, calls, n);
    assert(enabled_at(start, calls, n));
    assert(state_at(start, calls, n).staged.contains_key(time));
}

/// Only `pull_internal_progress` sends: every other call leaves the record of
/// each target as it was.
pub proof fn lemma_only_pull_sends<T: Timestamp, D>(s: QueueView<T, D>, call: QueueCall<T, D>, j: int)
    requires
        0 <= j < s.sent.len(),
        !(call is PullProgress),
    ensures
        step(s, call).sent.len() >= s.sent.len(),
        step(s, call).sent[j] == s.sent[j],
{
}

/// Each staged timestamp is sent exactly once to each target, with the data
/// staged for it, and nothing stays staged: a second pull right after the
/// first finds nothing to send.
pub proof fn lemma_sent_exactly_once<T: Timestamp, D>(s: QueueView<T, D>, batches: Seq<Batch<T, D>>)
    requires
        enabled(s, QueueCall::PullProgress { batches }),
    ensures
        step(s, QueueCall::PullProgress { batches }).sent.len() == s.sent.len(),
        forall|j: int|
            0 <= j < s.sent.len() ==> #[trigger] step(s, QueueCall::PullProgress { batches }).sent[j]
                == s.sent[j] + batches,
        forall|t: T|
            s.staged.contains_key(t) ==> 0 <= position(batches, t) < batches.len()
                && #[trigger] batches[position(batches, t)] == (t, s.staged[t]),
        forall|i: int, k: int|
            0 <= i < batches.len() && 0 <= k < batches.len() && (#[trigger] batches[i]).0 == (
            #[trigger] batches[k]).0 ==> i == k,
        forall|i: int|
            0 <= i < batches.len() ==> s.staged.contains_key((#[trigger] batches[i]).0),
        step(s, QueueCall::PullProgress { batches }).staged == Map::<T, Seq<D>>::empty(),
        forall|again: Seq<Batch<T, D>>|
            enabled(step(s, QueueCall::PullProgress { batches }), QueueCall::PullProgress {
                batches: again,
            }) ==> #[trigger] again.len() == 0,
{
    let after = step(s, QueueCall::PullProgress { batches });
    assert forall|t: T| s.staged.contains_key(t) implies 0 <= position(batches, t) < batches.len()
        && #[trigger] batches[position(batches, t)] == (t, s.staged[t]) by {
        assert(has_key(batches, t));
        let i = position(batches, t);
        lemma_as_map_at(batches, i);
    }
    assert forall|i: int, k: int|
        0 <= i < batches.len() && 0 <= k < batches.len() && (#[trigger] batches[i]).0 == (
        #[trigger] batches[k]).0 implies i == k by {
        if i < k {
            assert(batches[i].0 != batches[k].0);
        } else if k < i {
            assert(batches[k].0 != batches[i].0);
        }
    }
    assert forall|i: int| 0 <= i < batches.len() implies s.staged.contains_key(
        (#[trigger] batches[i]).0,
    ) by {
        lemma_as_map_at(batches, i);
    }
    assert forall|again: Seq<Batch<T, D>>|
        enabled(after, QueueCall::PullProgress { batches: again }) implies #[trigger] again.len()
        == 0 by {
        lemma_as_map_empty_iff(again);
    }
}

/// Fan-out: with one timestamp staged, a pull makes one delivery to each
/// target, all of the same batch, and reports a single produced message.
pub proof fn lemma_fan_out<T: Timestamp, D>(
    s: QueueView<T, D>,
    batches: Seq<Batch<T, D>>,
    time: T,
    data: Seq<D>,
)
    requires
        enabled(s, QueueCall::PullProgress { batches }),
        s.staged == Map::<T, Seq<D>>::empty().insert(time, data),
    ensures
        batches == seq![(time, data)],
        one_each(batches, 1) == seq![(time, 1i64)],
        step(s, QueueCall::PullProgress { batches }).sent.len() == s.sent.len(),
        forall|j: int|
            0 <= j < s.sent.len() ==> #[trigger] step(s, QueueCall::PullProgress { batches }).sent[j]
                == s.sent[j].push((time, data)),
{
    assert(s.staged.contains_key(time));
    assert(has_key(batches, time));
    lemma_as_map_at(batches, 0);
    assert(s.staged.contains_key(batches[0].0));
    if batches.len() > 1 {
        lemma_as_map_at(batches, 1);
        assert(batches[0].0 != batches[1].0);
    }
    assert(batches =~= seq![(time, data)]);
    assert(one_each(batches, 1) =~= seq![(time, 1i64)]);
    assert forall|j: int| 0 <= j < s.sent.len() implies #[trigger] step(
        s,
        QueueCall::PullProgress { batches },
    ).sent[j] == s.sent[j].push((time, data)) by {
        assert(s.sent[j] + batches =~= s.sent[j].push((time, data)));
    }
}

/// Two deltas for one timestamp pushed in one call do what their sum does:
/// the guarantee, the buffers and the staging area come out the same.
pub proof fn lemma_push_twice_is_sum<T: Timestamp, D>(s: QueueView<T, D>, time: T, a: i64, b: i64)
    requires
        i64::MIN <= a + b <= i64::MAX,
    ensures
        step(s, QueueCall::PushProgress { progress: seq![(time, a), (time, b)] }) == step(
            s,
            QueueCall::PushProgress { progress: seq![(time, (a + b) as i64)] },
        ),
        step(s, QueueCall::SetSummary { guarantee: seq![(time, a), (time, b)] }) == step(
            s,
            QueueCall::SetSummary { guarantee: seq![(time, (a + b) as i64)] },
        ),
{
    lemma_merge_twice_is_sum(s.guarantee, time, a, b);
}

/// A buffered timestamp that the guarantee still holds back after a push is
/// not staged by that push: its buffer stays where it is, and no target
/// receives anything.
pub proof fn lemma_held_back_stays_buffered<T: Timestamp, D>(
    s: QueueView<T, D>,
    progress: Seq<(T, i64)>,
    time: T,
)
    requires
        s.input.buffers.contains_key(time),
        !s.staged.contains_key(time),
        holds_back(ledger_merge(s.guarantee, progress), time),
    ensures
        !step(s, QueueCall::PushProgress { progress }).staged.contains_key(time),
        step(s, QueueCall::PushProgress { progress }).input.buffers.contains_key(time),
        step(s, QueueCall::PushProgress { progress }).input.buffers[time] == s.input.buffers[time],
        step(s, QueueCall::PushProgress { progress }).sent == s.sent,
{
}

/// Nothing but a pull takes data out of the staging area: after any other
/// call, what was staged at a timestamp is still there, in front of whatever
/// the call has added.
pub proof fn lemma_staged_stays_until_pull<T: Timestamp, D>(
    s: QueueView<T, D>,
    call: QueueCall<T, D>,
    time: T,
)
    requires
        !(call is PullProgress),
        s.staged.contains_key(time),
    ensures
        step(s, call).staged.contains_key(time),
        s.staged[time].is_prefix_of(step(s, call).staged[time]),
{
    let after = step(s, call);
    match call {
        QueueCall::PushProgress { progress } => {
            if releasable(with_guarantee(s, progress), time) {
                assert(after.staged[time] == s.staged[time] + s.input.buffers[time]);
                assert((s.staged[time] + s.input.buffers[time]).subrange(
                    0,
                    s.staged[time].len() as int,
                ) =~= s.staged[time]);
            } else {
                assert(after.staged[time].subrange(0, s.staged[time].len() as int)
                    =~= s.staged[time]);
            }
        },
        _ => {
            assert(after.staged[time].subrange(0, s.staged[time].len() as int) =~= s.staged[time]);
        },
    }
}

/// A timestamp that is not staged leaves no trace in a pull: no target
/// receives a batch at it, no produced message is reported for it, no closed
/// timestamp is reported for it, and the buffers stay as they are.
pub proof fn lemma_unstaged_not_reported<
    T: Timestamp,
    S: PathSummary<T>,
    D: Copy,
    P: TargetPort<T, D>,
>(queue: QueueScope<T, S, D, P>, time: T)
    requires
        queue.well_formed(),
        !queue@.staged.contains_key(time),
    ensures
        !has_key(queue.staged_batches(), time),
        !one_each(queue.staged_batches(), 1).contains((time, 1i64)),
        !(queue.input_queue().progress_ledger().entries() + one_each(
            queue.staged_batches(),
            -1i64,
        )).contains((time, -1i64)),
        step(queue@, QueueCall::PullProgress { batches: queue.staged_batches() }).input.buffers
            == queue@.input.buffers,
{
    let batches = queue.staged_batches();
    let opened = queue.input_queue().progress_ledger().entries();
    queue.input_queue().progress_ledger().lemma_view();
    assert(!has_key(batches, time));
    assert(!one_each(batches, 1).contains((time, 1i64))) by {
        if one_each(batches, 1).contains((time, 1i64)) {
            let i = choose|i: int|
                0 <= i < one_each(batches, 1).len() && one_each(batches, 1)[i] == (time, 1i64);
            assert(batches[i].0 == time);
        }
    }
    let report = opened + one_each(batches, -1i64);
    assert(!report.contains((time, -1i64))) by {
        if report.contains((time, -1i64)) {
            let i = choose|i: int| 0 <= i < report.len() && report[i] == (time, -1i64);
            if i < opened.len() {
                assert(opened[i] == (time, -1i64));
                assert(queue@.input.progress[opened[i].0] == opened[i].1);
            } else {
                assert(one_each(batches, -1i64)[i - opened.len()] == (time, -1i64));
                assert(batches[i - opened.len()].0 == time);
            }
        }
    }
}

} // verus!
