//! The queue operator: it buffers data per timestamp and releases a timestamp's
//! data only once nothing at or before that timestamp can still arrive.

use core::marker::PhantomData;
use vstd::prelude::*;
use vstd::string::StringExecFns;
use crate::count_map::{holds_back, ledger_merge, merge_fits, CountMap};
use crate::frontier::Antichain;
use crate::input_queue::{buffered, delivered, drained, InputQueueView, ScopeInputQueue};
use crate::keyed::{
    among, as_map, find, keys_distinct, lemma_as_map_at, lemma_as_map_empty,
    lemma_as_map_empty_iff, lemma_as_map_push, lemma_as_map_set, position,
};
use crate::ports::{batches_of, deliver_all, lemma_batches_keys, Batch, SourcePort, TargetPort};
use crate::scope::{lists_of, Scope};
use crate::timestamp::{Identity, PathSummary, Timestamp};

verus! {

/// What a queue operator is, apart from how it is stored.
#[verifier::reject_recursive_types(T)]
pub struct QueueView<T, D> {
    /// The timestamps that may still arrive from outside, with their counts.
    pub guarantee: Map<T, int>,
    /// The input side: buffers and the two ledgers.
    pub input: InputQueueView<T, D>,
    /// The data found safe and waiting to be sent.
    pub staged: Map<T, Seq<D>>,
    /// What each registered target has received so far.
    pub sent: Seq<Seq<Batch<T, D>>>,
}

/// Nothing in `guarantee` sits at or before `time`: no input at `time` can still arrive.
pub open spec fn safe<T: Timestamp>(guarantee: Map<T, int>, time: T) -> bool {
    !holds_back(guarantee, time)
}

/// The buffer of `time` may leave the input queue.
pub open spec fn releasable<T: Timestamp, D>(s: QueueView<T, D>, time: T) -> bool {
    s.input.buffers.contains_key(time) && safe(s.guarantee, time)
}

/// The state after `deltas` have been merged into the guarantee.
pub open spec fn with_guarantee<T, D>(s: QueueView<T, D>, deltas: Seq<(T, i64)>) -> QueueView<T, D> {
    QueueView {
        guarantee: ledger_merge(s.guarantee, deltas),
        input: s.input,
        staged: s.staged,
        sent: s.sent,
    }
}

/// The state after every safe buffer has moved from the input queue to the
/// staging area. A buffer staged at a timestamp that already has staged data
/// is added behind that data: nothing that was staged is lost.
pub open spec fn released<T: Timestamp, D>(s: QueueView<T, D>) -> QueueView<T, D> {
    QueueView {
        guarantee: s.guarantee,
        input: InputQueueView {
            consumed: s.input.consumed,
            progress: s.input.progress,
            buffers: Map::new(
                |t: T| s.input.buffers.contains_key(t) && !safe(s.guarantee, t),
                |t: T| s.input.buffers[t],
            ),
        },
        staged: Map::new(
            |t: T| s.staged.contains_key(t) || releasable(s, t),
            |t: T|
                if releasable(s, t) {
                    buffered(s.staged, t) + s.input.buffers[t]
                } else {
                    s.staged[t]
                },
        ),
        sent: s.sent,
    }
}

/// The state after the ledgers have been drained and `batches` have gone to every target.
pub open spec fn flushed<T, D>(s: QueueView<T, D>, batches: Seq<Batch<T, D>>) -> QueueView<T, D> {
    QueueView {
        guarantee: s.guarantee,
        input: drained(s.input),
        staged: Map::empty(),
        sent: s.sent.map_values(|log: Seq<Batch<T, D>>| log + batches),
    }
}

/// One call made to a queue operator, with its arguments as contracts see them.
pub enum QueueCall<T, D> {
    /// `register_interest` with a target whose record so far is `log`.
    Register { log: Seq<Batch<T, D>> },
    /// `deliver_data`.
    Deliver { time: T, data: Seq<D> },
    /// `set_external_summary` with this initial guarantee for input 0.
    SetSummary { guarantee: Seq<(T, i64)> },
    /// `push_external_progress` with these deltas for input 0.
    PushProgress { progress: Seq<(T, i64)> },
    /// `pull_internal_progress`, which sent the staged batches in this order.
    PullProgress { batches: Seq<Batch<T, D>> },
}

/// `batches` lists each entry of `staged` exactly once.
pub open spec fn enumerates<T, D>(batches: Seq<Batch<T, D>>, staged: Map<T, Seq<D>>) -> bool {
    keys_distinct(batches) && as_map(batches) == staged
}

/// The call can happen in state `s`: a pull sends exactly what is staged.
pub open spec fn enabled<T, D>(s: QueueView<T, D>, call: QueueCall<T, D>) -> bool {
    match call {
        QueueCall::PullProgress { batches } => enumerates(batches, s.staged),
        _ => true,
    }
}

/// The state after `call` has been made in state `s`.
pub open spec fn step<T: Timestamp, D>(s: QueueView<T, D>, call: QueueCall<T, D>) -> QueueView<T, D> {
    match call {
        QueueCall::Register { log } => QueueView {
            guarantee: s.guarantee,
            input: s.input,
            staged: s.staged,
            sent: s.sent.push(log),
        },
        QueueCall::Deliver { time, data } => QueueView {
            guarantee: s.guarantee,
            input: delivered(s.input, time, data),
            staged: s.staged,
            sent: s.sent,
        },
        QueueCall::SetSummary { guarantee } => with_guarantee(s, guarantee),
        QueueCall::PushProgress { progress } => released(with_guarantee(s, progress)),
        QueueCall::PullProgress { batches } => flushed(s, batches),
    }
}

/// One delta of `amount` for the timestamp of each batch.
pub open spec fn one_each<T, D>(batches: Seq<Batch<T, D>>, amount: i64) -> Seq<(T, i64)> {
    batches.map_values(|b: Batch<T, D>| (b.0, amount))
}

/// `after` is `before` with `extra` appended to the list of port 0.
pub open spec fn appended<T>(
    before: Seq<Vec<(T, i64)>>,
    after: Seq<Vec<(T, i64)>>,
    extra: Seq<(T, i64)>,
) -> bool {
    &&& after.len() == before.len()
    &&& after.len() > 0
    &&& after[0]@ == before[0]@ + extra
    &&& forall|i: int| 0 < i < before.len() ==> #[trigger] after[i] == before[i]
}

/// What the logs of the targets are.
pub open spec fn logs_of<T: Timestamp, D: Copy, P: TargetPort<T, D>>(targets: Seq<P>) -> Seq<
    Seq<Batch<T, D>>,
> {
    targets.map_values(|p: P| p.received())
}

/// Puts `data` into the staging area at `time`, behind whatever is staged there already.
fn stage<T: Timestamp, D: Copy>(staged: &mut Vec<(T, Vec<D>)>, time: T, data: Vec<D>)
    requires
        keys_distinct(batches_of(old(staged)@)),
    ensures
        keys_distinct(batches_of(final(staged)@)),
        as_map(batches_of(final(staged)@)) == as_map(batches_of(old(staged)@)).insert(
            time,
            buffered(as_map(batches_of(old(staged)@)), time) + data@,
        ),
{
    let ghost before = batches_of(staged@);
    proof {
        lemma_batches_keys(staged@);
    }
    match find(staged, &time) {
        Some(i) => {
            let ghost stored = staged@;
            let ghost added = data@;
            let mut data = data;
            staged[i].1.append(&mut data);
            proof {
                lemma_as_map_at(before, i as int);
                let joined = before[i as int].1 + added;
                lemma_as_map_set(before, i as int, joined);
                assert(before[i as int] == (stored[i as int].0, stored[i as int].1@));
                assert(staged@[i as int].0 == stored[i as int].0);
                assert forall|j: int| 0 <= j < stored.len() && j != i implies staged@[j]
                    == stored[j] by {}
                assert(batches_of(staged@) =~= before.update(i as int, (before[i as int].0, joined)));
            }
        },
        None => {
            staged.push((time, data));
            proof {
                lemma_as_map_push(before, time, data@);
                assert(batches_of(staged@) =~= before.push((time, data@)));
                assert(Seq::<D>::empty() + data@ =~= data@);
            }
        },
    }
}

/// A queue operator with one input and one output.
///
/// `P` is the kind of port its output delivers to, `S` the kind of summary its
/// surroundings use; the queue itself leaves timestamps as they are.
pub struct QueueScope<T: Timestamp, S: PathSummary<T>, D: Copy, P: TargetPort<T, D>> {
    input: ScopeInputQueue<T, D>,
    output: Vec<P>,
    to_send: Vec<(T, Vec<D>)>,
    guarantee: CountMap<T>,
    summary: PhantomData<S>,
}

impl<T: Timestamp, S: PathSummary<T>, D: Copy, P: TargetPort<T, D>> View for QueueScope<T, S, D, P> {
    type V = QueueView<T, D>;

    open spec fn view(&self) -> QueueView<T, D> {
        QueueView {
            guarantee: self.guarantee_ledger()@,
            input: self.input_queue()@,
            staged: as_map(self.staged_batches()),
            sent: logs_of(self.targets()),
        }
    }
}

impl<T: Timestamp, S: PathSummary<T>, D: Copy, P: TargetPort<T, D>> QueueScope<T, S, D, P> {
    /// The input queue.
    pub closed spec fn input_queue(&self) -> ScopeInputQueue<T, D> {
        self.input
    }

    /// The registered targets, in the order of registration.
    pub closed spec fn targets(&self) -> Seq<P> {
        self.output@
    }

    /// The staged batches in the order in which they will be sent.
    pub closed spec fn staged_batches(&self) -> Seq<Batch<T, D>> {
        batches_of(self.to_send@)
    }

    /// The ledger of timestamps that may still arrive from outside.
    pub closed spec fn guarantee_ledger(&self) -> CountMap<T> {
        self.guarantee
    }

    /// The parts are well formed and no timestamp is staged twice.
    pub open spec fn well_formed(&self) -> bool {
        &&& self.input_queue().wf()
        &&& self.guarantee_ledger().wf()
        &&& keys_distinct(self.staged_batches())
    }

    /// A queue with no targets, no data and an empty guarantee.
    pub fn new() -> (queue: Self)
        ensures
            queue.well_formed(),
            queue@.guarantee == Map::<T, int>::empty(),
            queue@.input.consumed == Map::<T, int>::empty(),
            queue@.input.progress == Map::<T, int>::empty(),
            queue@.input.buffers == Map::<T, Seq<D>>::empty(),
            queue@.staged == Map::<T, Seq<D>>::empty(),
            queue@.sent == Seq::<Seq<Batch<T, D>>>::empty(),
            queue.targets() == Seq::<P>::empty(),
    {
        let queue = QueueScope {
            input: ScopeInputQueue::new_shared(),
            output: Vec::new(),
            to_send: Vec::new(),
            guarantee: CountMap::new(),
            summary: PhantomData,
        };
        proof {
            lemma_as_map_empty::<T, Seq<D>>();
            assert(queue.staged_batches() =~= Seq::<Batch<T, D>>::empty());
            assert(queue@.sent =~= Seq::<Seq<Batch<T, D>>>::empty());
        }
        queue
    }

    /// The registered targets.
    pub fn output(&self) -> (targets: &Vec<P>)
        ensures
            targets@ == self.targets(),
    {
        &self.output
    }

    /// Gives the registered targets back and drops the rest of the queue.
    pub fn into_output(self) -> (targets: Vec<P>)
        ensures
            targets@ == self.targets(),
    {
        self.output
    }

    /// Tests whether a delivery at `time` can be counted: what `deliver_data`
    /// asks of its caller.
    pub fn can_deliver(&self, time: &T) -> (ok: bool)
        requires
            self.well_formed(),
        ensures
            ok == self.input_queue().room_for(*time),
    {
        self.input.can_deliver(time)
    }

    /// Tests whether the deltas for input 0 can be merged into the guarantee:
    /// what `set_external_summary` and `push_external_progress` ask of their
    /// caller.
    pub fn admits(&self, deltas: &Vec<Vec<(T, i64)>>) -> (ok: bool)
        requires
            self.well_formed(),
        ensures
            ok == (deltas@.len() > 0 && merge_fits(self@.guarantee, deltas@[0]@)),
    {
        deltas.len() > 0 && self.guarantee.fits(&deltas[0])
    }

    /// The timestamps whose buffers can be released: those that have a buffer
    /// and that the guarantee no longer holds back. None is listed twice.
    fn safe_times(&self) -> (sendable: Vec<T>)
        requires
            self.well_formed(),
        ensures
            forall|a: int, b: int|
                0 <= a < b < sendable@.len() ==> #[trigger] sendable@[a] != #[trigger] sendable@[b],
            forall|t: T| sendable@.contains(t) <==> releasable(self@, t),
    {
        let ghost shown = self.input.batches();
        let ghost guarantee = self@.guarantee;
        let times = self.input.times();
        let mut sendable: Vec<T> = Vec::new();
        let mut i: usize = 0;
        while i < times.len()
            invariant
                i <= times@.len(),
                times@ == shown.map_values(|b: Batch<T, D>| b.0),
                keys_distinct(shown),
                self.guarantee.wf(),
                self.guarantee@ == guarantee,
                forall|a: int, b: int|
                    0 <= a < b < sendable@.len() ==> #[trigger] sendable@[a] != #[trigger] sendable@[b],
                forall|a: int|
                    0 <= a < sendable@.len() ==> safe(guarantee, #[trigger] sendable@[a]) && among(
                        times@,
                        i as int,
                        sendable@[a],
                    ),
                forall|j: int|
                    0 <= j < i && safe(guarantee, #[trigger] times@[j]) ==> sendable@.contains(
                        times@[j],
                    ),
            decreases times@.len() - i,
        {
            let time = times[i];
            if !self.guarantee.holds_back(&time) {
                let ghost before = sendable@;
                proof {
                    assert forall|a: int| 0 <= a < before.len() implies #[trigger] before[a]
                        != time by {
                        assert(among(times@, i as int, before[a]));
                        let j = choose|j: int|
                            0 <= j < i && j < times@.len() && #[trigger] times@[j] == before[a];
                        assert(shown[j].0 != shown[i as int].0);
                    }
                }
                sendable.push(time);
                proof {
                    assert(sendable@[before.len() as int] == time);
                    assert forall|j: int|
                        0 <= j < i + 1 && safe(guarantee, #[trigger] times@[j]) implies sendable@.contains(
                        times@[j],
                    ) by {
                        if j < i {
                            let a = choose|a: int| 0 <= a < before.len() && before[a] == times@[j];
                            assert(sendable@[a] == times@[j]);
                        }
                    }
                    assert forall|a: int| 0 <= a < sendable@.len() implies safe(
                        guarantee,
                        #[trigger] sendable@[a],
                    ) && among(times@, i + 1, sendable@[a]) by {
                        if a < before.len() {
                            assert(among(times@, i as int, before[a]));
                            let j = choose|j: int|
                                0 <= j < i && j < times@.len() && #[trigger] times@[j] == before[a];
                            assert(times@[j] == sendable@[a]);
                        } else {
                            assert(times@[i as int] == sendable@[a]);
                        }
                    }
                }
            }
            i += 1;
        }
        proof {
            assert forall|t: T| sendable@.contains(t) <==> releasable(self@, t) by {
                if sendable@.contains(t) {
                    let a = choose|a: int| 0 <= a < sendable@.len() && sendable@[a] == t;
                    assert(among(times@, i as int, sendable@[a]));
                    let j = choose|j: int|
                        0 <= j < times@.len() && #[trigger] times@[j] == sendable@[a];
                    lemma_as_map_at(shown, j);
                }
                if releasable(self@, t) {
                    let j = position(shown, t);
                    assert(times@[j] == t);
                }
            }
        }
        sendable
    }

    /// The queue's input capability: buffers `data` at `time`.
    pub fn deliver_data(&mut self, time: &T, data: &Vec<D>)
        requires
            old(self).well_formed(),
            old(self).input_queue().room_for(*time),
        ensures
            final(self).well_formed(),
            final(self)@ == step(old(self)@, QueueCall::Deliver { time: *time, data: data@ }),
            final(self).targets() == old(self).targets(),
            final(self).staged_batches() == old(self).staged_batches(),
    {
        self.input.deliver_data(time, data);
    }
}

impl<T: Timestamp, S: PathSummary<T>, D: Copy, P: TargetPort<T, D>> SourcePort<T, D, P> for QueueScope<
    T,
    S,
    D,
    P,
> {
    open spec fn registered(&self) -> Seq<P> {
        self.targets()
    }

    fn register_interest(&mut self, target: P)
        ensures
            old(self).well_formed() ==> final(self).well_formed(),
            final(self)@ == step(old(self)@, QueueCall::Register { log: target.received() }),
            final(self).staged_batches() == old(self).staged_batches(),
    {
        self.output.push(target);
        proof {
            assert(logs_of(self.targets()) =~= logs_of(old(self).targets()).push(target.received()));
        }
    }
}

impl<T: Timestamp, S: PathSummary<T>, D: Copy, P: TargetPort<T, D>> Scope<T, S> for QueueScope<
    T,
    S,
    D,
    P,
> {
    open spec fn wf(&self) -> bool {
        self.well_formed()
    }

    open spec fn inputs_spec(&self) -> nat {
        1
    }

    open spec fn outputs_spec(&self) -> nat {
        1
    }

    open spec fn admits_guarantee(&self, guarantee: Seq<Seq<(T, i64)>>) -> bool {
        guarantee.len() > 0 && merge_fits(self@.guarantee, guarantee[0])
    }

    open spec fn admits_progress(&self, progress: Seq<Seq<(T, i64)>>) -> bool {
        progress.len() > 0 && merge_fits(self@.guarantee, progress[0])
    }

    fn name(&self) -> (name: String)
        ensures
            name@ == "Queue"@,
    {
        String::from_str("Queue")
    }

    fn inputs(&self) -> (n: usize) {
        1
    }

    fn outputs(&self) -> (n: usize) {
        1
    }

    /// Merges the initial guarantee of input 0 into the queue's guarantee.
    /// The summaries are not used: a queue leaves timestamps as they are.
    fn set_external_summary(
        &mut self,
        summaries: Vec<Vec<Antichain<S>>>,
        guarantee: &Vec<Vec<(T, i64)>>,
    )
        ensures
            final(self)@ == step(old(self)@, QueueCall::SetSummary { guarantee: guarantee@[0]@ }),
            final(self).targets() == old(self).targets(),
            final(self).staged_batches() == old(self).staged_batches(),
            final(self).input_queue() == old(self).input_queue(),
    {
        assert(guarantee@.len() > 0);
        assert(lists_of(guarantee@)[0] == guarantee@[0]@);
        self.guarantee.update_all(&guarantee[0]);
    }

    /// Merges the progress of input 0 into the guarantee, then stages the
    /// buffer of every timestamp that the new guarantee no longer holds back.
    fn push_external_progress(&mut self, progress: &Vec<Vec<(T, i64)>>)
        ensures
            final(self)@ == step(old(self)@, QueueCall::PushProgress { progress: progress@[0]@ }),
            final(self).targets() == old(self).targets(),
    {
        assert(progress@.len() > 0);
        assert(lists_of(progress@)[0] == progress@[0]@);
        self.guarantee.update_all(&progress[0]);
        let ghost merged = with_guarantee(old(self)@, progress@[0]@);
        let ghost buffers = merged.input.buffers;
        let sendable = self.safe_times();
        let ghost staged0 = old(self)@.staged;
        let mut k: usize = 0;
        while k < sendable.len()
            invariant
                k <= sendable@.len(),
                buffers == merged.input.buffers,
                self.input.wf(),
                self.guarantee.wf(),
                self.guarantee@ == merged.guarantee,
                self.output@ == old(self).output@,
                keys_distinct(batches_of(self.to_send@)),
                self.input@.consumed == merged.input.consumed,
                self.input@.progress == merged.input.progress,
                forall|a: int, b: int|
                    0 <= a < b < sendable@.len() ==> #[trigger] sendable@[a] != #[trigger] sendable@[b],
                forall|t: T| sendable@.contains(t) <==> releasable(merged, t),
                self.input@.buffers == Map::new(
                    |t: T| buffers.contains_key(t) && !sendable@.take(k as int).contains(t),
                    |t: T| buffers[t],
                ),
                as_map(batches_of(self.to_send@)) == Map::new(
                    |t: T| staged0.contains_key(t) || sendable@.take(k as int).contains(t),
                    |t: T|
                        if sendable@.take(k as int).contains(t) {
                            buffered(staged0, t) + buffers[t]
                        } else {
                            staged0[t]
                        },
                ),
            decreases sendable@.len() - k,
        {
            let time = sendable[k];
            proof {
                assert(sendable@.contains(time));
                assert(releasable(merged, time));
                assert forall|a: int| 0 <= a < k implies sendable@.take(k as int)[a] != time by {
                    assert(sendable@[a] != sendable@[k as int]);
                }
                assert(!sendable@.take(k as int).contains(time));
                assert(self.input@.buffers.contains_key(time));
            }
            let data = self.input.extract_queue(&time).unwrap();
            stage(&mut self.to_send, time, data);
            proof {
                let done = sendable@.take(k as int);
                let more = sendable@.take(k + 1);
                assert(more =~= done.push(time));
                assert forall|t: T| more.contains(t) <==> (done.contains(t) || t == time) by {
                    if more.contains(t) {
                        let a = choose|a: int| 0 <= a < more.len() && more[a] == t;
                        if a < done.len() {
                            assert(done[a] == t);
                        }
                    }
                    if done.contains(t) {
                        let a = choose|a: int| 0 <= a < done.len() && done[a] == t;
                        assert(more[a] == t);
                    }
                    if t == time {
                        assert(more[k as int] == t);
                    }
                }
                assert(self.input@.buffers =~= Map::new(
                    |t: T| buffers.contains_key(t) && !more.contains(t),
                    |t: T| buffers[t],
                ));
                assert(as_map(batches_of(self.to_send@)) =~= Map::new(
                    |t: T| staged0.contains_key(t) || more.contains(t),
                    |t: T|
                        if more.contains(t) {
                            buffered(staged0, t) + buffers[t]
                        } else {
                            staged0[t]
                        },
                ));
            }
            k += 1;
        }
        proof {
            assert(sendable@.take(k as int) =~= sendable@);
            let goal = released(merged);
            assert forall|t: T| self@.input.buffers.contains_key(t) <==> goal.input.buffers.contains_key(
                t,
            ) by {
                assert(sendable@.contains(t) <==> releasable(merged, t));
            }
            assert(self@.input.buffers =~= goal.input.buffers);
            assert(self@.staged =~= goal.staged);
        }
    }

    /// Reports what the input queue has taken in since the last call, then
    /// sends every staged batch to every target. For each staged timestamp one
    /// produced message and one closed timestamp are reported, whatever the
    /// number of targets. Nothing stays staged.
    fn pull_internal_progress(
        &mut self,
        frontier_progress: &mut Vec<Vec<(T, i64)>>,
        messages_consumed: &mut Vec<Vec<(T, i64)>>,
        messages_produced: &mut Vec<Vec<(T, i64)>>,
    )
        ensures
            enabled(old(self)@, QueueCall::PullProgress { batches: old(self).staged_batches() }),
            final(self)@ == step(
                old(self)@,
                QueueCall::PullProgress { batches: old(self).staged_batches() },
            ),
            final(self).targets().len() == old(self).targets().len(),
            final(self).staged_batches() == Seq::<Batch<T, D>>::empty(),
            appended(
                old(messages_consumed)@,
                final(messages_consumed)@,
                old(self).input_queue().consumed_ledger().entries(),
            ),
            appended(
                old(frontier_progress)@,
                final(frontier_progress)@,
                old(self).input_queue().progress_ledger().entries() + one_each(
                    old(self).staged_batches(),
                    -1i64,
                ),
            ),
            appended(
                old(messages_produced)@,
                final(messages_produced)@,
                one_each(old(self).staged_batches(), 1),
            ),
    {
        let ghost staged = self.staged_batches();
        let ghost opened = self.input.progress_ledger().entries();
        self.input.pull_progress(&mut messages_consumed[0], &mut frontier_progress[0]);
        let ghost input_after = self.input;
        let ghost consumed_after = messages_consumed@;
        let mut i: usize = 0;
        while i < self.to_send.len()
            invariant
                i <= self.to_send@.len(),
                self.to_send@ == old(self).to_send@,
                staged == batches_of(self.to_send@),
                self.input == input_after,
                self.guarantee == old(self).guarantee,
                messages_consumed@ == consumed_after,
                self.output@.len() == old(self).output@.len(),
                forall|j: int|
                    0 <= j < self.output@.len() ==> (#[trigger] self.output@[j]).received() == old(
                        self,
                    ).output@[j].received() + staged.take(i as int),
                appended(
                    old(frontier_progress)@,
                    frontier_progress@,
                    opened + one_each(staged.take(i as int), -1i64),
                ),
                appended(old(messages_produced)@, messages_produced@, one_each(staged.take(i as int), 1)),
            decreases self.to_send@.len() - i,
        {
            let time = self.to_send[i].0;
            let ghost targets_before = self.output@;
            deliver_all(&mut self.output, &time, &self.to_send[i].1);
            proof {
                assert(staged.take(i + 1) =~= staged.take(i as int).push(staged[i as int]));
                assert(staged[i as int] == (time, self.to_send@[i as int].1@));
                assert forall|j: int| 0 <= j < self.output@.len() implies (
                #[trigger] self.output@[j]).received() == old(self).output@[j].received()
                    + staged.take(i + 1) by {
                    assert(targets_before[j].received() == old(self).output@[j].received()
                        + staged.take(i as int));
                    assert(self.output@[j].received() =~= old(self).output@[j].received()
                        + staged.take(i + 1));
                }
            }
            messages_produced[0].push((time, 1));
            frontier_progress[0].push((time, -1));
            proof {
                assert(one_each(staged.take(i + 1), 1) =~= one_each(staged.take(i as int), 1).push(
                    (time, 1i64),
                ));
                assert(one_each(staged.take(i + 1), -1i64) =~= one_each(staged.take(i as int), -1i64).push(
                    (time, -1i64),
                ));
                assert(messages_produced@[0]@ =~= old(messages_produced)@[0]@ + one_each(
                    staged.take(i + 1),
                    1,
                ));
                assert(frontier_progress@[0]@ =~= old(frontier_progress)@[0]@ + (opened + one_each(
                    staged.take(i + 1),
                    -1i64,
                )));
            }
            i += 1;
        }
        self.to_send.clear();
        proof {
            assert(staged.take(i as int) =~= staged);
            lemma_as_map_empty::<T, Seq<D>>();
            assert(self.staged_batches() =~= Seq::<Batch<T, D>>::empty());
            let goal = flushed(old(self)@, staged);
            assert(self@.sent =~= goal.sent);
        }
    }
}

/// The buffers that a stream of deliveries leaves behind: per timestamp, the
/// data of all its batches in order of arrival.
pub open spec fn gathered<T, D>(stream: Seq<Batch<T, D>>) -> Map<T, Seq<D>>
    decreases stream.len(),
{
    if stream.len() == 0 {
        Map::empty()
    } else {
        let before = gathered(stream.drop_last());
        before.insert(stream.last().0, buffered(before, stream.last().0) + stream.last().1)
    }
}

/// Puts a queue operator behind a stream.
pub trait QueueExtensionTrait: Sized {
    /// The stream as it leaves the queue.
    fn queue(&mut self) -> Self;
}

/// A recorded stream is queued by running a queue operator over it: every
/// batch is delivered, the input is then declared closed, and what the queue
/// sends is collected. Each timestamp comes out once, with all its data in the
/// order of arrival.
impl<T: Timestamp, D: Copy> QueueExtensionTrait for Vec<(T, Vec<D>)> {
    fn queue(&mut self) -> (out: Self)
        ensures
            final(self)@ == old(self)@,
            keys_distinct(batches_of(out@)),
            as_map(batches_of(out@)) == gathered(batches_of(old(self)@)),
    {
        let ghost stream = batches_of(self@);
        let mut queue: QueueScope<T, Identity, D, Vec<(T, Vec<D>)>> = QueueScope::new();
        queue.register_interest(Vec::new());
        assert(queue@.sent[0] =~= Seq::<Batch<T, D>>::empty());
        let mut i: usize = 0;
        while i < self.len()
            invariant
                i <= self@.len(),
                self@ == old(self)@,
                stream == batches_of(self@),
                queue.well_formed(),
                queue@.guarantee == Map::<T, int>::empty(),
                queue@.staged == Map::<T, Seq<D>>::empty(),
                queue@.input.consumed == Map::<T, int>::empty(),
                queue@.input.progress == Map::<T, int>::empty(),
                queue@.input.buffers == gathered(stream.take(i as int)),
                queue@.sent.len() == 1,
                queue@.sent[0] == Seq::<Batch<T, D>>::empty(),
            decreases self@.len() - i,
        {
            queue.deliver_data(&self[i].0, &self[i].1);
            let mut frontier_progress: Vec<Vec<(T, i64)>> = Vec::new();
            frontier_progress.push(Vec::new());
            let mut messages_consumed: Vec<Vec<(T, i64)>> = Vec::new();
            messages_consumed.push(Vec::new());
            let mut messages_produced: Vec<Vec<(T, i64)>> = Vec::new();
            messages_produced.push(Vec::new());
            proof {
                lemma_as_map_empty_iff(queue.staged_batches());
            }
            queue.pull_internal_progress(
                &mut frontier_progress,
                &mut messages_consumed,
                &mut messages_produced,
            );
            proof {
                assert(stream.take(i + 1).drop_last() =~= stream.take(i as int));
                assert(stream.take(i + 1).last() == (self@[i as int].0, self@[i as int].1@));
                assert(queue@.sent[0] =~= Seq::<Batch<T, D>>::empty());
            }
            i += 1;
        }
        let mut progress: Vec<Vec<(T, i64)>> = Vec::new();
        progress.push(Vec::new());
        proof {
            assert(stream.take(i as int) =~= stream);
            assert(merge_fits(queue@.guarantee, progress@[0]@));
        }
        queue.push_external_progress(&progress);
        proof {
            assert(queue@.guarantee == Map::<T, int>::empty());
            assert forall|t: T| safe(queue@.guarantee, t) by {}
            assert(queue@.staged =~= gathered(stream));
        }
        let mut frontier_progress: Vec<Vec<(T, i64)>> = Vec::new();
        frontier_progress.push(Vec::new());
        let mut messages_consumed: Vec<Vec<(T, i64)>> = Vec::new();
        messages_consumed.push(Vec::new());
        let mut messages_produced: Vec<Vec<(T, i64)>> = Vec::new();
        messages_produced.push(Vec::new());
        let ghost staged = queue.staged_batches();
        queue.pull_internal_progress(
            &mut frontier_progress,
            &mut messages_consumed,
            &mut messages_produced,
        );
        proof {
            assert(queue@.sent[0] =~= staged);
        }
        let mut targets = queue.into_output();
        let out = targets.pop().unwrap();
        out
    }
}

} // verus!
