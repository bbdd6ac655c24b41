//! The input side of a queue operator: per-timestamp buffers and the two
//! ledgers that report, round by round, what has arrived.

use vstd::prelude::*;
use crate::count_map::{all_positive, count, ledger_apply, CountMap};
use crate::keyed::{
    as_map, find, has_key, keys_distinct, lemma_as_map_at, lemma_as_map_empty, lemma_as_map_push,
    lemma_as_map_set, lemma_as_map_swap_remove,
};
use crate::ports::{batches_of, lemma_batches_keys, Batch};
use crate::timestamp::Timestamp;

verus! {

/// What an input queue is, apart from how it is stored.
#[verifier::reject_recursive_types(T)]
pub struct InputQueueView<T, D> {
    /// Batches delivered per timestamp since the ledgers were last drained.
    pub consumed: Map<T, int>,
    /// Timestamps newly opened since the ledgers were last drained.
    pub progress: Map<T, int>,
    /// The data waiting at each timestamp, in order of arrival.
    pub buffers: Map<T, Seq<D>>,
}

/// The data waiting at `time`: nothing where no buffer exists.
pub open spec fn buffered<T, D>(buffers: Map<T, Seq<D>>, time: T) -> Seq<D> {
    if buffers.contains_key(time) {
        buffers[time]
    } else {
        Seq::empty()
    }
}

/// The state after `data` has been delivered at `time`.
pub open spec fn delivered<T, D>(s: InputQueueView<T, D>, time: T, data: Seq<D>) -> InputQueueView<
    T,
    D,
> {
    InputQueueView {
        consumed: ledger_apply(s.consumed, time, 1),
        progress: if s.buffers.contains_key(time) {
            s.progress
        } else {
            ledger_apply(s.progress, time, 1)
        },
        buffers: s.buffers.insert(time, buffered(s.buffers, time) + data),
    }
}

/// The state after both ledgers have been drained.
pub open spec fn drained<T, D>(s: InputQueueView<T, D>) -> InputQueueView<T, D> {
    InputQueueView { consumed: Map::empty(), progress: Map::empty(), buffers: s.buffers }
}

/// The state after the buffer of `time` has been taken out.
pub open spec fn extracted<T, D>(s: InputQueueView<T, D>, time: T) -> InputQueueView<T, D> {
    InputQueueView { consumed: s.consumed, progress: s.progress, buffers: s.buffers.remove(time) }
}

/// Buffers incoming data per timestamp and records what arrived since the last drain.
pub struct ScopeInputQueue<T: Timestamp, D: Copy> {
    consumed_messages: CountMap<T>,
    frontier_progress: CountMap<T>,
    queues: Vec<(T, Vec<D>)>,
}

impl<T: Timestamp, D: Copy> View for ScopeInputQueue<T, D> {
    type V = InputQueueView<T, D>;

    open spec fn view(&self) -> InputQueueView<T, D> {
        InputQueueView {
            consumed: self.consumed_ledger()@,
            progress: self.progress_ledger()@,
            buffers: as_map(self.batches()),
        }
    }
}

impl<T: Timestamp, D: Copy> ScopeInputQueue<T, D> {
    /// The ledger of batches delivered since the last drain.
    pub closed spec fn consumed_ledger(&self) -> CountMap<T> {
        self.consumed_messages
    }

    /// The ledger of timestamps opened since the last drain.
    pub closed spec fn progress_ledger(&self) -> CountMap<T> {
        self.frontier_progress
    }

    /// The buffers as stored, one pair per timestamp, in no meaningful order.
    pub closed spec fn batches(&self) -> Seq<Batch<T, D>> {
        batches_of(self.queues@)
    }

    /// Both ledgers are well formed and count upwards only, and no timestamp
    /// has two buffers.
    pub open spec fn wf(&self) -> bool {
        &&& self.consumed_ledger().wf()
        &&& self.progress_ledger().wf()
        &&& all_positive(self@.consumed)
        &&& all_positive(self@.progress)
        &&& keys_distinct(self.batches())
    }

    /// An empty input queue. Sharing it between the delivery path and the
    /// operator that owns it is left to the caller.
    pub fn new_shared() -> (queue: Self)
        ensures
            queue.wf(),
            queue@.consumed == Map::<T, int>::empty(),
            queue@.progress == Map::<T, int>::empty(),
            queue@.buffers == Map::<T, Seq<D>>::empty(),
    {
        let queue = ScopeInputQueue {
            consumed_messages: CountMap::new(),
            frontier_progress: CountMap::new(),
            queues: Vec::new(),
        };
        proof {
            lemma_as_map_empty::<T, Seq<D>>();
            assert(queue.batches() =~= Seq::<Batch<T, D>>::empty());
        }
        queue
    }

    /// Whether `time` has a buffer.
    pub fn has_buffer(&self, time: &T) -> (found: bool)
        ensures
            found == self@.buffers.contains_key(*time),
    {
        proof {
            lemma_batches_keys(self.queues@);
        }
        match find(&self.queues, time) {
            Some(i) => {
                assert(self.queues@[i as int].0 == *time);
                assert(has_key(self.queues@, *time));
                assert(has_key(self.batches(), *time));
                true
            },
            None => {
                assert(!has_key(self.batches(), *time));
                false
            },
        }
    }

    /// What `deliver_data` asks of its caller: the two counts that a delivery
    /// at `time` raises are below the largest `i64`.
    pub open spec fn room_for(&self, time: T) -> bool {
        &&& count(self@.consumed, time) < i64::MAX
        &&& !self@.buffers.contains_key(time) ==> count(self@.progress, time) < i64::MAX
    }

    /// Tests whether a delivery at `time` can be counted.
    pub fn can_deliver(&self, time: &T) -> (ok: bool)
        requires
            self.wf(),
        ensures
            ok == self.room_for(*time),
    {
        self.consumed_messages.count(time) < i64::MAX && (self.has_buffer(time)
            || self.frontier_progress.count(time) < i64::MAX)
    }

    /// Appends `data` to the buffer of `time`, creating the buffer if there is
    /// none. Every call counts one consumed batch at `time`; the first arrival
    /// at `time` also counts one newly opened timestamp.
    pub fn deliver_data(&mut self, time: &T, data: &Vec<D>)
        requires
            old(self).wf(),
            old(self).room_for(*time),
        ensures
            final(self).wf(),
            final(self)@ == delivered(old(self)@, *time, data@),
    {
        self.consumed_messages.update(*time, 1);
        let ghost stored = self.batches();
        proof {
            lemma_batches_keys(self.queues@);
        }
        let slot = match find(&self.queues, time) {
            Some(i) => {
                proof {
                    lemma_as_map_at(stored, i as int);
                    lemma_as_map_set(stored, i as int, stored[i as int].1);
                    assert(stored.update(i as int, (stored[i as int].0, stored[i as int].1))
                        =~= stored);
                }
                i
            },
            None => {
                self.queues.push((*time, Vec::new()));
                self.frontier_progress.update(*time, 1);
                proof {
                    lemma_as_map_push(stored, *time, Seq::<D>::empty());
                    assert(self.batches() =~= stored.push((*time, Seq::<D>::empty())));
                    lemma_as_map_at(self.batches(), stored.len() as int);
                }
                self.queues.len() - 1
            },
        };
        let ghost opened = self.batches();
        let ghost base = buffered(old(self)@.buffers, *time);
        assert(opened[slot as int] == (*time, base));
        let mut j: usize = 0;
        while j < data.len()
            invariant
                j <= data@.len(),
                slot < opened.len(),
                self.queues@.len() == opened.len(),
                self.batches() == opened.update(slot as int, (*time, base + data@.take(j as int))),
                self.consumed_ledger()@ == ledger_apply(old(self)@.consumed, *time, 1),
                self.consumed_ledger().wf(),
                self.progress_ledger().wf(),
                self.progress_ledger()@ == delivered(old(self)@, *time, data@).progress,
            decreases data@.len() - j,
        {
            let ghost prev = self.queues@;
            let ghost shown = self.batches();
            self.queues[slot].1.push(data[j]);
            proof {
                assert(shown[slot as int] == (prev[slot as int].0, prev[slot as int].1@));
                assert forall|i: int| 0 <= i < prev.len() && i != slot implies self.batches()[i]
                    == opened[i] by {
                    assert(shown[i] == (prev[i].0, prev[i].1@));
                }
                assert(self.queues@.len() == prev.len());
                assert(self.queues@[slot as int].0 == prev[slot as int].0);
                assert(self.queues@[slot as int].1@ == prev[slot as int].1@.push(data@[j as int]));
                assert(forall|i: int|
                    0 <= i < prev.len() && i != slot ==> self.queues@[i] == prev[i]);
                assert(data@.take(j + 1) =~= data@.take(j as int).push(data@[j as int]));
                assert(base + data@.take(j + 1) =~= (base + data@.take(j as int)).push(
                    data@[j as int],
                ));
                assert(self.batches() =~= opened.update(
                    slot as int,
                    (*time, base + data@.take(j + 1)),
                ));
            }
            j += 1;
        }
        proof {
            assert(data@.take(j as int) =~= data@);
            lemma_as_map_set(opened, slot as int, base + data@);
            assert(final(self)@.buffers =~= old(self)@.buffers.insert(*time, base + data@));
        }
    }

    /// Moves everything both ledgers hold to the end of the caller's lists and
    /// leaves the ledgers empty. What is handed over is what happened since the
    /// previous call.
    pub fn pull_progress(&mut self, consumed: &mut Vec<(T, i64)>, progress: &mut Vec<(T, i64)>)
        requires
            old(self).wf(),
        ensures
            final(self).wf(),
            final(self)@ == drained(old(self)@),
            final(consumed)@ == old(consumed)@ + old(self).consumed_ledger().entries(),
            final(progress)@ == old(progress)@ + old(self).progress_ledger().entries(),
            final(self).consumed_ledger().entries() == Seq::<(T, i64)>::empty(),
            final(self).progress_ledger().entries() == Seq::<(T, i64)>::empty(),
    {
        let mut pairs = self.consumed_messages.drain();
        consumed.append(&mut pairs);
        let mut pairs = self.frontier_progress.drain();
        progress.append(&mut pairs);
    }

    /// The timestamps that have a buffer, in no particular order.
    pub fn times(&self) -> (times: Vec<T>)
        ensures
            times@ == self.batches().map_values(|b: Batch<T, D>| b.0),
    {
        let mut times: Vec<T> = Vec::with_capacity(self.queues.len());
        let mut i: usize = 0;
        while i < self.queues.len()
            invariant
                i <= self.queues@.len(),
                times@ == self.batches().map_values(|b: Batch<T, D>| b.0).take(i as int),
            decreases self.queues@.len() - i,
        {
            times.push(self.queues[i].0);
            proof {
                let all = self.batches().map_values(|b: Batch<T, D>| b.0);
                assert(all.take(i + 1) =~= all.take(i as int).push(all[i as int]));
            }
            i += 1;
        }
        proof {
            let all = self.batches().map_values(|b: Batch<T, D>| b.0);
            assert(all.take(i as int) =~= all);
        }
        times
    }

    /// Takes the buffer of `time` out of the queue: `None` if there is none.
    pub fn extract_queue(&mut self, time: &T) -> (buffer: Option<Vec<D>>)
        requires
            old(self).wf(),
        ensures
            final(self).wf(),
            final(self)@ == extracted(old(self)@, *time),
            match buffer {
                Some(data) => old(self)@.buffers.contains_key(*time) && data@ == old(
                    self,
                )@.buffers[*time],
                None => !old(self)@.buffers.contains_key(*time),
            },
    {
        let ghost stored = self.batches();
        proof {
            lemma_batches_keys(self.queues@);
        }
        match find(&self.queues, time) {
            Some(i) => {
                let (_, data) = self.queues.swap_remove(i);
                proof {
                    lemma_as_map_at(stored, i as int);
                    lemma_as_map_swap_remove(stored, i as int);
                    assert(self.batches() =~= stored.update(i as int, stored.last()).drop_last());
                }
                Some(data)
            },
            None => {
                proof {
                    assert(old(self)@.buffers.remove(*time) =~= old(self)@.buffers);
                }
                None
            },
        }
    }
}

/// Right after a drain there is nothing to report: a second drain in a row
/// hands over no pairs at all.
pub proof fn lemma_drain_twice<T: Timestamp, D: Copy>(
    before: ScopeInputQueue<T, D>,
    after: ScopeInputQueue<T, D>,
)
    requires
        after.wf(),
        after@ == drained(before@),
    ensures
        after.consumed_ledger().entries() == Seq::<(T, i64)>::empty(),
        after.progress_ledger().entries() == Seq::<(T, i64)>::empty(),
        drained(after@) == after@,
{
    after.consumed_ledger().lemma_view();
    after.progress_ledger().lemma_view();
    assert(after.consumed_ledger().entries() =~= Seq::<(T, i64)>::empty());
    assert(after.progress_ledger().entries() =~= Seq::<(T, i64)>::empty());
}

} // verus!
