//! The two capabilities that connect one operator's output to another's input.

use vstd::prelude::*;
use crate::keyed::{has_key, position};
use crate::timestamp::Timestamp;

verus! {

/// One batch of data with the time it was sent at, as contracts see it.
pub type Batch<T, D> = (T, Seq<D>);

/// The data plane's push interface: something that batches can be delivered to.
///
/// `received` is the record of every delivery made so far, oldest first; one
/// call of `deliver_data` adds exactly one item to it.
pub trait TargetPort<T: Timestamp, D: Copy> {
    /// The deliveries made to this port, in the order of the calls.
    spec fn received(&self) -> Seq<Batch<T, D>>;

    /// Hands the batch `data`, sent at `time`, to this port.
    fn deliver_data(&mut self, time: &T, data: &Vec<D>)
        ensures
            final(self).received() == old(self).received().push((*time, data@)),
    ;
}

/// The subscription interface of a producer: a consumer registers the port
/// that the producer's output is to be delivered to.
pub trait SourcePort<T: Timestamp, D: Copy, P: TargetPort<T, D>> {
    /// The ports registered so far, in the order of registration.
    spec fn registered(&self) -> Seq<P>;

    /// Subscribes `target` to everything this producer sends from now on.
    fn register_interest(&mut self, target: P)
        ensures
            final(self).registered() == old(self).registered().push(target),
    ;
}

/// The stored batches as contracts see them: each vector of data by its view.
pub open spec fn batches_of<T, D>(stored: Seq<(T, Vec<D>)>) -> Seq<Batch<T, D>> {
    stored.map_values(|b: (T, Vec<D>)| (b.0, b.1@))
}

/// Viewing the data changes no key.
pub proof fn lemma_batches_keys<T, D>(stored: Seq<(T, Vec<D>)>)
    ensures
        batches_of(stored).len() == stored.len(),
        forall|i: int| 0 <= i < stored.len() ==> (#[trigger] batches_of(stored)[i]).0 == stored[i].0,
        forall|k: T| has_key(batches_of(stored), k) <==> has_key(stored, k),
{
    let shown = batches_of(stored);
    assert forall|k: T| has_key(shown, k) <==> has_key(stored, k) by {
        if has_key(shown, k) {
            let i = position(shown, k);
            assert(stored[i].0 == k);
        }
        if has_key(stored, k) {
            let i = position(stored, k);
            assert(shown[i].0 == k);
        }
    }
}

/// A copy of a batch of data.
pub fn copy_batch<D: Copy>(data: &Vec<D>) -> (copy: Vec<D>)
    ensures
        copy@ == data@,
{
    let mut copy: Vec<D> = Vec::with_capacity(data.len());
    let mut i: usize = 0;
    while i < data.len()
        invariant
            i <= data@.len(),
            copy@ == data@.take(i as int),
        decreases data@.len() - i,
    {
        copy.push(data[i]);
        proof {
            assert(data@.take(i + 1) =~= data@.take(i as int).push(data@[i as int]));
        }
        i += 1;
    }
    proof {
        assert(data@.take(i as int) =~= data@);
    }
    copy
}

/// Delivers one batch to every port of a list: a broadcast.
pub fn deliver_all<T: Timestamp, D: Copy, P: TargetPort<T, D>>(
    targets: &mut Vec<P>,
    time: &T,
    data: &Vec<D>,
)
    ensures
        final(targets)@.len() == old(targets)@.len(),
        forall|j: int|
            0 <= j < old(targets)@.len() ==> (#[trigger] final(targets)@[j]).received() == old(
                targets,
            )@[j].received().push((*time, data@)),
{
    let mut j: usize = 0;
    while j < targets.len()
        invariant
            j <= targets@.len(),
            targets@.len() == old(targets)@.len(),
            forall|a: int|
                0 <= a < j ==> (#[trigger] targets@[a]).received() == old(targets)@[a].received().push(
                    (*time, data@),
                ),
            forall|a: int| j <= a < targets@.len() ==> #[trigger] targets@[a] == old(targets)@[a],
        decreases targets@.len() - j,
    {
        let ghost before = targets@;
        targets[j].deliver_data(time, data);
        proof {
            assert(forall|a: int| 0 <= a < before.len() && a != j ==> targets@[a] == before[a]);
        }
        j += 1;
    }
}

/// A vector of batches is a port that keeps everything delivered to it.
impl<T: Timestamp, D: Copy> TargetPort<T, D> for Vec<(T, Vec<D>)> {
    open spec fn received(&self) -> Seq<Batch<T, D>> {
        batches_of(self@)
    }

    fn deliver_data(&mut self, time: &T, data: &Vec<D>) {
        let copy = copy_batch(data);
        self.push((*time, copy));
        proof {
            assert(batches_of(self@) =~= batches_of(old(self)@).push((*time, data@)));
        }
    }
}

/// A vector of ports is a producer's output: registering appends to it.
impl<T: Timestamp, D: Copy, P: TargetPort<T, D>> SourcePort<T, D, P> for Vec<P> {
    open spec fn registered(&self) -> Seq<P> {
        self@
    }

    fn register_interest(&mut self, target: P) {
        self.push(target);
    }
}

/// A port that hands every delivery to a function: the way for code outside
/// this crate to receive what an operator sends.
///
/// `received` is the port's own note of the deliveries made to it, kept as
/// ghost state. The contract of `deliver_data` says that one delivery is noted
/// and that the function was called on the batch and returned. It does not
/// say how often the function was called: a call of an arbitrary function
/// leaves no trace that a contract could count. That each delivery is exactly
/// one call is true of the body below by reading, not by proof.
pub struct CallbackPort<T: Timestamp, D: Copy, F: Fn(&T, &Vec<D>)> {
    callback: F,
    log: Ghost<Seq<Batch<T, D>>>,
}

impl<T: Timestamp, D: Copy, F: Fn(&T, &Vec<D>)> CallbackPort<T, D, F> {
    /// The function behind the port.
    pub closed spec fn callback(&self) -> F {
        self.callback
    }

    /// The function can be called on every batch.
    #[verifier::type_invariant]
    spec fn callable(self) -> bool {
        forall|time: T, data: Vec<D>| call_requires(self.callback, (&time, &data))
    }

    /// A port that calls `callback` on each batch delivered to it.
    pub fn new(callback: F) -> (port: Self)
        requires
            forall|time: T, data: Vec<D>| call_requires(callback, (&time, &data)),
        ensures
            port.callback() == callback,
            port.received() == Seq::<Batch<T, D>>::empty(),
    {
        CallbackPort { callback, log: Ghost(Seq::empty()) }
    }
}

impl<T: Timestamp, D: Copy, F: Fn(&T, &Vec<D>)> TargetPort<T, D> for CallbackPort<T, D, F> {
    closed spec fn received(&self) -> Seq<Batch<T, D>> {
        self.log@
    }

    /// Calls the function on the batch and notes the delivery.
    fn deliver_data(&mut self, time: &T, data: &Vec<D>)
        ensures
            final(self).callback() == old(self).callback(),
            call_ensures(old(self).callback(), (time, data), ()),
    {
        proof {
            use_type_invariant(&*self);
        }
        (self.callback)(time, data);
        self.log = Ghost(self.log@.push((*time, data@)));
    }
}

} // verus!
