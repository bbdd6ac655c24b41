//! The filter operator: it passes on the elements of each batch that a
//! predicate accepts, and passes on no batch at all where none is accepted.

use vstd::prelude::*;
use crate::ports::{batches_of, deliver_all, Batch, TargetPort};
use crate::timestamp::Timestamp;

verus! {

/// `verdicts` holds, element by element, an answer that `logic` can give on `data`.
pub open spec fn judged<D, L: Fn(&D) -> bool>(logic: L, data: Seq<D>, verdicts: Seq<bool>) -> bool {
    &&& verdicts.len() == data.len()
    &&& forall|i: int| 0 <= i < data.len() ==> call_ensures(logic, (&data[i],), #[trigger] verdicts[i])
}

/// The elements of `data` whose verdict is `true`, in their order.
pub open spec fn accepted<D>(data: Seq<D>, verdicts: Seq<bool>) -> Seq<D>
    decreases data.len(),
{
    if data.len() == 0 || verdicts.len() != data.len() {
        Seq::empty()
    } else if verdicts.last() {
        accepted(data.drop_last(), verdicts.drop_last()).push(data.last())
    } else {
        accepted(data.drop_last(), verdicts.drop_last())
    }
}

/// What is passed on of a stream of batches: each batch reduced to its
/// accepted elements, and left out where it has none.
pub open spec fn forwarded<T, D>(stream: Seq<Batch<T, D>>, verdicts: Seq<Seq<bool>>) -> Seq<Batch<T, D>>
    decreases stream.len(),
{
    if stream.len() == 0 || verdicts.len() != stream.len() {
        Seq::empty()
    } else {
        let kept = accepted(stream.last().1, verdicts.last());
        let before = forwarded(stream.drop_last(), verdicts.drop_last());
        if kept.len() > 0 {
            before.push((stream.last().0, kept))
        } else {
            before
        }
    }
}

/// `logic` computes the predicate `keep`: it can give no other answer.
pub open spec fn decides<D, L: Fn(&D) -> bool>(logic: L, keep: spec_fn(D) -> bool) -> bool {
    forall|x: D, r: bool| call_ensures(logic, (&x,), r) ==> r == keep(x)
}

/// Each batch reduced to the elements that satisfy `keep`; empty batches left out.
pub open spec fn filtered<T, D>(stream: Seq<Batch<T, D>>, keep: spec_fn(D) -> bool) -> Seq<Batch<T, D>> {
    stream.map_values(|b: Batch<T, D>| (b.0, b.1.filter(keep))).filter(
        |b: Batch<T, D>| b.1.len() > 0,
    )
}

/// Where the logic computes a predicate, the accepted elements are those that satisfy it.
pub proof fn lemma_accepted_is_filter<D, L: Fn(&D) -> bool>(
    logic: L,
    keep: spec_fn(D) -> bool,
    data: Seq<D>,
    verdicts: Seq<bool>,
)
    requires
        decides(logic, keep),
        judged(logic, data, verdicts),
    ensures
        accepted(data, verdicts) == data.filter(keep),
    decreases data.len(),
{
    reveal(Seq::filter);
    if data.len() > 0 {
        let n = data.len() - 1;
        assert(call_ensures(logic, (&data[n],), verdicts[n]));
        assert(verdicts.last() == keep(data.last()));
        assert(judged(logic, data.drop_last(), verdicts.drop_last())) by {
            assert forall|i: int| 0 <= i < n implies call_ensures(
                logic,
                (&data.drop_last()[i],),
                #[trigger] verdicts.drop_last()[i],
            ) by {
                assert(call_ensures(logic, (&data[i],), verdicts[i]));
            }
        }
        lemma_accepted_is_filter(logic, keep, data.drop_last(), verdicts.drop_last());
    } else {
        assert(data =~= Seq::<D>::empty());
    }
}

/// Where the logic computes a predicate, what is passed on of a stream is the
/// stream filtered by that predicate.
pub proof fn lemma_forwarded_is_filtered<T, D, L: Fn(&D) -> bool>(
    logic: L,
    keep: spec_fn(D) -> bool,
    stream: Seq<Batch<T, D>>,
    verdicts: Seq<Seq<bool>>,
)
    requires
        decides(logic, keep),
        verdicts.len() == stream.len(),
        forall|i: int| 0 <= i < stream.len() ==> judged(logic, (#[trigger] stream[i]).1, verdicts[i]),
    ensures
        forwarded(stream, verdicts) == filtered(stream, keep),
    decreases stream.len(),
{
    let reduce = |b: Batch<T, D>| (b.0, b.1.filter(keep));
    let nonempty = |b: Batch<T, D>| b.1.len() > 0;
    let reduced = stream.map_values(reduce);
    reveal(Seq::filter);
    if stream.len() == 0 {
        assert(reduced =~= Seq::<Batch<T, D>>::empty());
    } else {
        let n = stream.len() - 1;
        assert forall|i: int| 0 <= i < n implies judged(
            logic,
            (#[trigger] stream.drop_last()[i]).1,
            verdicts.drop_last()[i],
        ) by {
            assert(judged(logic, stream[i].1, verdicts[i]));
        }
        lemma_forwarded_is_filtered(logic, keep, stream.drop_last(), verdicts.drop_last());
        assert(judged(logic, stream[n].1, verdicts[n]));
        lemma_accepted_is_filter(logic, keep, stream[n].1, verdicts[n]);
        assert(reduced.drop_last() =~= stream.drop_last().map_values(reduce));
        assert(reduced.last() == (stream.last().0, stream.last().1.filter(keep)));
        assert(nonempty(reduced.last()) == (stream.last().1.filter(keep).len() > 0));
        assert(filtered(stream, keep) == reduced.filter(nonempty));
    }
}

/// The elements of `data` that `logic` accepts, in their order.
pub fn filter_batch<D: Copy, L: Fn(&D) -> bool>(data: &Vec<D>, logic: &L) -> (kept: Vec<D>)
    requires
        forall|x: D| call_requires(*logic, (&x,)),
    ensures
        exists|verdicts: Seq<bool>|
            judged(*logic, data@, verdicts) && kept@ == #[trigger] accepted(data@, verdicts),
{
    let mut kept: Vec<D> = Vec::new();
    let ghost mut verdicts: Seq<bool> = Seq::empty();
    let mut i: usize = 0;
    while i < data.len()
        invariant
            i <= data@.len(),
            forall|x: D| call_requires(*logic, (&x,)),
            judged(*logic, data@.take(i as int), verdicts),
            kept@ == accepted(data@.take(i as int), verdicts),
        decreases data@.len() - i,
    {
        let keep = logic(&data[i]);
        proof {
            let ghost longer = verdicts.push(keep);
            assert(data@.take(i + 1).drop_last() =~= data@.take(i as int));
            assert(longer.drop_last() =~= verdicts);
            assert(judged(*logic, data@.take(i + 1), longer)) by {
                assert forall|j: int| 0 <= j < i + 1 implies call_ensures(
                    *logic,
                    (&data@.take(i + 1)[j],),
                    #[trigger] longer[j],
                ) by {
                    if j < i {
                        assert(data@.take(i as int)[j] == data@.take(i + 1)[j]);
                        assert(verdicts[j] == longer[j]);
                    }
                }
            }
            verdicts = longer;
        }
        if keep {
            kept.push(data[i]);
        }
        i += 1;
    }
    proof {
        assert(data@.take(i as int) =~= data@);
    }
    kept
}

/// A record after one filtered batch: the batch is added unless nothing of it was accepted.
pub open spec fn passed_on<T, D>(log: Seq<Batch<T, D>>, time: T, kept: Seq<D>) -> Seq<Batch<T, D>> {
    if kept.len() > 0 {
        log.push((time, kept))
    } else {
        log
    }
}

/// One step of the filter operator: the elements of `data` that `logic`
/// accepts go to every target as one batch at `time`; where none is accepted,
/// nothing is delivered.
pub fn forward_filtered<T: Timestamp, D: Copy, L: Fn(&D) -> bool, P: TargetPort<T, D>>(
    time: &T,
    data: &Vec<D>,
    logic: &L,
    targets: &mut Vec<P>,
)
    requires
        forall|x: D| call_requires(*logic, (&x,)),
    ensures
        final(targets)@.len() == old(targets)@.len(),
        exists|verdicts: Seq<bool>| #[trigger]
            judged(*logic, data@, verdicts) && forall|j: int|
                0 <= j < old(targets)@.len() ==> (#[trigger] final(targets)@[j]).received()
                    == passed_on(old(targets)@[j].received(), *time, accepted(data@, verdicts)),
{
    let kept = filter_batch(data, logic);
    let ghost verdicts = choose|verdicts: Seq<bool>|
        judged(*logic, data@, verdicts) && kept@ == #[trigger] accepted(data@, verdicts);
    if kept.len() > 0 {
        deliver_all(targets, time, &kept);
    }
    proof {
        assert(judged(*logic, data@, verdicts));
    }
}

/// Applies a predicate to a stream of data.
pub trait FilterExt<D: Copy>: Sized {
    /// The stream of what `logic` accepts.
    fn filter<L: Fn(&D) -> bool + 'static>(&self, logic: L) -> Self
        requires
            forall|x: D| call_requires(logic, (&x,)),
    ;
}

/// A recorded stream of batches is filtered batch by batch; a batch of which
/// nothing is accepted is not passed on.
impl<T: Timestamp, D: Copy> FilterExt<D> for Vec<(T, Vec<D>)> {
    fn filter<L: Fn(&D) -> bool + 'static>(&self, logic: L) -> (passed: Self)
        ensures
            exists|verdicts: Seq<Seq<bool>>|
                verdicts.len() == self@.len() && (forall|i: int|
                    0 <= i < self@.len() ==> judged(
                        logic,
                        (#[trigger] batches_of(self@)[i]).1,
                        verdicts[i],
                    )) && batches_of(passed@) == #[trigger] forwarded(batches_of(self@), verdicts),
    {
        let mut targets: Vec<Vec<(T, Vec<D>)>> = Vec::new();
        targets.push(Vec::new());
        let ghost stream = batches_of(self@);
        let ghost mut verdicts: Seq<Seq<bool>> = Seq::empty();
        assert(batches_of(targets@[0]@) =~= Seq::<Batch<T, D>>::empty());
        let mut i: usize = 0;
        while i < self.len()
            invariant
                i <= self@.len(),
                stream == batches_of(self@),
                forall|x: D| call_requires(logic, (&x,)),
                verdicts.len() == i,
                forall|j: int|
                    0 <= j < i ==> judged(logic, (#[trigger] stream[j]).1, verdicts[j]),
                targets@.len() == 1,
                batches_of(targets@[0]@) == forwarded(stream.take(i as int), verdicts),
            decreases self@.len() - i,
        {
            let ghost before = targets@[0].received();
            forward_filtered(&self[i].0, &self[i].1, &logic, &mut targets);
            proof {
                let one = choose|one: Seq<bool>| #[trigger]
                    judged(logic, self@[i as int].1@, one) && forall|j: int|
                        0 <= j < 1 ==> (#[trigger] targets@[j]).received() == passed_on(
                            before,
                            self@[i as int].0,
                            accepted(self@[i as int].1@, one),
                        );
                assert(targets@[0].received() == passed_on(
                    before,
                    self@[i as int].0,
                    accepted(self@[i as int].1@, one),
                ));
                let longer = verdicts.push(one);
                assert(stream.take(i + 1).drop_last() =~= stream.take(i as int));
                assert(longer.drop_last() =~= verdicts);
                assert(stream.take(i + 1).last() == stream[i as int]);
                assert(stream[i as int] == (self@[i as int].0, self@[i as int].1@));
                assert forall|j: int| 0 <= j < i + 1 implies judged(
                    logic,
                    (#[trigger] stream[j]).1,
                    longer[j],
                ) by {
                    if j < i {
                        assert(longer[j] == verdicts[j]);
                    }
                }
                verdicts = longer;
            }
            i += 1;
        }
        proof {
            assert(stream.take(i as int) =~= stream);
        }
        targets.pop().unwrap()
    }
}

} // verus!
