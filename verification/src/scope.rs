//! The contract between an operator and the scheduler that drives it.

use vstd::prelude::*;
use crate::frontier::Antichain;
use crate::timestamp::{PathSummary, Timestamp};

verus! {

/// One list of deltas per port, each read as a sequence.
pub open spec fn lists_of<T>(ports: Seq<Vec<(T, i64)>>) -> Seq<Seq<(T, i64)>> {
    ports.map_values(|list: Vec<(T, i64)>| list@)
}

/// An operator that takes part in the progress protocol.
///
/// A scheduler calls `set_external_summary` once, then `push_external_progress`
/// and `pull_internal_progress` round after round until nothing changes any
/// more. What each call does is for the operator to state; the trait fixes
/// what the scheduler must provide and that the operator stays in order.
pub trait Scope<T: Timestamp, S: PathSummary<T>> {
    /// The operator's own invariant.
    spec fn wf(&self) -> bool;

    /// The number of input ports.
    spec fn inputs_spec(&self) -> nat;

    /// The number of output ports.
    spec fn outputs_spec(&self) -> nat;

    /// The initial guarantees that the operator can take in.
    spec fn admits_guarantee(&self, guarantee: Seq<Seq<(T, i64)>>) -> bool;

    /// The progress updates that the operator can take in.
    spec fn admits_progress(&self, progress: Seq<Seq<(T, i64)>>) -> bool;

    /// A name for messages and diagnostics.
    fn name(&self) -> String;

    fn inputs(&self) -> (n: usize)
        ensures
            n == self.inputs_spec(),
    ;

    fn outputs(&self) -> (n: usize)
        ensures
            n == self.outputs_spec(),
    ;

    /// Tells the operator how its surroundings transform time, and which
    /// timestamps may still reach each of its inputs from outside.
    fn set_external_summary(
        &mut self,
        summaries: Vec<Vec<Antichain<S>>>,
        guarantee: &Vec<Vec<(T, i64)>>,
    )
        requires
            old(self).wf(),
            guarantee@.len() >= old(self).inputs_spec(),
            old(self).admits_guarantee(lists_of(guarantee@)),
        ensures
            final(self).wf(),
            final(self).inputs_spec() == old(self).inputs_spec(),
            final(self).outputs_spec() == old(self).outputs_spec(),
    ;

    /// Reports changes of what may still reach each input from outside.
    fn push_external_progress(&mut self, progress: &Vec<Vec<(T, i64)>>)
        requires
            old(self).wf(),
            progress@.len() >= old(self).inputs_spec(),
            old(self).admits_progress(lists_of(progress@)),
        ensures
            final(self).wf(),
            final(self).inputs_spec() == old(self).inputs_spec(),
            final(self).outputs_spec() == old(self).outputs_spec(),
    ;

    /// Asks the operator what it has consumed, what it has produced, and how
    /// the timestamps it holds have changed, since the previous call. The
    /// answers are appended to the caller's lists, one list per port.
    fn pull_internal_progress(
        &mut self,
        frontier_progress: &mut Vec<Vec<(T, i64)>>,
        messages_consumed: &mut Vec<Vec<(T, i64)>>,
        messages_produced: &mut Vec<Vec<(T, i64)>>,
    )
        requires
            old(self).wf(),
            old(frontier_progress)@.len() >= old(self).outputs_spec(),
            old(messages_consumed)@.len() >= old(self).inputs_spec(),
            old(messages_produced)@.len() >= old(self).outputs_spec(),
        ensures
            final(self).wf(),
            final(self).inputs_spec() == old(self).inputs_spec(),
            final(self).outputs_spec() == old(self).outputs_spec(),
            final(frontier_progress)@.len() == old(frontier_progress)@.len(),
            final(messages_consumed)@.len() == old(messages_consumed)@.len(),
            final(messages_produced)@.len() == old(messages_produced)@.len(),
    ;
}

} // verus!
