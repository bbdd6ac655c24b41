use dataflow_progress::frontier::Antichain;
use dataflow_progress::input_queue::ScopeInputQueue;
use std::cell::RefCell;
use std::rc::Rc;

use dataflow_progress::ports::{copy_batch, deliver_all, CallbackPort, SourcePort, TargetPort};
use dataflow_progress::queue::{QueueExtensionTrait, QueueScope};
use dataflow_progress::scope::Scope;
use dataflow_progress::timestamp::{Identity, Product};

type Log = Vec<(u64, Vec<char>)>;
type Queue = QueueScope<u64, Identity, char, Log>;

fn sorted(pairs: &Vec<(u64, i64)>) -> Vec<(u64, i64)> {
    let mut copy = pairs.clone();
    copy.sort();
    copy
}

fn no_summaries() -> Vec<Vec<Antichain<Identity>>> {
    Vec::new()
}

struct Report {
    frontier_progress: Vec<Vec<(u64, i64)>>,
    messages_consumed: Vec<Vec<(u64, i64)>>,
    messages_produced: Vec<Vec<(u64, i64)>>,
}

fn pull(queue: &mut Queue) -> Report {
    let mut report = Report {
        frontier_progress: vec![Vec::new()],
        messages_consumed: vec![Vec::new()],
        messages_produced: vec![Vec::new()],
    };
    queue.pull_internal_progress(
        &mut report.frontier_progress,
        &mut report.messages_consumed,
        &mut report.messages_produced,
    );
    report
}

// ---- the input queue ----

#[test]
fn new_shared_is_empty() {
    let mut input: ScopeInputQueue<u64, char> = ScopeInputQueue::new_shared();
    assert!(input.times().is_empty());
    assert_eq!(input.extract_queue(&0), None);
    let mut consumed = Vec::new();
    let mut progress = Vec::new();
    input.pull_progress(&mut consumed, &mut progress);
    assert!(consumed.is_empty());
    assert!(progress.is_empty());
}

#[test]
fn first_arrival_opens_the_timestamp() {
    let mut input: ScopeInputQueue<u64, char> = ScopeInputQueue::new_shared();
    input.deliver_data(&3, &vec!['a', 'b']);
    let mut consumed = Vec::new();
    let mut progress = Vec::new();
    input.pull_progress(&mut consumed, &mut progress);
    assert_eq!(consumed, vec![(3, 1)]);
    assert_eq!(progress, vec![(3, 1)]);
    assert_eq!(input.times(), vec![3]);
    assert_eq!(input.extract_queue(&3), Some(vec!['a', 'b']));
}

#[test]
fn later_arrivals_count_as_consumed_only() {
    let mut input: ScopeInputQueue<u64, char> = ScopeInputQueue::new_shared();
    input.deliver_data(&3, &vec!['a']);
    input.deliver_data(&3, &vec!['b', 'c']);
    input.deliver_data(&3, &vec![]);
    let mut consumed = Vec::new();
    let mut progress = Vec::new();
    input.pull_progress(&mut consumed, &mut progress);
    assert_eq!(consumed, vec![(3, 3)]);
    assert_eq!(progress, vec![(3, 1)]);
    assert_eq!(input.extract_queue(&3), Some(vec!['a', 'b', 'c']));
}

#[test]
fn empty_batch_still_creates_the_buffer() {
    let mut input: ScopeInputQueue<u64, char> = ScopeInputQueue::new_shared();
    input.deliver_data(&8, &vec![]);
    assert_eq!(input.times(), vec![8]);
    assert_eq!(input.extract_queue(&8), Some(vec![]));
    assert_eq!(input.extract_queue(&8), None);
}

#[test]
fn buffers_are_kept_apart_by_timestamp() {
    let mut input: ScopeInputQueue<u64, char> = ScopeInputQueue::new_shared();
    input.deliver_data(&1, &vec!['a']);
    input.deliver_data(&2, &vec!['x']);
    input.deliver_data(&1, &vec!['b']);
    let mut times = input.times();
    times.sort();
    assert_eq!(times, vec![1, 2]);
    assert_eq!(input.extract_queue(&2), Some(vec!['x']));
    assert_eq!(input.extract_queue(&1), Some(vec!['a', 'b']));
    assert!(input.times().is_empty());
}

#[test]
fn extract_queue_signals_absence() {
    let mut input: ScopeInputQueue<u64, char> = ScopeInputQueue::new_shared();
    input.deliver_data(&1, &vec!['a']);
    assert_eq!(input.extract_queue(&2), None);
    assert_eq!(input.times(), vec![1]);
}

#[test]
fn extract_queue_leaves_the_ledgers_alone() {
    let mut input: ScopeInputQueue<u64, char> = ScopeInputQueue::new_shared();
    input.deliver_data(&1, &vec!['a']);
    input.extract_queue(&1);
    let mut consumed = Vec::new();
    let mut progress = Vec::new();
    input.pull_progress(&mut consumed, &mut progress);
    assert_eq!(consumed, vec![(1, 1)]);
    assert_eq!(progress, vec![(1, 1)]);
}

#[test]
fn arrival_after_extraction_opens_the_timestamp_again() {
    let mut input: ScopeInputQueue<u64, char> = ScopeInputQueue::new_shared();
    input.deliver_data(&1, &vec!['a']);
    input.extract_queue(&1);
    input.deliver_data(&1, &vec!['b']);
    let mut consumed = Vec::new();
    let mut progress = Vec::new();
    input.pull_progress(&mut consumed, &mut progress);
    assert_eq!(consumed, vec![(1, 2)]);
    assert_eq!(progress, vec![(1, 2)]);
    assert_eq!(input.extract_queue(&1), Some(vec!['b']));
}

#[test]
fn has_buffer_follows_delivery_and_extraction() {
    let mut input: ScopeInputQueue<u64, char> = ScopeInputQueue::new_shared();
    assert!(!input.has_buffer(&1));
    input.deliver_data(&1, &vec![]);
    assert!(input.has_buffer(&1));
    assert!(!input.has_buffer(&2));
    input.extract_queue(&1);
    assert!(!input.has_buffer(&1));
}

#[test]
fn can_deliver_while_counts_have_room() {
    let mut input: ScopeInputQueue<u64, char> = ScopeInputQueue::new_shared();
    assert!(input.can_deliver(&1));
    input.deliver_data(&1, &vec!['a']);
    assert!(input.can_deliver(&1));
    assert!(input.can_deliver(&2));
}

#[test]
fn pull_progress_appends_to_what_the_caller_holds() {
    let mut input: ScopeInputQueue<u64, char> = ScopeInputQueue::new_shared();
    input.deliver_data(&4, &vec!['a']);
    let mut consumed = vec![(9, 9)];
    let mut progress = vec![(8, 8)];
    input.pull_progress(&mut consumed, &mut progress);
    assert_eq!(consumed, vec![(9, 9), (4, 1)]);
    assert_eq!(progress, vec![(8, 8), (4, 1)]);
}

#[test]
fn second_pull_progress_in_a_row_returns_nothing() {
    let mut input: ScopeInputQueue<u64, char> = ScopeInputQueue::new_shared();
    input.deliver_data(&1, &vec!['a']);
    input.deliver_data(&2, &vec!['b']);
    let mut consumed = Vec::new();
    let mut progress = Vec::new();
    input.pull_progress(&mut consumed, &mut progress);
    assert_eq!(sorted(&consumed), vec![(1, 1), (2, 1)]);
    assert_eq!(sorted(&progress), vec![(1, 1), (2, 1)]);
    let mut consumed = Vec::new();
    let mut progress = Vec::new();
    input.pull_progress(&mut consumed, &mut progress);
    assert!(consumed.is_empty());
    assert!(progress.is_empty());
    // the buffers are still there
    let mut times = input.times();
    times.sort();
    assert_eq!(times, vec![1, 2]);
}

#[test]
fn pull_progress_reports_only_what_came_since() {
    let mut input: ScopeInputQueue<u64, char> = ScopeInputQueue::new_shared();
    input.deliver_data(&1, &vec!['a']);
    let mut consumed = Vec::new();
    let mut progress = Vec::new();
    input.pull_progress(&mut consumed, &mut progress);
    input.deliver_data(&1, &vec!['b']);
    let mut consumed = Vec::new();
    let mut progress = Vec::new();
    input.pull_progress(&mut consumed, &mut progress);
    assert_eq!(consumed, vec![(1, 1)]);
    assert!(progress.is_empty());
}

// ---- ports ----

#[test]
fn a_vector_of_batches_records_deliveries() {
    let mut log: Log = Vec::new();
    log.deliver_data(&2, &vec!['a']);
    log.deliver_data(&1, &vec![]);
    log.deliver_data(&2, &vec!['b', 'c']);
    assert_eq!(log, vec![(2, vec!['a']), (1, vec![]), (2, vec!['b', 'c'])]);
}

#[test]
fn a_vector_of_ports_registers_by_appending() {
    let mut output: Vec<Log> = Vec::new();
    output.register_interest(vec![(1, vec!['a'])]);
    output.register_interest(Vec::new());
    assert_eq!(output, vec![vec![(1, vec!['a'])], vec![]]);
}

#[test]
fn copy_batch_copies() {
    assert_eq!(copy_batch(&vec![1, 2, 3]), vec![1, 2, 3]);
    assert_eq!(copy_batch::<u8>(&vec![]), Vec::<u8>::new());
}

#[test]
fn deliver_all_reaches_every_port() {
    let mut targets: Vec<Log> = vec![vec![(1, vec!['x'])], vec![], vec![]];
    deliver_all(&mut targets, &4, &vec!['a', 'b']);
    assert_eq!(
        targets,
        vec![
            vec![(1, vec!['x']), (4, vec!['a', 'b'])],
            vec![(4, vec!['a', 'b'])],
            vec![(4, vec!['a', 'b'])],
        ]
    );
    let mut none: Vec<Log> = Vec::new();
    deliver_all(&mut none, &4, &vec!['a']);
    assert!(none.is_empty());
}

#[test]
fn callback_port_calls_its_function_once_per_delivery() {
    let seen: Rc<RefCell<Log>> = Rc::new(RefCell::new(Vec::new()));
    let sink = seen.clone();
    let mut port = CallbackPort::new(move |time: &u64, data: &Vec<char>| {
        sink.borrow_mut().push((*time, data.clone()));
    });
    port.deliver_data(&3, &vec!['a']);
    port.deliver_data(&1, &vec![]);
    assert_eq!(*seen.borrow(), vec![(3, vec!['a']), (1, vec![])]);
}

#[test]
fn queue_sends_through_callback_ports() {
    let seen: Rc<RefCell<Log>> = Rc::new(RefCell::new(Vec::new()));
    let mut queue = QueueScope::<u64, Identity, char, _>::new();
    for _ in 0..2 {
        let sink = seen.clone();
        queue.register_interest(CallbackPort::new(move |time: &u64, data: &Vec<char>| {
            sink.borrow_mut().push((*time, data.clone()));
        }));
    }
    queue.deliver_data(&3, &vec!['a']);
    queue.push_external_progress(&vec![vec![]]);
    assert!(seen.borrow().is_empty());
    let mut frontier_progress = vec![Vec::new()];
    let mut messages_consumed = vec![Vec::new()];
    let mut messages_produced = vec![Vec::new()];
    queue.pull_internal_progress(&mut frontier_progress, &mut messages_consumed, &mut messages_produced);
    assert_eq!(*seen.borrow(), vec![(3, vec!['a']), (3, vec!['a'])]);
    assert_eq!(messages_produced, vec![vec![(3, 1)]]);
}

// ---- the queue operator ----

#[test]
fn queue_describes_itself() {
    let queue: Queue = QueueScope::new();
    assert_eq!(queue.name(), "Queue");
    assert_eq!(queue.inputs(), 1);
    assert_eq!(queue.outputs(), 1);
    assert!(queue.output().is_empty());
}

#[test]
fn register_interest_adds_targets_in_order() {
    let mut queue: Queue = QueueScope::new();
    queue.register_interest(vec![(1, vec!['x'])]);
    queue.register_interest(Vec::new());
    assert_eq!(queue.output(), &vec![vec![(1, vec!['x'])], vec![]]);
    assert_eq!(queue.into_output().len(), 2);
}

#[test]
fn data_is_released_once_the_guarantee_is_retired() {
    let mut queue: Queue = QueueScope::new();
    queue.register_interest(Vec::new());
    queue.register_interest(Vec::new());
    queue.deliver_data(&1, &vec!['d']);
    queue.set_external_summary(no_summaries(), &vec![vec![(1, 1)]]);
    queue.push_external_progress(&vec![vec![(1, -1)]]);
    let report = pull(&mut queue);
    assert_eq!(queue.output(), &vec![vec![(1, vec!['d'])], vec![(1, vec!['d'])]]);
    assert_eq!(report.messages_produced, vec![vec![(1, 1)]]);
    assert!(report.frontier_progress[0].contains(&(1, -1)));
    assert_eq!(report.frontier_progress, vec![vec![(1, 1), (1, -1)]]);
    assert_eq!(report.messages_consumed, vec![vec![(1, 1)]]);
}

#[test]
fn nothing_is_sent_while_the_guarantee_holds() {
    let mut queue: Queue = QueueScope::new();
    queue.register_interest(Vec::new());
    queue.set_external_summary(no_summaries(), &vec![vec![(1, 1)]]);
    queue.deliver_data(&1, &vec!['a']);
    queue.deliver_data(&5, &vec!['b']);
    queue.push_external_progress(&vec![vec![]]);
    let report = pull(&mut queue);
    assert_eq!(queue.output(), &vec![Vec::new()]);
    assert!(report.messages_produced[0].is_empty());
    assert_eq!(sorted(&report.messages_consumed[0]), vec![(1, 1), (5, 1)]);
    assert_eq!(sorted(&report.frontier_progress[0]), vec![(1, 1), (5, 1)]);
    // the guarantee moves on to 3: 1 is released, 5 is still held back
    queue.push_external_progress(&vec![vec![(3, 1), (1, -1)]]);
    let report = pull(&mut queue);
    assert_eq!(queue.output(), &vec![vec![(1, vec!['a'])]]);
    assert_eq!(report.messages_produced, vec![vec![(1, 1)]]);
    assert_eq!(report.frontier_progress, vec![vec![(1, -1)]]);
    assert!(report.messages_consumed[0].is_empty());
    // the guarantee is retired: 5 follows
    queue.push_external_progress(&vec![vec![(3, -1)]]);
    let report = pull(&mut queue);
    assert_eq!(queue.output(), &vec![vec![(1, vec!['a']), (5, vec!['b'])]]);
    assert_eq!(report.messages_produced, vec![vec![(5, 1)]]);
    assert_eq!(report.frontier_progress, vec![vec![(5, -1)]]);
}

#[test]
fn an_entry_at_the_same_timestamp_holds_data_back() {
    let mut queue: Queue = QueueScope::new();
    queue.register_interest(Vec::new());
    queue.deliver_data(&4, &vec!['a']);
    queue.push_external_progress(&vec![vec![(4, 1)]]);
    pull(&mut queue);
    assert_eq!(queue.output(), &vec![Vec::new()]);
}

#[test]
fn a_later_entry_holds_nothing_back() {
    let mut queue: Queue = QueueScope::new();
    queue.register_interest(Vec::new());
    queue.deliver_data(&4, &vec!['a']);
    queue.push_external_progress(&vec![vec![(5, 1)]]);
    pull(&mut queue);
    assert_eq!(queue.output(), &vec![vec![(4, vec!['a'])]]);
}

#[test]
fn a_negative_entry_holds_data_back_too() {
    let mut queue: Queue = QueueScope::new();
    queue.register_interest(Vec::new());
    queue.deliver_data(&4, &vec!['a']);
    queue.push_external_progress(&vec![vec![(2, -1)]]);
    pull(&mut queue);
    assert_eq!(queue.output(), &vec![Vec::new()]);
    queue.push_external_progress(&vec![vec![(2, 1)]]);
    pull(&mut queue);
    assert_eq!(queue.output(), &vec![vec![(4, vec!['a'])]]);
}

#[test]
fn safety_is_judged_afresh_on_every_push() {
    let mut queue: Queue = QueueScope::new();
    queue.register_interest(Vec::new());
    queue.set_external_summary(no_summaries(), &vec![vec![(0, 1)]]);
    queue.deliver_data(&4, &vec!['a']);
    queue.push_external_progress(&vec![vec![]]);
    pull(&mut queue);
    assert_eq!(queue.output(), &vec![Vec::new()]);
    queue.push_external_progress(&vec![vec![(0, -1)]]);
    pull(&mut queue);
    assert_eq!(queue.output(), &vec![vec![(4, vec!['a'])]]);
}

#[test]
fn staged_data_is_sent_even_if_the_guarantee_returns() {
    let mut queue: Queue = QueueScope::new();
    queue.register_interest(Vec::new());
    queue.deliver_data(&4, &vec!['a']);
    queue.push_external_progress(&vec![vec![]]);
    // staged now; a guarantee that comes back does not take it out again
    queue.push_external_progress(&vec![vec![(1, 1)]]);
    pull(&mut queue);
    assert_eq!(queue.output(), &vec![vec![(4, vec!['a'])]]);
}

#[test]
fn incomparable_guarantee_does_not_hold_back() {
    let mut queue: QueueScope<Product<u64, u64>, Identity, char, Vec<(Product<u64, u64>, Vec<char>)>> =
        QueueScope::new();
    queue.register_interest(Vec::new());
    queue.set_external_summary(Vec::new(), &vec![vec![(Product::new(1, 5), 1)]]);
    queue.deliver_data(&Product::new(2, 3), &vec!['a']);
    queue.deliver_data(&Product::new(2, 5), &vec!['b']);
    queue.push_external_progress(&vec![vec![]]);
    let mut frontier_progress = vec![Vec::new()];
    let mut messages_consumed = vec![Vec::new()];
    let mut messages_produced = vec![Vec::new()];
    queue.pull_internal_progress(&mut frontier_progress, &mut messages_consumed, &mut messages_produced);
    let sent: Vec<((u64, u64), Vec<char>)> =
        queue.output()[0].iter().map(|(t, d)| ((t.outer, t.inner), d.clone())).collect();
    assert_eq!(sent, vec![((2, 3), vec!['a'])]);
    let produced: Vec<((u64, u64), i64)> =
        messages_produced[0].iter().map(|(t, n)| ((t.outer, t.inner), *n)).collect();
    assert_eq!(produced, vec![((2, 3), 1)]);
}

#[test]
fn second_pull_in_a_row_sends_nothing() {
    let mut queue: Queue = QueueScope::new();
    queue.register_interest(Vec::new());
    queue.deliver_data(&1, &vec!['a']);
    queue.deliver_data(&2, &vec!['b']);
    queue.push_external_progress(&vec![vec![]]);
    let first = pull(&mut queue);
    assert_eq!(sorted(&first.messages_produced[0]), vec![(1, 1), (2, 1)]);
    let mut got = queue.output()[0].clone();
    got.sort();
    assert_eq!(got, vec![(1, vec!['a']), (2, vec!['b'])]);
    let second = pull(&mut queue);
    assert!(second.messages_produced[0].is_empty());
    assert!(second.messages_consumed[0].is_empty());
    assert!(second.frontier_progress[0].is_empty());
    assert_eq!(queue.output()[0].len(), 2);
    // and a push without new data stages nothing
    queue.push_external_progress(&vec![vec![]]);
    let third = pull(&mut queue);
    assert!(third.messages_produced[0].is_empty());
    assert_eq!(queue.output()[0].len(), 2);
}

#[test]
fn every_target_gets_each_batch_and_one_message_is_counted() {
    let mut queue: Queue = QueueScope::new();
    for _ in 0..3 {
        queue.register_interest(Vec::new());
    }
    queue.deliver_data(&7, &vec!['a', 'b']);
    queue.push_external_progress(&vec![vec![]]);
    let report = pull(&mut queue);
    assert_eq!(queue.output().len(), 3);
    for log in queue.output() {
        assert_eq!(log, &vec![(7, vec!['a', 'b'])]);
    }
    assert_eq!(report.messages_produced, vec![vec![(7, 1)]]);
    assert_eq!(report.frontier_progress, vec![vec![(7, 1), (7, -1)]]);
}

#[test]
fn without_targets_the_message_is_still_counted() {
    let mut queue: Queue = QueueScope::new();
    queue.deliver_data(&7, &vec!['a']);
    queue.push_external_progress(&vec![vec![]]);
    let report = pull(&mut queue);
    assert_eq!(report.messages_produced, vec![vec![(7, 1)]]);
    assert_eq!(report.frontier_progress, vec![vec![(7, 1), (7, -1)]]);
    let again = pull(&mut queue);
    assert!(again.messages_produced[0].is_empty());
}

#[test]
fn batches_of_one_timestamp_leave_as_one() {
    let mut queue: Queue = QueueScope::new();
    queue.register_interest(Vec::new());
    queue.deliver_data(&7, &vec!['a']);
    queue.deliver_data(&7, &vec!['b']);
    queue.push_external_progress(&vec![vec![]]);
    let report = pull(&mut queue);
    assert_eq!(queue.output(), &vec![vec![(7, vec!['a', 'b'])]]);
    assert_eq!(report.messages_consumed, vec![vec![(7, 2)]]);
    assert_eq!(report.messages_produced, vec![vec![(7, 1)]]);
}

#[test]
fn staging_again_adds_to_what_was_staged() {
    let mut queue: Queue = QueueScope::new();
    queue.register_interest(Vec::new());
    queue.deliver_data(&7, &vec!['a']);
    queue.push_external_progress(&vec![vec![]]);
    queue.deliver_data(&7, &vec!['b']);
    queue.push_external_progress(&vec![vec![]]);
    let report = pull(&mut queue);
    assert_eq!(queue.output(), &vec![vec![(7, vec!['a', 'b'])]]);
    assert_eq!(report.messages_produced, vec![vec![(7, 1)]]);
    assert_eq!(report.messages_consumed, vec![vec![(7, 2)]]);
}

#[test]
fn staging_again_loses_nothing_at_other_timestamps() {
    let mut queue: Queue = QueueScope::new();
    queue.register_interest(Vec::new());
    queue.deliver_data(&1, &vec!['x']);
    queue.deliver_data(&7, &vec!['a']);
    queue.push_external_progress(&vec![vec![]]);
    queue.deliver_data(&7, &vec!['b', 'c']);
    queue.deliver_data(&9, &vec![]);
    queue.push_external_progress(&vec![vec![]]);
    queue.deliver_data(&7, &vec!['d']);
    queue.push_external_progress(&vec![vec![(7, 1)]]);
    pull(&mut queue);
    let mut got = queue.output()[0].clone();
    got.sort();
    assert_eq!(got, vec![(1, vec!['x']), (7, vec!['a', 'b', 'c']), (9, vec![])]);
    // the last batch at 7 is held back until the guarantee is retired
    queue.push_external_progress(&vec![vec![(7, -1)]]);
    pull(&mut queue);
    assert_eq!(queue.output()[0].len(), 4);
    assert_eq!(queue.output()[0][3], (7, vec!['d']));
}

#[test]
fn a_held_back_timestamp_is_not_reported() {
    let mut queue: Queue = QueueScope::new();
    queue.register_interest(Vec::new());
    queue.set_external_summary(no_summaries(), &vec![vec![(3, 1)]]);
    queue.deliver_data(&2, &vec!['a']);
    queue.deliver_data(&3, &vec!['b']);
    queue.push_external_progress(&vec![vec![]]);
    let report = pull(&mut queue);
    assert_eq!(queue.output(), &vec![vec![(2, vec!['a'])]]);
    assert_eq!(report.messages_produced, vec![vec![(2, 1)]]);
    assert!(!report.frontier_progress[0].contains(&(3, -1)));
    assert_eq!(sorted(&report.frontier_progress[0]), vec![(2, -1), (2, 1), (3, 1)]);
}

#[test]
fn two_deltas_in_one_push_act_as_their_sum() {
    let mut twice: Queue = QueueScope::new();
    let mut once: Queue = QueueScope::new();
    for queue in [&mut twice, &mut once] {
        queue.register_interest(Vec::new());
        queue.set_external_summary(no_summaries(), &vec![vec![(1, 2)]]);
        queue.deliver_data(&1, &vec!['a']);
        queue.deliver_data(&0, &vec!['z']);
    }
    twice.push_external_progress(&vec![vec![(1, 3), (1, -5)]]);
    once.push_external_progress(&vec![vec![(1, -2)]]);
    pull(&mut twice);
    pull(&mut once);
    let mut got = twice.output()[0].clone();
    got.sort();
    assert_eq!(got, vec![(0, vec!['z']), (1, vec!['a'])]);
    let mut same = once.output()[0].clone();
    same.sort();
    assert_eq!(got, same);
}

#[test]
fn pull_touches_only_the_first_list_of_each_report() {
    let mut queue: Queue = QueueScope::new();
    queue.register_interest(Vec::new());
    queue.deliver_data(&7, &vec!['a']);
    queue.push_external_progress(&vec![vec![], vec![(1, 1)]]);
    let mut frontier_progress = vec![vec![(0, 5)], vec![(9, 9)]];
    let mut messages_consumed = vec![vec![], vec![(9, 9)]];
    let mut messages_produced = vec![vec![(0, 6)], vec![(9, 9)], vec![]];
    queue.pull_internal_progress(&mut frontier_progress, &mut messages_consumed, &mut messages_produced);
    assert_eq!(frontier_progress, vec![vec![(0, 5), (7, 1), (7, -1)], vec![(9, 9)]]);
    assert_eq!(messages_consumed, vec![vec![(7, 1)], vec![(9, 9)]]);
    assert_eq!(messages_produced, vec![vec![(0, 6), (7, 1)], vec![(9, 9)], vec![]]);
}

#[test]
fn admits_tests_what_the_guarantee_can_take() {
    let mut queue: Queue = QueueScope::new();
    assert!(queue.can_deliver(&1));
    assert!(!queue.admits(&vec![]));
    assert!(queue.admits(&vec![vec![]]));
    assert!(queue.admits(&vec![vec![(1, i64::MAX)]]));
    assert!(!queue.admits(&vec![vec![(1, i64::MAX), (1, 1)]]));
    // only the list of input 0 counts
    assert!(queue.admits(&vec![vec![(1, 1)], vec![(1, i64::MAX), (1, 1)]]));
    queue.set_external_summary(no_summaries(), &vec![vec![(1, i64::MAX)]]);
    assert!(!queue.admits(&vec![vec![(1, 1)]]));
    assert!(queue.admits(&vec![vec![(1, -1), (1, 1)]]));
}

#[test]
fn set_external_summary_merges_by_delta() {
    let mut queue: Queue = QueueScope::new();
    queue.register_interest(Vec::new());
    queue.set_external_summary(no_summaries(), &vec![vec![(1, 1), (1, 1), (2, 1), (2, -1)]]);
    queue.deliver_data(&1, &vec!['a']);
    // one retirement is not enough: the count of 1 is two
    queue.push_external_progress(&vec![vec![(1, -1)]]);
    pull(&mut queue);
    assert_eq!(queue.output(), &vec![Vec::new()]);
    queue.push_external_progress(&vec![vec![(1, -1)]]);
    pull(&mut queue);
    assert_eq!(queue.output(), &vec![vec![(1, vec!['a'])]]);
}

#[test]
fn set_external_summary_ignores_the_summaries() {
    let mut queue: Queue = QueueScope::new();
    queue.register_interest(Vec::new());
    let summaries = vec![vec![Antichain::from_elem(Identity)]];
    queue.set_external_summary(summaries, &vec![vec![]]);
    queue.deliver_data(&1, &vec!['a']);
    queue.push_external_progress(&vec![vec![]]);
    pull(&mut queue);
    assert_eq!(queue.output(), &vec![vec![(1, vec!['a'])]]);
}

// ---- a recorded stream behind a queue ----

#[test]
fn queued_stream_has_one_batch_per_timestamp() {
    let mut stream: Log = vec![(2, vec!['a']), (1, vec!['x']), (2, vec!['b', 'c']), (3, vec![])];
    let mut out = stream.queue();
    out.sort();
    assert_eq!(out, vec![(1, vec!['x']), (2, vec!['a', 'b', 'c']), (3, vec![])]);
    assert_eq!(stream, vec![(2, vec!['a']), (1, vec!['x']), (2, vec!['b', 'c']), (3, vec![])]);
}

#[test]
fn queued_empty_stream_is_empty() {
    let mut stream: Log = Vec::new();
    assert!(stream.queue().is_empty());
}
