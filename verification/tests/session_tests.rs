use wikijobs::messages::{Action, ActionResult, ActionSet, Done, FreqMap, Message, Ready,
    ResultMap, ResultType};
use wikijobs::queue::{Job, JobQueue};
use wikijobs::session::{dispatch_tasks, session_handle_message, Aggregator, SessionState};

fn queue_with(ids: &[u32]) -> JobQueue {
    let mut q = JobQueue::new(64);
    for id in ids {
        assert!(q.try_push(Job::new(*id, format!("unit {}", id))).is_none());
    }
    q
}

fn one_action() -> ActionSet {
    ActionSet { items: vec![Action::LinkFrequencies] }
}

fn done_with(ids: &[u32]) -> Done {
    let mut entries = Vec::new();
    for id in ids {
        let ar = ActionResult {
            entries: vec![(
                Action::LinkFrequencies,
                ResultType::LinkFrequencies(FreqMap {
                    entries: vec![(format!("target {}", id), 1)],
                }),
            )],
        };
        entries.push((*id, ar));
    }
    Done::new(ResultMap { entries })
}

#[test]
fn ready_earns_exactly_task_count_tasks() {
    let mut q = queue_with(&[0, 1, 2]);
    let msgs = dispatch_tasks(&mut q, 2, &one_action());
    assert_eq!(msgs.len(), 2);
    for (i, m) in msgs.iter().enumerate() {
        match m {
            Message::Task(t) => {
                assert_eq!(t.id, i as u32);
                assert_eq!(t.data, format!("unit {}", i));
                assert_eq!(t.actions.items, vec![Action::LinkFrequencies]);
            },
            _ => panic!("a dispatch sends only Task messages"),
        }
    }
    assert_eq!(q.len(), 1);
}

#[test]
fn exhausted_queue_ends_dispatch_early() {
    let mut q = queue_with(&[7, 8]);
    let msgs = dispatch_tasks(&mut q, 5, &one_action());
    assert_eq!(msgs.len(), 2);
    assert_eq!(q.len(), 0);
}

#[test]
fn successive_dispatches_share_no_id() {
    let mut q = queue_with(&[0, 1, 2, 3, 4]);
    let first = dispatch_tasks(&mut q, 2, &one_action());
    let second = dispatch_tasks(&mut q, 3, &one_action());
    let ids = |msgs: &[Message]| -> Vec<u32> {
        msgs.iter()
            .map(|m| match m {
                Message::Task(t) => t.id,
                _ => panic!("only tasks"),
            })
            .collect()
    };
    let a = ids(&first);
    let b = ids(&second);
    for id in &a {
        assert!(!b.contains(id), "unit {} delivered twice", id);
    }
    assert_eq!(a, vec![0, 1]);
    assert_eq!(b, vec![2, 3, 4]);
}

#[test]
fn merge_keys_results_by_unit_id() {
    let mut agg = Aggregator::new();
    agg.merge(done_with(&[3, 5]));
    agg.merge(done_with(&[4]));
    let ids: Vec<u32> = agg.results.entries.iter().map(|e| e.0).collect();
    assert_eq!(ids, vec![3, 5, 4]);
}

#[test]
fn merge_keeps_first_delivery_of_an_id() {
    let mut agg = Aggregator::new();
    agg.merge(done_with(&[3]));
    let mut other = done_with(&[3]);
    other.results.entries[0].1.entries.clear();
    agg.merge(other);
    assert_eq!(agg.results.entries.len(), 1);
    // The first-delivered result, with its one action entry, stays.
    assert_eq!(agg.results.entries[0].1.entries.len(), 1);
}

#[test]
fn merge_skips_a_repeated_id_within_one_report() {
    let mut agg = Aggregator::new();
    agg.merge(done_with(&[1, 1]));
    assert_eq!(agg.results.entries.len(), 1);
}

#[test]
fn session_closes_on_done() {
    let mut q = queue_with(&[0]);
    let mut agg = Aggregator::new();
    let actions = one_action();
    let (state, out) = session_handle_message(
        SessionState::AwaitingReady,
        Message::Done(done_with(&[9])),
        &mut q,
        &mut agg,
        &actions,
    );
    assert_eq!(state, SessionState::Closed);
    assert!(out.is_empty());
    assert_eq!(agg.results.entries.len(), 1);
    assert_eq!(q.len(), 1);
}

#[test]
fn session_dispatches_on_ready_and_keeps_awaiting() {
    let mut q = queue_with(&[0, 1]);
    let mut agg = Aggregator::new();
    let actions = one_action();
    let (state, out) = session_handle_message(
        SessionState::AwaitingReady,
        Message::Ready(Ready::new(1)),
        &mut q,
        &mut agg,
        &actions,
    );
    assert_eq!(state, SessionState::AwaitingReady);
    assert_eq!(out.len(), 1);
    assert_eq!(q.len(), 1);
}

#[test]
fn closed_session_reacts_to_nothing() {
    let mut q = queue_with(&[0]);
    let mut agg = Aggregator::new();
    let actions = one_action();
    let (state, out) = session_handle_message(
        SessionState::Closed,
        Message::Ready(Ready::new(4)),
        &mut q,
        &mut agg,
        &actions,
    );
    assert_eq!(state, SessionState::Closed);
    assert!(out.is_empty());
    assert_eq!(q.len(), 1);
}

#[test]
fn stray_task_is_ignored() {
    let mut q = queue_with(&[0]);
    let mut agg = Aggregator::new();
    let actions = one_action();
    let (state, out) = session_handle_message(
        SessionState::AwaitingReady,
        Message::Task(wikijobs::messages::Task::new(1, String::new(), ActionSet::new())),
        &mut q,
        &mut agg,
        &actions,
    );
    assert_eq!(state, SessionState::AwaitingReady);
    assert!(out.is_empty());
    assert_eq!(q.len(), 1);
    assert!(agg.results.entries.is_empty());
}
