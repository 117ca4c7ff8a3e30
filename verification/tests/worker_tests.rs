use wikijobs::messages::{Action, ActionSet, Message, Ready, ResultType, Task};
use wikijobs::worker::{available_parallelism, chunk_size, collect_tasks, ids_distinct,
    process_chunk, process_tasks, ready_task_count, split_chunks, tasks_wf};

fn task(id: u32, data: &str) -> Task {
    Task::new(
        id,
        data.to_string(),
        ActionSet { items: vec![Action::LinkFrequencies] },
    )
}

fn batch(n: u32) -> Vec<Task> {
    (0..n)
        .map(|id| task(id, &format!("<text>[[T{}]] [[Common]]</text>", id)))
        .collect()
}

#[test]
fn parallelism_is_positive() {
    assert!(available_parallelism() >= 1);
}

#[test]
fn ready_count_is_clamped() {
    assert_eq!(ready_task_count(1), 1);
    assert_eq!(ready_task_count(16), 16);
    assert_eq!(ready_task_count(255), 255);
    assert_eq!(ready_task_count(256), 255);
    assert_eq!(ready_task_count(10_000), 255);
}

#[test]
fn collect_tasks_keeps_only_tasks() {
    let msgs = vec![
        Message::Ready(Ready::new(2)),
        Message::Task(task(0, "a")),
        Message::Ready(Ready::new(1)),
        Message::Task(task(1, "b")),
    ];
    let tasks = collect_tasks(msgs);
    assert_eq!(tasks.len(), 2);
    assert_eq!(tasks[0].id, 0);
    assert_eq!(tasks[0].data, "a");
    assert_eq!(tasks[1].id, 1);
}

#[test]
fn id_and_wellformedness_checks() {
    let good = vec![task(0, "a"), task(1, "b")];
    assert!(ids_distinct(&good));
    assert!(tasks_wf(&good));
    let dup = vec![task(7, "a"), task(7, "b")];
    assert!(!ids_distinct(&dup));
    let twice = Task::new(
        0,
        String::new(),
        ActionSet { items: vec![Action::LinkGraph, Action::LinkGraph] },
    );
    assert!(!tasks_wf(&vec![twice]));
}

#[test]
fn chunk_size_is_ceiling_of_quotient() {
    assert_eq!(chunk_size(10, 4), 3);
    assert_eq!(chunk_size(8, 4), 2);
    assert_eq!(chunk_size(1, 8), 1);
    assert_eq!(chunk_size(0, 4), 0);
    assert_eq!(chunk_size(9, 1), 9);
}

#[test]
fn split_chunks_partitions_in_order() {
    let chunks = split_chunks(batch(5), 2);
    let lens: Vec<usize> = chunks.iter().map(|c| c.len()).collect();
    assert_eq!(lens, vec![2, 2, 1]);
    let ids: Vec<u32> = chunks.iter().flatten().map(|t| t.id).collect();
    assert_eq!(ids, vec![0, 1, 2, 3, 4]);
}

#[test]
fn process_chunk_answers_each_task_in_order() {
    let chunk = batch(2);
    let out = process_chunk(&chunk);
    assert_eq!(out.len(), 2);
    assert_eq!(out[0].0, 0);
    assert_eq!(out[1].0, 1);
    let ResultType::LinkFrequencies(f) = &out[1].1.entries[0].1;
    let mut entries = f.entries.clone();
    entries.sort();
    assert_eq!(
        entries,
        vec![("Common".to_string(), 1), ("T1".to_string(), 1)]
    );
}

#[test]
fn report_has_one_entry_per_received_task() {
    for k in [0u32, 1, 3, 7] {
        let results = process_tasks(batch(k), 4);
        assert_eq!(results.entries.len(), k as usize);
    }
}

#[test]
fn fan_out_width_does_not_change_the_answer() {
    let sequential = process_tasks(batch(7), 1);
    for cpus in [2usize, 3, 7, 16] {
        let fanned = process_tasks(batch(7), cpus);
        assert_eq!(fanned.entries.len(), sequential.entries.len());
        for (a, b) in fanned.entries.iter().zip(sequential.entries.iter()) {
            assert_eq!(a.0, b.0);
            assert_eq!(a.1.entries.len(), b.1.entries.len());
            for (ea, eb) in a.1.entries.iter().zip(b.1.entries.iter()) {
                assert_eq!(ea.0, eb.0);
                let ResultType::LinkFrequencies(fa) = &ea.1;
                let ResultType::LinkFrequencies(fb) = &eb.1;
                let mut va = fa.entries.clone();
                let mut vb = fb.entries.clone();
                va.sort();
                vb.sort();
                assert_eq!(va, vb);
            }
        }
    }
}

#[test]
fn empty_batch_yields_empty_report() {
    let results = process_tasks(Vec::new(), 8);
    assert!(results.entries.is_empty());
}
