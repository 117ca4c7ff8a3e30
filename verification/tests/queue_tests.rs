use wikijobs::queue::{Job, JobQueue, QueueBuilder};

fn run_lines(builder: &mut QueueBuilder, lines: &[&str]) -> Vec<Job> {
    let mut jobs = Vec::new();
    for line in lines {
        if let Some(job) = builder.push_line(line) {
            jobs.push(job);
        }
    }
    jobs
}

#[test]
fn boundary_detection_two_units_with_junk() {
    let mut b = QueueBuilder::new();
    let jobs = run_lines(
        &mut b,
        &[
            "<mediawiki>",
            "  <page>",
            "    <text>[[Foo]]</text>",
            "  </page>",
            "noise between units",
            "  <page>",
            "  </page>",
            "</mediawiki>",
        ],
    );
    assert_eq!(jobs.len(), 2);
    assert_eq!(jobs[0].job_id, 0);
    assert_eq!(jobs[0].data, "  <page>    <text>[[Foo]]</text>  </page>");
    assert_eq!(jobs[1].job_id, 1);
    assert_eq!(jobs[1].data, "  <page>  </page>");
}

#[test]
fn ids_strictly_increase_from_zero() {
    let mut b = QueueBuilder::new();
    let mut lines = Vec::new();
    for _ in 0..5 {
        lines.push("<page>");
        lines.push("</page>");
    }
    let jobs = run_lines(&mut b, &lines);
    let ids: Vec<u32> = jobs.iter().map(|j| j.job_id).collect();
    assert_eq!(ids, vec![0, 1, 2, 3, 4]);
}

#[test]
fn open_marker_found_inside_longer_line() {
    let mut b = QueueBuilder::new();
    let jobs = run_lines(&mut b, &["xx<page>yy", "zz</page>ww"]);
    assert_eq!(jobs.len(), 1);
    assert_eq!(jobs[0].data, "xx<page>yyzz</page>ww");
}

#[test]
fn close_on_opening_line_is_not_taken() {
    // The close marker is only checked once inside a unit, so a line that
    // both opens and closes only opens.
    let mut b = QueueBuilder::new();
    let jobs = run_lines(&mut b, &["<page>a</page>"]);
    assert!(jobs.is_empty());
    let jobs = run_lines(&mut b, &["b</page>"]);
    assert_eq!(jobs.len(), 1);
    assert_eq!(jobs[0].data, "<page>a</page>b</page>");
}

#[test]
fn unclosed_unit_is_discarded_silently() {
    let mut b = QueueBuilder::new();
    let jobs = run_lines(&mut b, &["<page>", "half a unit"]);
    assert!(jobs.is_empty());
    assert_eq!(b.emitted_count(), 0);
}

#[test]
fn lines_before_any_open_are_ignored() {
    let mut b = QueueBuilder::new();
    let jobs = run_lines(&mut b, &["</page>", "text", "</page>"]);
    assert!(jobs.is_empty());
}

#[test]
fn run_lines_collects_units_in_order() {
    let mut b = QueueBuilder::new();
    let lines: Vec<String> = vec![
        "preamble".to_string(),
        "<page>".to_string(),
        "a".to_string(),
        "</page>".to_string(),
        "<page>".to_string(),
        "b".to_string(),
        "</page>".to_string(),
    ];
    let jobs = b.run_lines(&lines);
    assert_eq!(jobs.len(), 2);
    assert_eq!(jobs[0].job_id, 0);
    assert_eq!(jobs[0].data, "<page>a</page>");
    assert_eq!(jobs[1].job_id, 1);
    assert_eq!(jobs[1].data, "<page>b</page>");
}

#[test]
fn backpressure_refuses_push_at_capacity() {
    let mut q = JobQueue::new(2);
    assert!(q.try_push(Job::new(0, "a".to_string())).is_none());
    assert!(q.try_push(Job::new(1, "b".to_string())).is_none());
    // Capacity 2 reached: the third publish is refused and handed back.
    let refused = q.try_push(Job::new(2, "c".to_string()));
    let job = refused.expect("a full queue must refuse");
    assert_eq!(job.job_id, 2);
    assert_eq!(q.len(), 2);
    // One consumer drains one unit: the publish is accepted again.
    let popped = q.pop().expect("a unit is there");
    assert_eq!(popped.job_id, 0);
    assert!(q.try_push(job).is_none());
    assert_eq!(q.len(), 2);
}

#[test]
fn pop_is_first_in_first_out_and_never_redelivers() {
    let mut q = JobQueue::new(8);
    for id in 0..3 {
        assert!(q.try_push(Job::new(id, format!("unit {}", id))).is_none());
    }
    assert_eq!(q.pop().unwrap().job_id, 0);
    assert_eq!(q.pop().unwrap().job_id, 1);
    assert_eq!(q.pop().unwrap().job_id, 2);
    assert!(q.pop().is_none());
}
