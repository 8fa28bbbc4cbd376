use fastzip::archive::{CompressionFormat, CompressionOptions};
use fastzip::launch::FeedbackTone;
use fastzip::localization::{english_locale, LocaleState};
use fastzip::queue::{live_status, CancelOutcome, JobOutcome, PrioritizeOutcome, TaskQueue};
use fastzip::ui::Language;
use std::sync::atomic::Ordering;
use std::time::Instant;
use fastzip::ui::{TaskKind, TaskSpec, TaskState};

fn spec(out: &str) -> TaskSpec {
    TaskSpec::Compress {
        sources: vec!["/src".to_string()],
        excluded_paths: vec![],
        output_path: out.to_string(),
        options: CompressionOptions { format: CompressionFormat::Zip, ..CompressionOptions::default() },
    }
}

fn finish(queue: &mut TaskQueue, outcome: JobOutcome) -> Option<u64> {
    queue.end_active_job();
    queue.finish_task(outcome, Instant::now());
    queue.start_next_task(Instant::now())
}

fn order(queue: &TaskQueue) -> Vec<(u64, TaskState)> {
    queue.tasks().iter().map(|t| (t.id, t.state)).collect()
}

#[test]
fn tasks_run_one_at_a_time_in_queue_order() {
    let mut queue = TaskQueue::new();
    assert_eq!(queue.enqueue_task(TaskKind::Compress, spec("/a.zip"), 100), 1);
    assert_eq!(queue.enqueue_task(TaskKind::Compress, spec("/b.zip"), 0), 2);
    assert_eq!(queue.enqueue_task(TaskKind::Extract, spec("/c.zip"), 50), 3);
    assert_eq!(queue.start_next_task(Instant::now()), Some(1));
    assert!(queue.has_active_task());
    assert!(queue.tasks()[0].started_at.is_some() && queue.tasks()[0].finished_at.is_none());
    assert_eq!(queue.start_next_task(Instant::now()), None);
    assert_eq!(queue.running_task_count(), 1);
    assert_eq!(queue.queued_task_count(), 2);

    assert!(queue.can_prioritize_task(3));
    assert!(!queue.can_prioritize_task(2));
    assert_eq!(queue.prioritize_task(3, Instant::now()), (PrioritizeOutcome::Moved, None));
    assert_eq!(order(&queue), vec![(1, TaskState::Running), (3, TaskState::Queued), (2, TaskState::Queued)]);
    assert_eq!(queue.prioritize_task(3, Instant::now()), (PrioritizeOutcome::AlreadyNext, None));
    assert_eq!(queue.prioritize_task(1, Instant::now()), (PrioritizeOutcome::NotQueued, None));

    queue.record_progress(1, 250);
    assert_eq!(queue.tasks()[0].processed_bytes, 100);
    queue.record_progress(2, 250);
    assert_eq!(queue.tasks()[2].processed_bytes, 250);

    assert_eq!(queue.cancel_task(1, Instant::now()), (CancelOutcome::CancelRequested, None));
    assert!(queue.tasks()[0].cancel_flag.load(Ordering::SeqCst));
    assert_eq!(queue.cancel_task(1, Instant::now()), (CancelOutcome::AlreadyCanceling, None));
    assert_eq!(queue.cancel_task(2, Instant::now()), (CancelOutcome::CanceledQueued, None));
    assert_eq!(queue.cancel_task(9, Instant::now()), (CancelOutcome::Unknown, None));
    assert!(!queue.delete_task(1));

    assert_eq!(finish(&mut queue, JobOutcome::Canceled { task_id: 1 }), Some(3));
    assert_eq!(order(&queue), vec![(1, TaskState::Canceled), (3, TaskState::Running), (2, TaskState::Canceled)]);
    assert_eq!(finish(&mut queue, JobOutcome::Completed { task_id: 3 }), None);
    assert_eq!(queue.tasks()[1].processed_bytes, 50);
    assert!(queue.tasks()[1].finished_at.is_some());
    assert!(!queue.has_active_task());
    assert_eq!(queue.cancel_task(3, Instant::now()), (CancelOutcome::Finished, None));

    assert_eq!(queue.rerun_task(3, Instant::now()), (false, None));
    assert_eq!(queue.rerun_task(2, Instant::now()), (true, Some(2)));
    assert_eq!(queue.tasks()[2].processed_bytes, 0);
    assert_eq!(finish(&mut queue, JobOutcome::Failed { task_id: 2, message: "disk full".to_string() }), None);
    assert_eq!(queue.tasks()[2].error_message, Some("disk full".to_string()));

    assert!(queue.delete_task(1));
    assert_eq!(order(&queue), vec![(3, TaskState::Completed), (2, TaskState::Failed)]);
}

#[test]
fn canceling_a_queued_task_starts_the_next_when_idle() {
    let mut queue = TaskQueue::new();
    queue.enqueue_task(TaskKind::Extract, spec("/x"), 0);
    queue.enqueue_task(TaskKind::Extract, spec("/y"), 0);
    assert_eq!(queue.cancel_task(1, Instant::now()), (CancelOutcome::CanceledQueued, Some(2)));
    queue.end_active_job();
    assert!(!queue.has_active_task());
    assert_eq!(queue.prioritize_task(2, Instant::now()), (PrioritizeOutcome::NotQueued, None));
}

#[test]
fn top_bar_status() {
    let state = LocaleState::new(english_locale());
    let s = |p, d, sc, r, q| live_status(p, d, sc, r, q, Language::English, &state);
    assert_eq!(s(true, true, true, 1, 1), ("Waiting for source selection".to_string(), true, FeedbackTone::Info));
    assert_eq!(s(false, true, false, 0, 0), ("Opening file picker".to_string(), true, FeedbackTone::Info));
    assert_eq!(s(false, false, true, 0, 0), ("Scanning archive contents".to_string(), true, FeedbackTone::Info));
    assert_eq!(s(false, false, false, 1, 2), ("1 running · 2 queued".to_string(), true, FeedbackTone::Success));
    assert_eq!(s(false, false, false, 1, 0), ("1 running".to_string(), true, FeedbackTone::Success));
    assert_eq!(s(false, false, false, 0, 12), ("12 queued".to_string(), false, FeedbackTone::Info));
    assert_eq!(s(false, false, false, 0, 0), ("Ready".to_string(), false, FeedbackTone::Info));
}
