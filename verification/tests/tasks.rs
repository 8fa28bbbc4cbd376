use std::sync::atomic::Ordering;

use fastzip::tasks::{task_end_event, TaskEndEvent, TaskRegistry};

#[test]
fn registered_tasks_can_be_canceled_until_unregistered() {
    let mut registry = TaskRegistry::new();
    assert!(!registry.cancel_task(7));
    let flag = registry.register_task(7);
    assert!(!flag.load(Ordering::SeqCst));
    assert!(registry.cancel_task(7));
    assert!(flag.load(Ordering::SeqCst));
    assert!(!registry.cancel_task(8));
    registry.unregister_task(7);
    assert!(!registry.cancel_task(7));
}

#[test]
fn end_events() {
    assert!(matches!(task_end_event(3, true, Some("boom".to_string())), TaskEndEvent::Canceled(e) if e.task_id == 3));
    assert!(matches!(task_end_event(4, false, None), TaskEndEvent::Completed(e) if e.task_id == 4));
    match task_end_event(5, false, Some("disk full".to_string())) {
        TaskEndEvent::Failed(e) => {
            assert_eq!(e.task_id, 5);
            assert_eq!(e.error, "disk full");
        }
        _ => panic!("expected a failure"),
    }
}
