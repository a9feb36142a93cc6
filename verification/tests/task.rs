use seed_finder::task::{BackgroundTask, RecvGap, TaskError};
use std::sync::atomic::Ordering;
use std::sync::mpsc;

#[test]
fn idle_task_has_nothing() {
    let mut t: BackgroundTask<u32> = BackgroundTask::default();
    assert!(!t.is_running);
    assert_eq!(t.total_tasks, 0);
    assert!(t.poll().is_none());
}

#[test]
fn result_arrives_once() {
    let mut t: BackgroundTask<u32> = BackgroundTask::new();
    let (tx, rx) = mpsc::channel();
    t.progress.store(9, Ordering::Relaxed);
    t.begin(10, rx);
    assert!(t.is_running);
    assert_eq!(t.total_tasks, 10);
    assert_eq!(t.progress.load(Ordering::Relaxed), 0);
    assert!(t.poll().is_none());
    assert!(t.is_running);
    tx.send(5).unwrap();
    assert_eq!(t.poll(), Some(Ok(5)));
    assert!(!t.is_running);
    assert!(t.poll().is_none());
}

#[test]
fn worker_gone_without_result() {
    let mut t: BackgroundTask<String> = BackgroundTask::new();
    let (tx, rx) = mpsc::channel::<String>();
    t.begin(3, rx);
    drop(tx);
    assert_eq!(t.poll(), Some(Err(TaskError::Disconnected)));
    assert!(!t.is_running);
    assert_eq!(t.total_tasks, 3);
}

#[test]
fn settle_takes_each_answer() {
    let mut t: BackgroundTask<u32> = BackgroundTask::new();
    let (_tx, rx) = mpsc::channel();
    t.begin(4, rx);
    assert_eq!(t.settle(Err(RecvGap::Empty)), None);
    assert!(t.is_running);
    assert!(t.rx.is_some());
    assert_eq!(t.settle(Ok(7)), Some(Ok(7)));
    assert!(!t.is_running);
    assert!(t.rx.is_none());
    assert_eq!(t.total_tasks, 4);
    let (_tx2, rx2) = mpsc::channel();
    t.begin(2, rx2);
    assert_eq!(t.settle(Err(RecvGap::Disconnected)), Some(Err(TaskError::Disconnected)));
    assert!(!t.is_running);
    assert!(t.rx.is_none());
}
