use fsscanner::threadpool::{check_worker_count, join_outcome, ThreadPoolError};

#[test]
fn rejects_zero_workers() {
    assert!(matches!(check_worker_count(0), Err(ThreadPoolError::NoWorkers)));
    assert!(check_worker_count(1).is_ok());
}

#[test]
fn join_reports_worker_panics() {
    assert!(matches!(join_outcome(&vec![false, true]), Err(ThreadPoolError::WorkerPanicked)));
    assert!(join_outcome(&vec![false, false]).is_ok());
    assert!(join_outcome(&Vec::new()).is_ok());
}

#[test]
fn error_messages() {
    assert_eq!(ThreadPoolError::NoWorkers.message(), "thread pool requires at least one worker");
    assert_eq!(ThreadPoolError::Disconnected.message(), "thread pool work channel disconnected");
    assert_eq!(ThreadPoolError::WorkerPanicked.message(), "thread pool worker panicked");
}
