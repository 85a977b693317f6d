use stream_executor::config::{set_num_threads, ExecutorConfig, DEFAULT_NUM_THREADS};

#[test]
fn chosen_count_wins() {
    let mut c = ExecutorConfig::new();
    set_num_threads(&mut c, 3);
    assert_eq!(c.num_threads, 3);
    assert_eq!(c.worker_count(Some(16)), 3);
    assert_eq!(c.worker_count(None), 3);
}

#[test]
fn machine_parallelism_by_default() {
    let c = ExecutorConfig::new();
    assert_eq!(c.worker_count(Some(12)), 12);
}

#[test]
fn fallback_count_when_unknown() {
    let c = ExecutorConfig::new();
    assert_eq!(c.worker_count(None), DEFAULT_NUM_THREADS);
    assert_eq!(DEFAULT_NUM_THREADS, 4);
}

#[test]
fn zero_means_unset() {
    let mut c = ExecutorConfig::new();
    set_num_threads(&mut c, 5);
    set_num_threads(&mut c, 0);
    assert_eq!(c.worker_count(Some(2)), 2);
}
