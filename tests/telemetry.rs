use stream_executor::priority::TaskPriority;
use stream_executor::scheduler::TaskMetadata;
use stream_executor::telemetry::{
    charge_wait, clear_task_wait_statistics, get_task_wait_statistics, track_task_wait_statistics,
    WaitStatistics, WaitTimer,
};

#[test]
fn untracked_wait_adds_nothing() {
    let mut stats = WaitStatistics::new();
    track_task_wait_statistics(&mut stats, false);
    let mut timer = WaitTimer::new();
    let mut meta = TaskMetadata::new(3, TaskPriority::High);
    timer.about_to_park(stats.is_tracking(), 100);
    assert_eq!(timer.last_block_start, None);
    charge_wait(&mut timer, stats.is_tracking(), 5_000, &mut meta);
    assert_eq!(meta.ns_spent_blocked, 0);
    stats.record_task(&meta);
    assert_eq!(get_task_wait_statistics(&stats), vec![(3, 0)]);
}

#[test]
fn tracked_wait_is_positive() {
    let mut stats = WaitStatistics::new();
    track_task_wait_statistics(&mut stats, true);
    let mut timer = WaitTimer::new();
    let mut meta = TaskMetadata::new(9, TaskPriority::Low);
    timer.about_to_park(stats.is_tracking(), 100);
    timer.about_to_park(stats.is_tracking(), 200);
    assert_eq!(timer.last_block_start, Some(100));
    charge_wait(&mut timer, stats.is_tracking(), 350, &mut meta);
    assert_eq!(meta.ns_spent_blocked, 250);
    assert_eq!(timer.last_block_start, None);
    stats.record_task(&meta);
    assert_eq!(get_task_wait_statistics(&stats), vec![(9, 250)]);
}

#[test]
fn tracking_switched_off_mid_wait_charges_nothing() {
    let mut timer = WaitTimer::new();
    timer.about_to_park(true, 10);
    assert_eq!(timer.task_obtained(false, 90), 0);
    assert_eq!(timer.last_block_start, None);
}

#[test]
fn totals_accumulate_per_site() {
    let mut stats = WaitStatistics::new();
    stats.add_wait(1, 10);
    stats.add_wait(2, 5);
    stats.add_wait(1, 7);
    let mut snap = get_task_wait_statistics(&stats);
    snap.sort();
    assert_eq!(snap, vec![(1, 17), (2, 5)]);
}

#[test]
fn totals_saturate() {
    let mut stats = WaitStatistics::new();
    stats.add_wait(4, u64::MAX - 1);
    stats.add_wait(4, 10);
    assert_eq!(get_task_wait_statistics(&stats), vec![(4, u64::MAX)]);
    let mut meta = TaskMetadata::new(4, TaskPriority::High);
    meta.add_blocked_time(u64::MAX);
    meta.add_blocked_time(1);
    assert_eq!(meta.ns_spent_blocked, u64::MAX);
}

#[test]
fn switching_off_keeps_history_and_clear_keeps_switch() {
    let mut stats = WaitStatistics::new();
    track_task_wait_statistics(&mut stats, true);
    stats.add_wait(8, 40);
    track_task_wait_statistics(&mut stats, false);
    assert!(!stats.is_tracking());
    assert_eq!(get_task_wait_statistics(&stats), vec![(8, 40)]);
    track_task_wait_statistics(&mut stats, true);
    clear_task_wait_statistics(&mut stats);
    assert!(stats.is_tracking());
    assert!(get_task_wait_statistics(&stats).is_empty());
}
