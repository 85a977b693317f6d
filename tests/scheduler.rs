use stream_executor::permutation::random_permutation;
use stream_executor::priority::TaskPriority;
use stream_executor::scheduler::{Executor, ReadyTask, TaskMetadata};

const OUTSIDE: usize = usize::MAX;

fn task(id: u32, priority: TaskPriority, fresh: bool) -> ReadyTask<u32> {
    let mut meta = TaskMetadata::new(7, priority);
    meta.freshly_spawned = fresh;
    ReadyTask { meta, runnable: id }
}

fn ids(q: &std::collections::VecDeque<ReadyTask<u32>>) -> Vec<u32> {
    q.iter().map(|t| t.runnable).collect()
}

fn slot_id(e: &Executor<u32>, w: usize) -> Option<u32> {
    e.local_slots[w].as_ref().map(|t| t.runnable)
}

fn order(n: usize, seed: u32) -> stream_executor::permutation::RandomPermutation {
    random_permutation(n as u32, [seed, seed.wrapping_mul(31), seed ^ 0xabcd, seed.rotate_left(9)])
}

#[test]
fn outside_thread_uses_overflow_queue() {
    let mut e: Executor<u32> = Executor::new(2);
    assert!(e.schedule_task(OUTSIDE, task(1, TaskPriority::High, false)));
    assert!(e.schedule_task(OUTSIDE, task(2, TaskPriority::Low, false)));
    assert_eq!(ids(&e.global_high_prio_task_queue), vec![1]);
    assert_eq!(ids(&e.global_low_prio_task_queue), vec![2]);
    assert!(e.local_slots.iter().all(|s| s.is_none()));
}

#[test]
fn fresh_task_uses_overflow_queue_and_is_marked_scheduled() {
    let mut e: Executor<u32> = Executor::new(2);
    assert!(e.schedule_task(0, task(1, TaskPriority::High, true)));
    assert_eq!(ids(&e.global_high_prio_task_queue), vec![1]);
    assert!(!e.global_high_prio_task_queue[0].meta.freshly_spawned);
    assert_eq!(slot_id(&e, 0), None);
}

#[test]
fn high_into_empty_slot_wakes_nobody() {
    let mut e: Executor<u32> = Executor::new(2);
    assert!(!e.schedule_task(1, task(5, TaskPriority::High, false)));
    assert_eq!(slot_id(&e, 1), Some(5));
    assert!(e.local_queues[1].is_empty());
}

#[test]
fn high_evicts_low_from_slot() {
    let mut e: Executor<u32> = Executor::new(3);
    assert!(!e.schedule_task(2, task(10, TaskPriority::Low, false)));
    assert_eq!(slot_id(&e, 2), Some(10));
    assert!(e.schedule_task(2, task(11, TaskPriority::High, false)));
    assert_eq!(slot_id(&e, 2), Some(11));
    assert_eq!(ids(&e.local_queues[2]), vec![10]);
    // The evicted Low task is still handed out, after the High one.
    let first = e.find_task(2, order(3, 1)).unwrap();
    let second = e.find_task(2, order(3, 2)).unwrap();
    assert_eq!((first.runnable, second.runnable), (11, 10));
}

#[test]
fn low_on_busy_worker_goes_to_overflow() {
    let mut e: Executor<u32> = Executor::new(2);
    assert!(!e.schedule_task(0, task(1, TaskPriority::High, false)));
    assert!(e.schedule_task(0, task(2, TaskPriority::Low, false)));
    assert_eq!(ids(&e.global_low_prio_task_queue), vec![2]);
    assert_eq!(slot_id(&e, 0), Some(1));
}

#[test]
fn low_with_queued_high_work_goes_to_overflow() {
    let mut e: Executor<u32> = Executor::new(1);
    e.schedule_task(0, task(1, TaskPriority::High, false));
    e.schedule_task(0, task(2, TaskPriority::High, false));
    let t = e.take_local_task(0).unwrap();
    assert_eq!(t.runnable, 2);
    // Slot is empty but the queue still holds task 1.
    assert!(e.schedule_task(0, task(3, TaskPriority::Low, false)));
    assert_eq!(ids(&e.global_low_prio_task_queue), vec![3]);
}

#[test]
fn local_take_prefers_slot_then_newest() {
    let mut e: Executor<u32> = Executor::new(1);
    for id in 1..=4 {
        e.schedule_task(0, task(id, TaskPriority::High, false));
    }
    assert_eq!(slot_id(&e, 0), Some(4));
    assert_eq!(ids(&e.local_queues[0]), vec![1, 2, 3]);
    let got: Vec<u32> = (0..4).map(|_| e.take_local_task(0).unwrap().runnable).collect();
    assert_eq!(got, vec![4, 3, 2, 1]);
    assert!(e.take_local_task(0).is_none());
}

#[test]
fn steal_prefers_high_overflow_then_low() {
    let mut e: Executor<u32> = Executor::new(2);
    e.schedule_task(OUTSIDE, task(1, TaskPriority::Low, false));
    e.schedule_task(OUTSIDE, task(2, TaskPriority::High, false));
    e.schedule_task(OUTSIDE, task(3, TaskPriority::High, false));
    let got: Vec<u32> = (0..3).map(|i| e.try_steal_task(0, order(2, i)).unwrap().runnable).collect();
    assert_eq!(got, vec![2, 3, 1]);
    assert!(e.try_steal_task(0, order(2, 9)).is_none());
}

#[test]
fn steal_moves_a_batch_from_the_front() {
    let mut e: Executor<u32> = Executor::new(2);
    for id in 1..=6 {
        e.schedule_task(1, task(id, TaskPriority::High, false));
    }
    assert_eq!(ids(&e.local_queues[1]), vec![1, 2, 3, 4, 5]);
    let t = e.try_steal_task(0, order(2, 3)).unwrap();
    // Five queued: two move to the thief, the third is returned.
    assert_eq!(t.runnable, 3);
    assert_eq!(ids(&e.local_queues[0]), vec![1, 2]);
    assert_eq!(ids(&e.local_queues[1]), vec![4, 5]);
    assert_eq!(slot_id(&e, 1), Some(6));
}

#[test]
fn steal_batch_is_capped() {
    let mut e: Executor<u32> = Executor::new(2);
    for id in 0..=100 {
        e.schedule_task(1, task(id, TaskPriority::High, false));
    }
    assert_eq!(e.local_queues[1].len(), 100);
    let t = e.try_steal_task(0, order(2, 4)).unwrap();
    assert_eq!(t.runnable, 31);
    assert_eq!(e.local_queues[0].len(), 31);
    assert_eq!(e.local_queues[1].len(), 100 - 32);
}

#[test]
fn steal_of_a_single_task() {
    let mut e: Executor<u32> = Executor::new(3);
    e.schedule_task(2, task(1, TaskPriority::High, false));
    e.schedule_task(2, task(2, TaskPriority::High, false));
    let t = e.try_steal_task(0, order(3, 5)).unwrap();
    assert_eq!(t.runnable, 1);
    assert!(e.local_queues[0].is_empty());
    assert!(e.local_queues[2].is_empty());
    // A task in another worker's slot cannot be stolen.
    assert!(e.try_steal_task(0, order(3, 6)).is_none());
    assert_eq!(slot_id(&e, 2), Some(2));
}

#[test]
fn nothing_to_find_in_an_empty_pool() {
    let mut e: Executor<u32> = Executor::new(4);
    for w in 0..4 {
        assert!(e.find_task(w, order(4, w as u32)).is_none());
    }
}

fn held(e: &Executor<u32>) -> Vec<u32> {
    let mut v: Vec<u32> = Vec::new();
    v.extend(ids(&e.global_high_prio_task_queue));
    v.extend(ids(&e.global_low_prio_task_queue));
    for w in 0..e.local_slots.len() {
        v.extend(slot_id(e, w));
        v.extend(ids(&e.local_queues[w]));
    }
    v
}

#[test]
fn ten_thousand_tasks_on_four_workers_all_run_once() {
    let n = 4usize;
    let mut e: Executor<u32> = Executor::new(n);
    // Half arrive from outside the pool, half are woken on worker 0.
    for id in 0..5000 {
        e.schedule_task(OUTSIDE, task(id, TaskPriority::High, true));
    }
    for id in 5000..10000 {
        e.schedule_task(0, task(id, TaskPriority::High, false));
    }
    let mut runs = vec![0u32; 10000];
    let mut seed = 1u32;
    let mut idle_streak = 0;
    let mut w = 0usize;
    while idle_streak < n {
        seed = seed.wrapping_mul(1_103_515_245).wrapping_add(12345);
        match e.find_task(w, order(n, seed)) {
            Some(t) => {
                runs[t.runnable as usize] += 1;
                idle_streak = 0;
            },
            None => idle_streak += 1,
        }
        w = (w + 1) % n;
    }
    assert!(runs.iter().all(|&r| r == 1));
    assert!(held(&e).is_empty());
}

#[test]
fn handed_out_task_is_no_longer_held() {
    let mut e: Executor<u32> = Executor::new(2);
    for id in 0..6 {
        e.schedule_task(1, task(id, TaskPriority::High, false));
    }
    let stolen = e.try_steal_task(0, order(2, 11)).unwrap();
    assert!(!held(&e).contains(&stolen.runnable));
    let local = e.take_local_task(0).unwrap();
    assert!(!held(&e).contains(&local.runnable));
    assert_ne!(stolen.runnable, local.runnable);
    assert_eq!(held(&e).len(), 4);
}

use stream_executor::scheduler::WorkerAction;
use stream_executor::telemetry::WaitTimer;

#[test]
fn worker_step_runs_found_task_and_charges_wait() {
    let mut e: Executor<u32> = Executor::new(2);
    let mut timer = WaitTimer::new();
    // Nothing anywhere: first ask for a token, then park with the timer running.
    assert!(matches!(e.worker_step(0, false, order(2, 1), &mut timer, true, 100), WorkerAction::PrepareToPark));
    assert!(matches!(e.worker_step(0, true, order(2, 2), &mut timer, true, 120), WorkerAction::Park));
    assert_eq!(timer.last_block_start, Some(120));
    e.schedule_task(OUTSIDE, task(5, TaskPriority::High, true));
    match e.worker_step(0, false, order(2, 3), &mut timer, true, 500) {
        WorkerAction::Run(t) => {
            assert_eq!(t.runnable, 5);
            assert_eq!(t.meta.ns_spent_blocked, 380);
        },
        _ => panic!("expected a task"),
    }
    assert_eq!(timer.last_block_start, None);
}

#[test]
fn worker_step_with_token_only_steals() {
    let mut e: Executor<u32> = Executor::new(2);
    let mut timer = WaitTimer::new();
    // A task in the worker's own slot is not looked at by the last steal.
    e.schedule_task(0, task(1, TaskPriority::High, false));
    assert!(matches!(e.worker_step(0, true, order(2, 4), &mut timer, false, 10), WorkerAction::Park));
    assert_eq!(timer.last_block_start, None);
    match e.worker_step(0, false, order(2, 5), &mut timer, false, 20) {
        WorkerAction::Run(t) => assert_eq!((t.runnable, t.meta.ns_spent_blocked), (1, 0)),
        _ => panic!("expected a task"),
    }
}
