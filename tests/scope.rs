use stream_executor::permutation::random_permutation;
use stream_executor::priority::TaskPriority;
use stream_executor::scheduler::Executor;
use stream_executor::scope::{spawn, TaskScope};

const OUTSIDE: usize = usize::MAX;

#[derive(Clone, Copy, Debug, PartialEq)]
enum Work {
    NeverFinishes(u64),
    Returns(u64, i32),
}

fn sorted(mut v: Vec<u64>) -> Vec<u64> {
    v.sort();
    v
}

#[test]
fn destroy_hands_back_every_registered_task() {
    let mut exec: Executor<u64> = Executor::new(2);
    let mut scope = TaskScope::new();
    for id in [11u64, 12, 13] {
        scope.spawn_task(&mut exec, OUTSIDE, TaskPriority::Low, 1, id, id);
    }
    assert_eq!(exec.global_low_prio_task_queue.len(), 3);
    assert_eq!(sorted(scope.destroy()), vec![11, 12, 13]);
    assert!(scope.destroy().is_empty());
}

#[test]
fn completed_tasks_are_forgotten_on_next_spawn() {
    let mut exec: Executor<u64> = Executor::new(1);
    let mut scope = TaskScope::new();
    let ka = scope.spawn_task(&mut exec, 0, TaskPriority::High, 1, 1, 1);
    let _kb = scope.spawn_task(&mut exec, 0, TaskPriority::High, 1, 2, 2);
    scope.task_completed(ka);
    scope.spawn_task(&mut exec, 0, TaskPriority::High, 1, 3, 3);
    assert_eq!(sorted(scope.destroy()), vec![2, 3]);
}

#[test]
fn clear_completed_then_destroy() {
    let mut scope = TaskScope::new();
    let mut exec: Executor<u64> = Executor::new(1);
    let k1 = scope.register_task(21);
    let k2 = scope.register_task(22);
    scope.task_completed(k2);
    scope.task_completed(k1);
    scope.clear_completed_tasks();
    assert!(scope.destroy().is_empty());
    spawn(&mut exec, OUTSIDE, TaskPriority::High, 2, 99);
    assert_eq!(exec.global_high_prio_task_queue[0].runnable, 99);
}

#[test]
fn stale_key_completion_does_not_remove_a_new_task() {
    let mut scope = TaskScope::new();
    let k1 = scope.register_task(1);
    scope.task_completed(k1);
    // The slot of key 1 is reused for task 2 under a new key.
    let _k2 = scope.register_task(2);
    scope.task_completed(k1);
    scope.clear_completed_tasks();
    assert_eq!(scope.destroy(), vec![2]);
}

#[test]
fn spawn_goes_to_overflow_queue() {
    let mut exec: Executor<u64> = Executor::new(2);
    spawn(&mut exec, 1, TaskPriority::Low, 5, 42);
    assert_eq!(exec.global_low_prio_task_queue.len(), 1);
    let t = &exec.global_low_prio_task_queue[0];
    assert_eq!((t.runnable, t.meta.spawn_site, t.meta.freshly_spawned), (42, 5, false));
}

#[test]
fn never_finishing_task_is_cancelled_and_finished_one_returns() {
    let mut exec: Executor<Work> = Executor::new(2);
    let mut scope = TaskScope::new();
    let _ka = scope.spawn_task(&mut exec, OUTSIDE, TaskPriority::Low, 1, 100, Work::NeverFinishes(100));
    let kb = scope.spawn_task(&mut exec, OUTSIDE, TaskPriority::High, 2, 200, Work::Returns(200, 42));
    let mut result_b = None;
    let mut seed = 7u32;
    while let Some(t) = exec.find_task(0, random_permutation(2, [seed, seed + 1, seed + 2, seed + 3])) {
        seed += 4;
        match t.runnable {
            Work::Returns(200, v) => {
                result_b = Some(v);
                scope.task_completed(kb);
            },
            Work::Returns(_, _) => unreachable!(),
            // Awaits forever: never rescheduled, never completes.
            Work::NeverFinishes(_) => {},
        }
    }
    let cancelled = scope.destroy();
    assert_eq!(result_b, Some(42));
    assert!(cancelled.contains(&100));
    assert!(scope.destroy().is_empty());
}

#[test]
fn live_count_follows_registrations() {
    let mut scope = TaskScope::new();
    assert_eq!(scope.num_live(), 0);
    let k = scope.register_task(5);
    scope.register_task(6);
    assert_eq!(scope.num_live(), 2);
    scope.task_completed(k);
    assert_eq!(scope.num_live(), 2);
    scope.clear_completed_tasks();
    assert_eq!(scope.num_live(), 1);
}
