use vstd::prelude::*;
use std::collections::VecDeque;
use vstd::multiset::Multiset;

use crate::permutation::{lemma_order_is_permutation, lemma_prefix_grows, RandomPermutation};
use crate::priority::TaskPriority;
use crate::telemetry::{charge_wait, WaitTimer};

verus! {

broadcast use vstd::multiset::group_multiset_axioms;

/// What the scheduler knows of a task besides the work itself.
#[derive(Copy, Clone, Debug, PartialEq, Eq, Structural)]
pub struct TaskMetadata {
    /// Identifies the call site that spawned the task.
    pub spawn_site: u64,
    /// Time, in nanoseconds, that workers waited for work before picking the task up.
    pub ns_spent_blocked: u64,
    pub priority: TaskPriority,
    /// Set until the task is scheduled for the first time.
    pub freshly_spawned: bool,
}

impl TaskMetadata {
    /// Metadata of a task about to be spawned at `spawn_site`.
    pub open spec fn spec_new(spawn_site: u64, priority: TaskPriority) -> Self {
        TaskMetadata { spawn_site, ns_spent_blocked: 0, priority, freshly_spawned: true }
    }

    pub fn new(spawn_site: u64, priority: TaskPriority) -> (r: Self)
        ensures
            r == Self::spec_new(spawn_site, priority),
    {
        TaskMetadata { spawn_site, ns_spent_blocked: 0, priority, freshly_spawned: true }
    }

    /// Adds `ns` nanoseconds of waiting to the task (saturating at `u64::MAX`).
    pub fn add_blocked_time(&mut self, ns: u64)
        ensures
            final(self).ns_spent_blocked == crate::telemetry::saturating_sum(old(self).ns_spent_blocked, ns),
            final(self).spawn_site == old(self).spawn_site,
            final(self).priority == old(self).priority,
            final(self).freshly_spawned == old(self).freshly_spawned,
    {
        self.ns_spent_blocked = self.ns_spent_blocked.saturating_add(ns);
    }
}

/// A task that is ready to run: its metadata and the suspended work.
pub struct ReadyTask<T> {
    pub meta: TaskMetadata,
    pub runnable: T,
}

impl<T> ReadyTask<T> {
    /// The same task with `ns` more nanoseconds of waiting charged to it.
    pub open spec fn charged(self, ns: u64) -> ReadyTask<T> {
        ReadyTask {
            meta: TaskMetadata {
                ns_spent_blocked: crate::telemetry::saturating_sum(self.meta.ns_spent_blocked, ns),
                ..self.meta
            },
            runnable: self.runnable,
        }
    }

    /// The same task after its first scheduling decision.
    pub open spec fn scheduled_once(self) -> ReadyTask<T> {
        ReadyTask { meta: TaskMetadata { freshly_spawned: false, ..self.meta }, runnable: self.runnable }
    }
}

/// The work held by a queue.
pub open spec fn queue_runnables<T>(q: Seq<ReadyTask<T>>) -> Multiset<T> {
    q.map_values(|t: ReadyTask<T>| t.runnable).to_multiset()
}

/// The work held by a single-task slot.
pub open spec fn slot_runnables<T>(s: Option<ReadyTask<T>>) -> Multiset<T> {
    match s {
        Some(t) => Multiset::singleton(t.runnable),
        None => Multiset::empty(),
    }
}

/// The scheduling state of a pool of workers: for each worker a single-task
/// slot and a high-priority queue (the owner works at its back, thieves take
/// from its front), and two shared overflow queues, one per priority.
pub struct Executor<T> {
    pub local_slots: Vec<Option<ReadyTask<T>>>,
    pub local_queues: Vec<VecDeque<ReadyTask<T>>>,
    pub global_high_prio_task_queue: VecDeque<ReadyTask<T>>,
    pub global_low_prio_task_queue: VecDeque<ReadyTask<T>>,
}

impl<T> Executor<T> {
    pub open spec fn wf(&self) -> bool {
        self.local_slots@.len() == self.local_queues@.len()
    }

    pub open spec fn num_workers(&self) -> nat {
        self.local_slots@.len()
    }

    pub open spec fn slot(&self, w: int) -> Option<ReadyTask<T>> {
        self.local_slots@[w]
    }

    pub open spec fn queue(&self, w: int) -> Seq<ReadyTask<T>> {
        self.local_queues@[w]@
    }

    pub open spec fn global_high(&self) -> Seq<ReadyTask<T>> {
        self.global_high_prio_task_queue@
    }

    pub open spec fn global_low(&self) -> Seq<ReadyTask<T>> {
        self.global_low_prio_task_queue@
    }

    /// The work held by the slots and queues of the first `n` workers.
    pub open spec fn local_runnables(&self, n: nat) -> Multiset<T>
        decreases n,
    {
        if n == 0 {
            Multiset::empty()
        } else {
            self.local_runnables((n - 1) as nat).add(slot_runnables(self.slot(n - 1))).add(
                queue_runnables(self.queue(n - 1)),
            )
        }
    }

    /// All the work the scheduler holds.
    pub open spec fn all_runnables(&self) -> Multiset<T> {
        queue_runnables(self.global_high()).add(queue_runnables(self.global_low())).add(
            self.local_runnables(self.num_workers()),
        )
    }

    /// The overflow queues are the same in `self` and `other`.
    pub open spec fn same_globals(&self, other: &Self) -> bool {
        &&& other.global_high() == self.global_high()
        &&& other.global_low() == self.global_low()
    }

    /// The workers are the same in `self` and `other`, but for worker `w`'s slot and queue.
    pub open spec fn same_except_worker(&self, other: &Self, w: int) -> bool {
        &&& other.num_workers() == self.num_workers()
        &&& other.local_queues@.len() == self.local_queues@.len()
        &&& forall|v: int| 0 <= v < self.num_workers() && v != w ==> other.slot(v) == self.slot(v)
        &&& forall|v: int| 0 <= v < self.num_workers() && v != w ==> other.queue(v) == self.queue(v)
    }

    /// The placement rule: where `schedule_task(thread, task)` puts the task
    /// and whether it wakes a parked worker.
    pub open spec fn scheduled(pre: Self, post: Self, thread: usize, task: ReadyTask<T>, wake: bool) -> bool {
        let placed = task.scheduled_once();
        if thread >= pre.num_workers() || task.meta.freshly_spawned {
            &&& wake
            &&& post.same_except_worker(&pre, -1)
            &&& if task.meta.priority == TaskPriority::High {
                post.global_high_prio_task_queue@ == pre.global_high().push(placed)
                    && post.global_low_prio_task_queue@ == pre.global_low()
            } else {
                post.global_low_prio_task_queue@ == pre.global_low().push(placed)
                    && post.global_high_prio_task_queue@ == pre.global_high()
            }
        } else if task.meta.priority == TaskPriority::High {
            &&& post.same_except_worker(&pre, thread as int)
            &&& post.same_globals(&pre)
            &&& post.slot(thread as int) == Some(placed)
            &&& match pre.slot(thread as int) {
                None => !wake && post.queue(thread as int) == pre.queue(thread as int),
                Some(evicted) => wake && post.queue(thread as int) == pre.queue(thread as int).push(evicted),
            }
        } else if pre.queue(thread as int).len() == 0 && pre.slot(thread as int) is None {
            &&& !wake
            &&& post.same_except_worker(&pre, thread as int)
            &&& post.same_globals(&pre)
            &&& post.slot(thread as int) == Some(placed)
            &&& post.queue(thread as int) == pre.queue(thread as int)
        } else {
            &&& wake
            &&& post.same_except_worker(&pre, -1)
            &&& post.global_low_prio_task_queue@ == pre.global_low().push(placed)
            &&& post.global_high_prio_task_queue@ == pre.global_high()
        }
    }
}

/// Pushing onto a queue adds the task's work.
proof fn lemma_queue_push<T>(q: Seq<ReadyTask<T>>, t: ReadyTask<T>)
    ensures
        queue_runnables(q.push(t)) == queue_runnables(q).insert(t.runnable),
{
    assert(q.push(t).map_values(|t: ReadyTask<T>| t.runnable) =~= q.map_values(
        |t: ReadyTask<T>| t.runnable,
    ).push(t.runnable));
    vstd::seq_lib::to_multiset_build(q.map_values(|t: ReadyTask<T>| t.runnable), t.runnable);
}

/// Taking the first task off a queue removes its work.
proof fn lemma_queue_drop_first<T>(q: Seq<ReadyTask<T>>)
    requires
        q.len() > 0,
    ensures
        queue_runnables(q) == queue_runnables(q.drop_first()).insert(q[0].runnable),
{
    let r = q.drop_first();
    assert(q =~= seq![q[0]] + r);
    let m = q.map_values(|t: ReadyTask<T>| t.runnable);
    assert(m =~= seq![q[0].runnable] + r.map_values(|t: ReadyTask<T>| t.runnable));
    vstd::seq_lib::lemma_multiset_commutative(
        seq![q[0].runnable],
        r.map_values(|t: ReadyTask<T>| t.runnable),
    );
    assert(seq![q[0].runnable] =~= Seq::<T>::empty().push(q[0].runnable));
    vstd::seq_lib::to_multiset_build(Seq::<T>::empty(), q[0].runnable);
    assert(Seq::<T>::empty().to_multiset() =~= Multiset::empty()) by {
        broadcast use vstd::seq_lib::group_to_multiset_ensures;
    }
}

/// Taking the last task off a queue removes its work.
proof fn lemma_queue_drop_last<T>(q: Seq<ReadyTask<T>>)
    requires
        q.len() > 0,
    ensures
        queue_runnables(q) == queue_runnables(q.drop_last()).insert(q.last().runnable),
{
    assert(q =~= q.drop_last().push(q.last()));
    lemma_queue_push(q.drop_last(), q.last());
}

impl<T> Executor<T> {
    /// Changing one worker's slot and queue changes the workers' work by exactly
    /// what that worker held before and after.
    proof fn lemma_local_update(pre: &Self, post: &Self, w: int, n: nat)
        requires
            post.same_except_worker(pre, w),
            n <= pre.num_workers(),
        ensures
            0 <= w < n ==> forall|x: T|
                #[trigger] post.local_runnables(n).count(x) + slot_runnables(pre.slot(w)).count(x)
                    + queue_runnables(pre.queue(w)).count(x) == pre.local_runnables(n).count(x)
                    + slot_runnables(post.slot(w)).count(x) + queue_runnables(post.queue(w)).count(x),
            !(0 <= w < n) ==> post.local_runnables(n) == pre.local_runnables(n),
        decreases n,
    {
        if n > 0 {
            let m = (n - 1) as nat;
            Self::lemma_local_update(pre, post, w, m);
            if w != m {
                assert(post.slot(m as int) == pre.slot(m as int));
                assert(post.queue(m as int) == pre.queue(m as int));
            }
            if !(0 <= w < n) {
                assert(post.local_runnables(n) =~= pre.local_runnables(n));
            } else {
                assert forall|x: T|
                    #[trigger] post.local_runnables(n).count(x) + slot_runnables(pre.slot(w)).count(x)
                        + queue_runnables(pre.queue(w)).count(x) == pre.local_runnables(n).count(x)
                        + slot_runnables(post.slot(w)).count(x) + queue_runnables(post.queue(w)).count(
                        x,
                    ) by {
                    assert(post.local_runnables(m).count(x) + slot_runnables(pre.slot(w)).count(x)
                        + queue_runnables(pre.queue(w)).count(x) == pre.local_runnables(m).count(x)
                        + slot_runnables(post.slot(w)).count(x) + queue_runnables(post.queue(w)).count(
                        x,
                    ) || w == m);
                }
            }
        }
    }

    /// The whole of the work, after a change of worker `w` alone.
    proof fn lemma_all_update(pre: &Self, post: &Self, w: int)
        requires
            post.same_except_worker(pre, w),
            post.same_globals(pre),
            0 <= w < pre.num_workers(),
        ensures
            forall|x: T|
                #[trigger] post.all_runnables().count(x) + slot_runnables(pre.slot(w)).count(x)
                    + queue_runnables(pre.queue(w)).count(x) == pre.all_runnables().count(x)
                    + slot_runnables(post.slot(w)).count(x) + queue_runnables(post.queue(w)).count(x),
    {
        Self::lemma_local_update(pre, post, w, pre.num_workers());
        assert forall|x: T|
            #[trigger] post.all_runnables().count(x) + slot_runnables(pre.slot(w)).count(x)
                + queue_runnables(pre.queue(w)).count(x) == pre.all_runnables().count(x)
                + slot_runnables(post.slot(w)).count(x) + queue_runnables(post.queue(w)).count(x) by {
            assert(post.local_runnables(pre.num_workers()).count(x) + slot_runnables(pre.slot(w)).count(x)
                + queue_runnables(pre.queue(w)).count(x) == pre.local_runnables(pre.num_workers()).count(x)
                + slot_runnables(post.slot(w)).count(x) + queue_runnables(post.queue(w)).count(x));
        }
    }

    /// A pool of `n_threads` workers with nothing scheduled.
    pub fn new(n_threads: usize) -> (r: Self)
        ensures
            r.wf(),
            r.num_workers() == n_threads,
            r.global_high().len() == 0,
            r.global_low().len() == 0,
            forall|w: int| 0 <= w < n_threads ==> r.slot(w) is None && r.queue(w).len() == 0,
    {
        let mut local_slots: Vec<Option<ReadyTask<T>>> = Vec::new();
        let mut local_queues: Vec<VecDeque<ReadyTask<T>>> = Vec::new();
        let mut i: usize = 0;
        while i < n_threads
            invariant
                i <= n_threads,
                local_slots@.len() == i,
                local_queues@.len() == i,
                forall|w: int| 0 <= w < i ==> local_slots@[w] is None && local_queues@[w]@.len() == 0,
            decreases n_threads - i,
        {
            local_slots.push(None);
            local_queues.push(VecDeque::new());
            i = i + 1;
        }
        Executor {
            local_slots,
            local_queues,
            global_high_prio_task_queue: VecDeque::new(),
            global_low_prio_task_queue: VecDeque::new(),
        }
    }

    /// Places a ready task, scheduled from worker `thread` (any index past the
    /// last worker stands for a thread outside the pool). Returns whether a
    /// parked worker should be woken.
    pub fn schedule_task(&mut self, thread: usize, task: ReadyTask<T>) -> (wake: bool)
        requires
            old(self).wf(),
        ensures
            final(self).wf(),
            Self::scheduled(*old(self), *final(self), thread, task, wake),
            final(self).all_runnables() == old(self).all_runnables().insert(task.runnable),
    {
        let ghost pre = *self;
        let ghost placed = task.scheduled_once();
        let mut task = task;
        let mut use_global_queue = thread >= self.local_slots.len();
        if task.meta.freshly_spawned {
            use_global_queue = true;
            task.meta.freshly_spawned = false;
        }
        task.meta.freshly_spawned = false;
        assert(task == placed);
        if use_global_queue {
            if task.meta.priority.is_high() {
                self.global_high_prio_task_queue.push_back(task);
                proof {
                    lemma_queue_push(pre.global_high(), placed);
                }
            } else {
                self.global_low_prio_task_queue.push_back(task);
                proof {
                    lemma_queue_push(pre.global_low(), placed);
                }
            }
            proof {
                Self::lemma_local_update(&pre, self, -1, self.num_workers());
                assert(self.all_runnables() =~= pre.all_runnables().insert(placed.runnable));
            }
            true
        } else if task.meta.priority.is_high() {
            let prev = self.local_slots[thread].take();
            self.local_slots[thread] = Some(task);
            match prev {
                None => {
                    proof {
                        Self::lemma_all_update(&pre, self, thread as int);
                        assert(self.all_runnables() =~= pre.all_runnables().insert(placed.runnable));
                    }
                    false
                },
                Some(evicted) => {
                    self.local_queues[thread].push_back(evicted);
                    proof {
                        lemma_queue_push(pre.queue(thread as int), evicted);
                        Self::lemma_all_update(&pre, self, thread as int);
                        assert(self.all_runnables() =~= pre.all_runnables().insert(placed.runnable));
                    }
                    true
                },
            }
        } else if self.local_queues[thread].len() == 0 && self.local_slots[thread].is_none() {
            self.local_slots[thread] = Some(task);
            proof {
                Self::lemma_all_update(&pre, self, thread as int);
                assert(self.all_runnables() =~= pre.all_runnables().insert(placed.runnable));
            }
            false
        } else {
            self.global_low_prio_task_queue.push_back(task);
            proof {
                lemma_queue_push(pre.global_low(), placed);
                Self::lemma_local_update(&pre, self, -1, self.num_workers());
                assert(self.all_runnables() =~= pre.all_runnables().insert(placed.runnable));
            }
            true
        }
    }
}

/// How many tasks a batch steal moves to the thief's queue besides the one it
/// returns, from a victim queue of `len >= 1` tasks: half of the others, at most 31.
pub open spec fn steal_batch_size(len: nat) -> nat {
    if (len - 1) / 2 < 31 {
        ((len - 1) / 2) as nat
    } else {
        31
    }
}

impl<T> Executor<T> {
    /// `v` is the first worker in `order`, other than `thread`, with a non-empty queue.
    pub open spec fn is_first_victim(&self, thread: int, order: Seq<u32>, v: int) -> bool {
        exists|k: int|
            0 <= k < order.len() && order[k] == v && v != thread && 0 <= v < self.num_workers()
                && self.queue(v).len() > 0 && forall|j: int|
                0 <= j < k ==> (order[j] == thread || self.queue(order[j] as int).len() == 0)
    }

    /// Every queue but `thread`'s is empty.
    pub open spec fn others_empty(&self, thread: int) -> bool {
        forall|v: int| 0 <= v < self.num_workers() && v != thread ==> #[trigger] self.queue(v).len() == 0
    }

    /// The outcome of one search for work by worker `thread`: its slot, else
    /// the newest task of its queue, else a steal visiting victims in `order`.
    pub open spec fn searched(pre: Self, post: Self, thread: int, order: Seq<u32>, r: Option<ReadyTask<T>>) -> bool {
        match pre.slot(thread) {
            Some(t) => {
                &&& r == Some(t)
                &&& post.slot(thread) is None
                &&& post.same_except_worker(&pre, thread)
                &&& post.queue(thread) == pre.queue(thread)
                &&& post.same_globals(&pre)
            },
            None => if pre.queue(thread).len() > 0 {
                &&& r == Some(pre.queue(thread).last())
                &&& post.same_except_worker(&pre, thread)
                &&& post.same_globals(&pre)
                &&& post.slot(thread) is None
                &&& post.queue(thread) == pre.queue(thread).drop_last()
            } else {
                Self::stolen(pre, post, thread, order, r)
            },
        }
    }

    /// The outcome of a steal by `thread` that visits victims in `order`.
    pub open spec fn stolen(pre: Self, post: Self, thread: int, order: Seq<u32>, r: Option<ReadyTask<T>>) -> bool {
        if pre.global_high().len() > 0 {
            &&& r == Some(pre.global_high()[0])
            &&& post.global_high() == pre.global_high().drop_first()
            &&& post.global_low() == pre.global_low()
            &&& post.same_except_worker(&pre, -1)
        } else if pre.global_low().len() > 0 {
            &&& r == Some(pre.global_low()[0])
            &&& post.global_low() == pre.global_low().drop_first()
            &&& post.global_high() == pre.global_high()
            &&& post.same_except_worker(&pre, -1)
        } else if pre.others_empty(thread) {
            &&& r is None
            &&& post.same_globals(&pre)
            &&& post.same_except_worker(&pre, -1)
        } else {
            exists|v: int|
                {
                    &&& #[trigger] pre.is_first_victim(thread, order, v)
                    &&& post.same_globals(&pre)
                    &&& post.num_workers() == pre.num_workers()
                    &&& post.local_slots@ == pre.local_slots@
                    &&& forall|u: int|
                        0 <= u < pre.num_workers() && u != v && u != thread ==> post.queue(u) == pre.queue(u)
                    &&& r == Some(pre.queue(v)[steal_batch_size(pre.queue(v).len()) as int])
                    &&& post.queue(v) == pre.queue(v).skip(steal_batch_size(pre.queue(v).len()) + 1int)
                    &&& post.queue(thread) == pre.queue(thread) + pre.queue(v).take(
                        steal_batch_size(pre.queue(v).len()) as int,
                    )
                }
        }
    }

    /// The worker's own next task: the one in its slot, else the newest in its queue.
    pub fn take_local_task(&mut self, thread: usize) -> (r: Option<ReadyTask<T>>)
        requires
            old(self).wf(),
            thread < old(self).num_workers(),
        ensures
            final(self).wf(),
            final(self).same_globals(old(self)),
            final(self).same_except_worker(old(self), thread as int),
            final(self).slot(thread as int) is None,
            match old(self).slot(thread as int) {
                Some(t) => r == Some(t) && final(self).queue(thread as int) == old(self).queue(thread as int),
                None => if old(self).queue(thread as int).len() > 0 {
                    r == Some(old(self).queue(thread as int).last()) && final(self).queue(thread as int)
                        == old(self).queue(thread as int).drop_last()
                } else {
                    r is None && final(self).queue(thread as int) == old(self).queue(thread as int)
                },
            },
            match r {
                Some(t) => old(self).all_runnables() == final(self).all_runnables().insert(t.runnable),
                None => final(self).all_runnables() == old(self).all_runnables(),
            },
    {
        let ghost pre = *self;
        let slot = self.local_slots[thread].take();
        match slot {
            Some(t) => {
                proof {
                    Self::lemma_all_update(&pre, self, thread as int);
                    assert(pre.all_runnables() =~= self.all_runnables().insert(t.runnable));
                }
                Some(t)
            },
            None => {
                let popped = self.local_queues[thread].pop_back();
                proof {
                    Self::lemma_all_update(&pre, self, thread as int);
                    if popped is Some {
                        lemma_queue_drop_last(pre.queue(thread as int));
                        assert(pre.all_runnables() =~= self.all_runnables().insert(
                            popped->0.runnable,
                        ));
                    } else {
                        assert(self.all_runnables() =~= pre.all_runnables());
                    }
                }
                popped
            },
        }
    }
}

impl<T> Executor<T> {
    /// `thread` steals a batch from `victim`'s queue: the oldest tasks move to
    /// the back of its own queue, and the one after them is returned.
    fn steal_batch_and_pop(&mut self, thread: usize, victim: usize) -> (r: ReadyTask<T>)
        requires
            old(self).wf(),
            thread < old(self).num_workers(),
            victim < old(self).num_workers(),
            thread != victim,
            old(self).queue(victim as int).len() > 0,
        ensures
            final(self).wf(),
            final(self).same_globals(old(self)),
            final(self).num_workers() == old(self).num_workers(),
            final(self).local_slots@ == old(self).local_slots@,
            forall|u: int|
                0 <= u < old(self).num_workers() && u != victim && u != thread ==> final(self).queue(u)
                    == old(self).queue(u),
            r == old(self).queue(victim as int)[steal_batch_size(
                old(self).queue(victim as int).len(),
            ) as int],
            final(self).queue(victim as int) == old(self).queue(victim as int).skip(
                steal_batch_size(old(self).queue(victim as int).len()) + 1int,
            ),
            final(self).queue(thread as int) == old(self).queue(thread as int) + old(self).queue(
                victim as int,
            ).take(steal_batch_size(old(self).queue(victim as int).len()) as int),
            old(self).all_runnables() == final(self).all_runnables().insert(r.runnable),
    {
        let ghost pre = *self;
        let ghost q = pre.queue(victim as int);
        let len = self.local_queues[victim].len();
        let mut batch = (len - 1) / 2;
        if batch > 31 {
            batch = 31;
        }
        assert(batch == steal_batch_size(q.len()));
        let mut i: usize = 0;
        while i < batch
            invariant
                self.wf(),
                i <= batch,
                batch < q.len(),
                thread < self.num_workers(),
                victim < self.num_workers(),
                thread != victim,
                self.same_globals(&pre),
                self.num_workers() == pre.num_workers(),
                self.local_slots@ == pre.local_slots@,
                forall|u: int|
                    0 <= u < pre.num_workers() && u != victim && u != thread ==> self.queue(u) == pre.queue(u),
                self.queue(victim as int) == q.skip(i as int),
                self.queue(thread as int) == pre.queue(thread as int) + q.take(i as int),
                self.all_runnables() == pre.all_runnables(),
            decreases batch - i,
        {
            let ghost s0 = *self;
            let t = self.local_queues[victim].pop_front().unwrap();
            let ghost s1 = *self;
            proof {
                lemma_queue_drop_first(s0.queue(victim as int));
                Self::lemma_all_update(&s0, &s1, victim as int);
                assert(s0.queue(victim as int)[0] == q[i as int]);
            }
            self.local_queues[thread].push_back(t);
            proof {
                lemma_queue_push(s1.queue(thread as int), t);
                Self::lemma_all_update(&s1, self, thread as int);
                assert(self.all_runnables() =~= s0.all_runnables());
                assert(self.queue(victim as int) =~= q.skip(i + 1));
                assert(self.queue(thread as int) =~= pre.queue(thread as int) + q.take(i + 1));
            }
            i = i + 1;
        }
        let ghost s0 = *self;
        let t = self.local_queues[victim].pop_front().unwrap();
        proof {
            lemma_queue_drop_first(s0.queue(victim as int));
            Self::lemma_all_update(&s0, self, victim as int);
            assert(pre.all_runnables() =~= self.all_runnables().insert(t.runnable));
            assert(self.queue(victim as int) =~= q.skip(batch + 1));
        }
        t
    }

    /// The first worker in `order`, other than `thread`, whose queue holds a task.
    fn find_victim(&self, thread: usize, order: RandomPermutation) -> (r: Option<usize>)
        requires
            self.wf(),
            thread < self.num_workers(),
            order.wf(),
            order.position() == 0,
            order.params().len == self.num_workers(),
        ensures
            match r {
                Some(v) => v < self.num_workers() && self.is_first_victim(
                    thread as int,
                    order.params().order(),
                    v as int,
                ),
                None => self.others_empty(thread as int),
            },
    {
        let ghost p = order.params();
        proof {
            order.lemma_params_wf();
            lemma_order_is_permutation(p);
        }
        let mut visit = order;
        loop
            invariant
                visit.wf(),
                visit.params() == p,
                order.params() == p,
                p.len == self.num_workers(),
                self.wf(),
                thread < self.num_workers(),
                p.order().len() == p.len,
                forall|v: u32| p.order().contains(v) <==> v < p.len,
                p.prefix(visit.position()).len() <= p.order().len(),
                p.order().take(p.prefix(visit.position()).len() as int) == p.prefix(visit.position()),
                forall|j: int|
                    0 <= j < p.prefix(visit.position()).len() ==> (p.order()[j] == thread
                        || self.queue(p.order()[j] as int).len() == 0),
            decreases p.modulus() - visit.position(),
        {
            let ghost before = p.prefix(visit.position());
            match visit.next() {
                None => {
                    proof {
                        assert(before == p.order());
                        assert forall|v: int| 0 <= v < self.num_workers() && v != thread implies #[trigger] self.queue(
                            v,
                        ).len() == 0 by {
                            assert(p.order().contains(v as u32));
                            let j = choose|j: int| 0 <= j < p.order().len() && p.order()[j] == v as u32;
                            assert(before[j] == p.order()[j]);
                        }
                    }
                    return None;
                },
                Some(idx) => {
                    proof {
                        let after = p.prefix(visit.position());
                        visit.lemma_params_wf();
                        lemma_prefix_grows(p, visit.position(), p.modulus());
                        assert(after == before.push(idx));
                        assert(p.order()[before.len() as int] == after[before.len() as int]);
                        assert(p.order().contains(idx));
                        assert(p.order().take(after.len() as int) =~= after);
                    }
                    let victim = idx as usize;
                    if victim != thread && self.local_queues[victim].len() > 0 {
                        proof {
                            let k = before.len() as int;
                            assert forall|j: int| 0 <= j < k implies (p.order()[j] == thread
                                || self.queue(p.order()[j] as int).len() == 0) by {
                                assert(p.order()[j] == before[j]);
                            }
                            assert(p.order()[k] == victim);
                            assert(0 <= k < p.order().len() && p.order()[k] == victim as int && victim != thread
                                && 0 <= victim < self.num_workers() && self.queue(victim as int).len() > 0
                                && forall|j: int|
                                0 <= j < k ==> (p.order()[j] == thread || self.queue(p.order()[j] as int).len()
                                    == 0));
                            assert(self.is_first_victim(thread as int, p.order(), victim as int));
                            assert(victim < self.num_workers());
                        }
                        return Some(victim);
                    }
                    proof {
                        let after = p.prefix(visit.position());
                        assert forall|j: int| 0 <= j < after.len() implies (p.order()[j] == thread
                            || self.queue(p.order()[j] as int).len() == 0) by {
                            if j < before.len() {
                                assert(p.order()[j] == before[j]);
                            } else {
                                assert(p.order()[j] == after[j]);
                            }
                        }
                    }
                },
            }
        }
    }

    /// Looks for work beyond the worker's own slot and queue: first the
    /// high-priority overflow queue, then the low-priority one, then the
    /// other workers' queues in the order `order` visits them. A steal from
    /// exclusively held state never meets a concurrent one, so there is no
    /// conflict to retry and one pass over the order finds any queued task.
    pub fn try_steal_task(&mut self, thread: usize, order: RandomPermutation) -> (r: Option<ReadyTask<T>>)
        requires
            old(self).wf(),
            thread < old(self).num_workers(),
            order.wf(),
            order.position() == 0,
            order.params().len == old(self).num_workers(),
        ensures
            final(self).wf(),
            Self::stolen(*old(self), *final(self), thread as int, order.params().order(), r),
            match r {
                Some(t) => old(self).all_runnables() == final(self).all_runnables().insert(t.runnable),
                None => final(self).all_runnables() == old(self).all_runnables(),
            },
    {
        let ghost pre = *self;
        let ghost p = order.params();
        if self.global_high_prio_task_queue.len() > 0 {
            let t = self.global_high_prio_task_queue.pop_front().unwrap();
            proof {
                lemma_queue_drop_first(pre.global_high());
                Self::lemma_local_update(&pre, self, -1, self.num_workers());
                assert(pre.all_runnables() =~= self.all_runnables().insert(t.runnable));
            }
            return Some(t);
        }
        if self.global_low_prio_task_queue.len() > 0 {
            let t = self.global_low_prio_task_queue.pop_front().unwrap();
            proof {
                lemma_queue_drop_first(pre.global_low());
                Self::lemma_local_update(&pre, self, -1, self.num_workers());
                assert(pre.all_runnables() =~= self.all_runnables().insert(t.runnable));
            }
            return Some(t);
        }
        match self.find_victim(thread, order) {
            None => {
                proof {
                    assert(self.all_runnables() == pre.all_runnables());
                }
                None
            },
            Some(victim) => {
                let t = self.steal_batch_and_pop(thread, victim);
                proof {
                    assert(pre.is_first_victim(thread as int, p.order(), victim as int));
                }
                Some(t)
            },
        }
    }
}

impl<T> Executor<T> {
    /// One search for work by worker `thread`: its slot, then the newest task
    /// of its own queue, then a steal visiting the other workers in `order`.
    pub fn find_task(&mut self, thread: usize, order: RandomPermutation) -> (r: Option<ReadyTask<T>>)
        requires
            old(self).wf(),
            thread < old(self).num_workers(),
            order.wf(),
            order.position() == 0,
            order.params().len == old(self).num_workers(),
        ensures
            final(self).wf(),
            Self::searched(*old(self), *final(self), thread as int, order.params().order(), r),
            match r {
                Some(t) => old(self).all_runnables() == final(self).all_runnables().insert(t.runnable),
                None => final(self).all_runnables() == old(self).all_runnables(),
            },
    {
        if self.local_slots[thread].is_some() || self.local_queues[thread].len() > 0 {
            return self.take_local_task(thread);
        }
        self.try_steal_task(thread, order)
    }
}

/// What a worker is to do after one step of its search for work.
pub enum WorkerAction<T> {
    /// Run the task carried here.
    Run(ReadyTask<T>),
    /// Nothing was found: take a park token, then search once more.
    PrepareToPark,
    /// Nothing was found while holding a park token: park on it.
    Park,
}

impl<T> Executor<T> {
    /// One step of worker `thread`'s loop at time `now`. Without a park token
    /// (`prepared` false) the worker searches its slot, its queue, and then
    /// steals; with one, it only steals, and on finding nothing starts its wait
    /// timer and parks. A task found is charged the wait that just ended.
    pub fn worker_step(
        &mut self,
        thread: usize,
        prepared: bool,
        order: RandomPermutation,
        timer: &mut WaitTimer,
        tracking: bool,
        now: u64,
    ) -> (a: WorkerAction<T>)
        requires
            old(self).wf(),
            thread < old(self).num_workers(),
            order.wf(),
            order.position() == 0,
            order.params().len == old(self).num_workers(),
        ensures
            final(self).wf(),
            match a {
                WorkerAction::Run(t) => {
                    &&& exists|found: ReadyTask<T>|
                        {
                            &&& #[trigger] found.charged(old(timer).charged(tracking, now)) == t
                            &&& if prepared {
                                Self::stolen(*old(self), *final(self), thread as int, order.params().order(), Some(found))
                            } else {
                                Self::searched(*old(self), *final(self), thread as int, order.params().order(), Some(found))
                            }
                        }
                    &&& final(timer).last_block_start is None
                    &&& old(self).all_runnables() == final(self).all_runnables().insert(t.runnable)
                },
                WorkerAction::PrepareToPark => {
                    &&& !prepared
                    &&& Self::searched(*old(self), *final(self), thread as int, order.params().order(), None)
                    &&& *final(timer) == *old(timer)
                    &&& final(self).all_runnables() == old(self).all_runnables()
                },
                WorkerAction::Park => {
                    &&& prepared
                    &&& Self::stolen(*old(self), *final(self), thread as int, order.params().order(), None)
                    &&& *final(timer) == old(timer).parked(tracking, now)
                    &&& final(self).all_runnables() == old(self).all_runnables()
                },
            },
    {
        let found = if prepared {
            self.try_steal_task(thread, order)
        } else {
            self.find_task(thread, order)
        };
        match found {
            Some(t) => {
                let ghost before = t;
                let mut t = t;
                charge_wait(timer, tracking, now, &mut t.meta);
                proof {
                    assert(before.charged(old(timer).charged(tracking, now)) == t);
                }
                WorkerAction::Run(t)
            },
            None => {
                if prepared {
                    timer.about_to_park(tracking, now);
                    WorkerAction::Park
                } else {
                    WorkerAction::PrepareToPark
                }
            },
        }
    }
}

/// Soft priority: a worker with an empty slot and queue takes a Low task into
/// its slot; a High task scheduled to the same worker before the Low one runs
/// takes the slot, and the Low task moves to the worker's queue, where it stays
/// held.
pub proof fn lemma_high_evicts_low<T>(
    s0: Executor<T>,
    s1: Executor<T>,
    s2: Executor<T>,
    thread: usize,
    low: ReadyTask<T>,
    high: ReadyTask<T>,
    wake1: bool,
    wake2: bool,
)
    requires
        s0.wf(),
        thread < s0.num_workers(),
        s0.slot(thread as int) is None,
        s0.queue(thread as int).len() == 0,
        low.meta.priority == TaskPriority::Low,
        !low.meta.freshly_spawned,
        high.meta.priority == TaskPriority::High,
        !high.meta.freshly_spawned,
        Executor::scheduled(s0, s1, thread, low, wake1),
        Executor::scheduled(s1, s2, thread, high, wake2),
    ensures
        !wake1,
        s1.slot(thread as int) == Some(low.scheduled_once()),
        s2.slot(thread as int) == Some(high.scheduled_once()),
        s2.queue(thread as int) == seq![low.scheduled_once()],
        wake2,
        s2.same_globals(&s0),
{
    assert(s2.queue(thread as int) =~= seq![low.scheduled_once()]);
}

/// A pool in which no worker finds anything, in its slot, its queue, the
/// overflow queues or by stealing, holds no work.
pub proof fn lemma_idle_pool_is_empty<T>(s: Executor<T>)
    requires
        s.wf(),
        s.global_high().len() == 0,
        s.global_low().len() == 0,
        forall|w: int| 0 <= w < s.num_workers() ==> #[trigger] s.slot(w) is None && s.queue(w).len() == 0,
    ensures
        s.all_runnables() == Multiset::<T>::empty(),
{
    lemma_idle_workers_empty(s, s.num_workers());
    assert(queue_runnables(s.global_high()) =~= Multiset::<T>::empty()) by {
        assert(s.global_high().map_values(|t: ReadyTask<T>| t.runnable) =~= Seq::<T>::empty());
        broadcast use vstd::seq_lib::group_to_multiset_ensures;
    }
    assert(queue_runnables(s.global_low()) =~= Multiset::<T>::empty()) by {
        assert(s.global_low().map_values(|t: ReadyTask<T>| t.runnable) =~= Seq::<T>::empty());
        broadcast use vstd::seq_lib::group_to_multiset_ensures;
    }
    assert(s.all_runnables() =~= Multiset::<T>::empty());
}

proof fn lemma_idle_workers_empty<T>(s: Executor<T>, n: nat)
    requires
        n <= s.num_workers(),
        forall|w: int| 0 <= w < s.num_workers() ==> #[trigger] s.slot(w) is None && s.queue(w).len() == 0,
    ensures
        s.local_runnables(n) == Multiset::<T>::empty(),
    decreases n,
{
    if n > 0 {
        lemma_idle_workers_empty(s, (n - 1) as nat);
        assert(s.slot(n - 1) is None && s.queue(n - 1).len() == 0);
        assert(queue_runnables(s.queue(n - 1)) =~= Multiset::<T>::empty()) by {
            assert(s.queue(n - 1).map_values(|t: ReadyTask<T>| t.runnable) =~= Seq::<T>::empty());
            broadcast use vstd::seq_lib::group_to_multiset_ensures;
        }
        assert(s.local_runnables(n) =~= Multiset::<T>::empty());
    }
}

/// Work conservation: while every task scheduled is either held or handed
/// out (which `schedule_task`, `find_task`, `take_local_task` and
/// `try_steal_task` keep true), a pool that has gone idle has handed out
/// exactly the tasks scheduled, each as often as it was scheduled.
pub proof fn lemma_work_conservation<T>(s: Executor<T>, scheduled: Multiset<T>, handed_out: Multiset<T>)
    requires
        s.wf(),
        s.all_runnables().add(handed_out) == scheduled,
        s.global_high().len() == 0,
        s.global_low().len() == 0,
        forall|w: int| 0 <= w < s.num_workers() ==> #[trigger] s.slot(w) is None && s.queue(w).len() == 0,
    ensures
        handed_out == scheduled,
{
    lemma_idle_pool_is_empty(s);
    assert(handed_out =~= scheduled);
}

/// Exclusive hand-out: a task held once is, after being handed out, no longer
/// held at all, so no other worker can obtain it until it is scheduled again.
pub proof fn lemma_handed_out_once<T>(pre: Executor<T>, post: Executor<T>, t: T)
    requires
        pre.all_runnables().count(t) == 1,
        pre.all_runnables() == post.all_runnables().insert(t),
    ensures
        post.all_runnables().count(t) == 0,
{
}

} // verus!
