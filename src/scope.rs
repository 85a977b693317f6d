use vstd::prelude::*;
use slotmap::{DefaultKey, SlotMap};

use crate::priority::TaskPriority;
use crate::scheduler::{Executor, ReadyTask, TaskMetadata};

verus! {

#[verifier::external_type_specification]
#[verifier::external_body]
pub struct ExDefaultKey(DefaultKey);

/// A slot map from generation-checked keys to task ids.
#[verifier::external_body]
pub struct CancelTable {
    map: SlotMap<DefaultKey, u64>,
}

/// The number a key stands for (`KeyData::as_ffi`); distinct keys have distinct numbers.
pub uninterp spec fn key_bits(k: DefaultKey) -> u64;

/// What a table of cancel handles holds: for each live key's number, the task it cancels.
pub uninterp spec fn live_entries(m: CancelTable) -> Map<u64, u64>;

/// Relies on `SlotMap::new`: the new map is empty.
#[verifier::external_body]
fn table_new() -> (r: CancelTable)
    ensures
        live_entries(r).dom().len() == 0,
        live_entries(r).dom().finite(),
{
    CancelTable { map: SlotMap::new() }
}

/// Relies on `SlotMap::insert`: the key handed back was not live before and now
/// holds `v`. It panics only when `u32::MAX - 1` entries are live and no slot is
/// vacant, which `requires` rules out.
#[verifier::external_body]
fn table_insert(m: &mut CancelTable, v: u64) -> (k: DefaultKey)
    requires
        live_entries(*old(m)).dom().finite(),
        live_entries(*old(m)).dom().len() < 0xffff_fffe,
    ensures
        !live_entries(*old(m)).contains_key(key_bits(k)),
        live_entries(*final(m)) == live_entries(*old(m)).insert(key_bits(k), v),
{
    m.map.insert(v)
}

/// Relies on `SlotMap::remove`: a live key's entry is taken out and returned;
/// any other key leaves the map as it was and gives `None`.
#[verifier::external_body]
fn table_remove(m: &mut CancelTable, k: DefaultKey) -> (r: Option<u64>)
    ensures
        live_entries(*final(m)) == live_entries(*old(m)).remove(key_bits(k)),
        r == (if live_entries(*old(m)).contains_key(key_bits(k)) {
            Some(live_entries(*old(m))[key_bits(k)])
        } else {
            None
        }),
{
    m.map.remove(k)
}

/// Relies on `SlotMap::len`: the number of live entries.
#[verifier::external_body]
fn table_len(m: &CancelTable) -> (r: usize)
    requires
        live_entries(*m).dom().finite(),
    ensures
        r == live_entries(*m).dom().len(),
{
    m.map.len()
}

/// Relies on `SlotMap::drain`: every live entry is handed out once, as a
/// `(key, value)` pair, and the map is left empty.
#[verifier::external_body]
fn table_drain(m: &mut CancelTable) -> (r: Vec<(DefaultKey, u64)>)
    requires
        live_entries(*old(m)).dom().finite(),
    ensures
        live_entries(*final(m)).dom().len() == 0,
        live_entries(*final(m)).dom().finite(),
        r@.len() == live_entries(*old(m)).dom().len(),
        forall|i: int|
            0 <= i < r@.len() ==> live_entries(*old(m)).contains_key(key_bits(#[trigger] r@[i].0))
                && live_entries(*old(m))[key_bits(r@[i].0)] == r@[i].1,
        forall|i: int, j: int| 0 <= i < j < r@.len() ==> key_bits(r@[i].0) != key_bits(r@[j].0),
{
    m.map.drain().collect()
}

/// The bookkeeping of a bounded-lifetime region: for each task spawned in it
/// and not yet known to be finished, the id of the task to cancel, under a key
/// that is never reused while live; and the keys of tasks that reported
/// completion since the last clean-up.
pub struct TaskScope {
    cancel_handles: CancelTable,
    completed_tasks: Vec<DefaultKey>,
}

/// `cancelled` holds the task of each entry of `live`, once per entry.
pub open spec fn hands_back_all(live: Map<u64, u64>, cancelled: Seq<u64>) -> bool {
    &&& cancelled.len() == live.dom().len()
    &&& exists|ks: Seq<u64>|
        ks.len() == cancelled.len() && ks.no_duplicates() && forall|i: int|
            0 <= i < ks.len() ==> live.contains_key(#[trigger] ks[i]) && cancelled[i] == live[ks[i]]
}

/// The key numbers of a list of keys.
pub open spec fn keys_bits(ks: Seq<DefaultKey>) -> Set<u64> {
    Set::new(|b: u64| exists|i: int| 0 <= i < ks.len() && #[trigger] key_bits(ks[i]) == b)
}

impl TaskScope {
    /// The tasks to cancel, by key number.
    pub closed spec fn live(&self) -> Map<u64, u64> {
        live_entries(self.cancel_handles)
    }

    /// Keys of tasks that finished since the last clean-up.
    pub closed spec fn completed(&self) -> Seq<DefaultKey> {
        self.completed_tasks@
    }

    pub closed spec fn wf(&self) -> bool {
        self.live().dom().finite()
    }

    /// A scope with no tasks.
    pub fn new() -> (r: Self)
        ensures
            r.wf(),
            r.live() == Map::<u64, u64>::empty(),
            r.completed().len() == 0,
    {
        let r = TaskScope { cancel_handles: table_new(), completed_tasks: Vec::new() };
        proof {
            r.live().dom().lemma_len0_is_empty();
            assert(r.live() =~= Map::<u64, u64>::empty());
        }
        r
    }

    /// Forgets the cancel handles of the tasks that reported completion.
    pub fn clear_completed_tasks(&mut self)
        requires
            old(self).wf(),
        ensures
            final(self).wf(),
            final(self).live() == old(self).live().remove_keys(keys_bits(old(self).completed())),
            final(self).completed().len() == 0,
    {
        let ghost done = self.completed_tasks@;
        let ghost start = self.live();
        let mut i: usize = 0;
        while i < self.completed_tasks.len()
            invariant
                self.completed_tasks@ == done,
                start == old(self).live(),
                done == old(self).completed(),
                i <= done.len(),
                self.live() == start.remove_keys(keys_bits(done.take(i as int))),
                self.live().dom().finite(),
                start.dom().finite(),
            decreases done.len() - i,
        {
            let k = self.completed_tasks[i];
            let _ = table_remove(&mut self.cancel_handles, k);
            proof {
                let before = done.take(i as int);
                let after = done.take(i + 1);
                assert(after == before.push(k));
                assert(keys_bits(after) =~= keys_bits(before).insert(key_bits(k))) by {
                    assert forall|b: u64| keys_bits(after).contains(b) implies keys_bits(before).insert(
                        key_bits(k),
                    ).contains(b) by {
                        let j = choose|j: int| 0 <= j < after.len() && #[trigger] key_bits(after[j]) == b;
                        if j < before.len() {
                            assert(before[j] == after[j]);
                        }
                    }
                    assert forall|b: u64| keys_bits(before).insert(key_bits(k)).contains(b) implies keys_bits(
                        after,
                    ).contains(b) by {
                        if b == key_bits(k) {
                            assert(after[before.len() as int] == k);
                        } else {
                            let j = choose|j: int| 0 <= j < before.len() && #[trigger] key_bits(before[j]) == b;
                            assert(before[j] == after[j]);
                        }
                    }
                }
                assert(self.live() =~= start.remove_keys(keys_bits(after)));
            }
            i = i + 1;
        }
        self.completed_tasks.clear();
        proof {
            assert(done.take(done.len() as int) =~= done);
        }
    }

    /// Registers task `task_id` in the scope, after forgetting the tasks that
    /// reported completion; returns the key the task reports completion with.
    pub fn register_task(&mut self, task_id: u64) -> (k: DefaultKey)
        requires
            old(self).wf(),
            old(self).live().dom().len() < 0xffff_fffe,
        ensures
            final(self).wf(),
            final(self).completed().len() == 0,
            !old(self).live().remove_keys(keys_bits(old(self).completed())).contains_key(key_bits(k)),
            final(self).live() == old(self).live().remove_keys(keys_bits(old(self).completed())).insert(
                key_bits(k),
                task_id,
            ),
    {
        let ghost pre = self.live();
        self.clear_completed_tasks();
        proof {
            vstd::set_lib::lemma_len_subset(self.live().dom(), pre.dom());
        }
        table_insert(&mut self.cancel_handles, task_id)
    }

    /// How many tasks are registered.
    pub fn num_live(&self) -> (r: usize)
        requires
            self.wf(),
        ensures
            r == self.live().dom().len(),
    {
        table_len(&self.cancel_handles)
    }

    /// A task of this scope finished: its key is queued for clean-up.
    pub fn task_completed(&mut self, key: DefaultKey)
        requires
            old(self).wf(),
        ensures
            final(self).wf(),
            final(self).live() == old(self).live(),
            final(self).completed() == old(self).completed().push(key),
    {
        self.completed_tasks.push(key);
    }

    /// Ends the scope: every task still registered is handed back, once, to be
    /// cancelled, and none stays registered.
    pub fn destroy(&mut self) -> (cancelled: Vec<u64>)
        requires
            old(self).wf(),
        ensures
            final(self).wf(),
            final(self).live().dom().len() == 0,
            hands_back_all(old(self).live(), cancelled@),
    {
        let drained = table_drain(&mut self.cancel_handles);
        let ghost pre = drained@;
        let mut cancelled: Vec<u64> = Vec::new();
        let mut i: usize = 0;
        while i < drained.len()
            invariant
                i <= drained@.len(),
                drained@ == pre,
                cancelled@ == pre.take(i as int).map_values(|e: (DefaultKey, u64)| e.1),
            decreases drained@.len() - i,
        {
            cancelled.push(drained[i].1);
            i = i + 1;
            assert(cancelled@ =~= pre.take(i as int).map_values(|e: (DefaultKey, u64)| e.1));
        }
        let ghost ks = pre.map_values(|e: (DefaultKey, u64)| key_bits(e.0));
        proof {
            assert(pre.take(pre.len() as int) =~= pre);
            assert(ks.no_duplicates());
            assert forall|i: int| 0 <= i < ks.len() implies old(self).live().contains_key(#[trigger] ks[i])
                && cancelled@[i] == old(self).live()[ks[i]] by {
                assert(ks[i] == key_bits(pre[i].0));
            }
        }
        cancelled
    }

    /// Spawns a task bound to this scope: registers `task_id`, then schedules
    /// the work as a freshly spawned task of `priority` from worker `thread`.
    /// Being fresh, it goes to an overflow queue and a parked worker is to be woken.
    pub fn spawn_task<T>(
        &mut self,
        executor: &mut Executor<T>,
        thread: usize,
        priority: TaskPriority,
        spawn_site: u64,
        task_id: u64,
        runnable: T,
    ) -> (k: DefaultKey)
        requires
            old(self).wf(),
            old(self).live().dom().len() < 0xffff_fffe,
            old(executor).wf(),
        ensures
            final(self).wf(),
            final(self).completed().len() == 0,
            !old(self).live().remove_keys(keys_bits(old(self).completed())).contains_key(key_bits(k)),
            final(self).live() == old(self).live().remove_keys(keys_bits(old(self).completed())).insert(
                key_bits(k),
                task_id,
            ),
            final(executor).wf(),
            Executor::scheduled(
                *old(executor),
                *final(executor),
                thread,
                ReadyTask { meta: TaskMetadata::spec_new(spawn_site, priority), runnable },
                true,
            ),
            final(executor).all_runnables() == old(executor).all_runnables().insert(runnable),
    {
        let k = self.register_task(task_id);
        spawn(executor, thread, priority, spawn_site, runnable);
        k
    }
}

/// Spawns a task with no scope: schedules the work as a freshly spawned task of
/// `priority` from worker `thread`. It goes to an overflow queue and a parked
/// worker is to be woken.
pub fn spawn<T>(executor: &mut Executor<T>, thread: usize, priority: TaskPriority, spawn_site: u64, runnable: T)
    requires
        old(executor).wf(),
    ensures
        final(executor).wf(),
        Executor::scheduled(
            *old(executor),
            *final(executor),
            thread,
            ReadyTask { meta: TaskMetadata::spec_new(spawn_site, priority), runnable },
            true,
        ),
        final(executor).all_runnables() == old(executor).all_runnables().insert(runnable),
{
    let meta = TaskMetadata::new(spawn_site, priority);
    let wake = executor.schedule_task(thread, ReadyTask { meta, runnable });
    assert(wake);
}

/// Scope safety: when a scope ends, every task still registered in it, that
/// is every task that has not reported completion, is handed back for
/// cancellation.
pub proof fn lemma_unfinished_task_is_cancelled(live: Map<u64, u64>, cancelled: Seq<u64>, key: u64)
    requires
        live.dom().finite(),
        hands_back_all(live, cancelled),
        live.contains_key(key),
    ensures
        cancelled.contains(live[key]),
{
    let ks = choose|ks: Seq<u64>|
        ks.len() == cancelled.len() && ks.no_duplicates() && forall|i: int|
            0 <= i < ks.len() ==> live.contains_key(#[trigger] ks[i]) && cancelled[i] == live[ks[i]];
    ks.unique_seq_to_set();
    assert(ks.to_set().subset_of(live.dom()));
    vstd::set_lib::lemma_subset_equality(ks.to_set(), live.dom());
    assert(ks.to_set().contains(key));
    let i = choose|i: int| 0 <= i < ks.len() && ks[i] == key;
    assert(cancelled[i] == live[key]);
}

} // verus!
