use vstd::prelude::*;

use crate::scheduler::TaskMetadata;

verus! {

/// `a + b`, or `u64::MAX` where that does not fit.
pub open spec fn saturating_sum(a: u64, b: u64) -> u64 {
    if a + b > u64::MAX {
        u64::MAX
    } else {
        (a + b) as u64
    }
}

/// The map that a list of `(site, total)` entries stands for.
pub open spec fn entries_map(s: Seq<(u64, u64)>) -> Map<u64, u64>
    decreases s.len(),
{
    if s.len() == 0 {
        Map::empty()
    } else {
        entries_map(s.drop_last()).insert(s.last().0, s.last().1)
    }
}

/// No two entries share a site.
pub open spec fn sites_unique(s: Seq<(u64, u64)>) -> bool {
    forall|i: int, j: int| 0 <= i < j < s.len() ==> s[i].0 != s[j].0
}

/// A list with distinct sites maps each site to its entry's total, and nothing else.
proof fn lemma_entries_map(s: Seq<(u64, u64)>)
    requires
        sites_unique(s),
    ensures
        forall|k: u64| entries_map(s).contains_key(k) <==> exists|i: int| 0 <= i < s.len() && s[i].0 == k,
        forall|i: int| 0 <= i < s.len() ==> entries_map(s)[#[trigger] s[i].0] == s[i].1,
    decreases s.len(),
{
    if s.len() > 0 {
        let t = s.drop_last();
        lemma_entries_map(t);
        assert forall|k: u64| entries_map(s).contains_key(k) implies exists|i: int|
            0 <= i < s.len() && s[i].0 == k by {
            if k != s.last().0 {
                assert(entries_map(t).contains_key(k));
                let i = choose|i: int| 0 <= i < t.len() && t[i].0 == k;
                assert(s[i] == t[i]);
            } else {
                assert(s[s.len() - 1].0 == k);
            }
        }
        assert forall|i: int| 0 <= i < s.len() implies entries_map(s)[#[trigger] s[i].0] == s[i].1 by {
            if i < s.len() - 1 {
                assert(s[i] == t[i]);
            }
        }
        assert forall|k: u64| (exists|i: int| 0 <= i < s.len() && s[i].0 == k) implies entries_map(
            s,
        ).contains_key(k) by {
            let i = choose|i: int| 0 <= i < s.len() && s[i].0 == k;
            if i < s.len() - 1 {
                assert(s[i] == t[i]);
            }
        }
    }
}

/// Accumulated wait times per spawn site, and the switch that gates collecting them.
pub struct WaitStatistics {
    tracking: bool,
    entries: Vec<(u64, u64)>,
}

impl WaitStatistics {
    pub closed spec fn wf(&self) -> bool {
        sites_unique(self.entries@)
    }

    /// Whether workers currently measure how long they waited for tasks.
    pub closed spec fn tracking(&self) -> bool {
        self.tracking
    }

    /// Nanoseconds accumulated per spawn site.
    pub closed spec fn totals(&self) -> Map<u64, u64> {
        entries_map(self.entries@)
    }

    /// No totals, tracking off.
    pub fn new() -> (r: Self)
        ensures
            r.wf(),
            !r.tracking(),
            r.totals() == Map::<u64, u64>::empty(),
    {
        WaitStatistics { tracking: false, entries: Vec::new() }
    }

    pub fn is_tracking(&self) -> (r: bool)
        ensures
            r == self.tracking(),
    {
        self.tracking
    }

    /// Adds `ns` to the total of `site`, which starts at zero (saturating at `u64::MAX`).
    pub fn add_wait(&mut self, site: u64, ns: u64)
        requires
            old(self).wf(),
        ensures
            final(self).wf(),
            final(self).tracking() == old(self).tracking(),
            final(self).totals() == old(self).totals().insert(
                site,
                saturating_sum(
                    if old(self).totals().contains_key(site) {
                        old(self).totals()[site]
                    } else {
                        0
                    },
                    ns,
                ),
            ),
    {
        proof {
            lemma_entries_map(self.entries@);
        }
        let ghost pre = self.entries@;
        let mut i: usize = 0;
        while i < self.entries.len()
            invariant
                self.entries@ == pre,
                pre == old(self).entries@,
                self.tracking == old(self).tracking,
                sites_unique(pre),
                forall|k: u64| entries_map(pre).contains_key(k) <==> exists|j: int| 0 <= j < pre.len() && pre[j].0 == k,
                forall|j: int| 0 <= j < pre.len() ==> entries_map(pre)[#[trigger] pre[j].0] == pre[j].1,
                i <= pre.len(),
                forall|j: int| 0 <= j < i ==> pre[j].0 != site,
            decreases pre.len() - i,
        {
            if self.entries[i].0 == site {
                let (s, total) = self.entries[i];
                self.entries.set(i, (s, total.saturating_add(ns)));
                proof {
                    let post = self.entries@;
                    assert(sites_unique(post)) by {
                        assert forall|a: int, b: int| 0 <= a < b < post.len() implies post[a].0 != post[b].0 by {
                            assert(post[a].0 == pre[a].0 && post[b].0 == pre[b].0);
                        }
                    }
                    lemma_entries_map(post);
                    assert(pre[i as int].0 == site);
                    assert(entries_map(pre).contains_key(site));
                    assert(entries_map(pre)[site] == total);
                    assert(post[i as int].1 == saturating_sum(total, ns));
                    assert(entries_map(post) =~= entries_map(pre).insert(site, post[i as int].1)) by {
                        assert forall|k: u64| entries_map(post).contains_key(k) <==> #[trigger] entries_map(
                            pre,
                        ).insert(site, post[i as int].1).contains_key(k) by {
                            if entries_map(post).contains_key(k) {
                                let j = choose|j: int| 0 <= j < post.len() && post[j].0 == k;
                                assert(pre[j].0 == k);
                            }
                            if entries_map(pre).contains_key(k) {
                                let j = choose|j: int| 0 <= j < pre.len() && pre[j].0 == k;
                                assert(post[j].0 == k);
                            }
                        }
                        assert forall|k: u64| #[trigger] entries_map(post).contains_key(k) implies entries_map(
                            post,
                        )[k] == entries_map(pre).insert(site, post[i as int].1)[k] by {
                            let j = choose|j: int| 0 <= j < post.len() && post[j].0 == k;
                            if j != i {
                                assert(pre[j] == post[j]);
                            }
                        }
                    }
                }
                return;
            }
            i = i + 1;
        }
        self.entries.push((site, ns));
        proof {
            let post = self.entries@;
            assert(post.drop_last() =~= pre);
            assert(sites_unique(post));
            assert(!entries_map(pre).contains_key(site));
        }
    }

    /// Folds the blocked time of a finished task into its spawn site's total.
    pub fn record_task(&mut self, meta: &TaskMetadata)
        requires
            old(self).wf(),
        ensures
            final(self).wf(),
            final(self).tracking() == old(self).tracking(),
            final(self).totals() == old(self).totals().insert(
                meta.spawn_site,
                saturating_sum(
                    if old(self).totals().contains_key(meta.spawn_site) {
                        old(self).totals()[meta.spawn_site]
                    } else {
                        0
                    },
                    meta.ns_spent_blocked,
                ),
            ),
    {
        self.add_wait(meta.spawn_site, meta.ns_spent_blocked);
    }
}

/// Turns the measuring of wait times on or off; the totals so far are kept.
pub fn track_task_wait_statistics(stats: &mut WaitStatistics, should_track: bool)
    requires
        old(stats).wf(),
    ensures
        final(stats).wf(),
        final(stats).tracking() == should_track,
        final(stats).totals() == old(stats).totals(),
{
    stats.tracking = should_track;
}

/// A snapshot of the totals: one `(site, nanoseconds)` pair per site.
pub fn get_task_wait_statistics(stats: &WaitStatistics) -> (r: Vec<(u64, u64)>)
    requires
        stats.wf(),
    ensures
        sites_unique(r@),
        forall|i: int| 0 <= i < r@.len() ==> stats.totals().contains_key(#[trigger] r@[i].0) && stats.totals()[r@[i].0] == r@[i].1,
        forall|k: u64| stats.totals().contains_key(k) ==> exists|i: int| 0 <= i < r@.len() && r@[i].0 == k,
{
    proof {
        lemma_entries_map(stats.entries@);
    }
    let mut r: Vec<(u64, u64)> = Vec::new();
    let mut i: usize = 0;
    while i < stats.entries.len()
        invariant
            i <= stats.entries@.len(),
            r@ == stats.entries@.take(i as int),
        decreases stats.entries@.len() - i,
    {
        r.push(stats.entries[i]);
        i = i + 1;
        assert(r@ =~= stats.entries@.take(i as int));
    }
    assert(r@ =~= stats.entries@);
    r
}

/// Forgets all totals; tracking stays as it was.
pub fn clear_task_wait_statistics(stats: &mut WaitStatistics)
    requires
        old(stats).wf(),
    ensures
        final(stats).wf(),
        final(stats).tracking() == old(stats).tracking(),
        final(stats).totals() == Map::<u64, u64>::empty(),
{
    stats.entries.clear();
    assert(stats.entries@ =~= Seq::<(u64, u64)>::empty());
}

/// A worker's record of when it began to park while looking for work.
#[derive(Copy, Clone, Debug, PartialEq, Eq, Structural)]
pub struct WaitTimer {
    /// Clock reading, in nanoseconds, when the current wait began.
    pub last_block_start: Option<u64>,
}

impl WaitTimer {
    /// The timer after the worker decides to park at time `now`.
    pub open spec fn parked(self, tracking: bool, now: u64) -> WaitTimer {
        if self.last_block_start is None && tracking {
            WaitTimer { last_block_start: Some(now) }
        } else {
            self
        }
    }

    /// The wait charged to the task a worker obtains at time `now`.
    pub open spec fn charged(self, tracking: bool, now: u64) -> u64 {
        match self.last_block_start {
            Some(start) => if tracking && now >= start {
                (now - start) as u64
            } else {
                0
            },
            None => 0,
        }
    }

    /// No wait in progress.
    pub fn new() -> (r: Self)
        ensures
            r.last_block_start is None,
    {
        WaitTimer { last_block_start: None }
    }

    /// The worker is about to park at time `now`: a wait starts unless one is
    /// already running or tracking is off.
    pub fn about_to_park(&mut self, tracking: bool, now: u64)
        ensures
            *final(self) == old(self).parked(tracking, now),
    {
        if self.last_block_start.is_none() && tracking {
            self.last_block_start = Some(now);
        }
    }

    /// The worker obtained a task at time `now`: ends the wait and returns how
    /// long it lasted, or zero if tracking is off or no wait was running.
    pub fn task_obtained(&mut self, tracking: bool, now: u64) -> (ns: u64)
        ensures
            ns == old(self).charged(tracking, now),
            final(self).last_block_start is None,
    {
        let start = self.last_block_start.take();
        match start {
            Some(t) => if tracking && now >= t {
                now - t
            } else {
                0
            },
            None => 0,
        }
    }
}

/// A worker obtained the task with metadata `meta` at time `now`: the wait
/// that just ended, if tracked, is added to the task's blocked time.
pub fn charge_wait(timer: &mut WaitTimer, tracking: bool, now: u64, meta: &mut TaskMetadata)
    ensures
        final(timer).last_block_start is None,
        final(meta).ns_spent_blocked == saturating_sum(
            old(meta).ns_spent_blocked,
            old(timer).charged(tracking, now),
        ),
        final(meta).spawn_site == old(meta).spawn_site,
        final(meta).priority == old(meta).priority,
        final(meta).freshly_spawned == old(meta).freshly_spawned,
{
    let ns = timer.task_obtained(tracking, now);
    meta.add_blocked_time(ns);
}

/// Wait tracking gates accumulation. A worker with no wait running parks at
/// `parked_at` and obtains a task at `obtained_at`; the task's wait is then
/// folded into its site's total. With tracking off the park adds nothing to
/// the task's blocked time; with tracking on and time passing, the task's
/// blocked time and its site's total are strictly positive.
pub proof fn lemma_tracking_gates_accumulation(
    timer: WaitTimer,
    tracking: bool,
    parked_at: u64,
    obtained_at: u64,
    blocked_before: u64,
    total_before: u64,
)
    requires
        timer.last_block_start is None,
    ensures
        !tracking ==> timer.parked(tracking, parked_at).charged(tracking, obtained_at) == 0,
        !tracking ==> saturating_sum(blocked_before, timer.parked(tracking, parked_at).charged(tracking, obtained_at))
            == blocked_before,
        tracking && parked_at < obtained_at ==> timer.parked(tracking, parked_at).charged(tracking, obtained_at) > 0,
        tracking && parked_at < obtained_at ==> saturating_sum(
            total_before,
            saturating_sum(blocked_before, timer.parked(tracking, parked_at).charged(tracking, obtained_at)),
        ) > 0,
{
}

} // verus!
