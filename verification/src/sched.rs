//! Per-task scheduling bookkeeping and the scheduling policies.

use vstd::prelude::*;
use std::collections::VecDeque;
use crate::task::{TaskControlBlock, TaskControlBlockInner};

verus! {

/// Priority given to a task that does not ask for another one.
pub const DEFAULT_PRIORITY: usize = 4;
/// Lowest priority a task may have.
pub const MIN_PRIORITY: usize = 0;
/// Highest priority a task may have.
pub const MAX_PRIORITY: usize = 7;
/// Number of distinct priority levels.
pub const PRIORITY_LEVELS: usize = 8;
/// A ready task gains one level of priority for each full interval it waits.
pub const AGING_INTERVAL_TICKS: usize = 20;
/// Length of a time slice, in timer ticks, under the priority policy.
pub const TIME_SLICE_TICKS: usize = 2;
/// Length of a time slice, in timer ticks, under the round-robin policy.
pub const ROUND_ROBIN_TIME_SLICE: usize = 1;

/// `a + b`, clamped to the range of `usize`.
pub open spec fn sat_add(a: int, b: int) -> int {
    if a + b > usize::MAX { usize::MAX as int } else { a + b }
}

/// `a - b`, clamped at zero.
pub open spec fn sat_sub(a: int, b: int) -> int {
    if a >= b { a - b } else { 0 }
}

/// The priority of a ready task with base priority `base` that entered the
/// ready queue at tick `ready_since`, observed at tick `now`.
pub open spec fn aged_priority(base: int, ready_since: int, now: int) -> int {
    let boost = sat_sub(now, ready_since) / (AGING_INTERVAL_TICKS as int);
    let p = sat_add(base, boost);
    if p < MAX_PRIORITY { p } else { MAX_PRIORITY as int }
}

#[derive(Copy, Clone, Debug)]
pub struct SchedInfo {
    pub base_priority: usize,
    pub effective_priority: usize,
    pub ready_since: usize,
    pub runtime_ticks: usize,
    pub total_wait_ticks: usize,
    pub scheduled_count: usize,
    pub slice_ticks: usize,
    pub in_ready_queue: bool,
}

impl SchedInfo {
    /// Bookkeeping of a task that has never run, at priority `priority`.
    pub open spec fn spec_new(priority: usize) -> SchedInfo {
        SchedInfo {
            base_priority: priority,
            effective_priority: priority,
            ready_since: 0,
            runtime_ticks: 0,
            total_wait_ticks: 0,
            scheduled_count: 0,
            slice_ticks: 0,
            in_ready_queue: false,
        }
    }

    pub fn new(priority: usize) -> (s: Self)
        requires
            MIN_PRIORITY <= priority <= MAX_PRIORITY,
        ensures
            s == SchedInfo::spec_new(priority),
    {
        SchedInfo {
            base_priority: priority,
            effective_priority: priority,
            ready_since: 0,
            runtime_ticks: 0,
            total_wait_ticks: 0,
            scheduled_count: 0,
            slice_ticks: 0,
            in_ready_queue: false,
        }
    }

    /// Marks the task as entering the ready queue at `now`. Returns `false`
    /// and changes nothing when it is already queued.
    pub fn on_enqueue(&mut self, now: usize) -> (queued: bool)
        ensures
            queued == !old(self).in_ready_queue,
            !queued ==> *final(self) == *old(self),
            queued ==> *final(self) == (SchedInfo {
                ready_since: now,
                slice_ticks: 0,
                in_ready_queue: true,
                ..*old(self)
            }),
    {
        if self.in_ready_queue {
            return false;
        }
        self.ready_since = now;
        self.slice_ticks = 0;
        self.in_ready_queue = true;
        true
    }

    /// The bookkeeping after `on_dispatch(now)`: the wait since `ready_since`
    /// is added to the total, the dispatch is counted, and aging is dropped.
    pub open spec fn dispatched(self, now: usize) -> SchedInfo {
        SchedInfo {
            total_wait_ticks: sat_add(
                self.total_wait_ticks as int,
                sat_sub(now as int, self.ready_since as int),
            ) as usize,
            scheduled_count: sat_add(self.scheduled_count as int, 1) as usize,
            slice_ticks: 0,
            in_ready_queue: false,
            effective_priority: self.base_priority,
            ..self
        }
    }

    /// Records that the task leaves the ready queue to run at `now`.
    pub fn on_dispatch(&mut self, now: usize)
        ensures
            *final(self) == old(self).dispatched(now),
    {
        self.total_wait_ticks = self.total_wait_ticks.saturating_add(
            now.saturating_sub(self.ready_since),
        );
        self.scheduled_count = self.scheduled_count.saturating_add(1);
        self.slice_ticks = 0;
        self.in_ready_queue = false;
        self.effective_priority = self.base_priority;
    }

    /// Accounts one timer tick of running time.
    pub fn on_timer_tick(&mut self)
        ensures
            *final(self) == (SchedInfo {
                runtime_ticks: sat_add(old(self).runtime_ticks as int, 1) as usize,
                slice_ticks: sat_add(old(self).slice_ticks as int, 1) as usize,
                ..*old(self)
            }),
    {
        self.runtime_ticks = self.runtime_ticks.saturating_add(1);
        self.slice_ticks = self.slice_ticks.saturating_add(1);
    }

    /// The bookkeeping after `refresh_effective_priority(now)`.
    pub open spec fn refreshed(self, now: usize) -> SchedInfo {
        SchedInfo {
            effective_priority: if self.in_ready_queue {
                aged_priority(self.base_priority as int, self.ready_since as int, now as int) as usize
            } else {
                self.base_priority
            },
            ..self
        }
    }

    /// Recomputes the effective priority at `now` and returns it: a queued
    /// task is aged, any other task runs at its base priority.
    pub fn refresh_effective_priority(&mut self, now: usize) -> (p: usize)
        ensures
            p == final(self).effective_priority,
            *final(self) == old(self).refreshed(now),
            old(self).in_ready_queue ==> p == aged_priority(
                old(self).base_priority as int,
                old(self).ready_since as int,
                now as int,
            ),
            !old(self).in_ready_queue ==> p == old(self).base_priority,
            *final(self) == (SchedInfo { effective_priority: p, ..*old(self) }),
    {
        if self.in_ready_queue {
            let waited_ticks = now.saturating_sub(self.ready_since);
            let aging_boost = waited_ticks / AGING_INTERVAL_TICKS;
            let raised = self.base_priority.saturating_add(aging_boost);
            self.effective_priority = if raised < MAX_PRIORITY {
                raised
            } else {
                MAX_PRIORITY
            };
        } else {
            self.effective_priority = self.base_priority;
        }
        self.effective_priority
    }

    /// Records that the task stops running without being queued.
    pub fn on_block(&mut self)
        ensures
            *final(self) == (SchedInfo {
                slice_ticks: 0,
                in_ready_queue: false,
                effective_priority: old(self).base_priority,
                ..*old(self)
            }),
    {
        self.slice_ticks = 0;
        self.in_ready_queue = false;
        self.effective_priority = self.base_priority;
    }

    pub fn set_base_priority(&mut self, priority: usize)
        ensures
            *final(self) == (SchedInfo {
                base_priority: priority,
                effective_priority: priority,
                ..*old(self)
            }),
    {
        self.base_priority = priority;
        self.effective_priority = priority;
    }
}


/// A scheduling policy owns the ready tasks and decides when a running task
/// should give the processor to another ready task.
pub trait Scheduler: Sized {
    /// The policy's own well-formedness.
    spec fn inv(&self) -> bool;

    /// Number of ready tasks held.
    spec fn ready_count(&self) -> nat;

    /// Whether the policy can take `task` into its ready queues.
    spec fn accepts(&self, task: TaskControlBlock) -> bool;

    fn name(&self) -> &'static str;

    fn enqueue(&mut self, task: TaskControlBlock)
        requires
            old(self).inv(),
            old(self).ready_count() < usize::MAX,
            old(self).accepts(task),
        ensures
            final(self).inv(),
            final(self).ready_count() == old(self).ready_count() + 1,
    ;

    fn dequeue(&mut self, now: usize) -> (task: Option<TaskControlBlock>)
        requires
            old(self).inv(),
        ensures
            final(self).inv(),
            task.is_none() <==> old(self).ready_count() == 0,
            task.is_some() ==> final(self).ready_count() + 1 == old(self).ready_count(),
            task.is_none() ==> final(self).ready_count() == old(self).ready_count(),
    ;

    fn should_preempt(&mut self, current: &TaskControlBlock, now: usize) -> (preempt: bool)
        requires
            old(self).inv(),
        ensures
            final(self).inv(),
            final(self).ready_count() == old(self).ready_count(),
            old(self).ready_count() == 0 ==> !preempt,
    ;

    fn ready_len(&self) -> (n: usize)
        requires
            self.inv(),
        ensures
            n == self.ready_count(),
    ;
}

#[derive(Copy, Clone, Debug, PartialEq, Eq, Structural)]
pub enum SchedulerPolicy {
    RoundRobin,
}

pub const DEFAULT_SCHEDULER_POLICY: SchedulerPolicy = SchedulerPolicy::RoundRobin;

/// First-come first-served ready queue; every timer tick ends the running
/// task's slice when another task is ready.
pub struct RoundRobinScheduler {
    pub ready_queue: VecDeque<TaskControlBlock>,
}

impl RoundRobinScheduler {
    pub fn new() -> (s: Self)
        ensures
            s.ready_queue@ == Seq::<TaskControlBlock>::empty(),
    {
        RoundRobinScheduler { ready_queue: VecDeque::new() }
    }
}

impl Scheduler for RoundRobinScheduler {
    open spec fn inv(&self) -> bool {
        true
    }

    open spec fn ready_count(&self) -> nat {
        self.ready_queue@.len()
    }

    open spec fn accepts(&self, task: TaskControlBlock) -> bool {
        true
    }

    fn name(&self) -> (n: &'static str)
        ensures
            n@ == "round-robin"@,
    {
        "round-robin"
    }

    fn enqueue(&mut self, task: TaskControlBlock)
        ensures
            final(self).ready_queue@ == old(self).ready_queue@.push(task),
    {
        self.ready_queue.push_back(task);
    }

    fn dequeue(&mut self, _now: usize) -> (task: Option<TaskControlBlock>)
        ensures
            old(self).ready_queue@.len() == 0 ==> task.is_none()
                && final(self).ready_queue@ == old(self).ready_queue@,
            old(self).ready_queue@.len() > 0 ==> task == Some(old(self).ready_queue@[0])
                && final(self).ready_queue@ == old(self).ready_queue@.drop_first(),
    {
        self.ready_queue.pop_front()
    }

    fn should_preempt(&mut self, current: &TaskControlBlock, _now: usize) -> (preempt: bool)
        ensures
            *final(self) == *old(self),
            preempt == (old(self).ready_queue@.len() > 0
                && current.inner.sched_info.slice_ticks >= ROUND_ROBIN_TIME_SLICE),
    {
        if self.ready_queue.len() == 0 {
            return false;
        }
        current.inner.sched_info.slice_ticks >= ROUND_ROBIN_TIME_SLICE
    }

    fn ready_len(&self) -> (n: usize) {
        self.ready_queue.len()
    }
}

/// The scheduler that implements `policy`.
pub fn build_scheduler(policy: SchedulerPolicy) -> (s: RoundRobinScheduler)
    ensures
        s.ready_queue@ == Seq::<TaskControlBlock>::empty(),
{
    match policy {
        SchedulerPolicy::RoundRobin => RoundRobinScheduler::new(),
    }
}


/// Effective priority of a task.
pub open spec fn prio(t: TaskControlBlock) -> int {
    t.inner.sched_info.effective_priority as int
}

/// A task as it may wait in the priority queues: queued, with priorities in range.
pub open spec fn queued_ok(t: TaskControlBlock) -> bool {
    &&& t.inner.sched_info.in_ready_queue
    &&& t.inner.sched_info.base_priority <= MAX_PRIORITY
    &&& t.inner.sched_info.effective_priority <= MAX_PRIORITY
}

/// The task after its effective priority is refreshed at `now`.
pub open spec fn refreshed_task(t: TaskControlBlock, now: usize) -> TaskControlBlock {
    TaskControlBlock {
        inner: TaskControlBlockInner { sched_info: t.inner.sched_info.refreshed(now), ..t.inner },
        ..t
    }
}

/// The tasks of `s` whose effective priority is `p`, in order.
pub open spec fn at_priority(s: Seq<TaskControlBlock>, p: int) -> Seq<TaskControlBlock>
    decreases s.len(),
{
    if s.len() == 0 {
        s
    } else {
        let rest = at_priority(s.drop_last(), p);
        if prio(s.last()) == p {
            rest.push(s.last())
        } else {
            rest
        }
    }
}

/// Level `level` emptied, each of its tasks refreshed at `now` and appended,
/// in order, to the level of its new priority.
pub open spec fn redistribute(qs: Seq<Seq<TaskControlBlock>>, level: int, now: usize) -> Seq<
    Seq<TaskControlBlock>,
> {
    let moved = qs[level].map_values(|t: TaskControlBlock| refreshed_task(t, now));
    Seq::new(
        qs.len(),
        |j: int|
            (if j == level {
                Seq::<TaskControlBlock>::empty()
            } else {
                qs[j]
            }) + at_priority(moved, j),
    )
}

/// The queues after levels `PRIORITY_LEVELS - 1` down to `level` are redistributed.
pub open spec fn aging_stage(qs: Seq<Seq<TaskControlBlock>>, level: int, now: usize) -> Seq<
    Seq<TaskControlBlock>,
>
    decreases PRIORITY_LEVELS - level,
{
    if level >= PRIORITY_LEVELS {
        qs
    } else {
        redistribute(aging_stage(qs, level + 1, now), level, now)
    }
}

/// The queues after one aging pass at `now`, walking from high to low priority.
pub open spec fn aged(qs: Seq<Seq<TaskControlBlock>>, now: usize) -> Seq<Seq<TaskControlBlock>> {
    aging_stage(qs, 0, now)
}

/// Number of tasks in the first `n` levels.
pub open spec fn total_upto(qs: Seq<Seq<TaskControlBlock>>, n: int) -> nat
    decreases n,
{
    if n <= 0 {
        0
    } else {
        total_upto(qs, n - 1) + qs[n - 1].len()
    }
}

/// The highest of the first `n` levels that is not empty, or -1.
pub open spec fn highest_from(qs: Seq<Seq<TaskControlBlock>>, n: int) -> int
    decreases n,
{
    if n <= 0 {
        -1
    } else if qs[n - 1].len() > 0 {
        n - 1
    } else {
        highest_from(qs, n - 1)
    }
}

/// Every task waits at the level of its effective priority.
pub open spec fn levels_ok(qs: Seq<Seq<TaskControlBlock>>) -> bool {
    forall|i: int, j: int|
        0 <= i < qs.len() && 0 <= j < qs[i].len() ==> #[trigger] queued_ok(qs[i][j]) && prio(
            qs[i][j],
        ) == i
}

pub proof fn lemma_total_update(qs: Seq<Seq<TaskControlBlock>>, n: int, i: int, q: Seq<TaskControlBlock>)
    requires
        0 <= i < n <= qs.len(),
    ensures
        total_upto(qs.update(i, q), n) + qs[i].len() == total_upto(qs, n) + q.len(),
    decreases n,
{
    if n - 1 > i {
        lemma_total_update(qs, n - 1, i, q);
    } else {
        lemma_total_unchanged(qs, n - 1, i, q);
    }
}

proof fn lemma_total_unchanged(qs: Seq<Seq<TaskControlBlock>>, n: int, i: int, q: Seq<TaskControlBlock>)
    requires
        0 <= n <= i < qs.len(),
    ensures
        total_upto(qs.update(i, q), n) == total_upto(qs, n),
    decreases n,
{
    if n > 0 {
        lemma_total_unchanged(qs, n - 1, i, q);
    }
}

pub proof fn lemma_highest(qs: Seq<Seq<TaskControlBlock>>, n: int)
    requires
        0 <= n <= qs.len(),
    ensures
        -1 <= highest_from(qs, n) < n,
        highest_from(qs, n) >= 0 ==> qs[highest_from(qs, n)].len() > 0,
        forall|j: int| highest_from(qs, n) < j < n ==> #[trigger] qs[j].len() == 0,
        highest_from(qs, n) == -1 <==> total_upto(qs, n) == 0,
    decreases n,
{
    if n > 0 {
        lemma_highest(qs, n - 1);
    }
}

proof fn lemma_at_priority_ok(s: Seq<TaskControlBlock>, p: int)
    requires
        forall|k: int| 0 <= k < s.len() ==> #[trigger] queued_ok(s[k]),
    ensures
        forall|k: int|
            0 <= k < at_priority(s, p).len() ==> #[trigger] queued_ok(at_priority(s, p)[k])
                && prio(at_priority(s, p)[k]) == p,
    decreases s.len(),
{
    if s.len() > 0 {
        let t = s.drop_last();
        assert forall|k: int| 0 <= k < t.len() implies #[trigger] queued_ok(t[k]) by {
            assert(queued_ok(s[k]));
        }
        lemma_at_priority_ok(t, p);
        assert(queued_ok(s[s.len() - 1]));
        let r = at_priority(s, p);
        let rest = at_priority(t, p);
        assert forall|k: int| 0 <= k < r.len() implies #[trigger] queued_ok(r[k]) && prio(r[k])
            == p by {
            if k < rest.len() {
                assert(r[k] == rest[k]);
            }
        }
    }
}

proof fn lemma_at_priority_push(s: Seq<TaskControlBlock>, x: TaskControlBlock, p: int)
    ensures
        at_priority(s.push(x), p) == if prio(x) == p {
            at_priority(s, p).push(x)
        } else {
            at_priority(s, p)
        },
{
    assert(s.push(x).drop_last() =~= s);
}

/// Strict priority scheduling with FIFO order inside each priority level.
/// Waiting tasks are promoted by aging before each decision.
pub struct PriorityScheduler {
    pub ready_queues: Vec<VecDeque<TaskControlBlock>>,
    pub ready_tasks: usize,
}

impl PriorityScheduler {
    /// The ready queues, highest index = highest priority.
    pub open spec fn queues(&self) -> Seq<Seq<TaskControlBlock>> {
        Seq::new(self.ready_queues@.len(), |i: int| self.ready_queues@[i]@)
    }

    pub fn new() -> (s: Self)
        ensures
            s.inv(),
            s.ready_tasks == 0,
            s.queues() == Seq::new(
                PRIORITY_LEVELS as nat,
                |i: int| Seq::<TaskControlBlock>::empty(),
            ),
    {
        let mut ready_queues: Vec<VecDeque<TaskControlBlock>> = Vec::new();
        let mut i: usize = 0;
        while i < PRIORITY_LEVELS
            invariant
                i <= PRIORITY_LEVELS,
                ready_queues@.len() == i,
                forall|k: int| 0 <= k < i ==> (#[trigger] ready_queues@[k])@.len() == 0,
            decreases PRIORITY_LEVELS - i,
        {
            ready_queues.push(VecDeque::new());
            i += 1;
        }
        let s = PriorityScheduler { ready_queues, ready_tasks: 0 };
        assert forall|k: int| 0 <= k < PRIORITY_LEVELS implies #[trigger] s.queues()[k]
            =~= Seq::<TaskControlBlock>::empty() by {
            assert(s.ready_queues@[k]@.len() == 0);
        }
        assert(s.queues() =~= Seq::new(
            PRIORITY_LEVELS as nat,
            |i: int| Seq::<TaskControlBlock>::empty(),
        ));
        proof {
            let qs = s.queues();
            assert forall|n: int| 0 <= n <= PRIORITY_LEVELS implies total_upto(qs, n) == 0 by {
                lemma_total_zero(qs, n);
            }
        }
        s
    }

    /// Redistributes level `level`: each of its tasks is refreshed and moved
    /// to the level of its new priority.
    fn redistribute_level(&mut self, level: usize, now: usize)
        requires
            old(self).inv(),
            level < PRIORITY_LEVELS,
        ensures
            final(self).inv(),
            final(self).ready_tasks == old(self).ready_tasks,
            final(self).queues() == redistribute(old(self).queues(), level as int, now),
    {
        let ghost start = self.queues();
        let ghost moved = start[level as int].map_values(
            |t: TaskControlBlock| refreshed_task(t, now),
        );
        let tasks_at_level = self.ready_queues[level].len();
        let mut k: usize = 0;
        assert(start[level as int].skip(0) =~= start[level as int]);
        assert forall|j: int| 0 <= j < PRIORITY_LEVELS implies #[trigger] self.queues()[j] == (
        if j == level {
            start[level as int].skip(0)
        } else {
            start[j]
        }) + at_priority(moved.take(0), j) by {
            assert(moved.take(0).len() == 0);
            assert((if j == level {
                start[level as int].skip(0)
            } else {
                start[j]
            }) + at_priority(moved.take(0), j) =~= self.queues()[j]);
        }
        while k < tasks_at_level
            invariant
                self.ready_queues@.len() == PRIORITY_LEVELS,
                level < PRIORITY_LEVELS,
                k <= tasks_at_level,
                tasks_at_level == start[level as int].len(),
                start.len() == PRIORITY_LEVELS,
                levels_ok(start),
                moved == start[level as int].map_values(
                    |t: TaskControlBlock| refreshed_task(t, now),
                ),
                self.ready_tasks == old(self).ready_tasks,
                old(self).inv(),
                start == old(self).queues(),
                total_upto(self.queues(), PRIORITY_LEVELS as int) == total_upto(
                    start,
                    PRIORITY_LEVELS as int,
                ),
                forall|j: int|
                    0 <= j < PRIORITY_LEVELS ==> #[trigger] self.queues()[j] == (if j == level {
                        start[level as int].skip(k as int)
                    } else {
                        start[j]
                    }) + at_priority(moved.take(k as int), j),
            decreases tasks_at_level - k,
        {
            let ghost before = self.queues();
            assert(before[level as int] == start[level as int].skip(k as int) + at_priority(
                moved.take(k as int),
                level as int,
            ));
            assert(before[level as int][0] == start[level as int][k as int]);
            assert(queued_ok(start[level as int][k as int]));
            let mut task = self.ready_queues[level].pop_front().unwrap();
            let ghost mid = self.queues();
            assert(mid =~= before.update(level as int, before[level as int].drop_first()));
            let new_priority = task.inner.sched_info.refresh_effective_priority(now);
            assert(task == moved[k as int]);
            self.ready_queues[new_priority].push_back(task);
            proof {
                let after = self.queues();
                assert(after =~= mid.update(new_priority as int, mid[new_priority as int].push(task)));
                lemma_total_update(before, PRIORITY_LEVELS as int, level as int, before[level as int].drop_first());
                lemma_total_update(mid, PRIORITY_LEVELS as int, new_priority as int, mid[new_priority as int].push(task));
                assert(moved.take(k as int + 1) =~= moved.take(k as int).push(task));
                assert forall|j: int| 0 <= j < PRIORITY_LEVELS implies #[trigger] after[j] == (
                if j == level {
                    start[level as int].skip(k as int + 1)
                } else {
                    start[j]
                }) + at_priority(moved.take(k as int + 1), j) by {
                    lemma_at_priority_push(moved.take(k as int), task, j);
                    if j == level {
                        assert(start[level as int].skip(k as int).drop_first() =~= start[level as int].skip(k as int + 1));
                        assert((start[level as int].skip(k as int) + at_priority(moved.take(k as int), j)).drop_first()
                            =~= start[level as int].skip(k as int + 1) + at_priority(moved.take(k as int), j));
                    }
                    if j == new_priority {
                        assert(after[j] =~= mid[j].push(task));
                    }
                }
            }
            k += 1;
        }
        proof {
            let fin = self.queues();
            assert forall|j: int| 0 <= j < PRIORITY_LEVELS implies #[trigger] fin[j] == redistribute(start, level as int, now)[j] by {
                assert(moved.take(tasks_at_level as int) =~= moved);
                assert(start[level as int].skip(tasks_at_level as int) =~= Seq::<TaskControlBlock>::empty());
                if j == level {
                    assert(fin[j] =~= redistribute(start, level as int, now)[j]);
                }
            }
            assert(fin =~= redistribute(start, level as int, now));
            assert forall|k2: int| 0 <= k2 < moved.len() implies #[trigger] queued_ok(moved[k2]) by {
                assert(queued_ok(start[level as int][k2]));
            }
            assert forall|i: int, j: int|
                0 <= i < fin.len() && 0 <= j < fin[i].len() implies #[trigger] queued_ok(fin[i][j])
                    && prio(fin[i][j]) == i by {
                lemma_at_priority_ok(moved, i);
                let base = if i == level { Seq::<TaskControlBlock>::empty() } else { start[i] };
                if j < base.len() {
                    assert(fin[i][j] == start[i][j]);
                } else {
                    assert(fin[i][j] == at_priority(moved, i)[j - base.len()]);
                }
            }
        }
    }

    /// One aging pass over all ready tasks at `now`.
    fn refresh_aging(&mut self, now: usize)
        requires
            old(self).inv(),
        ensures
            final(self).inv(),
            final(self).ready_tasks == old(self).ready_tasks,
            final(self).queues() == aged(old(self).queues(), now),
    {
        // Walk from high to low. A promoted task moves to a queue that has
        // already been visited, so each ready task is examined once.
        let mut level: usize = PRIORITY_LEVELS;
        while level > 0
            invariant
                level <= PRIORITY_LEVELS,
                self.inv(),
                self.ready_tasks == old(self).ready_tasks,
                self.queues() == aging_stage(old(self).queues(), level as int, now),
            decreases level,
        {
            level -= 1;
            self.redistribute_level(level, now);
        }
    }

    /// The highest priority level holding a ready task, if any.
    fn highest_ready_priority(&self) -> (p: Option<usize>)
        requires
            self.inv(),
        ensures
            p.is_some() <==> highest_from(self.queues(), PRIORITY_LEVELS as int) >= 0,
            p.is_some() ==> p.unwrap() == highest_from(self.queues(), PRIORITY_LEVELS as int),
    {
        let mut level: usize = PRIORITY_LEVELS;
        while level > 0
            invariant
                level <= PRIORITY_LEVELS,
                self.inv(),
                highest_from(self.queues(), PRIORITY_LEVELS as int) == highest_from(
                    self.queues(),
                    level as int,
                ),
            decreases level,
        {
            if self.ready_queues[level - 1].len() > 0 {
                return Some(level - 1);
            }
            level -= 1;
        }
        None
    }
}

proof fn lemma_total_zero(qs: Seq<Seq<TaskControlBlock>>, n: int)
    requires
        0 <= n <= qs.len(),
        forall|i: int| 0 <= i < qs.len() ==> #[trigger] qs[i].len() == 0,
    ensures
        total_upto(qs, n) == 0,
    decreases n,
{
    if n > 0 {
        lemma_total_zero(qs, n - 1);
    }
}

impl Scheduler for PriorityScheduler {
    open spec fn inv(&self) -> bool {
        &&& self.ready_queues@.len() == PRIORITY_LEVELS
        &&& self.ready_tasks == total_upto(self.queues(), PRIORITY_LEVELS as int)
        &&& levels_ok(self.queues())
    }

    open spec fn ready_count(&self) -> nat {
        self.ready_tasks as nat
    }

    open spec fn accepts(&self, task: TaskControlBlock) -> bool {
        queued_ok(task)
    }

    fn name(&self) -> (n: &'static str)
        ensures
            n@ == "priority-aging"@,
    {
        "priority-aging"
    }

    fn enqueue(&mut self, task: TaskControlBlock)
        ensures
            final(self).queues() == old(self).queues().update(
                prio(task),
                old(self).queues()[prio(task)].push(task),
            ),
    {
        let p = task.inner.sched_info.effective_priority;
        let priority = if p < MAX_PRIORITY {
            p
        } else {
            MAX_PRIORITY
        };
        let ghost before = self.queues();
        self.ready_queues[priority].push_back(task);
        self.ready_tasks += 1;
        proof {
            let after = self.queues();
            assert(after =~= before.update(priority as int, before[priority as int].push(task)));
            lemma_total_update(before, PRIORITY_LEVELS as int, priority as int, before[priority as int].push(task));
            assert forall|i: int, j: int|
                0 <= i < after.len() && 0 <= j < after[i].len() implies #[trigger] queued_ok(after[i][j])
                    && prio(after[i][j]) == i by {
                if i == priority && j == before[i].len() {
                } else {
                    assert(after[i][j] == before[i][j]);
                }
            }
        }
    }

    fn dequeue(&mut self, now: usize) -> (task: Option<TaskControlBlock>)
        ensures
            old(self).ready_tasks == 0 ==> task.is_none() && *final(self) == *old(self),
            old(self).ready_tasks > 0 ==> {
                let a = aged(old(self).queues(), now);
                let p = highest_from(a, PRIORITY_LEVELS as int);
                &&& 0 <= p < PRIORITY_LEVELS
                &&& task == Some(a[p][0])
                &&& final(self).queues() == a.update(p, a[p].drop_first())
                &&& prio(a[p][0]) == p
                &&& forall|i: int, j: int|
                    0 <= i < PRIORITY_LEVELS && 0 <= j < final(self).queues()[i].len() ==> prio(
                        #[trigger] final(self).queues()[i][j],
                    ) <= p
            },
    {
        if self.ready_tasks == 0 {
            return None;
        }
        self.refresh_aging(now);
        proof {
            lemma_highest(self.queues(), PRIORITY_LEVELS as int);
        }
        let priority = self.highest_ready_priority().unwrap();
        let ghost before = self.queues();
        let task = self.ready_queues[priority].pop_front();
        self.ready_tasks -= 1;
        proof {
            let after = self.queues();
            assert(after =~= before.update(priority as int, before[priority as int].drop_first()));
            lemma_total_update(before, PRIORITY_LEVELS as int, priority as int, before[priority as int].drop_first());
            assert forall|i: int, j: int|
                0 <= i < after.len() && 0 <= j < after[i].len() implies #[trigger] queued_ok(after[i][j])
                    && prio(after[i][j]) == i by {
                if i == priority {
                    assert(after[i][j] == before[i][j + 1]);
                    assert(queued_ok(before[i][j + 1]));
                } else {
                    assert(after[i][j] == before[i][j]);
                    assert(queued_ok(before[i][j]));
                }
            }
            assert(queued_ok(before[priority as int][0]));
            assert(prio(before[priority as int][0]) == priority);
            assert forall|i: int, j: int|
                0 <= i < PRIORITY_LEVELS && 0 <= j < after[i].len() implies prio(
                #[trigger] after[i][j]) <= priority by {
                assert(queued_ok(after[i][j]));
                if i > priority {
                    assert(before[i].len() == 0);
                }
            }
        }
        task
    }

    fn should_preempt(&mut self, current: &TaskControlBlock, now: usize) -> (preempt: bool)
        ensures
            old(self).ready_tasks == 0 ==> !preempt && *final(self) == *old(self),
            old(self).ready_tasks > 0 ==> {
                let a = aged(old(self).queues(), now);
                &&& final(self).queues() == a
                &&& preempt == (current.inner.sched_info.slice_ticks >= TIME_SLICE_TICKS
                    || highest_from(a, PRIORITY_LEVELS as int)
                    > current.inner.sched_info.effective_priority)
            },
    {
        if self.ready_tasks == 0 {
            return false;
        }
        self.refresh_aging(now);
        proof {
            lemma_highest(self.queues(), PRIORITY_LEVELS as int);
        }
        let highest_ready = self.highest_ready_priority().unwrap();
        current.inner.sched_info.slice_ticks >= TIME_SLICE_TICKS
            || highest_ready > current.inner.sched_info.effective_priority
    }

    fn ready_len(&self) -> (n: usize) {
        self.ready_tasks
    }
}

/// A ready task that has waited `(MAX_PRIORITY - base) * AGING_INTERVAL_TICKS`
/// ticks or more has aged to the highest priority, whatever its base priority.
pub proof fn lemma_aging_reaches_max(base: int, ready_since: int, now: int)
    requires
        MIN_PRIORITY <= base <= MAX_PRIORITY,
        0 <= ready_since <= now <= usize::MAX,
        now - ready_since >= (MAX_PRIORITY - base) * AGING_INTERVAL_TICKS,
    ensures
        aged_priority(base, ready_since, now) == MAX_PRIORITY,
{
    let waited = now - ready_since;
    assert(waited / (AGING_INTERVAL_TICKS as int) >= MAX_PRIORITY - base) by (nonlinear_arith)
        requires
            waited >= (MAX_PRIORITY - base) * 20,
            MAX_PRIORITY - base >= 0,
            AGING_INTERVAL_TICKS == 20,
    ;
}

/// Aging never lowers a task below its base priority nor lifts it above the highest one.
pub proof fn lemma_aging_bounded(base: int, ready_since: int, now: int)
    requires
        MIN_PRIORITY <= base <= MAX_PRIORITY,
    ensures
        base <= aged_priority(base, ready_since, now) <= MAX_PRIORITY,
{
    let boost = sat_sub(now, ready_since) / (AGING_INTERVAL_TICKS as int);
    assert(boost >= 0);
}

} // verus!
