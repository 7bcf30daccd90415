use rcore_os::manager::TaskManager;
use rcore_os::sched::{
    build_scheduler, PriorityScheduler, RoundRobinScheduler, SchedInfo, Scheduler, SchedulerPolicy,
    DEFAULT_PRIORITY, MAX_PRIORITY,
};
use rcore_os::task::{TaskControlBlock, TaskStatus, TaskUserRes};

#[test]
fn sched_info_bookkeeping() {
    let mut s = SchedInfo::new(3);
    assert!(s.on_enqueue(10));
    assert!(!s.on_enqueue(12));
    assert_eq!(s.ready_since, 10);
    s.on_dispatch(25);
    assert_eq!(s.total_wait_ticks, 15);
    assert_eq!(s.scheduled_count, 1);
    assert!(!s.in_ready_queue);
    s.on_timer_tick();
    s.on_timer_tick();
    assert_eq!(s.runtime_ticks, 2);
    assert_eq!(s.slice_ticks, 2);
    s.on_block();
    assert_eq!(s.slice_ticks, 0);
    s.set_base_priority(6);
    assert_eq!(s.effective_priority, 6);
}

#[test]
fn waiting_task_ages_to_the_top() {
    let mut s = SchedInfo::new(0);
    s.on_enqueue(0);
    assert_eq!(s.refresh_effective_priority(19), 0);
    assert_eq!(s.refresh_effective_priority(20), 1);
    assert_eq!(s.refresh_effective_priority(139), 6);
    assert_eq!(s.refresh_effective_priority(140), MAX_PRIORITY);
    assert_eq!(s.refresh_effective_priority(100_000), MAX_PRIORITY);
    s.on_dispatch(200);
    assert_eq!(s.effective_priority, 0);
}

fn task(pid: usize, priority: usize) -> TaskControlBlock {
    TaskControlBlock::new_with_priority(pid, 0x80, 0, 0x1000, true, 0x90 + pid as u64, priority)
}

#[test]
fn round_robin_is_first_come_first_served() {
    let mut rr = RoundRobinScheduler::new();
    rr.enqueue(task(1, 4));
    rr.enqueue(task(2, 4));
    assert_eq!(rr.ready_len(), 2);
    assert_eq!(rr.dequeue(0).unwrap().pid, 1);
    assert_eq!(rr.dequeue(0).unwrap().pid, 2);
    assert!(rr.dequeue(0).is_none());
    assert_eq!(rr.name(), "round-robin");
    assert_eq!(build_scheduler(SchedulerPolicy::RoundRobin).ready_len(), 0);
}

#[test]
fn priority_scheduler_serves_highest_first() {
    let mut ps = PriorityScheduler::new();
    ps.enqueue(task(1, 2));
    ps.enqueue(task(2, 6));
    ps.enqueue(task(3, 6));
    assert_eq!(ps.ready_len(), 3);
    assert_eq!(ps.dequeue(0).unwrap().pid, 2);
    assert_eq!(ps.dequeue(0).unwrap().pid, 3);
    assert_eq!(ps.dequeue(0).unwrap().pid, 1);
    assert!(ps.dequeue(0).is_none());
}

#[test]
fn task_control_block_defaults() {
    let mut t = TaskControlBlock::new(3, 0x1234, 1, 0x7000, true, 0x99);
    assert_eq!(t.pid, 3);
    assert_eq!(t.inner.res, Some(TaskUserRes { tid: 1, ustack_base: 0x7000, owns_user_pages: true }));
    assert_eq!(t.inner.exit_code, None);
    assert_eq!(t.inner.get_status(), TaskStatus::Ready);
    assert_eq!(t.inner.get_trap_cx(), 0x99);
    assert_eq!(t.get_user_token(), (8u64 << 60) | 0x1234);
    assert_eq!(t.inner_exclusive_access().sched_info.base_priority, DEFAULT_PRIORITY);
}

#[test]
fn manager_hands_out_tasks_in_order() {
    let mut m = TaskManager::new();
    m.add(task(1, 4), 0);
    m.add(task(2, 4), 0);
    let first = m.fetch(5).unwrap();
    assert_eq!(first.pid, 1);
    assert_eq!(m.scheduler_name(), "round-robin");
    assert_eq!(m.fetch(5).unwrap().pid, 2);
    assert!(m.fetch(5).is_none());
}
