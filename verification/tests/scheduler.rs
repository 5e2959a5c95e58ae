use xui::hooks::{AsyncValue, ResourceValueSlot, StateSetter, TaskContext};
use xui::lanes::{
    highest_priority_lane, includes_some_lane, LaneRoot, DEFAULT_LANE, IDLE_LANE, NO_TIMESTAMP,
    RETRY_LANE, SYNC_LANE,
};
use xui::state::{AsyncMessage, AsyncScope, FiberId, Scheduler};

#[test]
fn a_setter_message_queues_its_update_in_the_default_lane() {
    let mut scheduler = Scheduler::new();
    let owner = FiberId(1);
    scheduler.set_root(owner);
    let setter = StateSetter::new(owner, 0);
    let message = setter.set(5);
    assert_eq!(message.lane, DEFAULT_LANE);
    assert!(scheduler.enqueue_async_message(message));
    assert_eq!(scheduler.component_lanes(owner), DEFAULT_LANE);
    assert_eq!(scheduler.apply_hook_updates(owner, 0, SYNC_LANE | DEFAULT_LANE), vec![5]);
}

#[test]
fn a_scoped_setter_of_the_current_run_is_applied() {
    let mut scheduler = Scheduler::new();
    let owner = FiberId(3);
    scheduler.set_root(owner);
    scheduler.set_async_scope(owner, 1, 1);
    let task = TaskContext::new(owner, 1, 1);
    let setter = task.scoped_setter(StateSetter::new(owner, 0));
    assert!(scheduler.enqueue_async_message(setter.set(7)));
    assert_eq!(scheduler.apply_hook_updates(owner, 0, SYNC_LANE | DEFAULT_LANE), vec![7]);
}

#[test]
fn a_resource_slot_takes_the_result_of_its_run() {
    let mut slot: ResourceValueSlot<usize, ()> = ResourceValueSlot::new();
    assert_eq!(slot.value, AsyncValue::Pending);
    slot.resolve(1, Ok(9));
    assert_eq!(slot.value, AsyncValue::Ready(9));
}

#[test]
fn stale_resource_results_are_ignored() {
    let mut slot: ResourceValueSlot<usize, &'static str> = ResourceValueSlot::new();
    let generation = slot.restart();
    assert_eq!(generation, 2);
    slot.resolve(1, Ok(1));
    assert_eq!(slot.value, AsyncValue::Pending);
    slot.resolve(2, Err("failed"));
    assert_eq!(slot.value, AsyncValue::Error("failed"));
}

#[test]
fn restarted_task_drops_updates_of_the_old_run() {
    let mut scheduler = Scheduler::new();
    let owner = FiberId(9);
    scheduler.mark_mounted(owner);
    scheduler.set_async_scope(owner, 2, 1);
    let old_run = TaskContext::new(owner, 2, 1).scoped_setter(StateSetter::new(owner, 0));
    scheduler.set_async_scope(owner, 2, 2);
    assert!(!scheduler.enqueue_async_message(old_run.update(4)));
    assert_eq!(scheduler.pending_lanes(), 0);
    assert!(!scheduler.is_dirty());
}

#[test]
fn updates_for_unmounted_components_are_dropped() {
    let mut scheduler = Scheduler::new();
    let ghost = FiberId(11);
    scheduler.enqueue_hook_update(ghost, 0, SYNC_LANE, 1);
    scheduler.mark_component_dirty(ghost, SYNC_LANE);
    assert_eq!(scheduler.component_lanes(ghost), 0);
    assert!(!scheduler.is_dirty());
    let message = AsyncMessage { owner: ghost, hook_index: 0, lane: SYNC_LANE, scope: None, update: 2 };
    assert!(!scheduler.enqueue_async_message(message));
}

#[test]
fn marking_dirty_accumulates_lanes() {
    let mut scheduler = Scheduler::new();
    let root = FiberId(1);
    let child = FiberId(2);
    scheduler.set_root(root);
    scheduler.mark_mounted(child);
    scheduler.mark_root_dirty(SYNC_LANE);
    scheduler.mark_component_dirty(child, DEFAULT_LANE);
    scheduler.mark_component_dirty(child, SYNC_LANE);
    assert_eq!(scheduler.component_lanes(root), SYNC_LANE);
    assert_eq!(scheduler.component_lanes(child), SYNC_LANE | DEFAULT_LANE);
    assert_eq!(scheduler.pending_lanes(), SYNC_LANE | DEFAULT_LANE);
    assert_eq!(scheduler.get_next_lanes(0), SYNC_LANE);
}

#[test]
fn finishing_a_render_keeps_only_remaining_work_pending() {
    let mut scheduler = Scheduler::new();
    let a = FiberId(1);
    let b = FiberId(2);
    scheduler.mark_mounted(a);
    scheduler.mark_mounted(b);
    scheduler.mark_component_dirty(a, SYNC_LANE);
    scheduler.mark_component_dirty(b, SYNC_LANE | DEFAULT_LANE);
    scheduler.mark_render_finished(SYNC_LANE);
    assert_eq!(scheduler.component_lanes(a), 0);
    assert_eq!(scheduler.component_lanes(b), DEFAULT_LANE);
    assert_eq!(scheduler.pending_lanes(), DEFAULT_LANE);
    scheduler.mark_render_finished(DEFAULT_LANE);
    assert!(!scheduler.is_dirty());
}

#[test]
fn queued_updates_keep_their_lanes_pending() {
    let mut scheduler = Scheduler::new();
    let a = FiberId(4);
    scheduler.mark_mounted(a);
    scheduler.enqueue_hook_update(a, 0, DEFAULT_LANE, 10);
    scheduler.enqueue_hook_update(a, 0, SYNC_LANE, 11);
    scheduler.enqueue_hook_update(a, 1, SYNC_LANE, 12);
    assert_eq!(scheduler.apply_hook_updates(a, 0, SYNC_LANE), vec![11]);
    scheduler.mark_render_finished(SYNC_LANE);
    assert_eq!(scheduler.pending_lanes(), SYNC_LANE | DEFAULT_LANE);
    assert_eq!(scheduler.apply_hook_updates(a, 0, DEFAULT_LANE), vec![10]);
    assert_eq!(scheduler.apply_hook_updates(a, 1, SYNC_LANE), vec![12]);
}

#[test]
fn unmounting_forgets_a_component() {
    let mut scheduler = Scheduler::new();
    let a = FiberId(5);
    scheduler.mark_mounted(a);
    scheduler.enqueue_hook_update(a, 0, SYNC_LANE, 1);
    scheduler.set_async_scope(a, 0, 3);
    scheduler.mark_unmounted(a);
    assert_eq!(scheduler.component_lanes(a), 0);
    assert_eq!(scheduler.apply_hook_updates(a, 0, SYNC_LANE), Vec::<u64>::new());
    let scope = AsyncScope { owner: a, hook_index: 0, generation: 3 };
    let message = AsyncMessage { owner: a, hook_index: 0, lane: SYNC_LANE, scope: Some(scope), update: 2 };
    assert!(!scheduler.enqueue_async_message(message));
}

#[test]
fn starved_lanes_expire_after_their_deadline() {
    let mut scheduler = Scheduler::new();
    let a = FiberId(6);
    scheduler.mark_mounted(a);
    scheduler.mark_component_dirty(a, DEFAULT_LANE | SYNC_LANE);
    scheduler.mark_starved_lanes_as_expired(1000);
    assert_eq!(scheduler.get_next_lanes(0), SYNC_LANE);
    scheduler.mark_starved_lanes_as_expired(7000);
    assert_eq!(scheduler.get_next_lanes(0), SYNC_LANE | DEFAULT_LANE);
}

#[test]
fn lane_root_keeps_work_in_progress_unless_outranked() {
    let mut root = LaneRoot::new();
    root.mark_root_updated(DEFAULT_LANE);
    assert_eq!(root.get_next_lanes(0), DEFAULT_LANE);
    root.mark_root_updated(RETRY_LANE);
    assert_eq!(root.get_next_lanes(DEFAULT_LANE), DEFAULT_LANE);
    root.mark_root_updated(SYNC_LANE);
    assert_eq!(root.get_next_lanes(DEFAULT_LANE), SYNC_LANE);
    root.mark_starved_lanes_as_expired(0);
    assert_eq!(root.expiration_times[1], 250);
    assert_eq!(root.expiration_times[22], NO_TIMESTAMP);
    root.mark_root_finished(SYNC_LANE, DEFAULT_LANE);
    assert_eq!(root.pending_lanes, DEFAULT_LANE);
    assert_eq!(root.expiration_times[1], NO_TIMESTAMP);
}

#[test]
fn lane_helpers() {
    assert_eq!(highest_priority_lane(DEFAULT_LANE | IDLE_LANE | RETRY_LANE), DEFAULT_LANE);
    assert_eq!(highest_priority_lane(0), 0);
    assert!(includes_some_lane(SYNC_LANE | DEFAULT_LANE, DEFAULT_LANE));
    assert!(!includes_some_lane(SYNC_LANE, DEFAULT_LANE));
}

#[test]
fn unmounting_one_component_leaves_another_untouched() {
    let mut scheduler = Scheduler::new();
    let a = FiberId(5);
    let b = FiberId(6);
    scheduler.mark_mounted(a);
    scheduler.mark_mounted(b);
    scheduler.enqueue_hook_update(a, 0, SYNC_LANE, 1);
    scheduler.enqueue_hook_update(b, 0, SYNC_LANE, 2);
    scheduler.enqueue_hook_update(b, 0, SYNC_LANE, 3);
    scheduler.set_async_scope(b, 0, 7);
    scheduler.mark_unmounted(a);
    assert_eq!(scheduler.component_lanes(a), 0);
    assert_eq!(scheduler.component_lanes(b), SYNC_LANE);
    scheduler.enqueue_hook_update(a, 0, SYNC_LANE, 4);
    scheduler.mark_component_dirty(a, DEFAULT_LANE);
    assert_eq!(scheduler.component_lanes(a), 0);
    let scope = AsyncScope { owner: b, hook_index: 0, generation: 7 };
    let message = AsyncMessage { owner: b, hook_index: 0, lane: SYNC_LANE, scope: Some(scope), update: 8 };
    assert!(scheduler.enqueue_async_message(message));
    assert_eq!(scheduler.apply_hook_updates(a, 0, SYNC_LANE), Vec::<u64>::new());
    assert_eq!(scheduler.apply_hook_updates(b, 0, SYNC_LANE), vec![2, 3, 8]);
}

#[test]
fn equal_dependencies_keep_the_resource_run() {
    let mut slot: ResourceValueSlot<u32, u32> = ResourceValueSlot::new();
    slot.resolve(1, Ok(5));
    assert_eq!(slot.refresh(false), None);
    assert_eq!(slot.generation, 1);
    assert_eq!(slot.value, AsyncValue::Ready(5));
    assert_eq!(slot.refresh(true), Some(2));
    assert_eq!(slot.generation, 2);
    assert_eq!(slot.value, AsyncValue::Pending);
    slot.resolve(1, Ok(9));
    assert_eq!(slot.value, AsyncValue::Pending);
}
