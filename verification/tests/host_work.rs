use xui::host_work::{
    record_node_move, HostWorkFlags, HostWorkTree, NodeMoved, StyleDiffFlags, UiState,
    WidgetUpdateFlags,
};

fn work(tree: &HostWorkTree, id: u64) -> (u8, u8) {
    let host = tree.get(id).unwrap();
    (host.work, host.subtree_work)
}

/// root(1) <- a(2) <- b(3), and root <- c(4).
fn sample() -> HostWorkTree {
    let mut tree = HostWorkTree::new();
    assert!(tree.insert_host(1, None, 10));
    assert!(tree.insert_host(2, Some(1), 20));
    assert!(tree.insert_host(3, Some(2), 30));
    assert!(tree.insert_host(4, Some(1), 40));
    tree
}

#[test]
fn widget_updates_map_to_host_work() {
    assert_eq!(HostWorkFlags::from_widget_update(WidgetUpdateFlags::style_target()).bits, 1);
    assert_eq!(HostWorkFlags::from_widget_update(WidgetUpdateFlags::layout_input()).bits, 4);
    assert_eq!(HostWorkFlags::from_widget_update(WidgetUpdateFlags::paint_output()).bits, 8);
    assert_eq!(HostWorkFlags::from_widget_update(WidgetUpdateFlags::tree()).bits, 32 | 1 | 4 | 8);
    assert_eq!(HostWorkFlags::from_widget_update(WidgetUpdateFlags::text_shape()).bits, 16);
    assert_eq!(HostWorkFlags::from_widget_update(WidgetUpdateFlags::state_change()).bits, 64);
    assert_eq!(HostWorkFlags::from_widget_update(WidgetUpdateFlags { bits: 0 }).bits, 0);
    assert_eq!(
        HostWorkFlags::from_widget_update(WidgetUpdateFlags { bits: 16 | 32 }).bits,
        16 | 64
    );
}

#[test]
fn style_differences_map_to_host_work() {
    assert_eq!(HostWorkFlags::from_style_diff(StyleDiffFlags::text()).bits, 8 | 2);
    assert_eq!(HostWorkFlags::from_style_diff(StyleDiffFlags::layout()).bits, 4 | 8);
    assert_eq!(HostWorkFlags::from_style_diff(StyleDiffFlags::paint()).bits, 8);
    assert_eq!(HostWorkFlags::from_style_diff(StyleDiffFlags::scroll()).bits, 4 | 8);
    assert_eq!(HostWorkFlags::from_style_diff(StyleDiffFlags::effect()).bits, 128);
    assert_eq!(HostWorkFlags::from_style_diff(StyleDiffFlags { bits: 1 | 16 }).bits, 8 | 2 | 128);
}

#[test]
fn marking_work_summarizes_it_in_every_ancestor() {
    let mut tree = sample();
    let mut ui = UiState::new();
    let newly = tree.mark_work(3, HostWorkFlags::recalc_layout(), &mut ui);
    assert_eq!(newly.bits, 4);
    assert_eq!(work(&tree, 3), (4, 0));
    assert_eq!(work(&tree, 2), (0, 4));
    assert_eq!(work(&tree, 1), (0, 4));
    assert_eq!(work(&tree, 4), (0, 0));
    assert!(ui.has_layout_dirty());
}

#[test]
fn marking_the_same_work_twice_adds_nothing() {
    let mut tree = sample();
    let mut ui = UiState::new();
    tree.mark_work(3, HostWorkFlags::shape_change(), &mut ui);
    let again = tree.mark_work(3, HostWorkFlags::shape_change(), &mut ui);
    assert_eq!(again.bits, 0);
    assert_eq!(ui.drain_shape_dirty_list(), vec![3]);
    assert_eq!(work(&tree, 2), (0, 16));
}

#[test]
fn propagation_stops_at_an_ancestor_that_already_summarizes_the_flags() {
    let mut tree = sample();
    let mut ui = UiState::new();
    tree.mark_work(3, HostWorkFlags::recalc_style(), &mut ui);
    assert_eq!(work(&tree, 1), (0, 1));
    tree.mark_work(4, HostWorkFlags::recalc_style(), &mut ui);
    assert_eq!(work(&tree, 4), (1, 0));
    assert_eq!(work(&tree, 1), (0, 1));
    let newly = tree.mark_work(3, HostWorkFlags::recalc_style().union(HostWorkFlags::recalc_style_subtree()), &mut ui);
    assert_eq!(newly.bits, 2);
    assert_eq!(work(&tree, 3), (3, 0));
    assert_eq!(work(&tree, 2), (0, 3));
    assert_eq!(work(&tree, 1), (0, 3));
    assert!(!ui.has_layout_dirty());
}

#[test]
fn state_and_shape_work_queue_the_host() {
    let mut tree = sample();
    let mut ui = UiState::new();
    tree.mark_work(2, HostWorkFlags::sync_state_change(), &mut ui);
    tree.mark_work(4, HostWorkFlags::shape_change(), &mut ui);
    tree.mark_work(4, HostWorkFlags::sync_tree(), &mut ui);
    assert_eq!(ui.drain_state_change_dirty_list(), vec![2]);
    assert_eq!(ui.drain_shape_dirty_list(), vec![4]);
    assert!(ui.drain_state_change_dirty_list().is_empty());
    assert!(ui.has_layout_dirty());
    ui.clear_layout_dirty();
    assert!(!ui.has_layout_dirty());
}

#[test]
fn marking_an_unknown_host_or_no_flags_changes_nothing() {
    let mut tree = sample();
    let mut ui = UiState::new();
    assert_eq!(tree.mark_work(99, HostWorkFlags::recalc_layout(), &mut ui).bits, 0);
    assert_eq!(tree.mark_work(3, HostWorkFlags::empty(), &mut ui).bits, 0);
    assert_eq!(work(&tree, 3), (0, 0));
    assert_eq!(work(&tree, 1), (0, 0));
    assert!(!ui.has_layout_dirty());
}

#[test]
fn clearing_work_resets_the_host_and_its_props_hash() {
    let mut tree = sample();
    let mut ui = UiState::new();
    tree.mark_work(3, HostWorkFlags::rebuild_paint(), &mut ui);
    tree.clear_work(2);
    let host = tree.get(2).unwrap();
    assert_eq!((host.work, host.subtree_work), (0, 0));
    assert_eq!(host.old_props_hash, 20);
    assert_eq!(work(&tree, 3), (8, 0));
    tree.clear_work(99);
    assert!(tree.get(99).is_none());
}

#[test]
fn hosts_need_a_live_parent_and_a_fresh_id() {
    let mut tree = sample();
    assert!(!tree.insert_host(3, Some(1), 0));
    assert!(!tree.insert_host(7, Some(42), 0));
    assert!(tree.insert_host(7, Some(3), 70));
    assert_eq!(tree.get(7).unwrap().parent, Some(3));
}

#[test]
fn moves_are_recorded_unless_nothing_changed_or_the_host_is_new() {
    let mut events = Vec::new();
    record_node_move(&mut events, 3, Some(2), Some(2), 0, 0);
    record_node_move(&mut events, 3, None, Some(2), 0, 1);
    assert!(events.is_empty());
    record_node_move(&mut events, 3, Some(2), Some(2), 0, 1);
    record_node_move(&mut events, 4, Some(1), None, 2, 0);
    assert_eq!(
        events,
        vec![
            NodeMoved { id: 3, old_parent: Some(2), new_parent: Some(2), old_position: 0, new_position: 1 },
            NodeMoved { id: 4, old_parent: Some(1), new_parent: None, old_position: 2, new_position: 0 },
        ]
    );
}

#[test]
fn set_children_keeps_live_hosts_once_and_the_overlayer_last() {
    let mut tree = sample();
    assert!(tree.insert_host(9, Some(1), 0));
    let order = tree.set_children_order(1, &vec![4, 9, 1, 42, 4, 2], 1, 9);
    assert_eq!(order, vec![4, 2, 9]);
    let order = tree.set_children_order(2, &vec![3, 3, 9, 4], 1, 9);
    assert_eq!(order, vec![3, 4]);
    assert!(tree.set_children_order(2, &vec![], 1, 9).is_empty());
}

#[test]
fn an_event_path_runs_from_the_top_host_down_to_the_target() {
    let mut tree = HostWorkTree::new();
    assert!(tree.insert_host(1, None, 0));
    assert!(tree.insert_host(2, Some(1), 0));
    assert!(tree.insert_host(3, Some(2), 0));
    assert!(tree.insert_host(4, Some(1), 0));
    assert_eq!(tree.event_path(3), vec![1, 2, 3]);
    assert_eq!(tree.event_path(4), vec![1, 4]);
    assert_eq!(tree.event_path(1), vec![1]);
    assert_eq!(tree.event_path(9), vec![9]);
}
