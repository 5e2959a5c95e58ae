use xui::node_store::RenderNodeId;
use xui::scaffold::HostRenderBinding;
use xui::scene::{LayerDescriptor, RenderNodeKind, RenderScene};
use xui::properties::FrameProperties;
use xui::wrappers::{
    create_host_render_binding, reconcile_children, sync_host_render_node, sync_transient_nodes,
    update_wrappers,
};

fn host(scene: &mut RenderScene) -> HostRenderBinding {
    let root = scene.insert_transform(0);
    let transform = scene.insert_transform(0);
    let contents = scene.insert_group();
    let paint = scene.insert_group();
    scene.append_child(contents, paint).unwrap();
    scene.set_child(transform, Some(contents)).unwrap();
    scene.set_child(root, Some(transform)).unwrap();
    HostRenderBinding::scaffold(root, transform, contents, paint, None, None, None)
}

fn below(scene: &RenderScene, id: RenderNodeId) -> RenderNodeId {
    let children = scene.children(id).unwrap();
    assert_eq!(children.len(), 1);
    children[0]
}

fn faded() -> LayerDescriptor {
    LayerDescriptor { composite: 3, ..LayerDescriptor::default() }
}

#[test]
fn a_clip_is_inserted_between_the_transform_and_the_contents() {
    let mut scene = RenderScene::new();
    let mut binding = host(&mut scene);
    update_wrappers(&mut scene, &mut binding, Some(5), None).unwrap();
    let clip = binding.clip.unwrap();
    assert_eq!(below(&scene, binding.transform), clip);
    assert_eq!(below(&scene, clip), binding.contents);
    match &scene.node(clip).unwrap().kind {
        RenderNodeKind::Clip(c) => assert_eq!(c.clip, 5),
        _ => panic!("expected a clip"),
    }
    assert!(binding.layer.is_none());
}

#[test]
fn wrappers_are_kept_reused_and_ordered_clip_then_layer() {
    let mut scene = RenderScene::new();
    let mut binding = host(&mut scene);
    update_wrappers(&mut scene, &mut binding, Some(5), None).unwrap();
    let clip = binding.clip.unwrap();
    update_wrappers(&mut scene, &mut binding, Some(6), Some(faded())).unwrap();
    assert_eq!(binding.clip, Some(clip));
    let layer = binding.layer.unwrap();
    assert_eq!(below(&scene, binding.transform), clip);
    assert_eq!(below(&scene, clip), layer);
    assert_eq!(below(&scene, layer), binding.contents);
    match &scene.node(clip).unwrap().kind {
        RenderNodeKind::Clip(c) => assert_eq!(c.clip, 6),
        _ => panic!("expected a clip"),
    }
    match &scene.node(layer).unwrap().kind {
        RenderNodeKind::Layer(l) => assert_eq!(l.descriptor, faded()),
        _ => panic!("expected a layer"),
    }
}

#[test]
fn a_shape_change_alone_updates_the_clip_in_place() {
    let mut scene = RenderScene::new();
    let mut binding = host(&mut scene);
    update_wrappers(&mut scene, &mut binding, Some(5), Some(faded())).unwrap();
    let before = binding;
    update_wrappers(&mut scene, &mut binding, Some(9), Some(faded())).unwrap();
    assert_eq!(binding, before);
    match &scene.node(binding.clip.unwrap()).unwrap().kind {
        RenderNodeKind::Clip(c) => assert_eq!(c.clip, 9),
        _ => panic!("expected a clip"),
    }
}

#[test]
fn dropped_wrappers_leave_the_scene() {
    let mut scene = RenderScene::new();
    let mut binding = host(&mut scene);
    update_wrappers(&mut scene, &mut binding, Some(5), Some(faded())).unwrap();
    let clip = binding.clip.unwrap();
    let layer = binding.layer.unwrap();

    update_wrappers(&mut scene, &mut binding, None, Some(faded())).unwrap();
    assert!(binding.clip.is_none());
    assert!(!scene.contains(clip));
    assert_eq!(below(&scene, binding.transform), layer);
    assert_eq!(below(&scene, layer), binding.contents);

    update_wrappers(&mut scene, &mut binding, None, None).unwrap();
    assert!(binding.layer.is_none());
    assert!(!scene.contains(layer));
    assert_eq!(below(&scene, binding.transform), binding.contents);
    assert_eq!(scene.children(binding.contents).unwrap(), &[binding.paint]);
}

#[test]
fn host_children_are_reconciled_in_declaration_order() {
    let mut scene = RenderScene::new();
    let group = scene.insert_group();
    let other = scene.insert_group();
    let a = scene.insert_group();
    let b = scene.insert_group();
    let c = scene.insert_group();
    scene.append_child(group, a).unwrap();
    scene.append_child(group, b).unwrap();
    scene.append_child(other, c).unwrap();

    reconcile_children(&mut scene, group, &vec![b, c]).unwrap();
    assert_eq!(scene.children(group).unwrap(), &[b, c]);
    assert!(scene.children(other).unwrap().is_empty());
    assert_eq!(scene.node(a).unwrap().parent, None);
    assert_eq!(scene.node(c).unwrap().parent, Some(group));
}

#[test]
fn matching_host_children_leave_the_scene_untouched() {
    let mut scene = RenderScene::new();
    let group = scene.insert_group();
    let a = scene.insert_group();
    scene.append_child(group, a).unwrap();
    let revision = scene.revision();
    reconcile_children(&mut scene, group, &vec![a]).unwrap();
    assert_eq!(scene.revision(), revision);
    reconcile_children(&mut scene, group, &vec![]).unwrap();
    assert!(scene.children(group).unwrap().is_empty());
    assert_eq!(scene.node(a).unwrap().parent, None);
}

#[test]
fn a_children_group_comes_with_the_first_child_and_stays() {
    let mut scene = RenderScene::new();
    let mut props = FrameProperties::new();
    let mut binding = host(&mut scene);
    sync_transient_nodes(&mut scene, &mut props, &mut binding, false, false, false, 0).unwrap();
    assert!(binding.children.is_none());
    assert_eq!(scene.children(binding.contents).unwrap(), &[binding.paint]);

    sync_transient_nodes(&mut scene, &mut props, &mut binding, true, false, false, 0).unwrap();
    let children = binding.children.unwrap();
    assert_eq!(scene.children(binding.contents).unwrap(), &[binding.paint, children]);

    sync_transient_nodes(&mut scene, &mut props, &mut binding, false, false, false, 0).unwrap();
    assert_eq!(binding.children, Some(children));
    assert!(scene.contains(children));
}

#[test]
fn scrolling_puts_a_scroll_transform_above_the_children_and_takes_it_out() {
    let mut scene = RenderScene::new();
    let mut props = FrameProperties::new();
    let mut binding = host(&mut scene);
    sync_transient_nodes(&mut scene, &mut props, &mut binding, true, true, false, 42).unwrap();
    let children = binding.children.unwrap();
    let scroll = binding.scroll_transform.unwrap();
    assert_eq!(scene.children(binding.contents).unwrap(), &[binding.paint, scroll]);
    assert_eq!(below(&scene, scroll), children);
    assert_eq!(props.transform(scroll).unwrap().value, 42);

    sync_transient_nodes(&mut scene, &mut props, &mut binding, true, true, false, 7).unwrap();
    assert_eq!(binding.scroll_transform, Some(scroll));
    assert_eq!(props.transform(scroll).unwrap().value, 7);

    sync_transient_nodes(&mut scene, &mut props, &mut binding, true, false, false, 7).unwrap();
    assert!(binding.scroll_transform.is_none());
    assert!(!scene.contains(scroll));
    assert!(props.transform(scroll).is_none());
    assert_eq!(scene.children(binding.contents).unwrap(), &[binding.paint, children]);
    assert_eq!(scene.node(children).unwrap().parent, Some(binding.contents));
}

#[test]
fn scrolling_without_children_makes_no_scroll_transform() {
    let mut scene = RenderScene::new();
    let mut props = FrameProperties::new();
    let mut binding = host(&mut scene);
    sync_transient_nodes(&mut scene, &mut props, &mut binding, false, true, false, 3).unwrap();
    assert!(binding.scroll_transform.is_none());
    assert!(binding.children.is_none());
    assert!(!props.is_dirty());
}

#[test]
fn the_scrollbar_overlay_stays_last_and_leaves_with_its_subtree() {
    let mut scene = RenderScene::new();
    let mut props = FrameProperties::new();
    let mut binding = host(&mut scene);
    sync_transient_nodes(&mut scene, &mut props, &mut binding, false, false, true, 0).unwrap();
    let overlay = binding.overlay.unwrap();
    assert_eq!(scene.children(binding.contents).unwrap(), &[binding.paint, overlay]);

    sync_transient_nodes(&mut scene, &mut props, &mut binding, true, true, true, 0).unwrap();
    let scroll = binding.scroll_transform.unwrap();
    assert_eq!(binding.overlay, Some(overlay));
    assert_eq!(scene.children(binding.contents).unwrap(), &[binding.paint, scroll, overlay]);

    let thumb = scene.insert_group();
    scene.append_child(overlay, thumb).unwrap();
    sync_transient_nodes(&mut scene, &mut props, &mut binding, true, true, false, 0).unwrap();
    assert!(binding.overlay.is_none());
    assert!(!scene.contains(overlay));
    assert!(!scene.contains(thumb));
    assert_eq!(scene.children(binding.contents).unwrap(), &[binding.paint, scroll]);
}

#[test]
fn a_new_host_gets_root_transform_style_transform_contents_and_paint() {
    let mut scene = RenderScene::new();
    let binding = create_host_render_binding(&mut scene, false).unwrap();
    assert_eq!(below(&scene, binding.root), binding.transform);
    assert_eq!(below(&scene, binding.transform), binding.contents);
    assert_eq!(scene.children(binding.contents).unwrap(), &[binding.paint]);
    assert!(scene.children(binding.paint).unwrap().is_empty());
    assert_eq!(scene.node(binding.root).unwrap().parent, None);
    assert!(binding.clip.is_none() && binding.layer.is_none());
    assert!(binding.children.is_none() && binding.overlay.is_none() && binding.scroll_transform.is_none());
    assert!(scene.children(scene.root()).unwrap().is_empty());
}

#[test]
fn the_root_host_hangs_below_the_scene_root() {
    let mut scene = RenderScene::new();
    let binding = create_host_render_binding(&mut scene, true).unwrap();
    assert_eq!(scene.children(scene.root()).unwrap(), &[binding.root]);
    assert_eq!(scene.node(binding.root).unwrap().parent, Some(scene.root()));
}

#[test]
fn a_host_binding_stays_linked_through_wrapper_and_transient_updates() {
    let mut scene = RenderScene::new();
    let mut props = FrameProperties::new();
    let mut binding = create_host_render_binding(&mut scene, true).unwrap();
    update_wrappers(&mut scene, &mut binding, Some(5), Some(faded())).unwrap();
    sync_transient_nodes(&mut scene, &mut props, &mut binding, true, true, true, 9).unwrap();
    update_wrappers(&mut scene, &mut binding, None, Some(faded())).unwrap();
    let layer = binding.layer.unwrap();
    let scroll = binding.scroll_transform.unwrap();
    let overlay = binding.overlay.unwrap();
    assert_eq!(below(&scene, binding.root), binding.transform);
    assert_eq!(below(&scene, binding.transform), layer);
    assert_eq!(below(&scene, layer), binding.contents);
    assert_eq!(scene.children(binding.contents).unwrap(), &[binding.paint, scroll, overlay]);
    assert_eq!(below(&scene, scroll), binding.children.unwrap());
    sync_transient_nodes(&mut scene, &mut props, &mut binding, true, false, false, 9).unwrap();
    assert_eq!(below(&scene, layer), binding.contents);
    assert_eq!(scene.children(binding.contents).unwrap(), &[binding.paint, binding.children.unwrap()]);
}


#[test]
fn a_host_sync_places_its_children_in_order_and_moves_its_root() {
    let mut scene = RenderScene::new();
    let mut props = FrameProperties::new();
    let mut parent = create_host_render_binding(&mut scene, true).unwrap();
    let first = create_host_render_binding(&mut scene, false).unwrap();
    let second = create_host_render_binding(&mut scene, false).unwrap();

    sync_host_render_node(
        &mut scene, &mut props, &mut parent, 11, Some(4), None, false, false, 0,
        &vec![first.root, second.root],
    )
    .unwrap();
    let group = parent.children.unwrap();
    assert_eq!(scene.children(group).unwrap(), &[first.root, second.root]);
    assert_eq!(scene.node(first.root).unwrap().parent, Some(group));
    match &scene.node(parent.root).unwrap().kind {
        RenderNodeKind::Transform(t) => {
            assert_eq!(t.transform, 11);
            assert_eq!(t.child, Some(parent.transform));
        }
        _ => panic!("expected a transform"),
    }
    let clip = parent.clip.unwrap();
    assert_eq!(below(&scene, parent.transform), clip);
    assert_eq!(below(&scene, clip), parent.contents);

    sync_host_render_node(
        &mut scene, &mut props, &mut parent, 11, Some(4), None, true, true, 5,
        &vec![second.root],
    )
    .unwrap();
    let scroll = parent.scroll_transform.unwrap();
    let overlay = parent.overlay.unwrap();
    assert_eq!(parent.children, Some(group));
    assert_eq!(scene.children(parent.contents).unwrap(), &[parent.paint, scroll, overlay]);
    assert_eq!(below(&scene, scroll), group);
    assert_eq!(scene.children(group).unwrap(), &[second.root]);
    assert_eq!(scene.node(first.root).unwrap().parent, None);
    assert_eq!(props.transform(scroll).unwrap().value, 5);
}

#[test]
fn a_child_moves_from_one_host_to_another() {
    let mut scene = RenderScene::new();
    let mut props = FrameProperties::new();
    let mut left = create_host_render_binding(&mut scene, false).unwrap();
    let mut right = create_host_render_binding(&mut scene, false).unwrap();
    let child = create_host_render_binding(&mut scene, false).unwrap();
    sync_host_render_node(
        &mut scene, &mut props, &mut left, 0, None, None, false, false, 0, &vec![child.root],
    )
    .unwrap();
    sync_host_render_node(
        &mut scene, &mut props, &mut right, 0, None, None, false, false, 0, &vec![child.root],
    )
    .unwrap();
    assert_eq!(scene.children(right.children.unwrap()).unwrap(), &[child.root]);
    assert!(scene.children(left.children.unwrap()).unwrap().is_empty());
}
