use xui::dirty::RenderDirty;
use xui::scaffold::{create_page_layer, create_scroll_scene, HostRenderBinding};
use xui::scene::{
    LayerDescriptor, Primitive, PrimitiveChange, PrimitiveKind, RenderNodeKind, RenderScene,
    SceneError, ScenePatch,
};

fn shape(geometry: u64, paint: u64) -> Primitive {
    Primitive { kind: PrimitiveKind::Shape, geometry, paint }
}

fn acknowledge_all(scene: &mut RenderScene) {
    let snapshot = scene.dirty_snapshot();
    scene.acknowledge(&snapshot);
}

#[test]
fn root_is_permanent_group_and_stale_ids_do_not_alias() {
    let mut scene = RenderScene::new();
    assert!(matches!(
        scene.node(scene.root()).unwrap().kind,
        RenderNodeKind::Group(_)
    ));
    assert_eq!(
        scene.remove_subtree(scene.root()),
        Err(SceneError::CannotRemoveRoot)
    );

    let old = scene.insert_group();
    scene.remove_subtree(old).unwrap();
    let replacement = scene.insert_group();
    assert_ne!(old, replacement);
    assert!(!scene.contains(old));
}

#[test]
fn group_order_single_child_rules_and_detach_are_enforced() {
    let mut scene = RenderScene::new();
    let group = scene.insert_group();
    let a = scene.insert_group();
    let b = scene.insert_group();
    scene.append_child(group, a).unwrap();
    scene.insert_child(group, 0, b).unwrap();
    assert_eq!(scene.children(group).unwrap(), &[b, a]);
    assert!(matches!(
        scene.append_child(group, a),
        Err(SceneError::DuplicateChild { .. })
    ));

    let transform = scene.insert_transform(0);
    scene.set_child(transform, Some(a)).unwrap_err();
    scene.detach(a).unwrap();
    scene.set_child(transform, Some(a)).unwrap();
    assert!(matches!(
        scene.append_child(transform, b),
        Err(SceneError::UseSingleChildApi(_))
    ));
    let primitive = scene.insert_primitive(shape(0, 0));
    assert!(matches!(
        scene.append_child(primitive, b),
        Err(SceneError::NodeCannotHaveChildren(_))
    ));
    scene.detach(a).unwrap();
    assert_eq!(scene.node(a).unwrap().parent, None);
    assert!(scene.children(transform).unwrap().is_empty());
}

#[test]
fn cycles_double_parent_replace_and_reorder_are_checked() {
    let mut scene = RenderScene::new();
    let a = scene.insert_group();
    let b = scene.insert_group();
    let c = scene.insert_group();
    scene.append_child(a, b).unwrap();
    assert!(matches!(
        scene.append_child(b, a),
        Err(SceneError::CycleDetected { .. })
    ));
    assert!(matches!(
        scene.append_child(scene.root(), b),
        Err(SceneError::AlreadyHasParent(_))
    ));
    scene.append_child(a, c).unwrap();
    scene.reorder_child(a, c, 0).unwrap();
    assert_eq!(scene.children(a).unwrap(), &[c, b]);
    let replacement = scene.insert_group();
    scene.replace_child(a, c, replacement).unwrap();
    assert_eq!(scene.children(a).unwrap(), &[replacement, b]);
    assert_eq!(scene.node(c).unwrap().parent, None);
}

#[test]
fn remove_subtree_removes_descendants() {
    let mut scene = RenderScene::new();
    let root = scene.insert_group();
    let child = scene.insert_group();
    let grandchild = scene.insert_group();
    scene.append_child(root, child).unwrap();
    scene.append_child(child, grandchild).unwrap();

    scene.remove_subtree(child).unwrap();
    assert!(!scene.contains(child));
    assert!(!scene.contains(grandchild));
}

#[test]
fn primitive_diff_dirty_propagation_and_acknowledge_are_precise() {
    let mut scene = RenderScene::new();
    let group = scene.insert_group();
    let primitive = scene.insert_primitive(shape(10, 20));
    scene.append_child(scene.root(), group).unwrap();
    scene.append_child(group, primitive).unwrap();
    acknowledge_all(&mut scene);
    let revision = scene.revision();
    assert!(!scene.update_primitive(primitive, shape(10, 20)).unwrap());
    assert_eq!(scene.revision(), revision);

    scene.update_primitive(primitive, shape(11, 20)).unwrap();
    assert_eq!(scene.node(primitive).unwrap().dirty, RenderDirty::geometry());
    assert!(scene
        .node(group)
        .unwrap()
        .subtree_dirty
        .contains(RenderDirty::geometry()));
    assert_eq!(scene.dirty_snapshot().nodes, vec![primitive]);
    acknowledge_all(&mut scene);
    assert!(scene.node(scene.root()).unwrap().subtree_dirty.is_empty());

    scene.update_primitive(primitive, shape(11, 21)).unwrap();
    assert_eq!(scene.node(primitive).unwrap().dirty, RenderDirty::paint());
}

#[test]
fn transform_clip_visibility_and_composite_use_separate_epochs() {
    let mut scene = RenderScene::new();
    let transform = scene.insert_transform(0);
    let clip = scene.insert_clip(1);
    let layer = scene.insert_layer(LayerDescriptor::default());
    acknowledge_all(&mut scene);

    scene.update_transform(transform, 7).unwrap();
    assert_eq!(scene.node(transform).unwrap().dirty, RenderDirty::geometry());
    scene.update_clip(clip, 2).unwrap();
    assert_eq!(
        scene.node(clip).unwrap().dirty,
        RenderDirty::clip().union(RenderDirty::geometry())
    );
    scene.set_visible(transform, false).unwrap();
    assert!(scene
        .node(transform)
        .unwrap()
        .dirty
        .contains(RenderDirty::visibility()));

    let before = scene.node(layer).unwrap().epochs.content_version();
    scene.update_layer_composite(layer, 9).unwrap();
    let node = scene.node(layer).unwrap();
    assert_eq!(node.dirty, RenderDirty::composite());
    assert_eq!(node.epochs.content_version(), before);
    assert!(node.epochs.composite > 0);
}

#[test]
fn scroll_and_page_helpers_preserve_content_versions() {
    let mut scene = RenderScene::new();
    let scroll = create_scroll_scene(&mut scene, 5).unwrap();
    acknowledge_all(&mut scene);
    scene.update_transform(scroll.transform, 12).unwrap();
    assert_eq!(
        scene.node(scroll.transform).unwrap().dirty,
        RenderDirty::geometry()
    );

    let page = create_page_layer(&mut scene, 1, 6).unwrap();
    acknowledge_all(&mut scene);
    let content_before = scene.node(page.layer).unwrap().epochs.content_version();
    scene.update_layer_composite(page.layer, 3).unwrap();
    assert_eq!(
        scene.node(page.layer).unwrap().epochs.content_version(),
        content_before
    );
}

#[test]
fn depth_first_preserves_child_order() {
    let mut scene = RenderScene::new();
    let a = scene.insert_group();
    let b = scene.insert_group();
    let c = scene.insert_group();
    scene.append_child(scene.root(), a).unwrap();
    scene.append_child(scene.root(), b).unwrap();
    scene.append_child(a, c).unwrap();
    let order = scene.depth_first(scene.root()).unwrap();
    assert_eq!(order, vec![scene.root(), a, c, b]);
}

#[test]
fn depth_first_of_a_missing_node_is_an_error() {
    let mut scene = RenderScene::new();
    let gone = scene.insert_group();
    scene.remove_subtree(gone).unwrap();
    assert_eq!(scene.depth_first(gone), Err(SceneError::MissingNode(gone)));
}

#[test]
fn scroll_scene_links_clip_transform_and_content() {
    let mut scene = RenderScene::new();
    let scroll = create_scroll_scene(&mut scene, 42).unwrap();
    assert_eq!(scroll.root, scroll.clip);
    assert_eq!(scene.children(scroll.clip).unwrap(), &[scroll.transform]);
    assert_eq!(scene.children(scroll.transform).unwrap(), &[scroll.content]);
    assert!(scene.children(scroll.content).unwrap().is_empty());
    assert_eq!(scene.node(scroll.clip).unwrap().parent, None);
    assert_eq!(scene.node(scroll.content).unwrap().parent, Some(scroll.transform));
}

#[test]
fn page_layer_is_cached_and_offscreen() {
    let mut scene = RenderScene::new();
    let page = create_page_layer(&mut scene, 77, 8).unwrap();
    match &scene.node(page.layer).unwrap().kind {
        RenderNodeKind::Layer(layer) => {
            assert_eq!(layer.descriptor.cache_key, Some(77));
            assert_eq!(layer.descriptor.bounds, Some(8));
            assert!(layer.descriptor.force_offscreen);
            assert_eq!(layer.child, Some(page.content));
        }
        _ => panic!("page root is not a layer"),
    }
}

#[test]
fn binding_references_list_present_roles_in_order() {
    let mut scene = RenderScene::new();
    let ids: Vec<_> = (0..5).map(|_| scene.insert_group()).collect();
    let binding = HostRenderBinding::scaffold(ids[0], ids[1], ids[2], ids[3], None, Some(ids[4]), None);
    assert_eq!(binding.clip, None);
    assert_eq!(binding.host_paint_epoch, 0);
    let refs = binding.references();
    assert_eq!(
        refs,
        vec![
            ("root", ids[0]),
            ("transform", ids[1]),
            ("contents", ids[2]),
            ("paint", ids[3]),
            ("overlay", ids[4]),
        ]
    );
}

#[test]
fn primitive_diff_reports_changed_parts() {
    let a = shape(1, 2);
    assert_eq!(a.diff(&shape(1, 2)), PrimitiveChange { geometry: false, paint: false });
    assert_eq!(a.diff(&shape(3, 2)), PrimitiveChange { geometry: true, paint: false });
    let text = Primitive { kind: PrimitiveKind::Text, geometry: 1, paint: 2 };
    assert_eq!(a.diff(&text), PrimitiveChange { geometry: true, paint: true });
}

#[test]
fn rebuilt_summaries_are_the_union_of_subtree_flags() {
    let mut scene = RenderScene::new();
    let group = scene.insert_group();
    let leaf = scene.insert_primitive(shape(1, 1));
    let other = scene.insert_group();
    scene.append_child(scene.root(), group).unwrap();
    scene.append_child(group, leaf).unwrap();
    scene.append_child(scene.root(), other).unwrap();
    acknowledge_all(&mut scene);
    scene.update_primitive(leaf, shape(1, 2)).unwrap();
    scene.rebuild_subtree_dirty();
    assert_eq!(scene.node(leaf).unwrap().subtree_dirty, RenderDirty::paint());
    assert_eq!(scene.node(group).unwrap().subtree_dirty, RenderDirty::paint());
    assert_eq!(scene.node(scene.root()).unwrap().subtree_dirty, RenderDirty::paint());
    assert!(scene.node(other).unwrap().subtree_dirty.is_empty());
}

#[test]
fn patches_apply_in_order_and_stop_at_the_first_error() {
    let mut scene = RenderScene::new();
    let t = scene.insert_transform(0);
    let g = scene.insert_group();
    let patches = vec![
        ScenePatch::UpdateTransform { node: t, transform: 4 },
        ScenePatch::SetVisible { node: g, visible: false },
        ScenePatch::UpdateClip { node: g, clip: 1 },
        ScenePatch::SetVisible { node: t, visible: false },
    ];
    let result = scene.apply_patches(patches);
    assert_eq!(
        result,
        Err(SceneError::WrongNodeKind { node: g, expected: "Clip" })
    );
    match &scene.node(t).unwrap().kind {
        RenderNodeKind::Transform(node) => assert_eq!(node.transform, 4),
        _ => panic!("not a transform"),
    }
    assert!(!scene.node(g).unwrap().visible);
    assert!(scene.node(t).unwrap().visible);
    assert_eq!(scene.apply_patch(ScenePatch::RemoveSubtree { node: g }), Ok(()));
    assert!(!scene.contains(g));
}
