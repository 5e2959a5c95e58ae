use xui::scene::{Primitive, PrimitiveKind, RenderNodeKind, RenderScene, SceneError};
use xui::writer::RenderTreeWriter;

fn shape(geometry: u64, paint: u64) -> Primitive {
    Primitive { kind: PrimitiveKind::Shape, geometry, paint }
}

#[test]
fn compatible_nodes_are_reused_and_stale_nodes_are_removed() {
    let mut scene = RenderScene::new();
    let parent = scene.insert_group();
    {
        let mut writer = RenderTreeWriter::new(parent);
        writer.primitive(&mut scene, shape(10, 1)).unwrap();
        writer.primitive(&mut scene, shape(11, 2)).unwrap();
        writer.finish(&mut scene).unwrap();
    }
    let first = scene.children(parent).unwrap()[0];
    let stale = scene.children(parent).unwrap()[1];
    {
        let mut writer = RenderTreeWriter::new(parent);
        writer.primitive(&mut scene, shape(12, 2)).unwrap();
        writer.finish(&mut scene).unwrap();
    }
    assert_eq!(scene.children(parent).unwrap(), &[first]);
    assert!(!scene.contains(stale));
}

#[test]
fn reused_primitive_takes_the_new_value() {
    let mut scene = RenderScene::new();
    let parent = scene.insert_group();
    let mut writer = RenderTreeWriter::new(parent);
    let first = writer.primitive(&mut scene, shape(1, 1)).unwrap();
    writer.finish(&mut scene).unwrap();

    let mut writer = RenderTreeWriter::new(parent);
    let again = writer.primitive(&mut scene, shape(2, 3)).unwrap();
    writer.finish(&mut scene).unwrap();
    assert_eq!(again, first);
    match &scene.node(first).unwrap().kind {
        RenderNodeKind::Primitive(p) => assert_eq!(p.primitive, shape(2, 3)),
        _ => panic!("expected a primitive"),
    }
}

#[test]
fn incompatible_node_is_replaced_and_its_subtree_removed() {
    let mut scene = RenderScene::new();
    let parent = scene.insert_group();
    let mut writer = RenderTreeWriter::new(parent);
    let (transform, mut inner) = writer.transform(&mut scene, 7).unwrap();
    let leaf = inner.primitive(&mut scene, shape(1, 1)).unwrap();
    inner.finish(&mut scene).unwrap();
    writer.finish(&mut scene).unwrap();
    let group = scene.children(transform).unwrap()[0];
    assert_eq!(scene.children(group).unwrap(), &[leaf]);

    let mut writer = RenderTreeWriter::new(parent);
    let prim = writer.primitive(&mut scene, shape(5, 5)).unwrap();
    writer.finish(&mut scene).unwrap();
    assert_ne!(prim, transform);
    assert_eq!(scene.children(parent).unwrap(), &[prim]);
    assert!(!scene.contains(transform));
    assert!(!scene.contains(group));
    assert!(!scene.contains(leaf));
}

#[test]
fn containers_keep_their_group_across_rewrites() {
    let mut scene = RenderScene::new();
    let parent = scene.insert_group();
    let mut writer = RenderTreeWriter::new(parent);
    let (clip, mut inner) = writer.clip(&mut scene, 3).unwrap();
    inner.primitive(&mut scene, shape(1, 1)).unwrap();
    inner.primitive(&mut scene, shape(2, 2)).unwrap();
    inner.finish(&mut scene).unwrap();
    writer.finish(&mut scene).unwrap();
    let group = scene.children(clip).unwrap()[0];
    assert_eq!(scene.children(group).unwrap().len(), 2);

    let mut writer = RenderTreeWriter::new(parent);
    let (again, inner) = writer.clip(&mut scene, 4).unwrap();
    inner.finish(&mut scene).unwrap();
    writer.finish(&mut scene).unwrap();
    assert_eq!(again, clip);
    assert_eq!(scene.children(clip).unwrap(), &[group]);
    assert!(scene.children(group).unwrap().is_empty());
    match &scene.node(clip).unwrap().kind {
        RenderNodeKind::Clip(c) => assert_eq!(c.clip, 4),
        _ => panic!("expected a clip"),
    }
}

#[test]
fn reused_container_without_child_reports_it() {
    let mut scene = RenderScene::new();
    let parent = scene.insert_group();
    let mut writer = RenderTreeWriter::new(parent);
    let (transform, inner) = writer.transform(&mut scene, 1).unwrap();
    inner.finish(&mut scene).unwrap();
    writer.finish(&mut scene).unwrap();
    scene.set_child(transform, None).unwrap();

    let mut writer = RenderTreeWriter::new(parent);
    assert_eq!(
        writer.transform(&mut scene, 1).unwrap_err(),
        SceneError::ChildNotFound { parent: transform, child: transform }
    );
}

#[test]
fn writing_into_missing_or_leaf_parents_fails() {
    let mut scene = RenderScene::new();
    let parent = scene.insert_group();
    let leaf = scene.insert_primitive(shape(1, 1));
    scene.remove_subtree(parent).unwrap();

    let mut writer = RenderTreeWriter::new(parent);
    assert_eq!(
        writer.primitive(&mut scene, shape(2, 2)).unwrap_err(),
        SceneError::MissingNode(parent)
    );
    assert_eq!(
        RenderTreeWriter::new(parent).finish(&mut scene).unwrap_err(),
        SceneError::MissingNode(parent)
    );

    let mut writer = RenderTreeWriter::new(leaf);
    assert_eq!(
        writer.primitive(&mut scene, shape(2, 2)).unwrap_err(),
        SceneError::NodeCannotHaveChildren(leaf)
    );
}

#[test]
fn the_root_is_never_removed_as_a_stale_child() {
    let mut scene = RenderScene::new();
    let root = scene.root();
    let holder = scene.insert_group();
    scene.append_child(holder, root).unwrap();

    let writer = RenderTreeWriter::new(holder);
    assert_eq!(writer.finish(&mut scene).unwrap_err(), SceneError::CannotRemoveRoot);
    assert!(scene.contains(root));

    let mut writer = RenderTreeWriter::new(holder);
    assert_eq!(
        writer.primitive(&mut scene, shape(1, 1)).unwrap_err(),
        SceneError::CannotRemoveRoot
    );
    assert!(scene.contains(root));
}

#[test]
fn stale_children_after_the_root_are_removed_before_the_error() {
    let mut scene = RenderScene::new();
    let root = scene.root();
    let holder = scene.insert_group();
    let before = scene.insert_primitive(shape(1, 1));
    let after = scene.insert_primitive(shape(2, 2));
    scene.append_child(holder, before).unwrap();
    scene.append_child(holder, root).unwrap();
    scene.append_child(holder, after).unwrap();

    let writer = RenderTreeWriter::new(holder);
    assert_eq!(writer.finish(&mut scene).unwrap_err(), SceneError::CannotRemoveRoot);
    assert_eq!(scene.children(holder).unwrap(), &[before, root]);
    assert!(!scene.contains(after));
    assert!(scene.contains(before));
}
