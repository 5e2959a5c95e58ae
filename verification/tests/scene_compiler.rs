use xui::compile::{structural_branch_source, SceneCompileError};
use xui::compiler::SceneCompiler;
use xui::dirty::RenderDirty;
use xui::graph::PictureItem;
use xui::scene::{CachePolicy, LayerDescriptor, Primitive, PrimitiveKind, RenderScene};

fn shape(geometry: u64, paint: u64) -> Primitive {
    Primitive { kind: PrimitiveKind::Shape, geometry, paint }
}

fn isolated() -> LayerDescriptor {
    LayerDescriptor { force_offscreen: true, ..LayerDescriptor::default() }
}

fn revision(compiler: &SceneCompiler) -> u64 {
    compiler.compiled_sources().unwrap().scene_revision
}

#[test]
fn primitive_and_spatial_ids_survive_non_structural_updates() {
    let mut source = RenderScene::new();
    let transform = source.insert_transform(0);
    let primitive = source.insert_primitive(shape(10, 1));
    source.append_child(source.root(), transform).unwrap();
    source.set_child(transform, Some(primitive)).unwrap();

    let mut compiler = SceneCompiler::new();
    let first_snapshot = source.dirty_snapshot();
    compiler.compile(&source, &first_snapshot).unwrap();
    let first = compiler.compiled_scene().unwrap();
    let first_primitive = first.primitive_of(primitive).unwrap();
    let first_spatial = first.spatial_of(transform).unwrap();

    source.update_transform(transform, 57).unwrap();
    source.update_primitive(primitive, shape(20, 2)).unwrap();
    let second_snapshot = source.dirty_snapshot();
    compiler.compile(&source, &second_snapshot).unwrap();
    let second = compiler.compiled_scene().unwrap();

    assert_eq!(second.primitive_of(primitive), Some(first_primitive));
    assert_eq!(second.spatial_of(transform), Some(first_spatial));
    assert_eq!(second.spatial(first_spatial).unwrap().local_transform, 57);
}

#[test]
fn repeated_unacknowledged_snapshot_is_idempotent() {
    let mut source = RenderScene::new();
    let primitive = source.insert_primitive(shape(10, 1));
    source.append_child(source.root(), primitive).unwrap();
    let snapshot = source.dirty_snapshot();
    let mut compiler = SceneCompiler::new();
    compiler.compile(&source, &snapshot).unwrap();
    let first_revision = revision(&compiler);
    let first_id = compiler.compiled_scene().unwrap().primitive_of(primitive).unwrap();
    compiler.compile(&source, &snapshot).unwrap();
    assert_eq!(revision(&compiler), first_revision);
    assert_eq!(compiler.compiled_scene().unwrap().primitive_of(primitive), Some(first_id));
}

#[test]
fn topology_rebuild_reuses_surviving_ids_and_removes_stale_items() {
    let mut source = RenderScene::new();
    let first = source.insert_primitive(shape(10, 1));
    let stale = source.insert_primitive(shape(20, 2));
    source.append_child(source.root(), first).unwrap();
    source.append_child(source.root(), stale).unwrap();
    let mut compiler = SceneCompiler::new();
    let snapshot = source.dirty_snapshot();
    compiler.compile(&source, &snapshot).unwrap();
    let first_id = compiler.compiled_scene().unwrap().primitive_of(first).unwrap();

    source.remove_subtree(stale).unwrap();
    let snapshot = source.dirty_snapshot();
    compiler.compile(&source, &snapshot).unwrap();
    let compiled = compiler.compiled_scene().unwrap();
    assert_eq!(compiled.primitive_of(first), Some(first_id));
    assert_eq!(compiled.primitive_of(stale), None);
    assert_eq!(compiled.items(compiled.root_picture()).len(), 1);
}

#[test]
fn clip_and_composite_updates_keep_compiled_ids() {
    let mut source = RenderScene::new();
    let clip = source.insert_clip(4);
    let layer = source.insert_layer(isolated());
    source.append_child(source.root(), clip).unwrap();
    source.set_child(clip, Some(layer)).unwrap();
    let mut compiler = SceneCompiler::new();
    let snapshot = source.dirty_snapshot();
    compiler.compile(&source, &snapshot).unwrap();
    let first = compiler.compiled_scene().unwrap();
    let clip_id = first.clip_of(clip).unwrap();
    let picture_id = first.picture_of(layer).unwrap();

    source.update_clip(clip, 12).unwrap();
    source.update_layer_composite(layer, 5).unwrap();
    let snapshot = source.dirty_snapshot();
    compiler.compile(&source, &snapshot).unwrap();
    let second = compiler.compiled_scene().unwrap();
    assert_eq!(second.clip_of(clip), Some(clip_id));
    assert_eq!(second.picture_of(layer), Some(picture_id));
    assert_eq!(second.clip(clip_id).unwrap().clip, 12);
    assert_eq!(second.picture(picture_id).unwrap().descriptor.composite, 5);
}

#[test]
fn isolation_switch_adds_and_removes_picture_without_replacing_primitive() {
    let mut source = RenderScene::new();
    let layer = source.insert_layer(LayerDescriptor::default());
    let primitive = source.insert_primitive(shape(10, 1));
    source.append_child(source.root(), layer).unwrap();
    source.set_child(layer, Some(primitive)).unwrap();
    let mut compiler = SceneCompiler::new();
    let snapshot = source.dirty_snapshot();
    compiler.compile(&source, &snapshot).unwrap();
    let first = compiler.compiled_scene().unwrap();
    let primitive_id = first.primitive_of(primitive).unwrap();
    assert_eq!(first.picture_of(layer), None);

    source.update_layer_descriptor(layer, isolated()).unwrap();
    let snapshot = source.dirty_snapshot();
    compiler.compile(&source, &snapshot).unwrap();
    let isolated_scene = compiler.compiled_scene().unwrap();
    assert!(isolated_scene.picture_of(layer).is_some());
    assert_eq!(isolated_scene.primitive_of(primitive), Some(primitive_id));

    source.update_layer_descriptor(layer, LayerDescriptor::default()).unwrap();
    let snapshot = source.dirty_snapshot();
    compiler.compile(&source, &snapshot).unwrap();
    let flattened = compiler.compiled_scene().unwrap();
    assert_eq!(flattened.picture_of(layer), None);
    assert_eq!(flattened.primitive_of(primitive), Some(primitive_id));
}

#[test]
fn topology_inside_an_isolated_layer_targets_that_picture_branch() {
    let mut source = RenderScene::new();
    let layer = source.insert_layer(isolated());
    let group = source.insert_group();
    let first = source.insert_primitive(shape(10, 1));
    source.append_child(source.root(), layer).unwrap();
    source.set_child(layer, Some(group)).unwrap();
    source.append_child(group, first).unwrap();
    let mut compiler = SceneCompiler::new();
    let snapshot = source.dirty_snapshot();
    compiler.compile(&source, &snapshot).unwrap();

    let second = source.insert_primitive(shape(20, 2));
    source.append_child(group, second).unwrap();
    let sources = compiler.compiled_sources().unwrap();
    assert_eq!(structural_branch_source(sources, &source, group, RenderDirty::topology()), Some(layer));

    let snapshot = source.dirty_snapshot();
    compiler.compile(&source, &snapshot).unwrap();
    let compiled = compiler.compiled_scene().unwrap();
    let picture = compiled.picture_of(layer).unwrap();
    assert_eq!(compiled.items(picture).len(), 2);
}

#[test]
fn reorder_updates_picture_order_without_replacing_primitives() {
    let mut source = RenderScene::new();
    let first = source.insert_primitive(shape(10, 1));
    let second = source.insert_primitive(shape(20, 2));
    source.append_child(source.root(), first).unwrap();
    source.append_child(source.root(), second).unwrap();
    let mut compiler = SceneCompiler::new();
    let snapshot = source.dirty_snapshot();
    compiler.compile(&source, &snapshot).unwrap();
    let initial = compiler.compiled_scene().unwrap();
    let first_id = initial.primitive_of(first).unwrap();
    let second_id = initial.primitive_of(second).unwrap();

    source.reorder_child(source.root(), second, 0).unwrap();
    let snapshot = source.dirty_snapshot();
    compiler.compile(&source, &snapshot).unwrap();
    let reordered = compiler.compiled_scene().unwrap();
    assert_eq!(
        reordered.items(reordered.root_picture()),
        vec![PictureItem::Primitive(second_id), PictureItem::Primitive(first_id)]
    );
}

#[test]
fn duplicate_cache_key_failure_keeps_previous_scene() {
    let mut source = RenderScene::new();
    let key = 7u64;
    let first = source.insert_layer(LayerDescriptor {
        cache_key: Some(key),
        cache_policy: CachePolicy::Always,
        ..LayerDescriptor::default()
    });
    source.append_child(source.root(), first).unwrap();
    let mut compiler = SceneCompiler::new();
    let snapshot = source.dirty_snapshot();
    compiler.compile(&source, &snapshot).unwrap();
    let revision_before = revision(&compiler);

    let second = source.insert_layer(LayerDescriptor {
        cache_key: Some(key),
        cache_policy: CachePolicy::Always,
        ..LayerDescriptor::default()
    });
    source.append_child(source.root(), second).unwrap();
    let snapshot = source.dirty_snapshot();
    assert!(matches!(
        compiler.compile(&source, &snapshot),
        Err(SceneCompileError::DuplicateLayerCacheKey(found)) if found == key
    ));
    assert_eq!(revision(&compiler), revision_before);
}

#[test]
fn an_in_place_update_moves_the_graph_to_the_new_revision() {
    let mut source = RenderScene::new();
    let primitive = source.insert_primitive(shape(10, 1));
    source.append_child(source.root(), primitive).unwrap();
    let mut compiler = SceneCompiler::new();
    let snapshot = source.dirty_snapshot();
    compiler.compile(&source, &snapshot).unwrap();
    let revision_before = revision(&compiler);
    let fresh = SceneCompiler::new();
    assert!(fresh.compiled_scene().is_none());
    assert!(fresh.compiled_sources().is_none());

    source.update_primitive(primitive, shape(11, 1)).unwrap();
    let snapshot = source.dirty_snapshot();
    compiler.compile(&source, &snapshot).unwrap();
    assert!(revision(&compiler) > revision_before);
    let compiled = compiler.compiled_scene().unwrap();
    let k = compiled.primitive_of(primitive).unwrap();
    assert_eq!(compiled.primitive(k).unwrap().primitive, shape(11, 1));
    assert_eq!(
        compiled.items(compiled.root_picture()),
        vec![PictureItem::Primitive(k)]
    );
}
