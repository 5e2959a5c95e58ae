use xui::compile::SceneCompileError;
use xui::dirty::RenderDirty;
use xui::graph::{
    apply_non_structural_updates, rebuild_picture_contents, rebuild_structural_branches, rebuild_structure, walk_node, CompiledGraph, LiveIds, PictureItem, WalkContext,
};
use xui::scene::{LayerDescriptor, Primitive, PrimitiveKind, RenderScene, SceneError};

fn shape(geometry: u64, paint: u64) -> Primitive {
    Primitive { kind: PrimitiveKind::Shape, geometry, paint }
}

fn isolated() -> LayerDescriptor {
    LayerDescriptor { force_offscreen: true, ..LayerDescriptor::default() }
}

fn compiled(source: &RenderScene) -> CompiledGraph {
    let mut graph = CompiledGraph::new(source);
    rebuild_structure(&mut graph, source).unwrap();
    graph
}

#[test]
fn a_new_graph_holds_only_the_root_picture_and_spatial_node() {
    let source = RenderScene::new();
    let graph = CompiledGraph::new(&source);
    assert_eq!(graph.root_picture(), 0);
    assert_eq!(graph.root_spatial(), 0);
    let picture = graph.picture(0).unwrap();
    assert!(picture.is_root);
    assert_eq!(picture.source, source.root());
    assert_eq!(graph.spatial(0).unwrap().parent, None);
    assert!(graph.items(0).is_empty());
    assert_eq!(graph.picture_of(source.root()), Some(0));
    assert_eq!(graph.primitive(0), None);
}

#[test]
fn a_transform_places_its_primitive_in_its_own_spatial_node() {
    let mut source = RenderScene::new();
    let transform = source.insert_transform(7);
    let primitive = source.insert_primitive(shape(1, 1));
    source.append_child(source.root(), transform).unwrap();
    source.set_child(transform, Some(primitive)).unwrap();
    let graph = compiled(&source);

    let spatial = graph.spatial_of(transform).unwrap();
    let node = graph.spatial(spatial).unwrap();
    assert_eq!(node.parent, Some(graph.root_spatial()));
    assert_eq!(node.local_transform, 7);
    let k = graph.primitive_of(primitive).unwrap();
    let compiled_primitive = graph.primitive(k).unwrap();
    assert_eq!(compiled_primitive.spatial, spatial);
    assert_eq!(compiled_primitive.clip, None);
    assert_eq!(compiled_primitive.primitive, shape(1, 1));
    assert_eq!(graph.items(graph.root_picture()), vec![PictureItem::Primitive(k)]);
}

#[test]
fn primitive_and_spatial_ids_survive_updates_that_keep_the_structure() {
    let mut source = RenderScene::new();
    let transform = source.insert_transform(0);
    let primitive = source.insert_primitive(shape(1, 1));
    source.append_child(source.root(), transform).unwrap();
    source.set_child(transform, Some(primitive)).unwrap();
    let mut graph = compiled(&source);
    let primitive_id = graph.primitive_of(primitive).unwrap();
    let spatial_id = graph.spatial_of(transform).unwrap();

    source.update_transform(transform, 57).unwrap();
    source.update_primitive(primitive, shape(2, 3)).unwrap();
    let changed = vec![
        (transform, RenderDirty::geometry()),
        (primitive, RenderDirty::geometry().union(RenderDirty::paint())),
    ];
    apply_non_structural_updates(&mut graph, &source, &changed).unwrap();

    assert_eq!(graph.primitive_of(primitive), Some(primitive_id));
    assert_eq!(graph.spatial_of(transform), Some(spatial_id));
    assert_eq!(graph.spatial(spatial_id).unwrap().local_transform, 57);
    assert_eq!(graph.primitive(primitive_id).unwrap().primitive, shape(2, 3));
    assert_eq!(graph.primitive(primitive_id).unwrap().spatial, spatial_id);
}

#[test]
fn an_update_without_its_flag_leaves_the_entry_alone() {
    let mut source = RenderScene::new();
    let transform = source.insert_transform(0);
    source.append_child(source.root(), transform).unwrap();
    let mut graph = compiled(&source);
    let spatial_id = graph.spatial_of(transform).unwrap();
    source.update_transform(transform, 9).unwrap();
    apply_non_structural_updates(&mut graph, &source, &vec![(transform, RenderDirty::paint())]).unwrap();
    assert_eq!(graph.spatial(spatial_id).unwrap().local_transform, 0);
}

#[test]
fn a_topology_rebuild_reuses_surviving_ids_and_drops_stale_entries() {
    let mut source = RenderScene::new();
    let first = source.insert_primitive(shape(1, 1));
    let stale = source.insert_primitive(shape(2, 2));
    source.append_child(source.root(), first).unwrap();
    source.append_child(source.root(), stale).unwrap();
    let mut graph = compiled(&source);
    let first_id = graph.primitive_of(first).unwrap();
    let stale_id = graph.primitive_of(stale).unwrap();
    assert_ne!(first_id, stale_id);
    assert_eq!(graph.items(graph.root_picture()).len(), 2);

    source.remove_subtree(stale).unwrap();
    rebuild_structure(&mut graph, &source).unwrap();
    assert_eq!(graph.primitive_of(first), Some(first_id));
    assert_eq!(graph.primitive_of(stale), None);
    assert_eq!(graph.primitive(stale_id), None);
    assert_eq!(graph.items(graph.root_picture()), vec![PictureItem::Primitive(first_id)]);
}

#[test]
fn clip_and_composite_updates_keep_their_compiled_ids() {
    let mut source = RenderScene::new();
    let clip = source.insert_clip(4);
    let layer = source.insert_layer(isolated());
    let primitive = source.insert_primitive(shape(1, 1));
    source.append_child(source.root(), clip).unwrap();
    source.set_child(clip, Some(layer)).unwrap();
    source.set_child(layer, Some(primitive)).unwrap();
    let mut graph = compiled(&source);
    let clip_id = graph.clip_of(clip).unwrap();
    let picture_id = graph.picture_of(layer).unwrap();
    assert_eq!(graph.picture(picture_id).unwrap().placement_clip, Some(clip_id));
    assert_eq!(graph.clip(clip_id).unwrap().parent, None);
    let primitive_id = graph.primitive_of(primitive).unwrap();
    assert_eq!(graph.primitive(primitive_id).unwrap().clip, None);
    assert_eq!(graph.items(picture_id), vec![PictureItem::Primitive(primitive_id)]);
    assert_eq!(graph.items(graph.root_picture()), vec![PictureItem::Picture(picture_id)]);

    source.update_clip(clip, 12).unwrap();
    source.update_layer_composite(layer, 3).unwrap();
    let changed = vec![(clip, RenderDirty::clip()), (layer, RenderDirty::composite())];
    apply_non_structural_updates(&mut graph, &source, &changed).unwrap();
    assert_eq!(graph.clip_of(clip), Some(clip_id));
    assert_eq!(graph.picture_of(layer), Some(picture_id));
    assert_eq!(graph.clip(clip_id).unwrap().clip, 12);
    let picture = graph.picture(picture_id).unwrap();
    assert_eq!(picture.descriptor.composite, 3);
    assert_eq!(picture.composite_version, source.node(layer).unwrap().epochs.composite);
}

#[test]
fn a_clip_wraps_the_primitives_below_it() {
    let mut source = RenderScene::new();
    let clip = source.insert_clip(4);
    let primitive = source.insert_primitive(shape(1, 1));
    source.append_child(source.root(), clip).unwrap();
    source.set_child(clip, Some(primitive)).unwrap();
    let graph = compiled(&source);
    let clip_id = graph.clip_of(clip).unwrap();
    let compiled_clip = graph.clip(clip_id).unwrap();
    assert_eq!(compiled_clip.clip, 4);
    assert_eq!(compiled_clip.spatial, graph.root_spatial());
    let k = graph.primitive_of(primitive).unwrap();
    assert_eq!(graph.primitive(k).unwrap().clip, Some(clip_id));
}

#[test]
fn switching_isolation_adds_and_removes_a_picture_and_keeps_the_primitive() {
    let mut source = RenderScene::new();
    let layer = source.insert_layer(LayerDescriptor::default());
    let primitive = source.insert_primitive(shape(1, 1));
    source.append_child(source.root(), layer).unwrap();
    source.set_child(layer, Some(primitive)).unwrap();
    let mut graph = compiled(&source);
    let primitive_id = graph.primitive_of(primitive).unwrap();
    assert_eq!(graph.picture_of(layer), None);
    assert_eq!(graph.items(graph.root_picture()), vec![PictureItem::Primitive(primitive_id)]);

    source.update_layer_descriptor(layer, isolated()).unwrap();
    rebuild_structure(&mut graph, &source).unwrap();
    let picture_id = graph.picture_of(layer).unwrap();
    assert_eq!(graph.primitive_of(primitive), Some(primitive_id));
    assert_eq!(graph.items(graph.root_picture()), vec![PictureItem::Picture(picture_id)]);
    assert_eq!(graph.items(picture_id), vec![PictureItem::Primitive(primitive_id)]);

    source.update_layer_descriptor(layer, LayerDescriptor::default()).unwrap();
    rebuild_structure(&mut graph, &source).unwrap();
    assert_eq!(graph.picture_of(layer), None);
    assert_eq!(graph.picture(picture_id), None);
    assert_eq!(graph.primitive_of(primitive), Some(primitive_id));
    assert_eq!(graph.items(graph.root_picture()), vec![PictureItem::Primitive(primitive_id)]);
}

#[test]
fn new_content_inside_an_isolated_layer_lands_in_its_picture() {
    let mut source = RenderScene::new();
    let layer = source.insert_layer(isolated());
    let group = source.insert_group();
    let first = source.insert_primitive(shape(1, 1));
    source.append_child(source.root(), layer).unwrap();
    source.set_child(layer, Some(group)).unwrap();
    source.append_child(group, first).unwrap();
    let mut graph = compiled(&source);
    let picture_id = graph.picture_of(layer).unwrap();

    let second = source.insert_primitive(shape(2, 2));
    source.append_child(group, second).unwrap();
    rebuild_structure(&mut graph, &source).unwrap();
    assert_eq!(graph.picture_of(layer), Some(picture_id));
    assert_eq!(graph.items(picture_id).len(), 2);
    assert_eq!(graph.items(graph.root_picture()), vec![PictureItem::Picture(picture_id)]);
}

#[test]
fn a_reorder_changes_the_picture_order_and_keeps_the_primitives() {
    let mut source = RenderScene::new();
    let first = source.insert_primitive(shape(1, 1));
    let second = source.insert_primitive(shape(2, 2));
    source.append_child(source.root(), first).unwrap();
    source.append_child(source.root(), second).unwrap();
    let mut graph = compiled(&source);
    let first_id = graph.primitive_of(first).unwrap();
    let second_id = graph.primitive_of(second).unwrap();
    assert_eq!(
        graph.items(graph.root_picture()),
        vec![PictureItem::Primitive(first_id), PictureItem::Primitive(second_id)]
    );

    source.reorder_child(source.root(), second, 0).unwrap();
    rebuild_structure(&mut graph, &source).unwrap();
    assert_eq!(
        graph.items(graph.root_picture()),
        vec![PictureItem::Primitive(second_id), PictureItem::Primitive(first_id)]
    );
}

#[test]
fn an_invisible_node_is_not_compiled() {
    let mut source = RenderScene::new();
    let shown = source.insert_primitive(shape(1, 1));
    let hidden = source.insert_primitive(shape(2, 2));
    source.append_child(source.root(), shown).unwrap();
    source.append_child(source.root(), hidden).unwrap();
    source.set_visible(hidden, false).unwrap();
    let graph = compiled(&source);
    let shown_id = graph.primitive_of(shown).unwrap();
    assert_eq!(graph.primitive_of(hidden), None);
    assert_eq!(graph.items(graph.root_picture()), vec![PictureItem::Primitive(shown_id)]);
}

#[test]
fn walking_a_missing_node_reports_it() {
    let mut source = RenderScene::new();
    let gone = source.insert_group();
    source.remove_subtree(gone).unwrap();
    let mut graph = CompiledGraph::new(&source);
    let mut live = LiveIds::new();
    let ctx = WalkContext { picture: graph.root_picture(), spatial: graph.root_spatial(), clip: None };
    let r = walk_node(&mut graph, &source, gone, ctx, &mut live);
    assert_eq!(r, Err(SceneCompileError::Scene(SceneError::MissingNode(gone))));
}

#[test]
fn walking_a_primitive_adds_it_to_the_context_picture() {
    let mut source = RenderScene::new();
    let primitive = source.insert_primitive(shape(5, 6));
    let mut graph = CompiledGraph::new(&source);
    let mut live = LiveIds::new();
    let ctx = WalkContext { picture: graph.root_picture(), spatial: graph.root_spatial(), clip: None };
    walk_node(&mut graph, &source, primitive, ctx, &mut live).unwrap();
    let k = graph.primitive_of(primitive).unwrap();
    assert_eq!(graph.primitive(k).unwrap().primitive, shape(5, 6));
    assert_eq!(graph.items(graph.root_picture()), vec![PictureItem::Primitive(k)]);
}

#[test]
fn an_update_of_an_uncompiled_primitive_is_a_missing_node() {
    let mut source = RenderScene::new();
    let primitive = source.insert_primitive(shape(1, 1));
    let mut graph = compiled(&source);
    source.append_child(source.root(), primitive).unwrap();
    let r = apply_non_structural_updates(&mut graph, &source, &vec![(primitive, RenderDirty::paint())]);
    assert_eq!(r, Err(SceneCompileError::Scene(SceneError::MissingNode(primitive))));
}

#[test]
fn an_update_of_a_removed_node_is_a_missing_node_and_a_group_changes_nothing() {
    let mut source = RenderScene::new();
    let group = source.insert_group();
    let gone = source.insert_group();
    source.append_child(source.root(), group).unwrap();
    source.remove_subtree(gone).unwrap();
    let mut graph = compiled(&source);
    apply_non_structural_updates(&mut graph, &source, &vec![(group, RenderDirty::all())]).unwrap();
    assert!(graph.items(graph.root_picture()).is_empty());
    let r = apply_non_structural_updates(&mut graph, &source, &vec![(gone, RenderDirty::paint())]);
    assert_eq!(r, Err(SceneCompileError::Scene(SceneError::MissingNode(gone))));
}

#[test]
fn the_source_index_lists_what_the_graph_holds() {
    let mut source = RenderScene::new();
    let transform = source.insert_transform(0);
    let primitive = source.insert_primitive(shape(1, 1));
    let layer = source.insert_layer(isolated());
    source.append_child(source.root(), transform).unwrap();
    source.set_child(transform, Some(primitive)).unwrap();
    source.append_child(source.root(), layer).unwrap();
    let graph = compiled(&source);
    let sources = graph.sources(source.revision());
    assert_eq!(sources.primitives, vec![primitive]);
    assert_eq!(sources.spatials, vec![transform]);
    assert!(sources.clips.is_empty());
    assert_eq!(sources.pictures.len(), 2);
    assert!(sources.pictures.contains(&source.root()));
    assert!(sources.pictures.contains(&layer));
    assert_eq!(sources.scene_revision, source.revision());
}

#[test]
fn rebuilding_a_picture_walks_its_layer_again_and_keeps_the_ids() {
    let mut source = RenderScene::new();
    let layer = source.insert_layer(isolated());
    let group = source.insert_group();
    let first = source.insert_primitive(shape(1, 1));
    source.append_child(source.root(), layer).unwrap();
    source.set_child(layer, Some(group)).unwrap();
    source.append_child(group, first).unwrap();
    let mut graph = compiled(&source);
    let picture_id = graph.picture_of(layer).unwrap();
    let first_id = graph.primitive_of(first).unwrap();

    let second = source.insert_primitive(shape(2, 2));
    source.append_child(group, second).unwrap();
    source.update_layer_composite(layer, 9).unwrap();
    rebuild_picture_contents(&mut graph, &source, layer).unwrap();
    let second_id = graph.primitive_of(second).unwrap();
    assert_eq!(graph.primitive_of(first), Some(first_id));
    assert_eq!(graph.items(picture_id), vec![PictureItem::Primitive(first_id), PictureItem::Primitive(second_id)]);
    assert_eq!(graph.picture(picture_id).unwrap().descriptor.composite, 9);
    assert_eq!(graph.items(graph.root_picture()), vec![PictureItem::Picture(picture_id)]);
}

#[test]
fn rebuilding_a_picture_needs_an_indexed_isolated_layer() {
    let mut source = RenderScene::new();
    let layer = source.insert_layer(LayerDescriptor::default());
    source.append_child(source.root(), layer).unwrap();
    let mut graph = compiled(&source);
    let r = rebuild_picture_contents(&mut graph, &source, layer);
    assert_eq!(r, Err(SceneCompileError::Scene(SceneError::MissingNode(layer))));
    let root = source.root();
    let r = rebuild_picture_contents(&mut graph, &source, root);
    assert_eq!(
        r,
        Err(SceneCompileError::Scene(SceneError::WrongNodeKind { node: root, expected: "isolated layer" }))
    );
}

#[test]
fn a_branch_rebuild_drops_what_the_picture_graph_no_longer_reaches() {
    let mut source = RenderScene::new();
    let outside = source.insert_primitive(shape(9, 9));
    let layer = source.insert_layer(isolated());
    let group = source.insert_group();
    let first = source.insert_primitive(shape(1, 1));
    let second = source.insert_primitive(shape(2, 2));
    source.append_child(source.root(), outside).unwrap();
    source.append_child(source.root(), layer).unwrap();
    source.set_child(layer, Some(group)).unwrap();
    source.append_child(group, first).unwrap();
    source.append_child(group, second).unwrap();
    let mut graph = compiled(&source);
    let picture_id = graph.picture_of(layer).unwrap();
    let first_id = graph.primitive_of(first).unwrap();
    let second_id = graph.primitive_of(second).unwrap();
    let outside_id = graph.primitive_of(outside).unwrap();

    source.remove_subtree(second).unwrap();
    rebuild_structural_branches(&mut graph, &source, &vec![layer]).unwrap();
    assert_eq!(graph.primitive_of(first), Some(first_id));
    assert_eq!(graph.primitive_of(second), None);
    assert_eq!(graph.primitive(second_id), None);
    assert_eq!(graph.primitive_of(outside), Some(outside_id));
    assert_eq!(graph.picture_of(layer), Some(picture_id));
    assert_eq!(graph.items(picture_id), vec![PictureItem::Primitive(first_id)]);
    assert_eq!(
        graph.items(graph.root_picture()),
        vec![PictureItem::Primitive(outside_id), PictureItem::Picture(picture_id)]
    );
}

#[test]
fn retaining_the_picture_graph_of_a_fresh_compile_keeps_everything() {
    let mut source = RenderScene::new();
    let transform = source.insert_transform(3);
    let clip = source.insert_clip(4);
    let primitive = source.insert_primitive(shape(1, 1));
    source.append_child(source.root(), transform).unwrap();
    source.set_child(transform, Some(clip)).unwrap();
    source.set_child(clip, Some(primitive)).unwrap();
    let mut graph = compiled(&source);
    let k = graph.primitive_of(primitive).unwrap();
    let s = graph.spatial_of(transform).unwrap();
    let c = graph.clip_of(clip).unwrap();
    graph.retain_picture_graph();
    assert_eq!(graph.primitive_of(primitive), Some(k));
    assert_eq!(graph.spatial_of(transform), Some(s));
    assert_eq!(graph.clip_of(clip), Some(c));
    assert!(graph.spatial(graph.root_spatial()).is_some());
    assert_eq!(graph.items(graph.root_picture()), vec![PictureItem::Primitive(k)]);
}

#[test]
fn a_failed_branch_rebuild_reports_the_branch() {
    let mut source = RenderScene::new();
    let group = source.insert_group();
    source.append_child(source.root(), group).unwrap();
    let mut graph = compiled(&source);
    let r = rebuild_structural_branches(&mut graph, &source, &vec![group]);
    assert_eq!(r, Err(SceneCompileError::Scene(SceneError::MissingNode(group))));
}
