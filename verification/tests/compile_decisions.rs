use xui::compile::{
    frame_need, plan_compile, CompilePlan, FrameNeed,
    add_branch, dirty_since, is_source_ancestor, requires_structural_rebuild,
    structural_branch_source, structural_branches, validate_explicit_cache_keys, CompiledSources,
    SceneCompileError,
};
use xui::dirty::RenderDirty;
use xui::properties::FrameProperties;
use xui::scene::{CachePolicy, LayerDescriptor, RenderScene};

fn isolated(cache_key: Option<u64>) -> LayerDescriptor {
    LayerDescriptor { force_offscreen: true, cache_key, ..LayerDescriptor::default() }
}

fn empty_sources() -> CompiledSources {
    CompiledSources {
        primitives: vec![],
        spatials: vec![],
        clips: vec![],
        pictures: vec![],
        scene_revision: 0,
    }
}

#[test]
fn dirty_since_checks_each_part_against_its_epoch() {
    let mut scene = RenderScene::new();
    let revision = scene.revision();
    let t = scene.insert_transform(0);
    let node = scene.node(t).unwrap().clone();
    assert_eq!(dirty_since(&node, revision), RenderDirty::all());
    assert_eq!(dirty_since(&node, scene.revision()), RenderDirty::empty());
    let snapshot = scene.dirty_snapshot();
    scene.acknowledge(&snapshot);
    scene.update_transform(t, 5).unwrap();
    let node = scene.node(t).unwrap().clone();
    assert_eq!(dirty_since(&node, revision), RenderDirty::geometry());
}

#[test]
fn structural_rebuilds_follow_what_was_compiled() {
    let mut scene = RenderScene::new();
    let p = scene.insert_primitive(xui::scene::Primitive {
        kind: xui::scene::PrimitiveKind::Shape,
        geometry: 0,
        paint: 0,
    });
    let layer = scene.insert_layer(isolated(None));
    let mut sources = empty_sources();
    assert!(requires_structural_rebuild(&scene, None, p, RenderDirty::paint()));
    assert!(requires_structural_rebuild(&scene, Some(&sources), p, RenderDirty::paint()));
    sources.primitives.push(p);
    assert!(!requires_structural_rebuild(&scene, Some(&sources), p, RenderDirty::paint()));
    assert!(requires_structural_rebuild(&scene, Some(&sources), p, RenderDirty::topology()));
    assert!(requires_structural_rebuild(&scene, Some(&sources), layer, RenderDirty::effect()));
    sources.pictures.push(layer);
    assert!(!requires_structural_rebuild(&scene, Some(&sources), layer, RenderDirty::effect()));
}

#[test]
fn ancestors_and_branches() {
    let mut scene = RenderScene::new();
    let layer = scene.insert_layer(isolated(None));
    let group = scene.insert_group();
    let leaf = scene.insert_group();
    scene.append_child(scene.root(), layer).unwrap();
    scene.set_child(layer, Some(group)).unwrap();
    scene.append_child(group, leaf).unwrap();
    assert!(is_source_ancestor(&scene, layer, leaf));
    assert!(is_source_ancestor(&scene, leaf, leaf));
    assert!(!is_source_ancestor(&scene, leaf, layer));

    let mut sources = empty_sources();
    assert_eq!(structural_branch_source(&sources, &scene, leaf, RenderDirty::topology()), None);
    sources.pictures.push(layer);
    assert_eq!(
        structural_branch_source(&sources, &scene, leaf, RenderDirty::topology()),
        Some(layer)
    );
    assert_eq!(
        structural_branch_source(&sources, &scene, layer, RenderDirty::effect()),
        Some(layer)
    );
    assert_eq!(structural_branch_source(&sources, &scene, layer, RenderDirty::visibility()), None);

    let mut branches = vec![leaf];
    add_branch(&mut branches, &scene, layer);
    assert_eq!(branches, vec![layer]);
    add_branch(&mut branches, &scene, group);
    assert_eq!(branches, vec![layer]);

    let changed = vec![(leaf, RenderDirty::topology()), (group, RenderDirty::topology())];
    assert_eq!(structural_branches(&sources, &scene, &changed), Some(vec![layer]));
    let at_root = vec![(layer, RenderDirty::visibility())];
    assert_eq!(structural_branches(&sources, &scene, &at_root), None);
}

#[test]
fn duplicate_cache_key_is_reported_in_depth_first_order() {
    let mut scene = RenderScene::new();
    let a = scene.insert_layer(isolated(Some(3)));
    let b = scene.insert_layer(LayerDescriptor {
        cache_policy: CachePolicy::Always,
        cache_key: Some(4),
        ..LayerDescriptor::default()
    });
    let c = scene.insert_layer(isolated(Some(4)));
    scene.append_child(scene.root(), a).unwrap();
    assert_eq!(validate_explicit_cache_keys(&scene), Ok(()));
    scene.append_child(scene.root(), b).unwrap();
    scene.append_child(scene.root(), c).unwrap();
    assert_eq!(
        validate_explicit_cache_keys(&scene),
        Err(SceneCompileError::DuplicateLayerCacheKey(4))
    );
    let plain = scene.insert_layer(LayerDescriptor { cache_key: Some(3), ..LayerDescriptor::default() });
    scene.remove_subtree(c).unwrap();
    scene.append_child(scene.root(), plain).unwrap();
    assert_eq!(validate_explicit_cache_keys(&scene), Ok(()));
}

#[test]
fn compile_plans_follow_the_changes() {
    let mut scene = RenderScene::new();
    let layer = scene.insert_layer(isolated(Some(1)));
    let group = scene.insert_group();
    scene.append_child(scene.root(), layer).unwrap();
    scene.set_child(layer, Some(group)).unwrap();
    let snapshot = scene.dirty_snapshot();
    assert!(matches!(plan_compile(&scene, None, &snapshot), Ok(CompilePlan::Full)));

    let mut sources = empty_sources();
    sources.pictures.push(layer);
    sources.scene_revision = scene.revision();
    scene.acknowledge(&snapshot);
    let snapshot = scene.dirty_snapshot();
    assert!(matches!(plan_compile(&scene, Some(&sources), &snapshot), Ok(CompilePlan::UpToDate)));

    let t = scene.insert_transform(0);
    scene.append_child(group, t).unwrap();
    let snapshot = scene.dirty_snapshot();
    match plan_compile(&scene, Some(&sources), &snapshot) {
        Ok(CompilePlan::Branches(branches)) => assert_eq!(branches, vec![layer]),
        other => panic!("unexpected plan {:?}", other),
    }
    sources.spatials.push(t);
    sources.scene_revision = scene.revision();
    scene.acknowledge(&snapshot);
    scene.update_transform(t, 9).unwrap();
    let snapshot = scene.dirty_snapshot();
    match plan_compile(&scene, Some(&sources), &snapshot) {
        Ok(CompilePlan::InPlace(changes)) => assert_eq!(changes, vec![(t, RenderDirty::geometry())]),
        other => panic!("unexpected plan {:?}", other),
    }

    let clash = scene.insert_layer(isolated(Some(1)));
    scene.append_child(scene.root(), clash).unwrap();
    let snapshot = scene.dirty_snapshot();
    assert!(matches!(
        plan_compile(&scene, Some(&sources), &snapshot),
        Err(SceneCompileError::DuplicateLayerCacheKey(1))
    ));
}

#[test]
fn a_frame_is_built_only_when_something_changed() {
    let mut scene = RenderScene::new();
    let mut props = FrameProperties::new();
    let sources = empty_sources();
    assert_eq!(frame_need(&scene, &props, None, false), FrameNeed::CompileAndBuild);
    assert_eq!(frame_need(&scene, &props, Some(&sources), false), FrameNeed::CompileAndBuild);

    let snapshot = scene.dirty_snapshot();
    scene.acknowledge(&snapshot);
    assert_eq!(frame_need(&scene, &props, Some(&sources), false), FrameNeed::Nothing);
    assert_eq!(frame_need(&scene, &props, Some(&sources), true), FrameNeed::Build);

    let t = scene.insert_transform(0);
    props.set_transform(t, 3);
    assert_eq!(frame_need(&scene, &props, Some(&sources), false), FrameNeed::CompileAndBuild);
    let snapshot = scene.dirty_snapshot();
    scene.acknowledge(&snapshot);
    assert_eq!(frame_need(&scene, &props, Some(&sources), false), FrameNeed::Build);
    props.acknowledge(props.snapshot());
    assert_eq!(frame_need(&scene, &props, Some(&sources), false), FrameNeed::Nothing);
}
