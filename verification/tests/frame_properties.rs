use xui::dirty::ContentVersion;
use xui::plan::{
    clip_version, instance_version, keeps_layer_cache, layer_cache_id, layer_content_version, placement_version,
    spatial_version, BuiltLayerId, FrameOutline, ItemOutline, LayerCacheId, LayerOutline, PlacementVersion, RenderPlan,
    RenderPlanOp,
};
use xui::scene::CachePolicy;
use xui::properties::FrameProperties;
use xui::scene::RenderScene;

#[test]
fn dirty_state_is_retained_until_the_matching_snapshot_is_acknowledged() {
    let mut scene = RenderScene::new();
    let source = scene.insert_group();
    let mut properties = FrameProperties::new();
    properties.set_transform(source, 10);
    let first = properties.snapshot();

    properties.set_transform(source, 20);
    let second = properties.snapshot();
    properties.acknowledge(first);
    assert!(properties.is_dirty());

    properties.acknowledge(second);
    assert!(!properties.is_dirty());
    assert_eq!(properties.transform(source).unwrap().value, 20);
}

#[test]
fn identical_updates_do_not_advance_revision() {
    let mut scene = RenderScene::new();
    let source = scene.insert_group();
    let mut properties = FrameProperties::new();
    assert!(properties.set_transform(source, 0));
    let revision = properties.revision();
    assert!(!properties.set_transform(source, 0));
    assert_eq!(properties.revision(), revision);
}

#[test]
fn clearing_and_removing_sources_bump_the_revision_once() {
    let mut scene = RenderScene::new();
    let source = scene.insert_group();
    let mut properties = FrameProperties::new();
    assert!(!properties.clear_transform(source));
    assert_eq!(properties.revision(), 0);
    properties.set_transform(source, 1);
    properties.set_composite(source, 2);
    assert_eq!(properties.revision(), 2);
    assert!(properties.remove_source(source));
    assert_eq!(properties.revision(), 3);
    assert!(properties.transform(source).is_none());
    assert!(properties.composite(source).is_none());
    assert!(!properties.clear_composite(source));
}

#[test]
fn nested_layer_effects_and_composite_keep_scene_order() {
    let frame = FrameOutline {
        root_layer: BuiltLayerId(0),
        layers: vec![
            LayerOutline {
                items: vec![
                    ItemOutline::Draw,
                    ItemOutline::Layer { layer: BuiltLayerId(1), backdrop_effects: 1 },
                ],
                effects: 0,
            },
            LayerOutline { items: vec![ItemOutline::Draw], effects: 1 },
        ],
    };
    let plan = RenderPlan::build(&frame);
    assert!(matches!(plan.ops[1], RenderPlanOp::Draw { layer: BuiltLayerId(0), .. }));
    assert!(plan.ops.iter().any(|op| matches!(op, RenderPlanOp::ContentEffect { .. })));
    let backdrop = plan
        .ops
        .iter()
        .position(|op| matches!(op, RenderPlanOp::BackdropEffect { .. }))
        .unwrap();
    let composite = plan
        .ops
        .iter()
        .position(|op| matches!(op, RenderPlanOp::Composite { .. }))
        .unwrap();
    assert!(backdrop < composite);
    assert_eq!(
        plan.ops,
        vec![
            RenderPlanOp::BeginLayer(BuiltLayerId(0)),
            RenderPlanOp::Draw { layer: BuiltLayerId(0), item: 0 },
            RenderPlanOp::BeginLayer(BuiltLayerId(1)),
            RenderPlanOp::Draw { layer: BuiltLayerId(1), item: 0 },
            RenderPlanOp::ContentEffect { layer: BuiltLayerId(1), effect: 0 },
            RenderPlanOp::EndLayer(BuiltLayerId(1)),
            RenderPlanOp::BackdropEffect { parent: BuiltLayerId(0), item: 1, effect: 0 },
            RenderPlanOp::Composite { parent: BuiltLayerId(0), item: 1 },
            RenderPlanOp::EndLayer(BuiltLayerId(0)),
        ]
    );
}

#[test]
fn a_nested_layer_may_come_before_its_parent_in_the_list() {
    let frame = FrameOutline {
        root_layer: BuiltLayerId(1),
        layers: vec![
            LayerOutline { items: vec![ItemOutline::Draw], effects: 0 },
            LayerOutline {
                items: vec![ItemOutline::Layer { layer: BuiltLayerId(0), backdrop_effects: 0 }],
                effects: 0,
            },
        ],
    };
    let plan = RenderPlan::build(&frame);
    assert_eq!(
        plan.ops,
        vec![
            RenderPlanOp::BeginLayer(BuiltLayerId(1)),
            RenderPlanOp::BeginLayer(BuiltLayerId(0)),
            RenderPlanOp::Draw { layer: BuiltLayerId(0), item: 0 },
            RenderPlanOp::EndLayer(BuiltLayerId(0)),
            RenderPlanOp::Composite { parent: BuiltLayerId(1), item: 0 },
            RenderPlanOp::EndLayer(BuiltLayerId(1)),
        ]
    );
}

fn version(topology: u64, geometry: u64, paint: u64, dynamic: u64) -> ContentVersion {
    ContentVersion { topology, geometry, paint, dynamic }
}

#[test]
fn layer_cache_identities_and_versions_follow_the_frame_builder() {
    let scene = RenderScene::new();
    let root = scene.root();
    assert_eq!(layer_cache_id(Some(4), root), LayerCacheId::Explicit(4));
    assert_eq!(layer_cache_id(None, root), LayerCacheId::Scene(root));
    assert!(!keeps_layer_cache(CachePolicy::Disabled));
    assert!(keeps_layer_cache(CachePolicy::Auto));
    assert!(keeps_layer_cache(CachePolicy::Always));

    let parent = version(1, 5, 2, 0);
    let node = version(3, 2, 2, 1);
    assert_eq!(spatial_version(parent, node, None), version(3, 5, 2, 1));
    assert_eq!(spatial_version(parent, node, Some(9)), version(3, 5, 2, 9));
    assert_eq!(clip_version(version(1, 1, 1, 1), version(2, 0, 0, 0), None), version(2, 1, 1, 1));
    assert_eq!(
        clip_version(version(1, 1, 1, 1), version(2, 0, 0, 0), Some(version(0, 7, 0, 0))),
        version(2, 7, 1, 1)
    );
    assert_eq!(placement_version(6, None), PlacementVersion { scene: 6, dynamic: 0 });
    assert_eq!(placement_version(6, Some(3)), PlacementVersion { scene: 6, dynamic: 3 });
    assert_eq!(
        layer_content_version(version(1, 0, 0, 0), version(0, 2, 0, 0), version(0, 0, 3, 4)),
        version(1, 2, 3, 4)
    );
    assert_eq!(
        instance_version(version(1, 2, 3, 4), PlacementVersion { scene: 8, dynamic: 2 }),
        version(1, 2, 8, 4)
    );
}
