//! Built frames and render plans. A built frame is a list of layers, each
//! with draw items and nested layer instances; the plan flattens it into the
//! ordered operations a backend executes.
//!
//! The geometry of built items (bounds, transforms, effect parameters) is
//! floating-point data that the plan does not read; the outline types here
//! hold what it does read.

use vstd::prelude::*;

use crate::dirty::{max_u64, ContentVersion};
use crate::node_store::RenderNodeId;
use crate::scene::CachePolicy;

verus! {

/// The index of a layer in a built frame.
#[derive(Debug, Clone, Copy, PartialEq, Eq, Hash, Structural)]
pub struct BuiltLayerId(pub usize);

/// The index of a clip chain in a built frame.
#[derive(Debug, Clone, Copy, PartialEq, Eq, Hash, Structural)]
pub struct BuiltClipChainId(pub usize);

/// The identity under which a layer's rendering is cached: an explicit cache
/// key, or the scene node the layer comes from.
#[derive(Debug, Clone, Copy, PartialEq, Eq, Hash, Structural)]
pub enum LayerCacheId {
    Explicit(u64),
    Scene(RenderNodeId),
}

/// The versions of a layer instance's placement: from the scene, and from
/// dynamic frame properties.
#[derive(Debug, Clone, Copy, PartialEq, Eq, Hash, Structural)]
pub struct PlacementVersion {
    pub scene: u64,
    pub dynamic: u64,
}

impl Default for PlacementVersion {
    fn default() -> (r: PlacementVersion)
        ensures
            r == (PlacementVersion { scene: 0, dynamic: 0 }),
    {
        PlacementVersion { scene: 0, dynamic: 0 }
    }
}

/// An item of a compiled picture: a primitive or a nested picture, by id.
#[derive(Debug, Clone, Copy, PartialEq, Eq, Structural)]
pub enum CompiledPictureItem {
    Primitive(u64),
    Picture(u64),
}

/// What the event loop should do next.
#[derive(Debug, Clone, Copy, PartialEq, Eq, Structural)]
pub enum ControlFlow {
    Poll,
    Wait,
    Exit,
}

/// One operation of a render plan.
#[derive(Debug, Clone, Copy, PartialEq, Eq, Structural)]
pub enum RenderPlanOp {
    BeginLayer(BuiltLayerId),
    Draw { layer: BuiltLayerId, item: usize },
    ContentEffect { layer: BuiltLayerId, effect: usize },
    BackdropEffect { parent: BuiltLayerId, item: usize, effect: usize },
    Composite { parent: BuiltLayerId, item: usize },
    EndLayer(BuiltLayerId),
}

/// An item of a built layer: a draw, or an instance of another layer with
/// its number of backdrop effects.
#[derive(Debug, Clone, Copy, PartialEq, Eq, Structural)]
pub enum ItemOutline {
    Draw,
    Layer { layer: BuiltLayerId, backdrop_effects: usize },
}

/// A built layer: its items in paint order and its number of content effects.
#[derive(Debug, Clone)]
pub struct LayerOutline {
    pub items: Vec<ItemOutline>,
    pub effects: usize,
}

/// A built frame: its layers and which of them is the root.
#[derive(Debug, Clone)]
pub struct FrameOutline {
    pub root_layer: BuiltLayerId,
    pub layers: Vec<LayerOutline>,
}

/// `rank` orders the layers so that every layer instance refers to an
/// existing layer of lower rank, each rank below the number of layers: no
/// layer contains itself through its instances.
pub open spec fn ranked(f: FrameOutline, rank: Seq<nat>) -> bool {
    &&& rank.len() == f.layers@.len()
    &&& forall|l: int| 0 <= l < rank.len() ==> #[trigger] rank[l] < rank.len()
    &&& forall|l: int, k: int|
        #![trigger f.layers@[l].items@[k]]
        0 <= l < f.layers@.len() && 0 <= k < f.layers@[l].items@.len() ==> match f.layers@[l].items@[k] {
            ItemOutline::Draw => true,
            ItemOutline::Layer { layer, .. } => layer.0 < f.layers@.len() && rank[layer.0 as int] < rank[l],
        }
}

/// The frame is well formed: the root layer exists, and the layer instances
/// refer to existing layers and form no cycle (they have a rank).
pub open spec fn frame_wf(f: FrameOutline) -> bool {
    &&& f.root_layer.0 < f.layers@.len()
    &&& exists|rank: Seq<nat>| ranked(f, rank)
}

/// The content-effect operations of layer `l`.
pub open spec fn effect_ops(l: int, n: int) -> Seq<RenderPlanOp> {
    Seq::new(
        n as nat,
        |e: int| RenderPlanOp::ContentEffect { layer: BuiltLayerId(l as usize), effect: e as usize },
    )
}

/// The backdrop-effect operations of item `k` of layer `l`.
pub open spec fn backdrop_ops(l: int, k: int, n: int) -> Seq<RenderPlanOp> {
    Seq::new(
        n as nat,
        |e: int|
            RenderPlanOp::BackdropEffect {
                parent: BuiltLayerId(l as usize),
                item: k as usize,
                effect: e as usize,
            },
    )
}

/// The operations of layer `l`: it begins, its items follow in order (a
/// nested layer in full, then its backdrop effects, then its composite),
/// then its content effects, then it ends. `fuel` bounds the nesting walked;
/// the number of layers is enough for a well-formed frame.
pub open spec fn layer_ops(f: FrameOutline, l: int, fuel: nat) -> Seq<RenderPlanOp>
    decreases fuel, f.layers@[l].items@.len() + 1,
{
    if 0 <= l < f.layers@.len() && fuel > 0 {
        seq![RenderPlanOp::BeginLayer(BuiltLayerId(l as usize))] + items_ops(
            f,
            l,
            f.layers@[l].items@.len() as int,
            fuel,
        ) + effect_ops(l, f.layers@[l].effects as int) + seq![
            RenderPlanOp::EndLayer(BuiltLayerId(l as usize)),
        ]
    } else {
        Seq::empty()
    }
}

/// The operations of the first `k` items of layer `l`.
pub open spec fn items_ops(f: FrameOutline, l: int, k: int, fuel: nat) -> Seq<RenderPlanOp>
    decreases fuel, k,
{
    if 0 <= l < f.layers@.len() && 0 < k <= f.layers@[l].items@.len() && fuel > 0 {
        items_ops(f, l, k - 1, fuel) + match f.layers@[l].items@[k - 1] {
            ItemOutline::Draw => seq![
                RenderPlanOp::Draw { layer: BuiltLayerId(l as usize), item: (k - 1) as usize },
            ],
            ItemOutline::Layer { layer, backdrop_effects } => layer_ops(f, layer.0 as int, (fuel - 1) as nat)
                + backdrop_ops(l, k - 1, backdrop_effects as int) + seq![
                RenderPlanOp::Composite { parent: BuiltLayerId(l as usize), item: (k - 1) as usize },
            ],
        }
    } else {
        Seq::empty()
    }
}

/// A layer's operations, for any frame and layer it holds (with nesting
/// left to walk), open with its `BeginLayer` and close with its `EndLayer`,
/// with its content effects, in order, just before the close.
pub proof fn law_layer_ops_bracket(f: FrameOutline, l: int, fuel: nat)
    requires
        0 <= l < f.layers@.len(),
        fuel > 0,
    ensures
        ({
            let ops = layer_ops(f, l, fuel);
            let n = f.layers@[l].effects as int;
            &&& ops.len() >= 2 + n
            &&& ops[0] == RenderPlanOp::BeginLayer(BuiltLayerId(l as usize))
            &&& ops.last() == RenderPlanOp::EndLayer(BuiltLayerId(l as usize))
            &&& ops.subrange(ops.len() - 1 - n, ops.len() - 1) == Seq::new(
                n as nat,
                |e: int| RenderPlanOp::ContentEffect { layer: BuiltLayerId(l as usize), effect: e as usize },
            )
        }),
{
    let a = seq![RenderPlanOp::BeginLayer(BuiltLayerId(l as usize))];
    let b = items_ops(f, l, f.layers@[l].items@.len() as int, fuel);
    let c = effect_ops(l, f.layers@[l].effects as int);
    let d = seq![RenderPlanOp::EndLayer(BuiltLayerId(l as usize))];
    let ops = layer_ops(f, l, fuel);
    assert(ops == a + b + c + d);
    let n = f.layers@[l].effects as int;
    assert(ops.subrange(ops.len() - 1 - n, ops.len() - 1) =~= c);
    assert(c =~= Seq::new(
        n as nat,
        |e: int| RenderPlanOp::ContentEffect { layer: BuiltLayerId(l as usize), effect: e as usize },
    ));
}

/// The operations of the first `k` items of a layer whose items are all
/// draws are those draws, in item order.
pub proof fn law_draw_items_in_order(f: FrameOutline, l: int, k: int, fuel: nat)
    requires
        0 <= l < f.layers@.len(),
        0 <= k <= f.layers@[l].items@.len(),
        fuel > 0,
        forall|i: int| 0 <= i < k ==> f.layers@[l].items@[i] == ItemOutline::Draw,
    ensures
        items_ops(f, l, k, fuel) == Seq::new(
            k as nat,
            |i: int| RenderPlanOp::Draw { layer: BuiltLayerId(l as usize), item: i as usize },
        ),
    decreases k,
{
    if k > 0 {
        law_draw_items_in_order(f, l, k - 1, fuel);
        assert(items_ops(f, l, k, fuel) =~= Seq::new(
            k as nat,
            |i: int| RenderPlanOp::Draw { layer: BuiltLayerId(l as usize), item: i as usize },
        ));
    } else {
        assert(items_ops(f, l, k, fuel) =~= Seq::new(
            k as nat,
            |i: int| RenderPlanOp::Draw { layer: BuiltLayerId(l as usize), item: i as usize },
        ));
    }
}

/// A nested layer instance is drawn in full, then its backdrop effects,
/// then its composite into the parent, right where the instance stands
/// among the parent's items.
pub proof fn law_nested_layer_order(f: FrameOutline, l: int, k: int, fuel: nat)
    requires
        0 <= l < f.layers@.len(),
        0 < k <= f.layers@[l].items@.len(),
        fuel > 0,
        f.layers@[l].items@[k - 1] is Layer,
    ensures
        ({
            let it = f.layers@[l].items@[k - 1];
            items_ops(f, l, k, fuel) == items_ops(f, l, k - 1, fuel) + layer_ops(f, it->layer.0 as int, (fuel - 1) as nat)
                + backdrop_ops(l, k - 1, it->backdrop_effects as int) + seq![
                RenderPlanOp::Composite { parent: BuiltLayerId(l as usize), item: (k - 1) as usize },
            ]
        }),
{
}

/// The operations that render frame `f`: those of its root layer.
pub open spec fn plan_ops(f: FrameOutline) -> Seq<RenderPlanOp> {
    layer_ops(f, f.root_layer.0 as int, f.layers@.len())
}

/// The operations that render a built frame, in order.
#[derive(Debug, Clone, PartialEq, Eq)]
pub struct RenderPlan {
    pub ops: Vec<RenderPlanOp>,
}

impl RenderPlan {
    /// The plan of a frame: the operations of its root layer.
    pub fn build(frame: &FrameOutline) -> (r: RenderPlan)
        requires
            frame_wf(*frame),
        ensures
            r.ops@ == plan_ops(*frame),
    {
        let ghost rank = choose|rank: Seq<nat>| ranked(*frame, rank);
        let mut plan = RenderPlan { ops: Vec::new() };
        plan.push_layer(frame, frame.root_layer, Ghost(rank), Ghost(frame.layers@.len()));
        proof {
            assert(plan.ops@ =~= plan_ops(*frame));
        }
        plan
    }

    fn push_layer(
        &mut self,
        frame: &FrameOutline,
        layer_id: BuiltLayerId,
        Ghost(rank): Ghost<Seq<nat>>,
        Ghost(fuel): Ghost<nat>,
    )
        requires
            ranked(*frame, rank),
            layer_id.0 < frame.layers@.len(),
            rank[layer_id.0 as int] < fuel,
        ensures
            final(self).ops@ == old(self).ops@ + layer_ops(*frame, layer_id.0 as int, fuel),
        decreases fuel,
    {
        let ghost start = self.ops@;
        let ghost l = layer_id.0 as int;
        self.ops.push(RenderPlanOp::BeginLayer(layer_id));
        let layer = &frame.layers[layer_id.0];
        let mut item_index: usize = 0;
        proof {
            assert(items_ops(*frame, l, 0, fuel) =~= Seq::<RenderPlanOp>::empty());
            assert(self.ops@ =~= start + seq![RenderPlanOp::BeginLayer(layer_id)] + items_ops(*frame, l, 0, fuel));
        }
        while item_index < layer.items.len()
            invariant
                ranked(*frame, rank),
                rank[l] < fuel,
                l == layer_id.0,
                0 <= l < frame.layers@.len(),
                *layer == frame.layers@[l],
                item_index <= layer.items@.len(),
                self.ops@ == start + seq![RenderPlanOp::BeginLayer(layer_id)] + items_ops(
                    *frame,
                    l,
                    item_index as int,
                    fuel,
                ),
            decreases layer.items@.len() - item_index,
        {
            let ghost before = self.ops@;
            let item = layer.items[item_index];
            match item {
                ItemOutline::Draw => {
                    self.ops.push(RenderPlanOp::Draw { layer: layer_id, item: item_index });
                },
                ItemOutline::Layer { layer: child, backdrop_effects } => {
                    proof {
                        assert(frame.layers@[l].items@[item_index as int] == item);
                    }
                    self.push_layer(frame, child, Ghost(rank), Ghost((fuel - 1) as nat));
                    let ghost mid = self.ops@;
                    let mut effect: usize = 0;
                    while effect < backdrop_effects
                        invariant
                            l == layer_id.0,
                            effect <= backdrop_effects,
                            self.ops@ == mid + backdrop_ops(l, item_index as int, effect as int),
                        decreases backdrop_effects - effect,
                    {
                        self.ops.push(
                            RenderPlanOp::BackdropEffect { parent: layer_id, item: item_index, effect },
                        );
                        effect = effect + 1;
                        proof {
                            assert(self.ops@ =~= mid + backdrop_ops(l, item_index as int, effect as int));
                        }
                    }
                    self.ops.push(RenderPlanOp::Composite { parent: layer_id, item: item_index });
                },
            }
            item_index = item_index + 1;
            proof {
                assert(self.ops@ =~= start + seq![RenderPlanOp::BeginLayer(layer_id)] + items_ops(
                    *frame,
                    l,
                    item_index as int,
                    fuel,
                ));
            }
        }
        let ghost after_items = self.ops@;
        let mut effect: usize = 0;
        while effect < layer.effects
            invariant
                l == layer_id.0,
                effect <= layer.effects,
                self.ops@ == after_items + effect_ops(l, effect as int),
            decreases layer.effects - effect,
        {
            self.ops.push(RenderPlanOp::ContentEffect { layer: layer_id, effect });
            effect = effect + 1;
            proof {
                assert(self.ops@ =~= after_items + effect_ops(l, effect as int));
            }
        }
        self.ops.push(RenderPlanOp::EndLayer(layer_id));
        proof {
            assert(self.ops@ =~= start + layer_ops(*frame, l, fuel));
        }
    }
}

/// The cache identity of an isolated layer: its explicit key when it has
/// one, else its source node.
pub fn layer_cache_id(cache_key: Option<u64>, source: RenderNodeId) -> (r: LayerCacheId)
    ensures
        r == match cache_key {
            Some(k) => LayerCacheId::Explicit(k),
            None => LayerCacheId::Scene(source),
        },
{
    match cache_key {
        Some(k) => LayerCacheId::Explicit(k),
        None => LayerCacheId::Scene(source),
    }
}

/// Whether a layer's cache stays live in the frame: every policy but the
/// disabled one keeps it.
pub fn keeps_layer_cache(policy: CachePolicy) -> (r: bool)
    ensures
        r == (policy != CachePolicy::Disabled),
{
    match policy {
        CachePolicy::Disabled => false,
        _ => true,
    }
}

/// The version of a resolved spatial node: its parent's merged with its
/// own, raised to the revision of a dynamic transform when there is one.
pub fn spatial_version(parent: ContentVersion, node: ContentVersion, dynamic: Option<u64>) -> (r: ContentVersion)
    ensures
        r == match dynamic {
            Some(d) => ContentVersion { dynamic: max_u64(parent.spec_merge(node).dynamic, d), ..parent.spec_merge(node) },
            None => parent.spec_merge(node),
        },
{
    let v = parent.merge(node);
    match dynamic {
        Some(d) => ContentVersion { dynamic: if v.dynamic >= d { v.dynamic } else { d }, ..v },
        None => v,
    }
}

/// The version of a resolved clip: its own merged with its spatial node's,
/// then with its parent clip's when there is one.
pub fn clip_version(clip: ContentVersion, spatial: ContentVersion, parent: Option<ContentVersion>) -> (r:
    ContentVersion)
    ensures
        r == match parent {
            Some(p) => clip.spec_merge(spatial).spec_merge(p),
            None => clip.spec_merge(spatial),
        },
{
    let v = clip.merge(spatial);
    match parent {
        Some(p) => v.merge(p),
        None => v,
    }
}

/// The placement version of a layer instance: the picture's composite
/// version from the scene, and the revision of a dynamic composite (zero
/// without one).
pub fn placement_version(composite_version: u64, dynamic: Option<u64>) -> (r: PlacementVersion)
    ensures
        r == (PlacementVersion {
            scene: composite_version,
            dynamic: match dynamic {
                Some(d) => d,
                None => 0,
            },
        }),
{
    PlacementVersion {
        scene: composite_version,
        dynamic: match dynamic {
            Some(d) => d,
            None => 0,
        },
    }
}

/// The content version of an isolated layer: the picture's, merged with its
/// contents' and with its placement node's.
pub fn layer_content_version(picture: ContentVersion, contents: ContentVersion, placement: ContentVersion) -> (r:
    ContentVersion)
    ensures
        r == picture.spec_merge(contents).spec_merge(placement),
{
    picture.merge(contents).merge(placement)
}

/// The version a layer instance contributes to its parent: the layer's
/// content version, with paint raised to the placement's scene version and
/// dynamic raised to its dynamic version.
pub fn instance_version(content: ContentVersion, placement: PlacementVersion) -> (r: ContentVersion)
    ensures
        r == (ContentVersion {
            paint: max_u64(content.paint, placement.scene),
            dynamic: max_u64(content.dynamic, placement.dynamic),
            ..content
        }),
{
    ContentVersion {
        paint: if content.paint >= placement.scene { content.paint } else { placement.scene },
        dynamic: if content.dynamic >= placement.dynamic { content.dynamic } else { placement.dynamic },
        ..content
    }
}

} // verus!
