//! The compiled picture graph: what the scene compiler builds from the render
//! scene. Each visible primitive becomes a compiled primitive, each transform a
//! spatial node, each clip a compiled clip and each isolated layer a picture;
//! a picture lists its primitives and nested pictures in paint order.
//! Compiled entries are found again by their source node, so a rebuild keeps
//! the ids of what survives, and entries that no walk reached are dropped.
//!
//! Payloads are the interned identities of the scene; bounds used for culling
//! are floating-point data elsewhere in the runtime and are not kept here.

use vstd::prelude::*;

use crate::assoc::{
    assoc_map, keys_unique, lemma_assoc_absent, lemma_assoc_at, lemma_assoc_push, lemma_assoc_remove,
    lemma_assoc_update,
};
use crate::compile::{CompiledSources, SceneCompileError};
use crate::dirty::{ContentVersion, RenderDirty, RenderEpochs};
use crate::node_store::RenderNodeId;
use crate::scaffold::identity_transform;
use crate::scene::{
    default_composite, no_effects, BackdropIsolation, CachePolicy, LayerDescriptor, Primitive, RenderNodeKind,
    RenderScene, SceneError,
};
use crate::scene_spec::{forest_wf, parent_link_ok, NodeMap};

verus! {

/// One entry of a picture: a compiled primitive or a nested picture.
#[derive(Debug, Clone, Copy, PartialEq, Eq, Structural)]
pub enum PictureItem {
    Primitive(usize),
    Picture(usize),
}

/// A picture: the root of the scene or an isolated layer.
#[derive(Debug, Clone, Copy, PartialEq, Eq, Structural)]
pub struct CompiledPicture {
    pub source: RenderNodeId,
    pub descriptor: LayerDescriptor,
    pub placement_spatial: usize,
    pub placement_clip: Option<usize>,
    pub content_version: ContentVersion,
    pub composite_version: u64,
    pub is_root: bool,
}

/// A primitive in the spatial node and under the clip it is drawn in.
#[derive(Debug, Clone, Copy, PartialEq, Eq, Structural)]
pub struct CompiledPrimitive {
    pub source: RenderNodeId,
    pub primitive: Primitive,
    pub spatial: usize,
    pub clip: Option<usize>,
    pub content_version: ContentVersion,
}

/// A spatial node: a transform below its parent spatial node.
#[derive(Debug, Clone, Copy, PartialEq, Eq, Structural)]
pub struct CompiledSpatialNode {
    pub source: RenderNodeId,
    pub parent: Option<usize>,
    pub local_transform: u64,
    pub content_version: ContentVersion,
}

/// A clip in a spatial node, below its parent clip.
#[derive(Debug, Clone, Copy, PartialEq, Eq, Structural)]
pub struct CompiledClip {
    pub source: RenderNodeId,
    pub parent: Option<usize>,
    pub spatial: usize,
    pub clip: u64,
    pub content_version: ContentVersion,
}

/// Where a walk puts what it finds: the picture it adds items to, the spatial
/// node and the clip they are drawn in.
#[derive(Debug, Clone, Copy, PartialEq, Eq, Structural)]
pub struct WalkContext {
    pub picture: usize,
    pub spatial: usize,
    pub clip: Option<usize>,
}

/// The compiled graph as a value: four arenas (an entry that was dropped is
/// `None`), the items of each picture, and the index of each arena by source
/// node.
pub struct GraphView {
    pub pictures: Seq<Option<CompiledPicture>>,
    pub items: Seq<Seq<PictureItem>>,
    pub primitives: Seq<Option<CompiledPrimitive>>,
    pub spatials: Seq<Option<CompiledSpatialNode>>,
    pub clips: Seq<Option<CompiledClip>>,
    pub picture_by_source: Map<RenderNodeId, usize>,
    pub primitive_by_source: Map<RenderNodeId, usize>,
    pub spatial_by_source: Map<RenderNodeId, usize>,
    pub clip_by_source: Map<RenderNodeId, usize>,
    pub root_picture: usize,
    pub root_spatial: usize,
}

/// The compiled entries a walk reached.
pub struct LiveView {
    pub pictures: Set<usize>,
    pub primitives: Set<usize>,
    pub spatials: Set<usize>,
    pub clips: Set<usize>,
}

/// The compiled picture graph.
pub struct CompiledGraph {
    pictures: Vec<Option<CompiledPicture>>,
    items: Vec<Vec<PictureItem>>,
    primitives: Vec<Option<CompiledPrimitive>>,
    spatials: Vec<Option<CompiledSpatialNode>>,
    clips: Vec<Option<CompiledClip>>,
    picture_by_source: Vec<(RenderNodeId, usize)>,
    primitive_by_source: Vec<(RenderNodeId, usize)>,
    spatial_by_source: Vec<(RenderNodeId, usize)>,
    clip_by_source: Vec<(RenderNodeId, usize)>,
    root_picture: usize,
    root_spatial: usize,
}

/// The compiled entries a walk reached, by arena.
pub struct LiveIds {
    pictures: Vec<usize>,
    primitives: Vec<usize>,
    spatials: Vec<usize>,
    clips: Vec<usize>,
}

impl View for CompiledGraph {
    type V = GraphView;

    closed spec fn view(&self) -> GraphView {
        GraphView {
            pictures: self.pictures@,
            items: self.items@.map_values(|v: Vec<PictureItem>| v@),
            primitives: self.primitives@,
            spatials: self.spatials@,
            clips: self.clips@,
            picture_by_source: assoc_map(self.picture_by_source@),
            primitive_by_source: assoc_map(self.primitive_by_source@),
            spatial_by_source: assoc_map(self.spatial_by_source@),
            clip_by_source: assoc_map(self.clip_by_source@),
            root_picture: self.root_picture,
            root_spatial: self.root_spatial,
        }
    }
}

impl View for LiveIds {
    type V = LiveView;

    closed spec fn view(&self) -> LiveView {
        LiveView {
            pictures: self.pictures@.to_set(),
            primitives: self.primitives@.to_set(),
            spatials: self.spatials@.to_set(),
            clips: self.clips@.to_set(),
        }
    }
}

impl LiveIds {
    /// Nothing reached yet.
    pub fn new() -> (r: LiveIds)
        ensures
            r@ == (LiveView {
                pictures: Set::empty(),
                primitives: Set::empty(),
                spatials: Set::empty(),
                clips: Set::empty(),
            }),
    {
        let r = LiveIds { pictures: Vec::new(), primitives: Vec::new(), spatials: Vec::new(), clips: Vec::new() };
        proof {
            assert(r.pictures@.to_set() =~= Set::<usize>::empty());
            assert(r.primitives@.to_set() =~= Set::<usize>::empty());
            assert(r.spatials@.to_set() =~= Set::<usize>::empty());
            assert(r.clips@.to_set() =~= Set::<usize>::empty());
        }
        r
    }
}

/// The version of a node's cached content.
pub open spec fn content_of(e: RenderEpochs) -> ContentVersion {
    ContentVersion { topology: e.topology, geometry: e.geometry, paint: e.paint, dynamic: 0 }
}

/// `i` names an entry of the arena that is still there.
pub open spec fn present<T>(arena: Seq<Option<T>>, i: usize) -> bool {
    i < arena.len() && arena[i as int] is Some
}

/// The entry kept for source `id`, if the index still names one.
pub open spec fn kept<T>(by: Map<RenderNodeId, usize>, arena: Seq<Option<T>>, id: RenderNodeId) -> Option<usize> {
    if by.dom().contains(id) && present(arena, by[id]) {
        Some(by[id])
    } else {
        None
    }
}

/// The graph with the compiled primitive of `id` set to `rec`: the kept entry
/// is overwritten, else a new one is added and indexed; and its id.
pub open spec fn placed_primitive(g: GraphView, id: RenderNodeId, rec: CompiledPrimitive) -> (GraphView, usize) {
    match kept(g.primitive_by_source, g.primitives, id) {
        Some(k) => (GraphView { primitives: g.primitives.update(k as int, Some(rec)), ..g }, k),
        None => (
            GraphView {
                primitives: g.primitives.push(Some(rec)),
                primitive_by_source: g.primitive_by_source.insert(id, g.primitives.len() as usize),
                ..g
            },
            g.primitives.len() as usize,
        ),
    }
}

/// The graph with the spatial node of `id` set to `rec`, and its id.
pub open spec fn placed_spatial(g: GraphView, id: RenderNodeId, rec: CompiledSpatialNode) -> (GraphView, usize) {
    match kept(g.spatial_by_source, g.spatials, id) {
        Some(k) => (GraphView { spatials: g.spatials.update(k as int, Some(rec)), ..g }, k),
        None => (
            GraphView {
                spatials: g.spatials.push(Some(rec)),
                spatial_by_source: g.spatial_by_source.insert(id, g.spatials.len() as usize),
                ..g
            },
            g.spatials.len() as usize,
        ),
    }
}

/// The graph with the compiled clip of `id` set to `rec`, and its id.
pub open spec fn placed_clip(g: GraphView, id: RenderNodeId, rec: CompiledClip) -> (GraphView, usize) {
    match kept(g.clip_by_source, g.clips, id) {
        Some(k) => (GraphView { clips: g.clips.update(k as int, Some(rec)), ..g }, k),
        None => (
            GraphView {
                clips: g.clips.push(Some(rec)),
                clip_by_source: g.clip_by_source.insert(id, g.clips.len() as usize),
                ..g
            },
            g.clips.len() as usize,
        ),
    }
}

/// The graph with the picture of `id` set to `rec` and emptied of items, and
/// its id.
pub open spec fn placed_picture(g: GraphView, id: RenderNodeId, rec: CompiledPicture) -> (GraphView, usize) {
    match kept(g.picture_by_source, g.pictures, id) {
        Some(k) => (
            GraphView {
                pictures: g.pictures.update(k as int, Some(rec)),
                items: g.items.update(k as int, Seq::empty()),
                ..g
            },
            k,
        ),
        None => (
            GraphView {
                pictures: g.pictures.push(Some(rec)),
                items: g.items.push(Seq::empty()),
                picture_by_source: g.picture_by_source.insert(id, g.pictures.len() as usize),
                ..g
            },
            g.pictures.len() as usize,
        ),
    }
}

/// A placed picture is there, as is every picture that was.
proof fn lemma_placed_picture(g: GraphView, id: RenderNodeId, rec: CompiledPicture)
    requires
        g.pictures.len() <= usize::MAX,
    ensures
        present(placed_picture(g, id, rec).0.pictures, placed_picture(g, id, rec).1),
        forall|p: usize| present(g.pictures, p) ==> #[trigger] present(placed_picture(g, id, rec).0.pictures, p),
{
}

/// The graph with `item` added last to the items of picture `p`.
pub open spec fn with_item(g: GraphView, p: usize, item: PictureItem) -> GraphView {
    GraphView { items: g.items.update(p as int, g.items[p as int].push(item)), ..g }
}

/// The result of walking the source node `id` into the graph `g` in context
/// `ctx`, with `live` the entries reached so far; `fuel` bounds the depth
/// walked (enough for any scene when it is the node count less the node's
/// depth).
///
/// A missing node is an error; an invisible node adds nothing. A group walks
/// its children in order. A primitive gets its compiled primitive (kept by
/// source, else new) in the context's spatial node and clip, is reached, and
/// is added to the context's picture. A transform gets its spatial node below
/// the context's and walks its child in it. A clip gets its compiled clip
/// below the context's and walks its child under it. A layer that needs no
/// isolation loses its picture index entry and walks its child in place. An
/// isolated layer gets its picture (emptied), is added to the context's
/// picture, and walks its child into its own picture with no clip.
pub open spec fn spec_walk(
    g: GraphView,
    live: LiveView,
    m: NodeMap,
    id: RenderNodeId,
    ctx: WalkContext,
    fuel: nat,
) -> Result<(GraphView, LiveView), SceneCompileError>
    decreases fuel, 0nat,
{
    if !m.dom().contains(id) {
        Err(SceneCompileError::Scene(SceneError::MissingNode(id)))
    } else if fuel == 0 {
        Ok((g, live))
    } else if !m[id].visible {
        Ok((g, live))
    } else {
        let n = m[id];
        let f = (fuel - 1) as nat;
        match n.kind {
            RenderNodeKind::Group(gr) => spec_walk_seq(g, live, m, gr.children@, ctx, f),
            RenderNodeKind::Primitive(p) => {
                let (g1, k) = placed_primitive(
                    g,
                    id,
                    CompiledPrimitive {
                        source: id,
                        primitive: p.primitive,
                        spatial: ctx.spatial,
                        clip: ctx.clip,
                        content_version: content_of(n.epochs),
                    },
                );
                Ok(
                    (
                        with_item(g1, ctx.picture, PictureItem::Primitive(k)),
                        LiveView { primitives: live.primitives.insert(k), ..live },
                    ),
                )
            },
            RenderNodeKind::Transform(t) => {
                let (g1, k) = placed_spatial(
                    g,
                    id,
                    CompiledSpatialNode {
                        source: id,
                        parent: Some(ctx.spatial),
                        local_transform: t.transform,
                        content_version: content_of(n.epochs),
                    },
                );
                let l1 = LiveView { spatials: live.spatials.insert(k), ..live };
                match t.child {
                    Some(c) => spec_walk(g1, l1, m, c, WalkContext { spatial: k, ..ctx }, f),
                    None => Ok((g1, l1)),
                }
            },
            RenderNodeKind::Clip(cl) => {
                let (g1, k) = placed_clip(
                    g,
                    id,
                    CompiledClip {
                        source: id,
                        parent: ctx.clip,
                        spatial: ctx.spatial,
                        clip: cl.clip,
                        content_version: content_of(n.epochs),
                    },
                );
                let l1 = LiveView { clips: live.clips.insert(k), ..live };
                match cl.child {
                    Some(c) => spec_walk(g1, l1, m, c, WalkContext { clip: Some(k), ..ctx }, f),
                    None => Ok((g1, l1)),
                }
            },
            RenderNodeKind::Layer(l) => {
                if !l.descriptor.spec_requires_isolation() {
                    let g1 = GraphView { picture_by_source: g.picture_by_source.remove(id), ..g };
                    match l.child {
                        Some(c) => spec_walk(g1, live, m, c, ctx, f),
                        None => Ok((g1, live)),
                    }
                } else {
                    let (g1, k) = placed_picture(
                        g,
                        id,
                        CompiledPicture {
                            source: id,
                            descriptor: l.descriptor,
                            placement_spatial: ctx.spatial,
                            placement_clip: ctx.clip,
                            content_version: content_of(n.epochs),
                            composite_version: n.epochs.composite,
                            is_root: false,
                        },
                    );
                    let l1 = LiveView { pictures: live.pictures.insert(k), ..live };
                    let g2 = with_item(g1, ctx.picture, PictureItem::Picture(k));
                    match l.child {
                        Some(c) => spec_walk(g2, l1, m, c, WalkContext { picture: k, clip: None, ..ctx }, f),
                        None => Ok((g2, l1)),
                    }
                }
            },
        }
    }
}

/// What walking one node does, for any graph, reached set and context (with
/// depth left to walk): a node not in the scene is missing; a hidden node
/// adds nothing. A shown primitive gets the compiled primitive of its source
/// (the one kept for it, if any), holding its primitive in the context's
/// spatial node and clip, found again by its source, reached, and drawn last
/// in the context's picture. A shown transform without a child gets the
/// spatial node of its source below the context's, with its transform,
/// found again by its source and reached. A shown isolated layer without a
/// child gets the picture of its source, placed in the context's spatial
/// node and clip, empty, found again by its source, reached, and drawn last
/// in the context's picture; a shown layer that needs no isolation and has
/// no child only loses its picture index entry.
pub proof fn law_walk_one_node(g: GraphView, live: LiveView, m: NodeMap, id: RenderNodeId, ctx: WalkContext, fuel: nat)
    requires
        fuel > 0,
        ctx.picture < g.items.len(),
        g.primitives.len() < usize::MAX,
        g.spatials.len() < usize::MAX,
        g.pictures.len() < usize::MAX,
        g.items.len() == g.pictures.len(),
    ensures
        !m.dom().contains(id) ==> spec_walk(g, live, m, id, ctx, fuel) == Err::<(GraphView, LiveView), SceneCompileError>(
            SceneCompileError::Scene(SceneError::MissingNode(id)),
        ),
        m.dom().contains(id) && !m[id].visible ==> spec_walk(g, live, m, id, ctx, fuel) == Ok::<
            (GraphView, LiveView),
            SceneCompileError,
        >((g, live)),
        m.dom().contains(id) && m[id].visible && m[id].kind is Primitive ==> ({
            let r = spec_walk(g, live, m, id, ctx, fuel);
            let g2 = r->Ok_0.0;
            let k = g2.primitive_by_source[id];
            &&& r is Ok
            &&& g2.primitive_by_source.dom().contains(id)
            &&& (kept(g.primitive_by_source, g.primitives, id) matches Some(k0) ==> k == k0)
            &&& g2.primitives[k as int] == Some(
                CompiledPrimitive {
                    source: id,
                    primitive: m[id].kind->Primitive_0.primitive,
                    spatial: ctx.spatial,
                    clip: ctx.clip,
                    content_version: content_of(m[id].epochs),
                },
            )
            &&& g2.items[ctx.picture as int] == g.items[ctx.picture as int].push(PictureItem::Primitive(k))
            &&& r->Ok_0.1.primitives.contains(k)
        }),
        m.dom().contains(id) && m[id].visible && m[id].kind is Transform && m[id].kind->Transform_0.child is None ==> ({
            let r = spec_walk(g, live, m, id, ctx, fuel);
            let g2 = r->Ok_0.0;
            let k = g2.spatial_by_source[id];
            &&& r is Ok
            &&& g2.spatial_by_source.dom().contains(id)
            &&& g2.spatials[k as int] == Some(
                CompiledSpatialNode {
                    source: id,
                    parent: Some(ctx.spatial),
                    local_transform: m[id].kind->Transform_0.transform,
                    content_version: content_of(m[id].epochs),
                },
            )
            &&& g2.items == g.items
            &&& r->Ok_0.1.spatials.contains(k)
        }),
        m.dom().contains(id) && m[id].visible && m[id].kind is Layer && m[id].kind->Layer_0.child is None
            && m[id].kind->Layer_0.descriptor.spec_requires_isolation() ==> ({
            let r = spec_walk(g, live, m, id, ctx, fuel);
            let g2 = r->Ok_0.0;
            let k = g2.picture_by_source[id];
            &&& r is Ok
            &&& g2.picture_by_source.dom().contains(id)
            &&& g2.pictures[k as int] == Some(
                CompiledPicture {
                    source: id,
                    descriptor: m[id].kind->Layer_0.descriptor,
                    placement_spatial: ctx.spatial,
                    placement_clip: ctx.clip,
                    content_version: content_of(m[id].epochs),
                    composite_version: m[id].epochs.composite,
                    is_root: false,
                },
            )
            &&& k != ctx.picture ==> g2.items[k as int] == Seq::<PictureItem>::empty()
                && g2.items[ctx.picture as int] == g.items[ctx.picture as int].push(PictureItem::Picture(k))
            &&& r->Ok_0.1.pictures.contains(k)
        }),
        m.dom().contains(id) && m[id].visible && m[id].kind is Layer && m[id].kind->Layer_0.child is None
            && !m[id].kind->Layer_0.descriptor.spec_requires_isolation() ==> spec_walk(g, live, m, id, ctx, fuel)
            == Ok::<(GraphView, LiveView), SceneCompileError>(
            (GraphView { picture_by_source: g.picture_by_source.remove(id), ..g }, live),
        ),
{
}

/// Walking the nodes `cs` one after another, stopping at the first error.
pub open spec fn spec_walk_seq(
    g: GraphView,
    live: LiveView,
    m: NodeMap,
    cs: Seq<RenderNodeId>,
    ctx: WalkContext,
    fuel: nat,
) -> Result<(GraphView, LiveView), SceneCompileError>
    decreases fuel, cs.len(),
{
    if cs.len() == 0 {
        Ok((g, live))
    } else {
        match spec_walk_seq(g, live, m, cs.drop_last(), ctx, fuel) {
            Ok((g1, l1)) => spec_walk(g1, l1, m, cs.last(), ctx, fuel),
            Err(e) => Err(e),
        }
    }
}

/// Adding an id to a list adds it to the set the list stands for.
proof fn lemma_push_set(s: Seq<usize>, k: usize)
    ensures
        s.push(k).to_set() == s.to_set().insert(k),
{
    assert forall|x: usize| s.push(k).to_set().contains(x) <==> s.to_set().insert(k).contains(x) by {
        if s.push(k).contains(x) {
            let i = choose|i: int| 0 <= i < s.push(k).len() && s.push(k)[i] == x;
            if i < s.len() {
                assert(s[i] == x);
                assert(s.contains(x));
            }
        }
        if s.contains(x) {
            let i = choose|i: int| 0 <= i < s.len() && s[i] == x;
            assert(s.push(k)[i] == x);
            assert(s.push(k).contains(x));
        }
        if x == k {
            assert(s.push(k)[s.len() as int] == k);
            assert(s.push(k).contains(x));
        }
    }
    assert(s.push(k).to_set() =~= s.to_set().insert(k));
}

/// The depth budget of a walk from `id`: the node count less its depth.
pub open spec fn walk_fuel(source: &RenderScene, id: RenderNodeId) -> nat {
    (source@.dom().len() - source.spec_depth()[id]) as nat
}

/// A walk that failed stays failed however many more nodes follow.
proof fn lemma_seq_error(
    g: GraphView,
    live: LiveView,
    m: NodeMap,
    cs: Seq<RenderNodeId>,
    ctx: WalkContext,
    fuel: nat,
    j: int,
    e: SceneCompileError,
)
    requires
        0 <= j <= cs.len(),
        spec_walk_seq(g, live, m, cs.take(j), ctx, fuel) == Err::<(GraphView, LiveView), SceneCompileError>(e),
    ensures
        spec_walk_seq(g, live, m, cs, ctx, fuel) == Err::<(GraphView, LiveView), SceneCompileError>(e),
    decreases cs.len() - j,
{
    if j < cs.len() {
        assert(cs.take(j + 1).drop_last() =~= cs.take(j));
        lemma_seq_error(g, live, m, cs, ctx, fuel, j + 1, e);
    } else {
        assert(cs.take(j) =~= cs);
    }
}

/// The ancestors of `x` up to `k` levels.
spec fn up_set(m: NodeMap, x: RenderNodeId, k: nat) -> Set<RenderNodeId>
    decreases k,
{
    if k == 0 {
        set![x]
    } else {
        match m[x].parent {
            Some(p) => up_set(m, p, (k - 1) as nat).insert(x),
            None => set![x],
        }
    }
}

proof fn lemma_up_set(m: NodeMap, d: Map<RenderNodeId, nat>, x: RenderNodeId)
    requires
        forest_wf(m, d),
        m.dom().contains(x),
    ensures
        up_set(m, x, d[x]).finite(),
        up_set(m, x, d[x]).len() == d[x] + 1,
        up_set(m, x, d[x]).subset_of(m.dom()),
        forall|y: RenderNodeId| #[trigger] up_set(m, x, d[x]).contains(y) ==> d[y] <= d[x],
    decreases d[x],
{
    assert(parent_link_ok(m, d, x));
    if d[x] > 0 {
        let p = m[x].parent.unwrap();
        lemma_up_set(m, d, p);
        assert(!up_set(m, p, d[p]).contains(x));
    }
}

/// A node's depth is below the node count.
pub proof fn lemma_depth_below_count(s: &RenderScene, x: RenderNodeId)
    requires
        s.wf(),
        s@.dom().contains(x),
    ensures
        s.spec_depth()[x] < s@.dom().len(),
{
    s.lemma_depth_forest();
    lemma_up_set(s@, s.spec_depth(), x);
    vstd::set_lib::lemma_len_subset(up_set(s@, x, s.spec_depth()[x]), s@.dom());
}

/// Where `k` is stored in an index, if it is.
fn index_find(v: &Vec<(RenderNodeId, usize)>, k: RenderNodeId) -> (r: Option<usize>)
    ensures
        r matches Some(i) ==> i < v@.len() && v@[i as int].0 == k,
        r is None ==> forall|j: int| 0 <= j < v@.len() ==> v@[j].0 != k,
{
    let mut i: usize = 0;
    while i < v.len()
        invariant
            i <= v@.len(),
            forall|j: int| 0 <= j < i ==> v@[j].0 != k,
        decreases v@.len() - i,
    {
        if v[i].0 == k {
            return Some(i);
        }
        i = i + 1;
    }
    None
}

/// The sources an index names, in its order.
fn index_keys(v: &Vec<(RenderNodeId, usize)>) -> (r: Vec<RenderNodeId>)
    requires
        keys_unique(v@),
    ensures
        forall|k: RenderNodeId| r@.contains(k) <==> #[trigger] assoc_map(v@).dom().contains(k),
{
    let mut r: Vec<RenderNodeId> = Vec::new();
    let mut i: usize = 0;
    while i < v.len()
        invariant
            i <= v@.len(),
            r@.len() == i,
            forall|j: int| 0 <= j < i ==> #[trigger] r@[j] == v@[j].0,
        decreases v@.len() - i,
    {
        r.push(v[i].0);
        i = i + 1;
    }
    proof {
        assert forall|k: RenderNodeId| r@.contains(k) <==> #[trigger] assoc_map(v@).dom().contains(k) by {
            crate::assoc::lemma_assoc_lookup(v@, k);
            if r@.contains(k) {
                let j = choose|j: int| 0 <= j < r@.len() && r@[j] == k;
                assert(v@[j].0 == k);
            } else {
                assert forall|j: int| 0 <= j < v@.len() implies v@[j].0 != k by {
                    assert(r@[j] == v@[j].0);
                }
            }
        }
    }
    r
}

/// The compiled id an index stores for `k`.
fn index_get(v: &Vec<(RenderNodeId, usize)>, k: RenderNodeId) -> (r: Option<usize>)
    requires
        keys_unique(v@),
    ensures
        r == assoc_map(v@).get(k),
{
    match index_find(v, k) {
        Some(i) => {
            proof {
                lemma_assoc_at(v@, i as int);
            }
            Some(v[i].1)
        },
        None => {
            proof {
                lemma_assoc_absent(v@, k);
            }
            None
        },
    }
}

/// Stores `x` for `k` in an index.
fn index_put(v: &mut Vec<(RenderNodeId, usize)>, k: RenderNodeId, x: usize)
    requires
        keys_unique(old(v)@),
    ensures
        keys_unique(final(v)@),
        assoc_map(final(v)@) == assoc_map(old(v)@).insert(k, x),
{
    match index_find(v, k) {
        Some(i) => {
            proof {
                lemma_assoc_update(v@, i as int, x);
            }
            v.set(i, (k, x));
        },
        None => {
            proof {
                lemma_assoc_push(v@, k, x);
            }
            v.push((k, x));
        },
    }
}

/// Removes `k` from an index.
fn index_remove(v: &mut Vec<(RenderNodeId, usize)>, k: RenderNodeId)
    requires
        keys_unique(old(v)@),
    ensures
        keys_unique(final(v)@),
        assoc_map(final(v)@) == assoc_map(old(v)@).remove(k),
{
    match index_find(v, k) {
        Some(i) => {
            proof {
                lemma_assoc_remove(v@, i as int);
                lemma_assoc_at(v@, i as int);
            }
            v.remove(i);
        },
        None => {
            proof {
                lemma_assoc_absent(v@, k);
                assert(assoc_map(v@).remove(k) =~= assoc_map(v@));
            }
        },
    }
}

/// The entry kept for `k`, if the index names one still in the arena.
fn kept_entry<T>(by: &Vec<(RenderNodeId, usize)>, arena: &Vec<Option<T>>, k: RenderNodeId) -> (r: Option<usize>)
    requires
        keys_unique(by@),
    ensures
        r == kept(assoc_map(by@), arena@, k),
{
    match index_get(by, k) {
        Some(i) => {
            if i < arena.len() && arena[i].is_some() {
                Some(i)
            } else {
                None
            }
        },
        None => None,
    }
}

impl CompiledGraph {
    pub closed spec fn wf(&self) -> bool {
        &&& self.items@.len() == self.pictures@.len()
        &&& keys_unique(self.picture_by_source@)
        &&& keys_unique(self.primitive_by_source@)
        &&& keys_unique(self.spatial_by_source@)
        &&& keys_unique(self.clip_by_source@)
    }

    fn place_primitive(&mut self, id: RenderNodeId, rec: CompiledPrimitive) -> (k: usize)
        requires
            old(self).wf(),
        ensures
            final(self).wf(),
            (final(self)@, k) == placed_primitive(old(self)@, id, rec),
    {
        let ghost g = self@;
        match kept_entry(&self.primitive_by_source, &self.primitives, id) {
            Some(k) => {
                self.primitives.set(k, Some(rec));
                proof {
                    assert(self@.items =~= g.items);
                }
                k
            },
            None => {
                let k = self.primitives.len();
                self.primitives.push(Some(rec));
                index_put(&mut self.primitive_by_source, id, k);
                proof {
                    assert(self@.items =~= g.items);
                }
                k
            },
        }
    }

    fn place_spatial(&mut self, id: RenderNodeId, rec: CompiledSpatialNode) -> (k: usize)
        requires
            old(self).wf(),
        ensures
            final(self).wf(),
            (final(self)@, k) == placed_spatial(old(self)@, id, rec),
    {
        let ghost g = self@;
        match kept_entry(&self.spatial_by_source, &self.spatials, id) {
            Some(k) => {
                self.spatials.set(k, Some(rec));
                proof {
                    assert(self@.items =~= g.items);
                }
                k
            },
            None => {
                let k = self.spatials.len();
                self.spatials.push(Some(rec));
                index_put(&mut self.spatial_by_source, id, k);
                proof {
                    assert(self@.items =~= g.items);
                }
                k
            },
        }
    }

    fn place_clip(&mut self, id: RenderNodeId, rec: CompiledClip) -> (k: usize)
        requires
            old(self).wf(),
        ensures
            final(self).wf(),
            (final(self)@, k) == placed_clip(old(self)@, id, rec),
    {
        let ghost g = self@;
        match kept_entry(&self.clip_by_source, &self.clips, id) {
            Some(k) => {
                self.clips.set(k, Some(rec));
                proof {
                    assert(self@.items =~= g.items);
                }
                k
            },
            None => {
                let k = self.clips.len();
                self.clips.push(Some(rec));
                index_put(&mut self.clip_by_source, id, k);
                proof {
                    assert(self@.items =~= g.items);
                }
                k
            },
        }
    }

    fn place_picture(&mut self, id: RenderNodeId, rec: CompiledPicture) -> (k: usize)
        requires
            old(self).wf(),
        ensures
            final(self).wf(),
            (final(self)@, k) == placed_picture(old(self)@, id, rec),
    {
        let ghost g = self@;
        match kept_entry(&self.picture_by_source, &self.pictures, id) {
            Some(k) => {
                self.pictures.set(k, Some(rec));
                self.items.set(k, Vec::new());
                proof {
                    assert(self@.items =~= g.items.update(k as int, Seq::empty()));
                }
                k
            },
            None => {
                let k = self.pictures.len();
                self.pictures.push(Some(rec));
                self.items.push(Vec::new());
                index_put(&mut self.picture_by_source, id, k);
                proof {
                    assert(self@.items =~= g.items.push(Seq::empty()));
                }
                k
            },
        }
    }

    fn add_item(&mut self, p: usize, item: PictureItem)
        requires
            old(self).wf(),
            p < old(self)@.pictures.len(),
        ensures
            final(self).wf(),
            final(self)@ == with_item(old(self)@, p, item),
    {
        let ghost g = self@;
        self.items[p].push(item);
        proof {
            assert(self@.items =~= g.items.update(p as int, g.items[p as int].push(item)));
        }
    }

    fn forget_picture(&mut self, id: RenderNodeId)
        requires
            old(self).wf(),
        ensures
            final(self).wf(),
            final(self)@ == (GraphView { picture_by_source: old(self)@.picture_by_source.remove(id), ..old(self)@ }),
    {
        let ghost g = self@;
        index_remove(&mut self.picture_by_source, id);
        proof {
            assert(self@.items =~= g.items);
        }
    }

    /// The walk of one node, with its depth budget.
    fn walk(
        &mut self,
        source: &RenderScene,
        id: RenderNodeId,
        ctx: WalkContext,
        live: &mut LiveIds,
        Ghost(fuel): Ghost<nat>,
    ) -> (r: Result<(), SceneCompileError>)
        requires
            old(self).wf(),
            source.wf(),
            present(old(self)@.pictures, ctx.picture),
            source@.dom().contains(id) ==> fuel == walk_fuel(source, id),
        ensures
            final(self).wf(),
            forall|p: usize| present(old(self)@.pictures, p) ==> #[trigger] present(final(self)@.pictures, p),
            forall|p: usize| present(old(self)@.spatials, p) ==> #[trigger] present(final(self)@.spatials, p),
            old(live)@.pictures.subset_of(final(live)@.pictures),
            old(live)@.spatials.subset_of(final(live)@.spatials),
            final(self)@.root_picture == old(self)@.root_picture,
            final(self)@.root_spatial == old(self)@.root_spatial,
            final(self)@.pictures.len() >= old(self)@.pictures.len(),
            final(self)@.spatials.len() >= old(self)@.spatials.len(),
            match spec_walk(old(self)@, old(live)@, source@, id, ctx, fuel) {
                Ok((g, l)) => r is Ok && final(self)@ == g && final(live)@ == l,
                Err(e) => r == Err::<(), SceneCompileError>(e),
            },
        decreases fuel,
    {
        let ghost g0 = self@;
        let ghost l0 = live@;
        let ghost m = source@;
        let node = match source.node(id) {
            Some(n) => n,
            None => {
                return Err(SceneCompileError::Scene(SceneError::MissingNode(id)));
            },
        };
        proof {
            lemma_depth_below_count(source, id);
            source.lemma_depth_forest();
        }
        if !node.visible {
            return Ok(());
        }
        let version = node.epochs.content_version();
        match &node.kind {
            RenderNodeKind::Group(gr) => {
                let children = &gr.children;
                let ghost f = (fuel - 1) as nat;
                let mut i: usize = 0;
                proof {
                    assert(children@.take(0) =~= Seq::<RenderNodeId>::empty());
                    assert(crate::scene_spec::child_links_ok(m, id));
                    assert(spec_walk(g0, l0, m, id, ctx, fuel) == spec_walk_seq(g0, l0, m, gr.children@, ctx, f));
                }
                while i < children.len()
                    invariant
                        i <= children@.len(),
                        self.wf(),
                        source.wf(),
                        g0 == old(self)@,
                        l0 == old(live)@,
                        m == source@,
                        m.dom().contains(id),
                        m[id].kind == RenderNodeKind::Group(*gr),
                        children@ == m[id].spec_children(),
                        fuel == walk_fuel(source, id),
                        f == (fuel - 1) as nat,
                        fuel >= 1,
                        source.spec_depth()[id] < m.dom().len(),
                        m[id].visible,
                        spec_walk(g0, l0, m, id, ctx, fuel) == spec_walk_seq(g0, l0, m, children@, ctx, f),
                        crate::scene_spec::child_links_ok(m, id),
                        forest_wf(m, source.spec_depth()),
                        present(self@.pictures, ctx.picture),
                        forall|p: usize| present(g0.pictures, p) ==> #[trigger] present(self@.pictures, p),
                        forall|p: usize| present(g0.spatials, p) ==> #[trigger] present(self@.spatials, p),
                        l0.pictures.subset_of(live@.pictures),
                        l0.spatials.subset_of(live@.spatials),
                        self@.root_picture == g0.root_picture,
                        self@.root_spatial == g0.root_spatial,
                        self@.pictures.len() >= g0.pictures.len(),
                        self@.spatials.len() >= g0.spatials.len(),
                        spec_walk_seq(g0, l0, m, children@.take(i as int), ctx, f) == Ok::<
                            (GraphView, LiveView),
                            SceneCompileError,
                        >((self@, live@)),
                    decreases children@.len() - i,
                {
                    let c = children[i];
                    let ghost gi = self@;
                    let ghost li = live@;
                    proof {
                        assert(children@[i as int] == c);
                        assert(m.dom().contains(c) && m[c].parent == Some(id));
                        assert(parent_link_ok(m, source.spec_depth(), c));
                        assert(children@.take(i as int + 1).drop_last() =~= children@.take(i as int));
                        assert(children@.take(i as int + 1).last() == c);
                    }
                    let res = self.walk(source, c, ctx, live, Ghost(f));
                    match res {
                        Err(e) => {
                            proof {
                                assert(spec_walk(gi, li, m, c, ctx, f) == Err::<(GraphView, LiveView), SceneCompileError>(e));
                                assert(spec_walk_seq(g0, l0, m, children@.take(i as int + 1), ctx, f) == Err::<
                                    (GraphView, LiveView),
                                    SceneCompileError,
                                >(e));
                                lemma_seq_error(g0, l0, m, children@, ctx, f, i as int + 1, e);
                                assert(spec_walk(g0, l0, m, id, ctx, fuel) == Err::<(GraphView, LiveView), SceneCompileError>(e));
                                assert forall|p: usize| present(g0.pictures, p) implies #[trigger] present(self@.pictures, p) by {
                                    assert(present(gi.pictures, p));
                                }
                                assert forall|p: usize| present(g0.spatials, p) implies #[trigger] present(self@.spatials, p) by {
                                    assert(present(gi.spatials, p));
                                }
                            }
                            return Err(e);
                        },
                        Ok(()) => {},
                    }
                    i = i + 1;
                }
                proof {
                    assert(children@.take(i as int) =~= children@);
                }
                Ok(())
            },
            RenderNodeKind::Primitive(p) => {
                let k = self.place_primitive(
                    id,
                    CompiledPrimitive {
                        source: id,
                        primitive: p.primitive,
                        spatial: ctx.spatial,
                        clip: ctx.clip,
                        content_version: version,
                    },
                );
                proof {
                    lemma_push_set(live.primitives@, k);
                }
                live.primitives.push(k);
                self.add_item(ctx.picture, PictureItem::Primitive(k));
                proof {
                    assert(live@.primitives =~= l0.primitives.insert(k));
                    assert(live@.pictures =~= l0.pictures);
                    assert(live@.spatials =~= l0.spatials);
                    assert(live@.clips =~= l0.clips);
                }
                Ok(())
            },
            RenderNodeKind::Transform(t) => {
                let k = self.place_spatial(
                    id,
                    CompiledSpatialNode {
                        source: id,
                        parent: Some(ctx.spatial),
                        local_transform: t.transform,
                        content_version: version,
                    },
                );
                proof {
                    lemma_push_set(live.spatials@, k);
                }
                live.spatials.push(k);
                proof {
                    assert(live@.spatials =~= l0.spatials.insert(k));
                    assert(live@.pictures =~= l0.pictures);
                    assert(live@.primitives =~= l0.primitives);
                    assert(live@.clips =~= l0.clips);
                }
                match t.child {
                    Some(c) => {
                        proof {
                            assert(crate::scene_spec::child_links_ok(m, id));
                            assert(m[id].spec_children()[0] == c);
                            assert(parent_link_ok(m, source.spec_depth(), c));
                        }
                        self.walk(source, c, WalkContext { spatial: k, ..ctx }, live, Ghost((fuel - 1) as nat))
                    },
                    None => Ok(()),
                }
            },
            RenderNodeKind::Clip(cl) => {
                let k = self.place_clip(
                    id,
                    CompiledClip {
                        source: id,
                        parent: ctx.clip,
                        spatial: ctx.spatial,
                        clip: cl.clip,
                        content_version: version,
                    },
                );
                proof {
                    lemma_push_set(live.clips@, k);
                }
                live.clips.push(k);
                proof {
                    assert(live@.clips =~= l0.clips.insert(k));
                    assert(live@.pictures =~= l0.pictures);
                    assert(live@.primitives =~= l0.primitives);
                    assert(live@.spatials =~= l0.spatials);
                }
                match cl.child {
                    Some(c) => {
                        proof {
                            assert(crate::scene_spec::child_links_ok(m, id));
                            assert(m[id].spec_children()[0] == c);
                            assert(parent_link_ok(m, source.spec_depth(), c));
                        }
                        self.walk(source, c, WalkContext { clip: Some(k), ..ctx }, live, Ghost((fuel - 1) as nat))
                    },
                    None => Ok(()),
                }
            },
            RenderNodeKind::Layer(l) => {
                if !l.descriptor.requires_isolation() {
                    self.forget_picture(id);
                    match l.child {
                        Some(c) => {
                            proof {
                                assert(crate::scene_spec::child_links_ok(m, id));
                                assert(m[id].spec_children()[0] == c);
                                assert(parent_link_ok(m, source.spec_depth(), c));
                            }
                            self.walk(source, c, ctx, live, Ghost((fuel - 1) as nat))
                        },
                        None => Ok(()),
                    }
                } else {
                    let count = self.pictures.len();
                    let k = self.place_picture(
                        id,
                        CompiledPicture {
                            source: id,
                            descriptor: l.descriptor,
                            placement_spatial: ctx.spatial,
                            placement_clip: ctx.clip,
                            content_version: version,
                            composite_version: node.epochs.composite,
                            is_root: false,
                        },
                    );
                    proof {
                    lemma_push_set(live.pictures@, k);
                }
                live.pictures.push(k);
                    proof {
                        assert(live@.pictures =~= l0.pictures.insert(k));
                        assert(live@.primitives =~= l0.primitives);
                        assert(live@.spatials =~= l0.spatials);
                        assert(live@.clips =~= l0.clips);
                    }
                    proof {
                        lemma_placed_picture(g0, id, CompiledPicture {
                            source: id,
                            descriptor: l.descriptor,
                            placement_spatial: ctx.spatial,
                            placement_clip: ctx.clip,
                            content_version: version,
                            composite_version: node.epochs.composite,
                            is_root: false,
                        });
                    }
                    self.add_item(ctx.picture, PictureItem::Picture(k));
                    match l.child {
                        Some(c) => {
                            proof {
                                assert(crate::scene_spec::child_links_ok(m, id));
                                assert(m[id].spec_children()[0] == c);
                                assert(parent_link_ok(m, source.spec_depth(), c));
                            }
                            self.walk(
                                source,
                                c,
                                WalkContext { picture: k, clip: None, ..ctx },
                                live,
                                Ghost((fuel - 1) as nat),
                            )
                        },
                        None => Ok(()),
                    }
                }
            },
        }
    }
}

/// Walks the source node `id` into the compiled graph in context `ctx`,
/// marking in `live` every compiled entry it reaches (see `spec_walk`).
pub fn walk_node(
    compiled: &mut CompiledGraph,
    source: &RenderScene,
    id: RenderNodeId,
    ctx: WalkContext,
    live: &mut LiveIds,
) -> (r: Result<(), SceneCompileError>)
    requires
        old(compiled).wf(),
        source.wf(),
        present(old(compiled)@.pictures, ctx.picture),
    ensures
        final(compiled).wf(),
        forall|p: usize| present(old(compiled)@.pictures, p) ==> #[trigger] present(final(compiled)@.pictures, p),
        forall|p: usize| present(old(compiled)@.spatials, p) ==> #[trigger] present(final(compiled)@.spatials, p),
        old(live)@.pictures.subset_of(final(live)@.pictures),
        old(live)@.spatials.subset_of(final(live)@.spatials),
        final(compiled)@.root_picture == old(compiled)@.root_picture,
        final(compiled)@.root_spatial == old(compiled)@.root_spatial,
        final(compiled)@.pictures.len() >= old(compiled)@.pictures.len(),
        final(compiled)@.spatials.len() >= old(compiled)@.spatials.len(),
        !source@.dom().contains(id) ==> r == Err::<(), SceneCompileError>(
            SceneCompileError::Scene(SceneError::MissingNode(id)),
        ),
        match spec_walk(old(compiled)@, old(live)@, source@, id, ctx, walk_fuel(source, id)) {
            Ok((g, l)) => r is Ok && final(compiled)@ == g && final(live)@ == l,
            Err(e) => r == Err::<(), SceneCompileError>(e),
        },
{
    compiled.walk(source, id, ctx, live, Ghost(walk_fuel(source, id)))
}

/// The default descriptor of the root picture.
pub open spec fn root_descriptor() -> LayerDescriptor {
    LayerDescriptor {
        bounds: None,
        cache_key: None,
        cache_policy: CachePolicy::Disabled,
        composite: default_composite(),
        backdrop_style: None,
        backdrop_isolation: BackdropIsolation::Passthrough,
        effects: no_effects(),
        force_offscreen: false,
    }
}

/// The spatial node of the scene's root: no parent, identity transform.
pub open spec fn root_spatial_record(root: RenderNodeId) -> CompiledSpatialNode {
    CompiledSpatialNode {
        source: root,
        parent: None,
        local_transform: identity_transform(),
        content_version: ContentVersion { topology: 0, geometry: 0, paint: 0, dynamic: 0 },
    }
}

/// The root picture, placed in the root spatial node with no clip.
pub open spec fn root_picture_record(root: RenderNodeId, spatial: usize, v: ContentVersion, composite: u64) -> CompiledPicture {
    CompiledPicture {
        source: root,
        descriptor: root_descriptor(),
        placement_spatial: spatial,
        placement_clip: None,
        content_version: v,
        composite_version: composite,
        is_root: true,
    }
}

/// The graph keeping only what `live` reached: every other entry is
/// dropped, with its index entries.
pub open spec fn retained(g: GraphView, l: LiveView) -> GraphView {
    GraphView {
        pictures: Seq::new(
            g.pictures.len(),
            |i: int| if l.pictures.contains(i as usize) { g.pictures[i] } else { None },
        ),
        items: Seq::new(
            g.items.len(),
            |i: int| if l.pictures.contains(i as usize) { g.items[i] } else { Seq::empty() },
        ),
        primitives: Seq::new(
            g.primitives.len(),
            |i: int| if l.primitives.contains(i as usize) { g.primitives[i] } else { None },
        ),
        spatials: Seq::new(
            g.spatials.len(),
            |i: int| if l.spatials.contains(i as usize) { g.spatials[i] } else { None },
        ),
        clips: Seq::new(g.clips.len(), |i: int| if l.clips.contains(i as usize) { g.clips[i] } else { None }),
        picture_by_source: g.picture_by_source.restrict(
            g.picture_by_source.dom().filter(|k: RenderNodeId| l.pictures.contains(g.picture_by_source[k])),
        ),
        primitive_by_source: g.primitive_by_source.restrict(
            g.primitive_by_source.dom().filter(|k: RenderNodeId| l.primitives.contains(g.primitive_by_source[k])),
        ),
        spatial_by_source: g.spatial_by_source.restrict(
            g.spatial_by_source.dom().filter(|k: RenderNodeId| l.spatials.contains(g.spatial_by_source[k])),
        ),
        clip_by_source: g.clip_by_source.restrict(
            g.clip_by_source.dom().filter(|k: RenderNodeId| l.clips.contains(g.clip_by_source[k])),
        ),
        ..g
    }
}

/// A full rebuild: a missing scene root is an error; otherwise the root
/// spatial node and the root picture are reset (the picture emptied and
/// indexed by the root), the scene is walked from its root into the root
/// picture with only the two root entries reached so far, and what the walk
/// did not reach is dropped.
pub open spec fn spec_rebuild(g: GraphView, source: &RenderScene) -> Result<GraphView, SceneCompileError> {
    let m = source@;
    let root = source.spec_root();
    if !m.dom().contains(root) {
        Err(SceneCompileError::Scene(SceneError::MissingNode(root)))
    } else {
        let g1 = GraphView {
            spatials: g.spatials.update(g.root_spatial as int, Some(root_spatial_record(root))),
            pictures: g.pictures.update(
                g.root_picture as int,
                Some(root_picture_record(root, g.root_spatial, content_of(m[root].epochs), m[root].epochs.composite)),
            ),
            items: g.items.update(g.root_picture as int, Seq::empty()),
            picture_by_source: g.picture_by_source.insert(root, g.root_picture),
            ..g
        };
        let l0 = LiveView {
            pictures: set![g.root_picture],
            primitives: Set::empty(),
            spatials: set![g.root_spatial],
            clips: Set::empty(),
        };
        match spec_walk(
            g1,
            l0,
            m,
            root,
            WalkContext { picture: g.root_picture, spatial: g.root_spatial, clip: None },
            walk_fuel(source, root),
        ) {
            Ok((g2, l2)) => Ok(retained(g2, l2)),
            Err(e) => Err(e),
        }
    }
}

/// What a change that keeps the structure does to the graph: a missing
/// node is an error. A group changes nothing. A primitive, transform or clip
/// without its compiled entry is an error; a primitive whose geometry or
/// paint changed takes its new primitive and content version, a transform
/// whose geometry changed its new transform and version, a clip whose clip
/// or geometry changed its new clip and version. An indexed layer takes its
/// descriptor, content and composite versions, and is an error when its
/// picture is gone; an unindexed layer changes nothing.
pub open spec fn spec_update_one(g: GraphView, m: NodeMap, id: RenderNodeId, dirty: RenderDirty) -> Result<
    GraphView,
    SceneCompileError,
> {
    let missing = Err(SceneCompileError::Scene(SceneError::MissingNode(id)));
    if !m.dom().contains(id) {
        missing
    } else {
        let n = m[id];
        let v = content_of(n.epochs);
        match n.kind {
            RenderNodeKind::Group(_) => Ok(g),
            RenderNodeKind::Primitive(p) => match kept(g.primitive_by_source, g.primitives, id) {
                None => missing,
                Some(k) => if dirty.bits & 6 != 0 {
                    Ok(
                        GraphView {
                            primitives: g.primitives.update(
                                k as int,
                                Some(CompiledPrimitive { primitive: p.primitive, content_version: v, ..g.primitives[k as int]->0 }),
                            ),
                            ..g
                        },
                    )
                } else {
                    Ok(g)
                },
            },
            RenderNodeKind::Transform(t) => match kept(g.spatial_by_source, g.spatials, id) {
                None => missing,
                Some(k) => if dirty.bits & 2 != 0 {
                    Ok(
                        GraphView {
                            spatials: g.spatials.update(
                                k as int,
                                Some(CompiledSpatialNode { local_transform: t.transform, content_version: v, ..g.spatials[k as int]->0 }),
                            ),
                            ..g
                        },
                    )
                } else {
                    Ok(g)
                },
            },
            RenderNodeKind::Clip(c) => match kept(g.clip_by_source, g.clips, id) {
                None => missing,
                Some(k) => if dirty.bits & 10 != 0 {
                    Ok(
                        GraphView {
                            clips: g.clips.update(
                                k as int,
                                Some(CompiledClip { clip: c.clip, content_version: v, ..g.clips[k as int]->0 }),
                            ),
                            ..g
                        },
                    )
                } else {
                    Ok(g)
                },
            },
            RenderNodeKind::Layer(l) => if !g.picture_by_source.dom().contains(id) {
                Ok(g)
            } else if !present(g.pictures, g.picture_by_source[id]) {
                missing
            } else {
                let k = g.picture_by_source[id];
                Ok(
                    GraphView {
                        pictures: g.pictures.update(
                            k as int,
                            Some(
                                CompiledPicture {
                                    descriptor: l.descriptor,
                                    content_version: v,
                                    composite_version: n.epochs.composite,
                                    ..g.pictures[k as int]->0
                                },
                            ),
                        ),
                        ..g
                    },
                )
            },
        }
    }
}

/// An in-place update of a compiled primitive, for any graph and change:
/// it succeeds; when the change carries geometry (2) or paint (4), the
/// compiled primitive becomes the source's primitive with the node's
/// content version, keeping its source, spatial node and clip; otherwise
/// nothing changes. No other entry, index or item list changes.
pub proof fn law_update_primitive(g: GraphView, m: NodeMap, id: RenderNodeId, dirty: RenderDirty, k: usize)
    requires
        m.dom().contains(id),
        m[id].kind is Primitive,
        kept(g.primitive_by_source, g.primitives, id) == Some(k),
    ensures
        ({
            let r = spec_update_one(g, m, id, dirty);
            let old = g.primitives[k as int]->0;
            &&& r is Ok
            &&& (dirty.bits & 2 != 0 || dirty.bits & 4 != 0) ==> r->Ok_0.primitives[k as int] == Some(
                CompiledPrimitive {
                    source: old.source,
                    primitive: m[id].kind->Primitive_0.primitive,
                    spatial: old.spatial,
                    clip: old.clip,
                    content_version: ContentVersion {
                        topology: m[id].epochs.topology,
                        geometry: m[id].epochs.geometry,
                        paint: m[id].epochs.paint,
                        dynamic: 0,
                    },
                },
            )
            &&& dirty.bits & 2 == 0 && dirty.bits & 4 == 0 ==> r->Ok_0 == g
            &&& r->Ok_0.primitives.len() == g.primitives.len()
            &&& forall|j: int| 0 <= j < g.primitives.len() && j != k ==> r->Ok_0.primitives[j] == g.primitives[j]
            &&& r->Ok_0.pictures == g.pictures && r->Ok_0.spatials == g.spatials && r->Ok_0.clips == g.clips
            &&& r->Ok_0.items == g.items && r->Ok_0.primitive_by_source == g.primitive_by_source
        }),
{
    let b = dirty.bits;
    assert((b & 2 != 0 || b & 4 != 0) <==> b & 6 != 0) by (bit_vector);
}

/// An in-place update of a compiled transform: it succeeds; when the change
/// carries geometry (2) the spatial node takes the source's transform and
/// the node's content version, keeping its source and parent; otherwise
/// nothing changes. Nothing else changes.
pub proof fn law_update_transform(g: GraphView, m: NodeMap, id: RenderNodeId, dirty: RenderDirty, k: usize)
    requires
        m.dom().contains(id),
        m[id].kind is Transform,
        kept(g.spatial_by_source, g.spatials, id) == Some(k),
    ensures
        ({
            let r = spec_update_one(g, m, id, dirty);
            let old = g.spatials[k as int]->0;
            &&& r is Ok
            &&& dirty.bits & 2 != 0 ==> r->Ok_0.spatials[k as int] == Some(
                CompiledSpatialNode {
                    source: old.source,
                    parent: old.parent,
                    local_transform: m[id].kind->Transform_0.transform,
                    content_version: ContentVersion {
                        topology: m[id].epochs.topology,
                        geometry: m[id].epochs.geometry,
                        paint: m[id].epochs.paint,
                        dynamic: 0,
                    },
                },
            )
            &&& dirty.bits & 2 == 0 ==> r->Ok_0 == g
            &&& r->Ok_0.spatials.len() == g.spatials.len()
            &&& forall|j: int| 0 <= j < g.spatials.len() && j != k ==> r->Ok_0.spatials[j] == g.spatials[j]
            &&& r->Ok_0.pictures == g.pictures && r->Ok_0.primitives == g.primitives && r->Ok_0.clips == g.clips
        }),
{
}

/// An in-place update of a compiled clip: it succeeds; when the change
/// carries geometry (2) or clip (8) the compiled clip takes the source's
/// clip shape and the node's content version, keeping its source, parent and
/// spatial node; otherwise nothing changes. Nothing else changes.
pub proof fn law_update_clip(g: GraphView, m: NodeMap, id: RenderNodeId, dirty: RenderDirty, k: usize)
    requires
        m.dom().contains(id),
        m[id].kind is Clip,
        kept(g.clip_by_source, g.clips, id) == Some(k),
    ensures
        ({
            let r = spec_update_one(g, m, id, dirty);
            let old = g.clips[k as int]->0;
            &&& r is Ok
            &&& (dirty.bits & 2 != 0 || dirty.bits & 8 != 0) ==> r->Ok_0.clips[k as int] == Some(
                CompiledClip {
                    source: old.source,
                    parent: old.parent,
                    spatial: old.spatial,
                    clip: m[id].kind->Clip_0.clip,
                    content_version: ContentVersion {
                        topology: m[id].epochs.topology,
                        geometry: m[id].epochs.geometry,
                        paint: m[id].epochs.paint,
                        dynamic: 0,
                    },
                },
            )
            &&& dirty.bits & 2 == 0 && dirty.bits & 8 == 0 ==> r->Ok_0 == g
            &&& forall|j: int| 0 <= j < g.clips.len() && j != k ==> r->Ok_0.clips[j] == g.clips[j]
            &&& r->Ok_0.pictures == g.pictures && r->Ok_0.primitives == g.primitives && r->Ok_0.spatials == g.spatials
        }),
{
    let b = dirty.bits;
    assert((b & 2 != 0 || b & 8 != 0) <==> b & 10 != 0) by (bit_vector);
}

/// An in-place update of a layer with a picture there: whatever the change,
/// the picture takes the layer's descriptor, the node's content version and
/// its composite epoch, keeping its source, placement and root mark. A
/// layer without an indexed picture changes nothing; a group never changes
/// anything; a node not in the scene, or a primitive, transform or clip
/// without its compiled entry, is a missing node.
pub proof fn law_update_layers_groups_and_missing(g: GraphView, m: NodeMap, id: RenderNodeId, dirty: RenderDirty)
    ensures
        !m.dom().contains(id) ==> spec_update_one(g, m, id, dirty) == Err::<GraphView, SceneCompileError>(
            SceneCompileError::Scene(SceneError::MissingNode(id)),
        ),
        m.dom().contains(id) && m[id].kind is Group ==> spec_update_one(g, m, id, dirty) == Ok::<
            GraphView,
            SceneCompileError,
        >(g),
        m.dom().contains(id) && (m[id].kind is Primitive && kept(g.primitive_by_source, g.primitives, id) is None
            || m[id].kind is Transform && kept(g.spatial_by_source, g.spatials, id) is None || m[id].kind is Clip
            && kept(g.clip_by_source, g.clips, id) is None) ==> spec_update_one(g, m, id, dirty) == Err::<
            GraphView,
            SceneCompileError,
        >(SceneCompileError::Scene(SceneError::MissingNode(id))),
        m.dom().contains(id) && m[id].kind is Layer && !g.picture_by_source.dom().contains(id) ==> spec_update_one(
            g,
            m,
            id,
            dirty,
        ) == Ok::<GraphView, SceneCompileError>(g),
        m.dom().contains(id) && m[id].kind is Layer && g.picture_by_source.dom().contains(id) && present(
            g.pictures,
            g.picture_by_source[id],
        ) ==> ({
            let k = g.picture_by_source[id];
            let old = g.pictures[k as int]->0;
            &&& spec_update_one(g, m, id, dirty) is Ok
            &&& spec_update_one(g, m, id, dirty)->Ok_0.pictures[k as int] == Some(
                CompiledPicture {
                    source: old.source,
                    descriptor: m[id].kind->Layer_0.descriptor,
                    placement_spatial: old.placement_spatial,
                    placement_clip: old.placement_clip,
                    content_version: ContentVersion {
                        topology: m[id].epochs.topology,
                        geometry: m[id].epochs.geometry,
                        paint: m[id].epochs.paint,
                        dynamic: 0,
                    },
                    composite_version: m[id].epochs.composite,
                    is_root: old.is_root,
                },
            )
        }),
{
}

/// Applying the changes one after another, stopping at the first error.
pub open spec fn spec_updates(g: GraphView, m: NodeMap, changed: Seq<(RenderNodeId, RenderDirty)>) -> Result<
    GraphView,
    SceneCompileError,
>
    decreases changed.len(),
{
    if changed.len() == 0 {
        Ok(g)
    } else {
        match spec_updates(g, m, changed.drop_last()) {
            Ok(g1) => spec_update_one(g1, m, changed.last().0, changed.last().1),
            Err(e) => Err(e),
        }
    }
}

proof fn lemma_updates_error(
    g: GraphView,
    m: NodeMap,
    cs: Seq<(RenderNodeId, RenderDirty)>,
    j: int,
    e: SceneCompileError,
)
    requires
        0 <= j <= cs.len(),
        spec_updates(g, m, cs.take(j)) == Err::<GraphView, SceneCompileError>(e),
    ensures
        spec_updates(g, m, cs) == Err::<GraphView, SceneCompileError>(e),
    decreases cs.len() - j,
{
    if j < cs.len() {
        assert(cs.take(j + 1).drop_last() =~= cs.take(j));
        lemma_updates_error(g, m, cs, j + 1, e);
    } else {
        assert(cs.take(j) =~= cs);
    }
}

/// Every primitive, spatial node and clip that `a` keeps for a source is
/// kept for it, under the same id, in `b`.
pub open spec fn keeps_ids(a: GraphView, b: GraphView) -> bool {
    &&& forall|s: RenderNodeId|
        #[trigger] kept(a.primitive_by_source, a.primitives, s) is Some ==> kept(b.primitive_by_source, b.primitives, s)
            == kept(a.primitive_by_source, a.primitives, s)
    &&& forall|s: RenderNodeId|
        #[trigger] kept(a.spatial_by_source, a.spatials, s) is Some ==> kept(b.spatial_by_source, b.spatials, s)
            == kept(a.spatial_by_source, a.spatials, s)
    &&& forall|s: RenderNodeId|
        #[trigger] kept(a.clip_by_source, a.clips, s) is Some ==> kept(b.clip_by_source, b.clips, s) == kept(
            a.clip_by_source,
            a.clips,
            s,
        )
}

proof fn lemma_keeps_trans(a: GraphView, b: GraphView, c: GraphView)
    requires
        keeps_ids(a, b),
        keeps_ids(b, c),
    ensures
        keeps_ids(a, c),
{
}

proof fn lemma_walk_keeps(g: GraphView, live: LiveView, m: NodeMap, id: RenderNodeId, ctx: WalkContext, fuel: nat)
    requires
        spec_walk(g, live, m, id, ctx, fuel) is Ok,
    ensures
        keeps_ids(g, spec_walk(g, live, m, id, ctx, fuel)->Ok_0.0),
    decreases fuel, 0nat,
{
    if m.dom().contains(id) && fuel > 0 && m[id].visible {
        let n = m[id];
        let f = (fuel - 1) as nat;
        match n.kind {
            RenderNodeKind::Group(gr) => {
                lemma_walk_seq_keeps(g, live, m, gr.children@, ctx, f);
            },
            RenderNodeKind::Primitive(p) => {},
            RenderNodeKind::Transform(t) => {
                let rec = CompiledSpatialNode {
                    source: id,
                    parent: Some(ctx.spatial),
                    local_transform: t.transform,
                    content_version: content_of(n.epochs),
                };
                let (g1, k) = placed_spatial(g, id, rec);
                let l1 = LiveView { spatials: live.spatials.insert(k), ..live };
                assert(keeps_ids(g, g1));
                if let Some(c) = t.child {
                    lemma_walk_keeps(g1, l1, m, c, WalkContext { spatial: k, ..ctx }, f);
                    lemma_keeps_trans(g, g1, spec_walk(g1, l1, m, c, WalkContext { spatial: k, ..ctx }, f)->Ok_0.0);
                }
            },
            RenderNodeKind::Clip(cl) => {
                let rec = CompiledClip {
                    source: id,
                    parent: ctx.clip,
                    spatial: ctx.spatial,
                    clip: cl.clip,
                    content_version: content_of(n.epochs),
                };
                let (g1, k) = placed_clip(g, id, rec);
                let l1 = LiveView { clips: live.clips.insert(k), ..live };
                assert(keeps_ids(g, g1));
                if let Some(c) = cl.child {
                    lemma_walk_keeps(g1, l1, m, c, WalkContext { clip: Some(k), ..ctx }, f);
                    lemma_keeps_trans(g, g1, spec_walk(g1, l1, m, c, WalkContext { clip: Some(k), ..ctx }, f)->Ok_0.0);
                }
            },
            RenderNodeKind::Layer(l) => {
                if !l.descriptor.spec_requires_isolation() {
                    let g1 = GraphView { picture_by_source: g.picture_by_source.remove(id), ..g };
                    assert(keeps_ids(g, g1));
                    if let Some(c) = l.child {
                        lemma_walk_keeps(g1, live, m, c, ctx, f);
                        lemma_keeps_trans(g, g1, spec_walk(g1, live, m, c, ctx, f)->Ok_0.0);
                    }
                } else {
                    let rec = CompiledPicture {
                        source: id,
                        descriptor: l.descriptor,
                        placement_spatial: ctx.spatial,
                        placement_clip: ctx.clip,
                        content_version: content_of(n.epochs),
                        composite_version: n.epochs.composite,
                        is_root: false,
                    };
                    let (g1, k) = placed_picture(g, id, rec);
                    let l1 = LiveView { pictures: live.pictures.insert(k), ..live };
                    let g2 = with_item(g1, ctx.picture, PictureItem::Picture(k));
                    assert(keeps_ids(g, g2));
                    if let Some(c) = l.child {
                        let ctx2 = WalkContext { picture: k, clip: None, ..ctx };
                        lemma_walk_keeps(g2, l1, m, c, ctx2, f);
                        lemma_keeps_trans(g, g2, spec_walk(g2, l1, m, c, ctx2, f)->Ok_0.0);
                    }
                }
            },
        }
    }
}

proof fn lemma_walk_seq_keeps(
    g: GraphView,
    live: LiveView,
    m: NodeMap,
    cs: Seq<RenderNodeId>,
    ctx: WalkContext,
    fuel: nat,
)
    requires
        spec_walk_seq(g, live, m, cs, ctx, fuel) is Ok,
    ensures
        keeps_ids(g, spec_walk_seq(g, live, m, cs, ctx, fuel)->Ok_0.0),
    decreases fuel, cs.len(),
{
    if cs.len() > 0 {
        lemma_walk_seq_keeps(g, live, m, cs.drop_last(), ctx, fuel);
        let (g1, l1) = spec_walk_seq(g, live, m, cs.drop_last(), ctx, fuel)->Ok_0;
        lemma_walk_keeps(g1, l1, m, cs.last(), ctx, fuel);
        lemma_keeps_trans(g, g1, spec_walk(g1, l1, m, cs.last(), ctx, fuel)->Ok_0.0);
    }
}

/// Each compiled primitive is the one entry of its source: every entry
/// there is indexed by its source under its own id, and every indexed source
/// names an entry there whose source it is; the same for compiled clips.
pub open spec fn indexed_by_source(g: GraphView) -> bool {
    &&& forall|k: usize|
        #[trigger] present(g.primitives, k) ==> g.primitive_by_source.dom().contains(g.primitives[k as int]->0.source)
            && g.primitive_by_source[g.primitives[k as int]->0.source] == k
    &&& forall|s: RenderNodeId|
        #[trigger] g.primitive_by_source.dom().contains(s) ==> present(g.primitives, g.primitive_by_source[s])
            && g.primitives[g.primitive_by_source[s] as int]->0.source == s
    &&& forall|k: usize|
        #[trigger] present(g.clips, k) ==> g.clip_by_source.dom().contains(g.clips[k as int]->0.source)
            && g.clip_by_source[g.clips[k as int]->0.source] == k
    &&& forall|s: RenderNodeId|
        #[trigger] g.clip_by_source.dom().contains(s) ==> present(g.clips, g.clip_by_source[s])
            && g.clips[g.clip_by_source[s] as int]->0.source == s
}

/// The primitive and clip arenas of `b` are at least as long as those of `a`.
pub open spec fn grows(a: GraphView, b: GraphView) -> bool {
    a.primitives.len() <= b.primitives.len() && a.clips.len() <= b.clips.len()
}

/// Both arenas fit the machine's indexes.
pub open spec fn fits(g: GraphView) -> bool {
    g.primitives.len() <= usize::MAX && g.clips.len() <= usize::MAX
}

/// Graphs that agree on primitives and clips and their indexes.
pub open spec fn same_primitives_and_clips(a: GraphView, b: GraphView) -> bool {
    &&& a.primitives == b.primitives
    &&& a.clips == b.clips
    &&& a.primitive_by_source == b.primitive_by_source
    &&& a.clip_by_source == b.clip_by_source
}

proof fn lemma_placed_primitive_indexed(g: GraphView, id: RenderNodeId, rec: CompiledPrimitive)
    requires
        indexed_by_source(g),
        rec.source == id,
        fits(placed_primitive(g, id, rec).0),
    ensures
        indexed_by_source(placed_primitive(g, id, rec).0),
{
    let g1 = placed_primitive(g, id, rec).0;
    match kept(g.primitive_by_source, g.primitives, id) {
        Some(k) => {
            assert forall|j: usize| #[trigger] present(g1.primitives, j) implies g1.primitive_by_source.dom().contains(
                g1.primitives[j as int]->0.source,
            ) && g1.primitive_by_source[g1.primitives[j as int]->0.source] == j by {
                if j != k {
                    assert(present(g.primitives, j));
                }
            }
            assert forall|t: RenderNodeId| #[trigger] g1.primitive_by_source.dom().contains(t) implies present(
                g1.primitives,
                g1.primitive_by_source[t],
            ) && g1.primitives[g1.primitive_by_source[t] as int]->0.source == t by {
                assert(g.primitive_by_source.dom().contains(t));
            }
        },
        None => {
            let n = g.primitives.len() as usize;
            assert(!g.primitive_by_source.dom().contains(id));
            assert forall|j: usize| #[trigger] present(g1.primitives, j) implies g1.primitive_by_source.dom().contains(
                g1.primitives[j as int]->0.source,
            ) && g1.primitive_by_source[g1.primitives[j as int]->0.source] == j by {
                if j != n {
                    assert(present(g.primitives, j));
                }
            }
            assert forall|t: RenderNodeId| #[trigger] g1.primitive_by_source.dom().contains(t) implies present(
                g1.primitives,
                g1.primitive_by_source[t],
            ) && g1.primitives[g1.primitive_by_source[t] as int]->0.source == t by {
                if t != id {
                    assert(g.primitive_by_source.dom().contains(t));
                }
            }
        },
    }
}

proof fn lemma_placed_clip_indexed(g: GraphView, id: RenderNodeId, rec: CompiledClip)
    requires
        indexed_by_source(g),
        rec.source == id,
        fits(placed_clip(g, id, rec).0),
    ensures
        indexed_by_source(placed_clip(g, id, rec).0),
{
    let g1 = placed_clip(g, id, rec).0;
    match kept(g.clip_by_source, g.clips, id) {
        Some(k) => {
            assert forall|j: usize| #[trigger] present(g1.clips, j) implies g1.clip_by_source.dom().contains(
                g1.clips[j as int]->0.source,
            ) && g1.clip_by_source[g1.clips[j as int]->0.source] == j by {
                if j != k {
                    assert(present(g.clips, j));
                }
            }
            assert forall|t: RenderNodeId| #[trigger] g1.clip_by_source.dom().contains(t) implies present(
                g1.clips,
                g1.clip_by_source[t],
            ) && g1.clips[g1.clip_by_source[t] as int]->0.source == t by {
                assert(g.clip_by_source.dom().contains(t));
            }
        },
        None => {
            let n = g.clips.len() as usize;
            assert(!g.clip_by_source.dom().contains(id));
            assert forall|j: usize| #[trigger] present(g1.clips, j) implies g1.clip_by_source.dom().contains(
                g1.clips[j as int]->0.source,
            ) && g1.clip_by_source[g1.clips[j as int]->0.source] == j by {
                if j != n {
                    assert(present(g.clips, j));
                }
            }
            assert forall|t: RenderNodeId| #[trigger] g1.clip_by_source.dom().contains(t) implies present(
                g1.clips,
                g1.clip_by_source[t],
            ) && g1.clips[g1.clip_by_source[t] as int]->0.source == t by {
                if t != id {
                    assert(g.clip_by_source.dom().contains(t));
                }
            }
        },
    }
}

proof fn lemma_same_indexed(a: GraphView, b: GraphView)
    requires
        same_primitives_and_clips(a, b),
        indexed_by_source(a),
    ensures
        indexed_by_source(b),
        grows(a, b),
{
}

proof fn lemma_walk_indexed(g: GraphView, live: LiveView, m: NodeMap, id: RenderNodeId, ctx: WalkContext, fuel: nat)
    requires
        spec_walk(g, live, m, id, ctx, fuel) is Ok,
    ensures
        grows(g, spec_walk(g, live, m, id, ctx, fuel)->Ok_0.0),
        indexed_by_source(g) && fits(spec_walk(g, live, m, id, ctx, fuel)->Ok_0.0) ==> indexed_by_source(
            spec_walk(g, live, m, id, ctx, fuel)->Ok_0.0,
        ),
    decreases fuel, 0nat,
{
    if m.dom().contains(id) && fuel > 0 && m[id].visible {
        let n = m[id];
        let f = (fuel - 1) as nat;
        match n.kind {
            RenderNodeKind::Group(gr) => {
                lemma_walk_seq_indexed(g, live, m, gr.children@, ctx, f);
            },
            RenderNodeKind::Primitive(p) => {
                let rec = CompiledPrimitive {
                    source: id,
                    primitive: p.primitive,
                    spatial: ctx.spatial,
                    clip: ctx.clip,
                    content_version: content_of(n.epochs),
                };
                let (g1, k) = placed_primitive(g, id, rec);
                let r = with_item(g1, ctx.picture, PictureItem::Primitive(k));
                assert(same_primitives_and_clips(g1, r));
                if indexed_by_source(g) && fits(r) {
                    lemma_placed_primitive_indexed(g, id, rec);
                    lemma_same_indexed(g1, r);
                }
            },
            RenderNodeKind::Transform(t) => {
                let rec = CompiledSpatialNode {
                    source: id,
                    parent: Some(ctx.spatial),
                    local_transform: t.transform,
                    content_version: content_of(n.epochs),
                };
                let (g1, k) = placed_spatial(g, id, rec);
                let l1 = LiveView { spatials: live.spatials.insert(k), ..live };
                assert(same_primitives_and_clips(g, g1));
                if let Some(c) = t.child {
                    lemma_walk_indexed(g1, l1, m, c, WalkContext { spatial: k, ..ctx }, f);
                }
            },
            RenderNodeKind::Clip(cl) => {
                let rec = CompiledClip {
                    source: id,
                    parent: ctx.clip,
                    spatial: ctx.spatial,
                    clip: cl.clip,
                    content_version: content_of(n.epochs),
                };
                let (g1, k) = placed_clip(g, id, rec);
                let l1 = LiveView { clips: live.clips.insert(k), ..live };
                let ctx1 = WalkContext { clip: Some(k), ..ctx };
                if let Some(c) = cl.child {
                    lemma_walk_indexed(g1, l1, m, c, ctx1, f);
                }
                let r = spec_walk(g, live, m, id, ctx, fuel)->Ok_0.0;
                if indexed_by_source(g) && fits(r) {
                    lemma_placed_clip_indexed(g, id, rec);
                }
            },
            RenderNodeKind::Layer(l) => {
                if !l.descriptor.spec_requires_isolation() {
                    let g1 = GraphView { picture_by_source: g.picture_by_source.remove(id), ..g };
                    assert(same_primitives_and_clips(g, g1));
                    if let Some(c) = l.child {
                        lemma_walk_indexed(g1, live, m, c, ctx, f);
                    }
                } else {
                    let rec = CompiledPicture {
                        source: id,
                        descriptor: l.descriptor,
                        placement_spatial: ctx.spatial,
                        placement_clip: ctx.clip,
                        content_version: content_of(n.epochs),
                        composite_version: n.epochs.composite,
                        is_root: false,
                    };
                    let (g1, k) = placed_picture(g, id, rec);
                    let l1 = LiveView { pictures: live.pictures.insert(k), ..live };
                    let g2 = with_item(g1, ctx.picture, PictureItem::Picture(k));
                    assert(same_primitives_and_clips(g, g2));
                    if let Some(c) = l.child {
                        lemma_walk_indexed(g2, l1, m, c, WalkContext { picture: k, clip: None, ..ctx }, f);
                    }
                }
            },
        }
    }
}

proof fn lemma_walk_seq_indexed(
    g: GraphView,
    live: LiveView,
    m: NodeMap,
    cs: Seq<RenderNodeId>,
    ctx: WalkContext,
    fuel: nat,
)
    requires
        spec_walk_seq(g, live, m, cs, ctx, fuel) is Ok,
    ensures
        grows(g, spec_walk_seq(g, live, m, cs, ctx, fuel)->Ok_0.0),
        indexed_by_source(g) && fits(spec_walk_seq(g, live, m, cs, ctx, fuel)->Ok_0.0) ==> indexed_by_source(
            spec_walk_seq(g, live, m, cs, ctx, fuel)->Ok_0.0,
        ),
    decreases fuel, cs.len(),
{
    if cs.len() > 0 {
        lemma_walk_seq_indexed(g, live, m, cs.drop_last(), ctx, fuel);
        let (g1, l1) = spec_walk_seq(g, live, m, cs.drop_last(), ctx, fuel)->Ok_0;
        lemma_walk_indexed(g1, l1, m, cs.last(), ctx, fuel);
    }
}

/// A rebuild keeps each compiled primitive and clip the one entry of its
/// source (see `indexed_by_source`), when the graph was so before.
pub proof fn law_rebuild_keeps_one_entry_per_source(g: GraphView, source: &RenderScene)
    requires
        indexed_by_source(g),
        spec_rebuild(g, source) is Ok,
        fits(spec_rebuild(g, source)->Ok_0),
    ensures
        indexed_by_source(spec_rebuild(g, source)->Ok_0),
{
    let m = source@;
    let root = source.spec_root();
    let g1 = GraphView {
        spatials: g.spatials.update(g.root_spatial as int, Some(root_spatial_record(root))),
        pictures: g.pictures.update(
            g.root_picture as int,
            Some(root_picture_record(root, g.root_spatial, content_of(m[root].epochs), m[root].epochs.composite)),
        ),
        items: g.items.update(g.root_picture as int, Seq::empty()),
        picture_by_source: g.picture_by_source.insert(root, g.root_picture),
        ..g
    };
    let l0 = LiveView {
        pictures: set![g.root_picture],
        primitives: Set::empty(),
        spatials: set![g.root_spatial],
        clips: Set::empty(),
    };
    let ctx = WalkContext { picture: g.root_picture, spatial: g.root_spatial, clip: None };
    assert(same_primitives_and_clips(g, g1));
    lemma_walk_indexed(g1, l0, m, root, ctx, walk_fuel(source, root));
    let (g2, l2) = spec_walk(g1, l0, m, root, ctx, walk_fuel(source, root))->Ok_0;
    let r = retained(g2, l2);
    assert(fits(g2));
    let r2 = r;
    assert forall|k: usize| #[trigger] present(r2.primitives, k) implies r2.primitive_by_source.dom().contains(
        r2.primitives[k as int]->0.source,
    ) && r2.primitive_by_source[r2.primitives[k as int]->0.source] == k by {
        assert(present(g2.primitives, k));
    }
    assert forall|t: RenderNodeId| #[trigger] r2.primitive_by_source.dom().contains(t) implies present(
        r2.primitives,
        r2.primitive_by_source[t],
    ) && r2.primitives[r2.primitive_by_source[t] as int]->0.source == t by {
        assert(g2.primitive_by_source.dom().contains(t));
    }
    assert forall|k: usize| #[trigger] present(r2.clips, k) implies r2.clip_by_source.dom().contains(
        r2.clips[k as int]->0.source,
    ) && r2.clip_by_source[r2.clips[k as int]->0.source] == k by {
        assert(present(g2.clips, k));
    }
    assert forall|t: RenderNodeId| #[trigger] r2.clip_by_source.dom().contains(t) implies present(
        r2.clips,
        r2.clip_by_source[t],
    ) && r2.clips[r2.clip_by_source[t] as int]->0.source == t by {
        assert(g2.clip_by_source.dom().contains(t));
    }
}

/// Updates that keep the structure keep each compiled primitive and clip
/// the one entry of its source.
pub proof fn law_updates_keep_one_entry_per_source(g: GraphView, m: NodeMap, changed: Seq<(RenderNodeId, RenderDirty)>)
    requires
        indexed_by_source(g),
        spec_updates(g, m, changed) is Ok,
    ensures
        indexed_by_source(spec_updates(g, m, changed)->Ok_0),
    decreases changed.len(),
{
    if changed.len() > 0 {
        law_updates_keep_one_entry_per_source(g, m, changed.drop_last());
        let g1 = spec_updates(g, m, changed.drop_last())->Ok_0;
        let r = spec_updates(g, m, changed)->Ok_0;
        let id = changed.last().0;
        assert(r == spec_update_one(g1, m, id, changed.last().1)->Ok_0);
        assert forall|k: usize| #[trigger] present(r.primitives, k) implies r.primitive_by_source.dom().contains(
            r.primitives[k as int]->0.source,
        ) && r.primitive_by_source[r.primitives[k as int]->0.source] == k by {
            assert(present(g1.primitives, k));
        }
        assert forall|t: RenderNodeId| #[trigger] r.primitive_by_source.dom().contains(t) implies present(
            r.primitives,
            r.primitive_by_source[t],
        ) && r.primitives[r.primitive_by_source[t] as int]->0.source == t by {
            assert(g1.primitive_by_source.dom().contains(t));
        }
        assert forall|k: usize| #[trigger] present(r.clips, k) implies r.clip_by_source.dom().contains(
            r.clips[k as int]->0.source,
        ) && r.clip_by_source[r.clips[k as int]->0.source] == k by {
            assert(present(g1.clips, k));
        }
        assert forall|t: RenderNodeId| #[trigger] r.clip_by_source.dom().contains(t) implies present(
            r.clips,
            r.clip_by_source[t],
        ) && r.clips[r.clip_by_source[t] as int]->0.source == t by {
            assert(g1.clip_by_source.dom().contains(t));
        }
    }
}

/// A rebuild keeps the ids of what survives: a primitive, spatial node or
/// clip that the graph kept for a source before the rebuild, and that the
/// rebuilt graph still indexes, keeps its id.
pub proof fn law_rebuild_reuses_ids(g: GraphView, source: &RenderScene, s: RenderNodeId)
    requires
        present(g.spatials, g.root_spatial),
        spec_rebuild(g, source) is Ok,
    ensures
        ({
            let r = spec_rebuild(g, source)->Ok_0;
            &&& kept(g.primitive_by_source, g.primitives, s) is Some && r.primitive_by_source.dom().contains(s)
                ==> r.primitive_by_source[s] == kept(g.primitive_by_source, g.primitives, s)->0
            &&& kept(g.spatial_by_source, g.spatials, s) is Some && r.spatial_by_source.dom().contains(s)
                ==> r.spatial_by_source[s] == kept(g.spatial_by_source, g.spatials, s)->0
            &&& kept(g.clip_by_source, g.clips, s) is Some && r.clip_by_source.dom().contains(s)
                ==> r.clip_by_source[s] == kept(g.clip_by_source, g.clips, s)->0
        }),
{
    let m = source@;
    let root = source.spec_root();
    let g1 = GraphView {
        spatials: g.spatials.update(g.root_spatial as int, Some(root_spatial_record(root))),
        pictures: g.pictures.update(
            g.root_picture as int,
            Some(root_picture_record(root, g.root_spatial, content_of(m[root].epochs), m[root].epochs.composite)),
        ),
        items: g.items.update(g.root_picture as int, Seq::empty()),
        picture_by_source: g.picture_by_source.insert(root, g.root_picture),
        ..g
    };
    let l0 = LiveView {
        pictures: set![g.root_picture],
        primitives: Set::empty(),
        spatials: set![g.root_spatial],
        clips: Set::empty(),
    };
    let ctx = WalkContext { picture: g.root_picture, spatial: g.root_spatial, clip: None };
    assert forall|x: RenderNodeId| #[trigger] kept(g.spatial_by_source, g.spatials, x) is Some implies kept(
        g1.spatial_by_source,
        g1.spatials,
        x,
    ) == kept(g.spatial_by_source, g.spatials, x) by {
        let k = g.spatial_by_source[x];
        assert(g1.spatials.len() == g.spatials.len());
        assert(g1.spatials[k as int] is Some);
    }
    assert(keeps_ids(g, g1));
    lemma_walk_keeps(g1, l0, m, root, ctx, walk_fuel(source, root));
    let g2 = spec_walk(g1, l0, m, root, ctx, walk_fuel(source, root))->Ok_0.0;
    lemma_keeps_trans(g, g1, g2);
    assert(kept(g.primitive_by_source, g.primitives, s) is Some ==> kept(g2.primitive_by_source, g2.primitives, s)
        == kept(g.primitive_by_source, g.primitives, s));
    assert(kept(g.spatial_by_source, g.spatials, s) is Some ==> kept(g2.spatial_by_source, g2.spatials, s) == kept(
        g.spatial_by_source,
        g.spatials,
        s,
    ));
    assert(kept(g.clip_by_source, g.clips, s) is Some ==> kept(g2.clip_by_source, g2.clips, s) == kept(
        g.clip_by_source,
        g.clips,
        s,
    ));
}

/// Updates that keep the structure keep every compiled id: the four
/// indexes, the roots and the size of every arena are those from before.
pub proof fn law_updates_keep_ids(g: GraphView, m: NodeMap, changed: Seq<(RenderNodeId, RenderDirty)>)
    requires
        spec_updates(g, m, changed) is Ok,
    ensures
        ({
            let r = spec_updates(g, m, changed)->Ok_0;
            &&& r.picture_by_source == g.picture_by_source
            &&& r.primitive_by_source == g.primitive_by_source
            &&& r.spatial_by_source == g.spatial_by_source
            &&& r.clip_by_source == g.clip_by_source
            &&& r.root_picture == g.root_picture
            &&& r.root_spatial == g.root_spatial
            &&& r.pictures.len() == g.pictures.len()
            &&& r.primitives.len() == g.primitives.len()
            &&& r.spatials.len() == g.spatials.len()
            &&& r.clips.len() == g.clips.len()
            &&& r.items == g.items
            &&& forall|p: usize| present(g.pictures, p) ==> #[trigger] present(r.pictures, p)
            &&& forall|p: usize| present(g.spatials, p) ==> #[trigger] present(r.spatials, p)
        }),
    decreases changed.len(),
{
    if changed.len() > 0 {
        law_updates_keep_ids(g, m, changed.drop_last());
        let g1 = spec_updates(g, m, changed.drop_last())->Ok_0;
        let r = spec_updates(g, m, changed)->Ok_0;
        assert forall|p: usize| present(g1.pictures, p) implies #[trigger] present(r.pictures, p) by {}
        assert forall|p: usize| present(g1.spatials, p) implies #[trigger] present(r.spatials, p) by {}
    }
}

/// The item is in `l`: its primitive, or its picture.
pub open spec fn item_in(l: LiveView, it: PictureItem) -> bool {
    match it {
        PictureItem::Primitive(k) => l.primitives.contains(k),
        PictureItem::Picture(q) => l.pictures.contains(q),
    }
}

/// What picture `p` brings into `l`: its placement spatial node and clip,
/// and its items (a nested picture may instead still wait in `waiting`).
pub open spec fn picture_brought(g: GraphView, l: LiveView, waiting: Set<usize>, p: usize) -> bool {
    let pic = g.pictures[p as int]->0;
    &&& l.spatials.contains(pic.placement_spatial)
    &&& (pic.placement_clip matches Some(c) ==> l.clips.contains(c))
    &&& forall|i: int|
        0 <= i < g.items[p as int].len() ==> #[trigger] item_in(l, g.items[p as int][i]) || (g.items[p as int][i] matches PictureItem::Picture(q) && waiting.contains(q))
}

/// What primitive `k` brings: its spatial node and clip.
pub open spec fn primitive_brought(g: GraphView, l: LiveView, k: usize) -> bool {
    let pr = g.primitives[k as int]->0;
    &&& l.spatials.contains(pr.spatial)
    &&& (pr.clip matches Some(c) ==> l.clips.contains(c))
}

/// What spatial node `s` brings: its parent.
pub open spec fn spatial_brought(g: GraphView, l: LiveView, s: usize) -> bool {
    g.spatials[s as int]->0.parent matches Some(q) ==> l.spatials.contains(q)
}

/// What clip `c` brings: its spatial node and its parent clip.
pub open spec fn clip_brought(g: GraphView, l: LiveView, c: usize) -> bool {
    let cl = g.clips[c as int]->0;
    &&& l.spatials.contains(cl.spatial)
    &&& (cl.parent matches Some(q) ==> l.clips.contains(q))
}

/// `l` is closed under what the picture graph reaches: it holds the root
/// picture, and each entry of it that is there brings what it needs.
pub open spec fn reach_closed(g: GraphView, l: LiveView) -> bool {
    &&& l.pictures.contains(g.root_picture)
    &&& forall|p: usize| #[trigger] l.pictures.contains(p) && present(g.pictures, p) ==> picture_brought(g, l, Set::empty(), p)
    &&& forall|k: usize| #[trigger] l.primitives.contains(k) && present(g.primitives, k) ==> primitive_brought(g, l, k)
    &&& forall|s: usize| #[trigger] l.spatials.contains(s) && present(g.spatials, s) ==> spatial_brought(g, l, s)
    &&& forall|c: usize| #[trigger] l.clips.contains(c) && present(g.clips, c) ==> clip_brought(g, l, c)
}

/// What the picture graph reaches from the root picture: what every closed
/// set holds.
pub open spec fn reached(g: GraphView) -> LiveView {
    LiveView {
        pictures: Set::new(|p: usize| forall|l: LiveView| #[trigger] reach_closed(g, l) ==> l.pictures.contains(p)),
        primitives: Set::new(|k: usize| forall|l: LiveView| #[trigger] reach_closed(g, l) ==> l.primitives.contains(k)),
        spatials: Set::new(|s: usize| forall|l: LiveView| #[trigger] reach_closed(g, l) ==> l.spatials.contains(s)),
        clips: Set::new(|c: usize| forall|l: LiveView| #[trigger] reach_closed(g, l) ==> l.clips.contains(c)),
    }
}

/// Every closed set holds all of `l`.
pub open spec fn below_all(g: GraphView, l: LiveView) -> bool {
    forall|c: LiveView|
        #[trigger] reach_closed(g, c) ==> l.pictures.subset_of(c.pictures) && l.primitives.subset_of(c.primitives)
            && l.spatials.subset_of(c.spatials) && l.clips.subset_of(c.clips)
}

/// How many of the first `n` entries are there and not in `l`.
pub open spec fn unreached_count<T>(a: Seq<Option<T>>, l: Set<usize>, n: nat) -> nat
    decreases n,
{
    if n == 0 {
        0
    } else {
        unreached_count(a, l, (n - 1) as nat) + if a[n - 1] is Some && !l.contains((n - 1) as usize) {
            1nat
        } else {
            0nat
        }
    }
}

proof fn lemma_unreached_insert<T>(a: Seq<Option<T>>, l: Set<usize>, n: nat, s: usize)
    requires
        n <= a.len(),
        a.len() <= usize::MAX + 1,
    ensures
        unreached_count(a, l.insert(s), n) + (if (s as int) < n && a[s as int] is Some && !l.contains(s) {
            1nat
        } else {
            0nat
        }) == unreached_count(a, l, n),
    decreases n,
{
    if n > 0 {
        lemma_unreached_insert(a, l, (n - 1) as nat, s);
    }
}

/// The four sets of `a` are within those of `b`.
pub open spec fn live_within(a: LiveView, b: LiveView) -> bool {
    &&& a.pictures.subset_of(b.pictures)
    &&& a.primitives.subset_of(b.primitives)
    &&& a.spatials.subset_of(b.spatials)
    &&& a.clips.subset_of(b.clips)
}

proof fn lemma_pictures_mono(g: GraphView, l: LiveView, l2: LiveView, w: Set<usize>, w2: Set<usize>)
    requires
        live_within(l, l2),
        forall|q: usize| w.contains(q) ==> w2.contains(q) || l2.pictures.contains(q),
        forall|p: usize| #[trigger] l.pictures.contains(p) && present(g.pictures, p) ==> picture_brought(g, l, w, p),
    ensures
        forall|p: usize| #[trigger] l.pictures.contains(p) && present(g.pictures, p) ==> picture_brought(g, l2, w2, p),
{
    assert forall|p: usize| #[trigger] l.pictures.contains(p) && present(g.pictures, p) implies picture_brought(
        g,
        l2,
        w2,
        p,
    ) by {
        assert(picture_brought(g, l, w, p));
        assert forall|i: int| 0 <= i < g.items[p as int].len() implies #[trigger] item_in(l2, g.items[p as int][i])
            || (g.items[p as int][i] matches PictureItem::Picture(q) && w2.contains(q)) by {
            assert(item_in(l, g.items[p as int][i]) || (g.items[p as int][i] matches PictureItem::Picture(q)
                && w.contains(q)));
        }
    }
}

proof fn lemma_pictures_mono_except(g: GraphView, l: LiveView, l2: LiveView, w: Set<usize>, w2: Set<usize>, x: usize)
    requires
        live_within(l, l2),
        forall|q: usize| w.contains(q) ==> w2.contains(q) || l2.pictures.contains(q),
        forall|p: usize|
            #[trigger] l.pictures.contains(p) && present(g.pictures, p) && p != x ==> picture_brought(g, l, w, p),
    ensures
        forall|p: usize|
            #[trigger] l.pictures.contains(p) && present(g.pictures, p) && p != x ==> picture_brought(g, l2, w2, p),
{
    assert forall|p: usize| #[trigger] l.pictures.contains(p) && present(g.pictures, p) && p != x implies picture_brought(
        g,
        l2,
        w2,
        p,
    ) by {
        assert(picture_brought(g, l, w, p));
        assert forall|i: int| 0 <= i < g.items[p as int].len() implies #[trigger] item_in(l2, g.items[p as int][i])
            || (g.items[p as int][i] matches PictureItem::Picture(q) && w2.contains(q)) by {
            assert(item_in(l, g.items[p as int][i]) || (g.items[p as int][i] matches PictureItem::Picture(q)
                && w.contains(q)));
        }
    }
}

proof fn lemma_clips_mono(g: GraphView, l: LiveView, l2: LiveView)
    requires
        live_within(l, l2),
        l2.clips == l.clips,
        forall|t: usize| #[trigger] l.clips.contains(t) && present(g.clips, t) ==> clip_brought(g, l, t),
    ensures
        forall|t: usize| #[trigger] l2.clips.contains(t) && present(g.clips, t) ==> clip_brought(g, l2, t),
{
}

proof fn lemma_primitives_mono(g: GraphView, l: LiveView, l2: LiveView)
    requires
        live_within(l, l2),
        forall|k: usize| #[trigger] l.primitives.contains(k) && present(g.primitives, k) ==> primitive_brought(g, l, k),
    ensures
        forall|k: usize| #[trigger] l.primitives.contains(k) && present(g.primitives, k) ==> primitive_brought(g, l2, k),
{
}

proof fn lemma_primitives_mono_except(g: GraphView, l: LiveView, l2: LiveView, k0: usize)
    requires
        live_within(l, l2),
        l2.primitives == l.primitives.insert(k0),
        present(g.primitives, k0) ==> primitive_brought(g, l2, k0),
        forall|k: usize| #[trigger] l.primitives.contains(k) && present(g.primitives, k) ==> primitive_brought(g, l, k),
    ensures
        forall|k: usize| #[trigger] l2.primitives.contains(k) && present(g.primitives, k) ==> primitive_brought(g, l2, k),
{
    assert forall|k: usize| #[trigger] l2.primitives.contains(k) && present(g.primitives, k) implies primitive_brought(
        g,
        l2,
        k,
    ) by {
        if k != k0 {
            assert(l.primitives.contains(k));
        }
    }
}

/// Whether `x` is in the list.
fn holds(v: &Vec<usize>, x: usize) -> (r: bool)
    ensures
        r == v@.to_set().contains(x),
{
    let mut i: usize = 0;
    while i < v.len()
        invariant
            i <= v@.len(),
            forall|j: int| 0 <= j < i ==> v@[j] != x,
        decreases v@.len() - i,
    {
        if v[i] == x {
            assert(v@.contains(x));
            return true;
        }
        i = i + 1;
    }
    false
}

/// Drops the entries of an arena that `live` does not hold.
fn sweep<T>(arena: &mut Vec<Option<T>>, live: &Vec<usize>)
    ensures
        final(arena)@ == Seq::new(
            old(arena)@.len(),
            |i: int| if live@.to_set().contains(i as usize) { old(arena)@[i] } else { None },
        ),
{
    let ghost a0 = arena@;
    let mut i: usize = 0;
    while i < arena.len()
        invariant
            i <= arena@.len(),
            arena@.len() == a0.len(),
            forall|j: int|
                0 <= j < arena@.len() ==> #[trigger] arena@[j] == if j < i && !live@.to_set().contains(
                    j as usize,
                ) {
                    None
                } else {
                    a0[j]
                },
        decreases arena@.len() - i,
    {
        if !holds(live, i) {
            arena.set(i, None);
        }
        i = i + 1;
    }
    proof {
        assert(arena@ =~= Seq::new(
            a0.len(),
            |i: int| if live@.to_set().contains(i as usize) { a0[i] } else { None },
        ));
    }
}

/// Keeps only the index entries whose compiled id `live` holds.
#[verifier::rlimit(40)]
fn sweep_index(v: &mut Vec<(RenderNodeId, usize)>, live: &Vec<usize>)
    requires
        keys_unique(old(v)@),
    ensures
        keys_unique(final(v)@),
        assoc_map(final(v)@) == assoc_map(old(v)@).restrict(
            assoc_map(old(v)@).dom().filter(|k: RenderNodeId| live@.to_set().contains(assoc_map(old(v)@)[k])),
        ),
{
    let ghost s0 = v@;
    let ghost target = assoc_map(s0).restrict(
        assoc_map(s0).dom().filter(|k: RenderNodeId| live@.to_set().contains(assoc_map(s0)[k])),
    );
    let mut kept_entries: Vec<(RenderNodeId, usize)> = Vec::new();
    let mut i: usize = 0;
    while i < v.len()
        invariant
            i <= s0.len(),
            v@ == s0,
            keys_unique(s0),
            keys_unique(kept_entries@),
            forall|j: int| 0 <= j < kept_entries@.len() ==> exists|t: int| 0 <= t < i && #[trigger] kept_entries@[j] == s0[t],
            forall|j: int| 0 <= j < kept_entries@.len() ==> live@.to_set().contains(#[trigger] kept_entries@[j].1),
            forall|t: int|
                0 <= t < i && live@.to_set().contains(#[trigger] s0[t].1) ==> exists|j: int|
                    0 <= j < kept_entries@.len() && kept_entries@[j] == s0[t],
        decreases s0.len() - i,
    {
        let entry = v[i];
        if holds(live, entry.1) {
            proof {
                assert forall|j: int| 0 <= j < kept_entries@.len() implies kept_entries@[j].0 != entry.0 by {
                    let t = choose|t: int| 0 <= t < i && kept_entries@[j] == s0[t];
                    assert(s0[i as int] == entry);
                }
            }
            let ghost before = kept_entries@;
            kept_entries.push(entry);
            proof {
                assert(kept_entries@[kept_entries@.len() - 1] == s0[i as int]);
                assert forall|t: int|
                    0 <= t < i + 1 && live@.to_set().contains(#[trigger] s0[t].1) implies exists|j: int|
                        0 <= j < kept_entries@.len() && kept_entries@[j] == s0[t] by {
                    if t < i {
                        let j = choose|j: int| 0 <= j < before.len() && before[j] == s0[t];
                        assert(kept_entries@[j] == before[j]);
                    } else {
                        assert(kept_entries@[kept_entries@.len() - 1] == s0[t]);
                    }
                }
                assert forall|j: int| 0 <= j < kept_entries@.len() implies exists|t: int|
                    0 <= t < i + 1 && #[trigger] kept_entries@[j] == s0[t] by {
                    if j < before.len() {
                        let t = choose|t: int| 0 <= t < i && before[j] == s0[t];
                        assert(kept_entries@[j] == s0[t]);
                    } else {
                        assert(kept_entries@[j] == s0[i as int]);
                    }
                }
            }
        }
        i = i + 1;
    }
    proof {
        assert forall|j: int| 0 <= j < kept_entries@.len() implies target.dom().contains(#[trigger] kept_entries@[j].0)
            && target[kept_entries@[j].0] == kept_entries@[j].1 by {
            let t = choose|t: int| 0 <= t < s0.len() && kept_entries@[j] == s0[t];
            lemma_assoc_at(s0, t);
        }
        assert forall|k: RenderNodeId| #[trigger] target.dom().contains(k) implies exists|j: int|
            0 <= j < kept_entries@.len() && kept_entries@[j].0 == k by {
            crate::assoc::lemma_assoc_present(s0, k);
            let t = choose|t: int| 0 <= t < s0.len() && s0[t].0 == k;
            lemma_assoc_at(s0, t);
            let j = choose|j: int| 0 <= j < kept_entries@.len() && kept_entries@[j] == s0[t];
            assert(kept_entries@[j].0 == k);
        }
        crate::assoc::lemma_assoc_map_ext(kept_entries@, target);
    }
    *v = kept_entries;
}

/// The graph of a scene whose root is `root` before any compile: the root
/// spatial node and the root picture (empty, indexed by the root).
pub open spec fn initial_graph(root: RenderNodeId) -> GraphView {
    GraphView {
        pictures: seq![Some(root_picture_record(root, 0, ContentVersion { topology: 0, geometry: 0, paint: 0, dynamic: 0 }, 0))],
        items: seq![Seq::empty()],
        primitives: Seq::empty(),
        spatials: seq![Some(root_spatial_record(root))],
        clips: Seq::empty(),
        picture_by_source: map![root => 0usize],
        primitive_by_source: Map::empty(),
        spatial_by_source: Map::empty(),
        clip_by_source: Map::empty(),
        root_picture: 0,
        root_spatial: 0,
    }
}

impl CompiledGraph {
    /// The graph of a scene before any compile: the root spatial node and
    /// the root picture (empty, indexed by the scene's root), nothing else.
    pub fn new(source: &RenderScene) -> (r: CompiledGraph)
        ensures
            r.wf(),
            indexed_by_source(r@),
            r@ == initial_graph(source.spec_root()),
            r@ == (GraphView {
                pictures: seq![Some(root_picture_record(
                    source.spec_root(),
                    0,
                    ContentVersion { topology: 0, geometry: 0, paint: 0, dynamic: 0 },
                    0,
                ))],
                items: seq![Seq::empty()],
                primitives: Seq::empty(),
                spatials: seq![Some(root_spatial_record(source.spec_root()))],
                clips: Seq::empty(),
                picture_by_source: map![source.spec_root() => 0usize],
                primitive_by_source: Map::empty(),
                spatial_by_source: Map::empty(),
                clip_by_source: Map::empty(),
                root_picture: 0,
                root_spatial: 0,
            }),
    {
        let root = source.root();
        let none = ContentVersion { topology: 0, geometry: 0, paint: 0, dynamic: 0 };
        let picture = CompiledPicture {
            source: root,
            descriptor: LayerDescriptor::default(),
            placement_spatial: 0,
            placement_clip: None,
            content_version: none,
            composite_version: 0,
            is_root: true,
        };
        let spatial = CompiledSpatialNode { source: root, parent: None, local_transform: 0, content_version: none };
        let r = CompiledGraph {
            pictures: vec![Some(picture)],
            items: vec![Vec::new()],
            primitives: Vec::new(),
            spatials: vec![Some(spatial)],
            clips: Vec::new(),
            picture_by_source: vec![(root, 0)],
            primitive_by_source: Vec::new(),
            spatial_by_source: Vec::new(),
            clip_by_source: Vec::new(),
            root_picture: 0,
            root_spatial: 0,
        };
        proof {
            assert(r@.pictures =~= seq![Some(picture)]);
            assert(r@.spatials =~= seq![Some(spatial)]);
            assert(r@.primitives =~= Seq::<Option<CompiledPrimitive>>::empty());
            assert(r@.clips =~= Seq::<Option<CompiledClip>>::empty());
            assert(r@.items =~= seq![Seq::<PictureItem>::empty()]);
            assert(assoc_map(r.picture_by_source@) =~= map![root => 0usize]) by {
                reveal_with_fuel(crate::assoc::assoc_lookup, 2);
            }
            assert(assoc_map(r.primitive_by_source@) =~= Map::<RenderNodeId, usize>::empty());
            assert(assoc_map(r.spatial_by_source@) =~= Map::<RenderNodeId, usize>::empty());
            assert(assoc_map(r.clip_by_source@) =~= Map::<RenderNodeId, usize>::empty());
        }
        r
    }

    /// Marks spatial node `start` and the chain of its parents in `live`,
    /// up to the first node already there.
    fn mark_spatial_chain(&self, live: &mut LiveIds, start: usize)
        requires
            self.wf(),
            below_all(self@, old(live)@),
            forall|c: LiveView| #[trigger] reach_closed(self@, c) ==> c.spatials.contains(start),
            forall|t: usize|
                #[trigger] old(live)@.spatials.contains(t) && present(self@.spatials, t) ==> spatial_brought(
                    self@,
                    old(live)@,
                    t,
                ),
        ensures
            below_all(self@, final(live)@),
            final(live)@.spatials.contains(start),
            old(live)@.spatials.subset_of(final(live)@.spatials),
            final(live)@.pictures == old(live)@.pictures,
            final(live)@.primitives == old(live)@.primitives,
            final(live)@.clips == old(live)@.clips,
            forall|t: usize|
                #[trigger] final(live)@.spatials.contains(t) && present(self@.spatials, t) ==> spatial_brought(
                    self@,
                    final(live)@,
                    t,
                ),
    {
        let ghost g = self@;
        let n = self.spatials.len();
        let mut s = start;
        loop
            invariant
                self.wf(),
                g == self@,
                g.spatials.len() == n,
                below_all(g, live@),
                forall|c: LiveView| #[trigger] reach_closed(g, c) ==> c.spatials.contains(s),
                old(live)@.spatials.subset_of(live@.spatials),
                live@.pictures == old(live)@.pictures,
                live@.primitives == old(live)@.primitives,
                live@.clips == old(live)@.clips,
                live@.spatials.contains(start) || s == start,
                forall|t: usize|
                    #[trigger] live@.spatials.contains(t) && present(g.spatials, t) ==> spatial_brought(g, live@, t)
                        || g.spatials[t as int]->0.parent == Some(s),
            ensures
                live@.spatials.contains(s),
                forall|t: usize|
                    #[trigger] live@.spatials.contains(t) && present(g.spatials, t) ==> spatial_brought(g, live@, t),
            decreases unreached_count(g.spatials, live@.spatials, g.spatials.len()),
        {
            if holds(&live.spatials, s) {
                break;
            }
            let ghost before = live@;
            proof {
                lemma_push_set(live.spatials@, s);
                lemma_unreached_insert(g.spatials, before.spatials, g.spatials.len(), s);
            }
            live.spatials.push(s);
            proof {
                assert forall|c: LiveView| #[trigger] reach_closed(g, c) implies live@.spatials.subset_of(c.spatials) by {}
            }
            match self.spatial(s) {
                None => {
                    break;
                },
                Some(n) => match n.parent {
                    None => {
                        break;
                    },
                    Some(q) => {
                        proof {
                            assert forall|c: LiveView| #[trigger] reach_closed(g, c) implies c.spatials.contains(q) by {
                                assert(c.spatials.contains(s));
                                assert(present(g.spatials, s));
                            }
                        }
                        s = q;
                    },
                },
            }
        }
    }

    /// Marks clip `start` and the chain of its parents in `live`, each with
    /// the chain of its spatial node, up to the first clip already there.
    fn mark_clip_chain(&self, live: &mut LiveIds, start: usize)
        requires
            self.wf(),
            below_all(self@, old(live)@),
            forall|c: LiveView| #[trigger] reach_closed(self@, c) ==> c.clips.contains(start),
            forall|t: usize|
                #[trigger] old(live)@.spatials.contains(t) && present(self@.spatials, t) ==> spatial_brought(
                    self@,
                    old(live)@,
                    t,
                ),
            forall|t: usize|
                #[trigger] old(live)@.clips.contains(t) && present(self@.clips, t) ==> clip_brought(
                    self@,
                    old(live)@,
                    t,
                ),
        ensures
            below_all(self@, final(live)@),
            final(live)@.clips.contains(start),
            old(live)@.spatials.subset_of(final(live)@.spatials),
            old(live)@.clips.subset_of(final(live)@.clips),
            final(live)@.pictures == old(live)@.pictures,
            final(live)@.primitives == old(live)@.primitives,
            forall|t: usize|
                #[trigger] final(live)@.spatials.contains(t) && present(self@.spatials, t) ==> spatial_brought(
                    self@,
                    final(live)@,
                    t,
                ),
            forall|t: usize|
                #[trigger] final(live)@.clips.contains(t) && present(self@.clips, t) ==> clip_brought(
                    self@,
                    final(live)@,
                    t,
                ),
    {
        let ghost g = self@;
        let n = self.clips.len();
        let mut c = start;
        loop
            invariant
                self.wf(),
                g == self@,
                g.clips.len() == n,
                below_all(g, live@),
                forall|k: LiveView| #[trigger] reach_closed(g, k) ==> k.clips.contains(c),
                old(live)@.spatials.subset_of(live@.spatials),
                old(live)@.clips.subset_of(live@.clips),
                live@.pictures == old(live)@.pictures,
                live@.primitives == old(live)@.primitives,
                live@.clips.contains(start) || c == start,
                forall|t: usize|
                    #[trigger] live@.spatials.contains(t) && present(g.spatials, t) ==> spatial_brought(g, live@, t),
                forall|t: usize|
                    #[trigger] live@.clips.contains(t) && present(g.clips, t) ==> clip_brought(g, live@, t) || (
                    live@.spatials.contains(g.clips[t as int]->0.spatial) && g.clips[t as int]->0.parent == Some(c)),
            ensures
                live@.clips.contains(c),
                forall|t: usize|
                    #[trigger] live@.spatials.contains(t) && present(g.spatials, t) ==> spatial_brought(g, live@, t),
                forall|t: usize| #[trigger] live@.clips.contains(t) && present(g.clips, t) ==> clip_brought(g, live@, t),
            decreases unreached_count(g.clips, live@.clips, g.clips.len()),
        {
            if holds(&live.clips, c) {
                break;
            }
            let ghost before = live@;
            proof {
                lemma_push_set(live.clips@, c);
                lemma_unreached_insert(g.clips, before.clips, g.clips.len(), c);
            }
            live.clips.push(c);
            proof {
                assert forall|k: LiveView| #[trigger] reach_closed(g, k) implies live@.clips.subset_of(k.clips) by {}
            }
            match self.clip(c) {
                None => {
                    break;
                },
                Some(cl) => {
                    let ghost mid = live@;
                    proof {
                        assert(present(g.clips, c));
                        assert forall|k: LiveView| #[trigger] reach_closed(g, k) implies k.spatials.contains(cl.spatial) by {
                            assert(k.clips.contains(c));
                        }
                    }
                    self.mark_spatial_chain(live, cl.spatial);
                    proof {
                        assert forall|t: usize|
                            #[trigger] live@.clips.contains(t) && present(g.clips, t) && t != c implies clip_brought(
                            g,
                            live@,
                            t,
                        ) by {
                            assert(mid.clips.contains(t));
                            assert(before.clips.contains(t));
                        }
                        assert(g.clips[c as int]->0 == cl);
                    }
                    match cl.parent {
                        None => {
                            proof {
                                assert(clip_brought(g, live@, c));
                            }
                            break;
                        },
                        Some(q) => {
                            proof {
                                assert forall|k: LiveView| #[trigger] reach_closed(g, k) implies k.clips.contains(q) by {
                                    assert(k.clips.contains(c));
                                }
                            }
                            c = q;
                        },
                    }
                },
            }
        }
    }

    /// Keeps what the picture graph reaches from the root picture (see
    /// `reached`) and drops the rest, with its index entries.
    #[verifier::spinoff_prover]
    pub fn retain_picture_graph(&mut self)
        requires
            old(self).wf(),
        ensures
            final(self).wf(),
            final(self)@ == retained(old(self)@, reached(old(self)@)),
    {
        let ghost g = self@;
        let np = self.pictures.len();
        let mut live = LiveIds::new();
        let mut stack: Vec<usize> = Vec::new();
        stack.push(self.root_picture);
        proof {
            assert forall|c: LiveView| #[trigger] reach_closed(g, c) implies live@.pictures.subset_of(c.pictures)
                && live@.primitives.subset_of(c.primitives) && live@.spatials.subset_of(c.spatials)
                && live@.clips.subset_of(c.clips) by {}
            assert(stack@[0] == g.root_picture);
        }
        loop
            invariant
                self.wf(),
                g == self@,
                g.pictures.len() == np,
                below_all(g, live@),
                forall|c: LiveView|
                    #[trigger] reach_closed(g, c) ==> forall|i: int|
                        0 <= i < stack@.len() ==> c.pictures.contains(stack@[i]),
                live@.pictures.contains(g.root_picture) || stack@.contains(g.root_picture),
                forall|t: usize|
                    #[trigger] live@.spatials.contains(t) && present(g.spatials, t) ==> spatial_brought(g, live@, t),
                forall|t: usize| #[trigger] live@.clips.contains(t) && present(g.clips, t) ==> clip_brought(g, live@, t),
                forall|k: usize|
                    #[trigger] live@.primitives.contains(k) && present(g.primitives, k) ==> primitive_brought(
                        g,
                        live@,
                        k,
                    ),
                forall|p: usize|
                    #[trigger] live@.pictures.contains(p) && present(g.pictures, p) ==> picture_brought(
                        g,
                        live@,
                        stack@.to_set(),
                        p,
                    ),
            ensures
                stack@.len() == 0,
                below_all(g, live@),
                live@.pictures.contains(g.root_picture),
                forall|t: usize|
                    #[trigger] live@.spatials.contains(t) && present(g.spatials, t) ==> spatial_brought(g, live@, t),
                forall|t: usize| #[trigger] live@.clips.contains(t) && present(g.clips, t) ==> clip_brought(g, live@, t),
                forall|k: usize|
                    #[trigger] live@.primitives.contains(k) && present(g.primitives, k) ==> primitive_brought(
                        g,
                        live@,
                        k,
                    ),
                forall|p: usize|
                    #[trigger] live@.pictures.contains(p) && present(g.pictures, p) ==> picture_brought(
                        g,
                        live@,
                        Set::empty(),
                        p,
                    ),
            decreases unreached_count(g.pictures, live@.pictures, np as nat), stack@.len(),
        {
            let ghost stack0 = stack@;
            let ghost live0 = live@;
            let p = match stack.pop() {
                Some(p) => p,
                None => {
                    proof {
                        assert(stack@.to_set() =~= Set::<usize>::empty());
                        lemma_pictures_mono(g, live@, live@, stack@.to_set(), Set::empty());
                    }
                    break;
                },
            };
            proof {
                assert(stack0 == stack@.push(p));
                assert forall|q: usize| stack0.to_set().contains(q) implies stack@.to_set().contains(q) || q == p by {
                    let i = choose|i: int| 0 <= i < stack0.len() && stack0[i] == q;
                    if i < stack@.len() {
                        assert(stack@[i] == q);
                    }
                }
                assert forall|c: LiveView| #[trigger] reach_closed(g, c) implies c.pictures.contains(p) by {
                    assert(stack0[stack0.len() - 1] == p);
                }
            }
            if holds(&live.pictures, p) {
                proof {
                    lemma_pictures_mono(g, live0, live@, stack0.to_set(), stack@.to_set());
                    if stack0.contains(g.root_picture) && g.root_picture != p {
                        let i = choose|i: int| 0 <= i < stack0.len() && stack0[i] == g.root_picture;
                        assert(stack@[i] == g.root_picture);
                    }
                }
                continue;
            }
            proof {
                lemma_push_set(live.pictures@, p);
                lemma_unreached_insert(g.pictures, live0.pictures, np as nat, p);
            }
            live.pictures.push(p);
            proof {
                lemma_pictures_mono(g, live0, live@, stack0.to_set(), stack@.to_set());
                assert forall|q: usize| #[trigger] live@.pictures.contains(q) && present(g.pictures, q) && q != p implies picture_brought(
                    g,
                    live@,
                    stack@.to_set(),
                    q,
                ) by {
                    assert(live0.pictures.contains(q));
                }
                if stack0.contains(g.root_picture) && g.root_picture != p {
                    let i = choose|i: int| 0 <= i < stack0.len() && stack0[i] == g.root_picture;
                    assert(stack@[i] == g.root_picture);
                }
                assert forall|c: LiveView| #[trigger] reach_closed(g, c) implies live@.pictures.subset_of(c.pictures) by {}
                assert(live@.spatials == live0.spatials);
                assert(live@.clips == live0.clips);
                assert(live@.primitives == live0.primitives);
                assert forall|t: usize|
                    #[trigger] live@.spatials.contains(t) && present(g.spatials, t) implies spatial_brought(g, live@, t) by {
                    assert(live0.spatials.contains(t));
                }
                assert forall|t: usize| #[trigger] live@.clips.contains(t) && present(g.clips, t) implies clip_brought(
                    g,
                    live@,
                    t,
                ) by {
                    assert(live0.clips.contains(t));
                }
                assert forall|k: usize|
                    #[trigger] live@.primitives.contains(k) && present(g.primitives, k) implies primitive_brought(
                    g,
                    live@,
                    k,
                ) by {
                    assert(live0.primitives.contains(k));
                }
            }
            let pic = match self.picture(p) {
                None => {
                    continue;
                },
                Some(pic) => pic,
            };
            proof {
                assert(present(g.pictures, p));
                assert forall|c: LiveView| #[trigger] reach_closed(g, c) implies c.spatials.contains(pic.placement_spatial) by {
                    assert(c.pictures.contains(p));
                    assert(picture_brought(g, c, Set::empty(), p));
                }
            }
            let ghost l1 = live@;
            self.mark_spatial_chain(&mut live, pic.placement_spatial);
            proof {
                lemma_pictures_mono_except(g, l1, live@, stack@.to_set(), stack@.to_set(), p);
                lemma_primitives_mono(g, l1, live@);
                lemma_clips_mono(g, l1, live@);
            }
            match pic.placement_clip {
                Some(c0) => {
                    proof {
                        assert forall|c: LiveView| #[trigger] reach_closed(g, c) implies c.clips.contains(c0) by {
                            assert(c.pictures.contains(p));
                            assert(picture_brought(g, c, Set::empty(), p));
                        }
                    }
                    let ghost l2 = live@;
                    self.mark_clip_chain(&mut live, c0);
                    proof {
                        lemma_pictures_mono_except(g, l2, live@, stack@.to_set(), stack@.to_set(), p);
                        lemma_primitives_mono(g, l2, live@);
                    }
                },
                None => {},
            }
            let items = self.items(p);
            let mut i: usize = 0;
            while i < items.len()
                invariant
                    self.wf(),
                    g == self@,
                    g.pictures.len() == np,
                    present(g.pictures, p),
                    g.pictures[p as int]->0 == pic,
                    items@ == g.items[p as int],
                    i <= items@.len(),
                    below_all(g, live@),
                    forall|c: LiveView|
                        #[trigger] reach_closed(g, c) ==> forall|j: int|
                            0 <= j < stack@.len() ==> c.pictures.contains(stack@[j]),
                    forall|c: LiveView| #[trigger] reach_closed(g, c) ==> c.pictures.contains(p),
                    live@.pictures.contains(p),
                    live@.pictures.contains(g.root_picture) || stack@.contains(g.root_picture),
                    unreached_count(g.pictures, live@.pictures, np as nat) < unreached_count(
                        g.pictures,
                        live0.pictures,
                        np as nat,
                    ),
                    live@.spatials.contains(pic.placement_spatial),
                    pic.placement_clip matches Some(c) ==> live@.clips.contains(c),
                    forall|j: int|
                        0 <= j < i ==> #[trigger] item_in(live@, items@[j]) || (items@[j] matches PictureItem::Picture(q)
                            && stack@.to_set().contains(q)),
                    forall|t: usize|
                        #[trigger] live@.spatials.contains(t) && present(g.spatials, t) ==> spatial_brought(
                            g,
                            live@,
                            t,
                        ),
                    forall|t: usize|
                        #[trigger] live@.clips.contains(t) && present(g.clips, t) ==> clip_brought(g, live@, t),
                    forall|k: usize|
                        #[trigger] live@.primitives.contains(k) && present(g.primitives, k) ==> primitive_brought(
                            g,
                            live@,
                            k,
                        ),
                    forall|q: usize|
                        #[trigger] live@.pictures.contains(q) && present(g.pictures, q) && q != p ==> picture_brought(
                            g,
                            live@,
                            stack@.to_set(),
                            q,
                        ),
                decreases items@.len() - i,
            {
                let ghost la = live@;
                let ghost sa = stack@;
                proof {
                    assert forall|c: LiveView| #[trigger] reach_closed(g, c) implies item_in(c, items@[i as int]) by {
                        assert(picture_brought(g, c, Set::empty(), p));
                    }
                }
                match items[i] {
                    PictureItem::Primitive(k) => {
                        if !holds(&live.primitives, k) {
                            proof {
                                lemma_push_set(live.primitives@, k);
                            }
                            live.primitives.push(k);
                            proof {
                                lemma_pictures_mono_except(g, la, live@, sa.to_set(), sa.to_set(), p);
                                lemma_clips_mono(g, la, live@);
                                assert forall|c: LiveView| #[trigger] reach_closed(g, c) implies live@.primitives.subset_of(
                                    c.primitives,
                                ) by {
                                    assert(item_in(c, items@[i as int]));
                                }
                            }
                            match self.primitive(k) {
                                None => {},
                                Some(pr) => {
                                    proof {
                                        assert(present(g.primitives, k));
                                        assert forall|c: LiveView| #[trigger] reach_closed(g, c) implies c.spatials.contains(
                                            pr.spatial,
                                        ) by {
                                            assert(item_in(c, items@[i as int]));
                                            assert(c.primitives.contains(k));
                                        }
                                    }
                                    let ghost l3 = live@;
                                    self.mark_spatial_chain(&mut live, pr.spatial);
                                    proof {
                                        lemma_pictures_mono_except(g, l3, live@, stack@.to_set(), stack@.to_set(), p);
                                        lemma_clips_mono(g, l3, live@);
                                    }
                                    match pr.clip {
                                        Some(c0) => {
                                            proof {
                                                assert forall|c: LiveView| #[trigger] reach_closed(g, c) implies c.clips.contains(
                                                    c0,
                                                ) by {
                                                    assert(item_in(c, items@[i as int]));
                                                    assert(c.primitives.contains(k));
                                                }
                                            }
                                            let ghost l4 = live@;
                                            self.mark_clip_chain(&mut live, c0);
                                            proof {
                                                lemma_pictures_mono_except(g, l4, live@, stack@.to_set(), stack@.to_set(), p);
                                            }
                                        },
                                        None => {},
                                    }
                                    proof {
                                        assert(primitive_brought(g, live@, k));
                                    }
                                },
                            }
                            proof {
                                lemma_pictures_mono_except(g, la, live@, sa.to_set(), stack@.to_set(), p);
                                lemma_primitives_mono_except(g, la, live@, k);
                            }
                        }
                    },
                    PictureItem::Picture(q) => {
                        proof {
                            lemma_push_set(stack@, q);
                        }
                        stack.push(q);
                        proof {
                            assert forall|c: LiveView| #[trigger] reach_closed(g, c) implies forall|j: int|
                                0 <= j < stack@.len() ==> c.pictures.contains(stack@[j]) by {
                                assert(item_in(c, items@[i as int]));
                                assert forall|j: int| 0 <= j < stack@.len() implies c.pictures.contains(stack@[j]) by {
                                    if j < sa.len() {
                                        assert(stack@[j] == sa[j]);
                                    }
                                }
                            }
                            if sa.contains(g.root_picture) {
                                let j = choose|j: int| 0 <= j < sa.len() && sa[j] == g.root_picture;
                                assert(stack@[j] == g.root_picture);
                            }
                            lemma_pictures_mono_except(g, la, live@, sa.to_set(), stack@.to_set(), p);
                        }
                    },
                }
                proof {
                    assert(live_within(la, live@));
                    assert forall|q: usize| sa.to_set().contains(q) implies stack@.to_set().contains(q) by {
                        let j = choose|j: int| 0 <= j < sa.len() && sa[j] == q;
                        assert(stack@[j] == sa[j]);
                    }
                    assert forall|j: int|
                        0 <= j < i + 1 implies #[trigger] item_in(live@, items@[j]) || (items@[j] matches PictureItem::Picture(
                        q,
                    ) && stack@.to_set().contains(q)) by {
                        if j < i {
                            assert(item_in(la, items@[j]) || (items@[j] matches PictureItem::Picture(q)
                                && sa.to_set().contains(q)));
                        } else {
                            if let PictureItem::Picture(q) = items@[j] {
                                assert(stack@[stack@.len() - 1] == q);
                            }
                        }
                    }
                }
                i = i + 1;
            }
            proof {
                assert(picture_brought(g, live@, stack@.to_set(), p));
            }
        }
        proof {
            assert(reach_closed(g, live@));
            let r = reached(g);
            assert(live@.pictures =~= r.pictures);
            assert(live@.primitives =~= r.primitives);
            assert(live@.spatials =~= r.spatials);
            assert(live@.clips =~= r.clips);
            assert(live@ == r);
        }
        self.retain_live(&live);
    }

    /// Drops every entry that `live` does not hold, with its index entries.
    fn retain_live(&mut self, live: &LiveIds)
        requires
            old(self).wf(),
        ensures
            final(self).wf(),
            final(self)@ == retained(old(self)@, live@),
    {
        let ghost g = self@;
        sweep(&mut self.pictures, &live.pictures);
        let ghost pics = self.pictures@;
        let mut i: usize = 0;
        let ghost it0 = self.items@;
        while i < self.items.len()
            invariant
                i <= self.items@.len(),
                self.pictures@ == pics,
                self.primitives@ == g.primitives,
                self.spatials@ == g.spatials,
                self.clips@ == g.clips,
                self.picture_by_source@ == old(self).picture_by_source@,
                self.primitive_by_source@ == old(self).primitive_by_source@,
                self.spatial_by_source@ == old(self).spatial_by_source@,
                self.clip_by_source@ == old(self).clip_by_source@,
                self.root_picture == old(self).root_picture,
                self.root_spatial == old(self).root_spatial,
                g == old(self)@,
                old(self).wf(),
                it0 == old(self).items@,
                self.items@.len() == it0.len(),
                forall|j: int|
                    0 <= j < self.items@.len() ==> #[trigger] self.items@[j]@ == if j < i && !live.pictures@.to_set().contains(
                        j as usize,
                    ) {
                        Seq::<PictureItem>::empty()
                    } else {
                        it0[j]@
                    },
            decreases self.items@.len() - i,
        {
            if !holds(&live.pictures, i) {
                self.items.set(i, Vec::new());
            }
            i = i + 1;
        }
        sweep(&mut self.primitives, &live.primitives);
        sweep(&mut self.spatials, &live.spatials);
        sweep(&mut self.clips, &live.clips);
        sweep_index(&mut self.picture_by_source, &live.pictures);
        sweep_index(&mut self.primitive_by_source, &live.primitives);
        sweep_index(&mut self.spatial_by_source, &live.spatials);
        sweep_index(&mut self.clip_by_source, &live.clips);
        proof {
            assert(self@.items =~= retained(g, live@).items);
            assert(self@.pictures =~= retained(g, live@).pictures);
            assert(self@.primitives =~= retained(g, live@).primitives);
            assert(self@.spatials =~= retained(g, live@).spatials);
            assert(self@.clips =~= retained(g, live@).clips);
        }
    }

    /// The index of what the graph holds, by source node, for a compile of
    /// scene revision `scene_revision`.
    pub fn sources(&self, scene_revision: u64) -> (r: CompiledSources)
        requires
            self.wf(),
        ensures
            r.primitives@.to_set() == self@.primitive_by_source.dom(),
            r.spatials@.to_set() == self@.spatial_by_source.dom(),
            r.clips@.to_set() == self@.clip_by_source.dom(),
            r.pictures@.to_set() == self@.picture_by_source.dom(),
            r.scene_revision == scene_revision,
    {
        let r = CompiledSources {
            primitives: index_keys(&self.primitive_by_source),
            spatials: index_keys(&self.spatial_by_source),
            clips: index_keys(&self.clip_by_source),
            pictures: index_keys(&self.picture_by_source),
            scene_revision,
        };
        proof {
            assert(r.primitives@.to_set() =~= self@.primitive_by_source.dom());
            assert(r.spatials@.to_set() =~= self@.spatial_by_source.dom());
            assert(r.clips@.to_set() =~= self@.clip_by_source.dom());
            assert(r.pictures@.to_set() =~= self@.picture_by_source.dom());
        }
        r
    }

    /// The root picture.
    pub fn root_picture(&self) -> (r: usize)
        ensures
            r == self@.root_picture,
    {
        self.root_picture
    }

    /// The root spatial node.
    pub fn root_spatial(&self) -> (r: usize)
        ensures
            r == self@.root_spatial,
    {
        self.root_spatial
    }

    /// Picture `k`, if it is there.
    pub fn picture(&self, k: usize) -> (r: Option<CompiledPicture>)
        ensures
            r == if k < self@.pictures.len() { self@.pictures[k as int] } else { None },
    {
        if k < self.pictures.len() {
            self.pictures[k]
        } else {
            None
        }
    }

    /// The items of picture `k`, in paint order.
    pub fn items(&self, k: usize) -> (r: Vec<PictureItem>)
        requires
            self.wf(),
        ensures
            r@ == if k < self@.items.len() { self@.items[k as int] } else { Seq::empty() },
    {
        let mut r: Vec<PictureItem> = Vec::new();
        if k < self.items.len() {
            let row = &self.items[k];
            let mut i: usize = 0;
            while i < row.len()
                invariant
                    i <= row@.len(),
                    r@ == row@.take(i as int),
                decreases row@.len() - i,
            {
                r.push(row[i]);
                i = i + 1;
                proof {
                    assert(r@ =~= row@.take(i as int));
                }
            }
            proof {
                assert(row@.take(i as int) =~= row@);
            }
        }
        r
    }

    /// Compiled primitive `k`, if it is there.
    pub fn primitive(&self, k: usize) -> (r: Option<CompiledPrimitive>)
        ensures
            r == if k < self@.primitives.len() { self@.primitives[k as int] } else { None },
    {
        if k < self.primitives.len() {
            self.primitives[k]
        } else {
            None
        }
    }

    /// Spatial node `k`, if it is there.
    pub fn spatial(&self, k: usize) -> (r: Option<CompiledSpatialNode>)
        ensures
            r == if k < self@.spatials.len() { self@.spatials[k as int] } else { None },
    {
        if k < self.spatials.len() {
            self.spatials[k]
        } else {
            None
        }
    }

    /// Compiled clip `k`, if it is there.
    pub fn clip(&self, k: usize) -> (r: Option<CompiledClip>)
        ensures
            r == if k < self@.clips.len() { self@.clips[k as int] } else { None },
    {
        if k < self.clips.len() {
            self.clips[k]
        } else {
            None
        }
    }

    /// The picture indexed for source `id`.
    pub fn picture_of(&self, id: RenderNodeId) -> (r: Option<usize>)
        requires
            self.wf(),
        ensures
            r == self@.picture_by_source.get(id),
    {
        index_get(&self.picture_by_source, id)
    }

    /// The compiled primitive indexed for source `id`.
    pub fn primitive_of(&self, id: RenderNodeId) -> (r: Option<usize>)
        requires
            self.wf(),
        ensures
            r == self@.primitive_by_source.get(id),
    {
        index_get(&self.primitive_by_source, id)
    }

    /// The spatial node indexed for source `id`.
    pub fn spatial_of(&self, id: RenderNodeId) -> (r: Option<usize>)
        requires
            self.wf(),
        ensures
            r == self@.spatial_by_source.get(id),
    {
        index_get(&self.spatial_by_source, id)
    }

    /// The compiled clip indexed for source `id`.
    pub fn clip_of(&self, id: RenderNodeId) -> (r: Option<usize>)
        requires
            self.wf(),
        ensures
            r == self@.clip_by_source.get(id),
    {
        index_get(&self.clip_by_source, id)
    }
}

/// Rebuilds the whole graph from the scene (see `spec_rebuild`), keeping
/// the ids of what survives.
pub fn rebuild_structure(compiled: &mut CompiledGraph, source: &RenderScene) -> (r: Result<(), SceneCompileError>)
    requires
        old(compiled).wf(),
        source.wf(),
        present(old(compiled)@.pictures, old(compiled)@.root_picture),
        old(compiled)@.root_spatial < old(compiled)@.spatials.len(),
    ensures
        final(compiled).wf(),
        match spec_rebuild(old(compiled)@, source) {
            Ok(g) => r is Ok && final(compiled)@ == g,
            Err(e) => r == Err::<(), SceneCompileError>(e),
        },
        r is Ok ==> present(final(compiled)@.pictures, final(compiled)@.root_picture) && present(
            final(compiled)@.spatials,
            final(compiled)@.root_spatial,
        ),
{
    let ghost g = compiled@;
    let root = source.root();
    let root_node = match source.node(root) {
        Some(n) => n,
        None => {
            return Err(SceneCompileError::Scene(SceneError::MissingNode(root)));
        },
    };
    let rs = compiled.root_spatial;
    let rp = compiled.root_picture;
    compiled.spatials.set(
        rs,
        Some(
            CompiledSpatialNode {
                source: root,
                parent: None,
                local_transform: 0,
                content_version: ContentVersion { topology: 0, geometry: 0, paint: 0, dynamic: 0 },
            },
        ),
    );
    compiled.pictures.set(
        rp,
        Some(
            CompiledPicture {
                source: root,
                descriptor: LayerDescriptor::default(),
                placement_spatial: rs,
                placement_clip: None,
                content_version: root_node.epochs.content_version(),
                composite_version: root_node.epochs.composite,
                is_root: true,
            },
        ),
    );
    compiled.items.set(rp, Vec::new());
    index_put(&mut compiled.picture_by_source, root, rp);
    let mut live = LiveIds { pictures: vec![rp], primitives: Vec::new(), spatials: vec![rs], clips: Vec::new() };
    proof {
        assert(compiled@.items =~= g.items.update(rp as int, Seq::empty()));
        assert(live@.pictures =~= set![rp]);
        assert(live@.spatials =~= set![rs]);
        assert(live@.primitives =~= Set::<usize>::empty());
        assert(live@.clips =~= Set::<usize>::empty());
        assert(present(compiled@.pictures, rp));
    }
    let ghost g1 = compiled@;
    let walked = walk_node(compiled, source, root, WalkContext { picture: rp, spatial: rs, clip: None }, &mut live);
    match walked {
        Err(e) => {
            return Err(e);
        },
        Ok(()) => {},
    }
    proof {
        assert(present(g1.spatials, rs));
        assert(live@.pictures.contains(rp));
        assert(live@.spatials.contains(rs));
        assert(present(compiled@.pictures, rp));
        assert(present(compiled@.spatials, rs));
    }
    let ghost g2 = compiled@;
    compiled.retain_live(&live);
    proof {
        assert(compiled@.pictures[rp as int] == g2.pictures[rp as int]);
        assert(compiled@.spatials[rs as int] == g2.spatials[rs as int]);
    }
    Ok(())
}

/// Rebuilding the contents of the picture of an isolated layer: the layer
/// must have an indexed picture and be in the scene, else the node is
/// missing; a node of another kind is an error; a picture that is gone
/// is a missing node. Otherwise the picture takes the layer's descriptor and
/// versions and is emptied, and the layer's child is walked into it, in the
/// picture's spatial node with no clip, with only the picture reached so far.
pub open spec fn spec_rebuild_picture(g: GraphView, source: &RenderScene, src: RenderNodeId) -> Result<
    (GraphView, LiveView),
    SceneCompileError,
> {
    let m = source@;
    let missing = Err(SceneCompileError::Scene(SceneError::MissingNode(src)));
    if !g.picture_by_source.dom().contains(src) || !m.dom().contains(src) {
        missing
    } else {
        match m[src].kind {
            RenderNodeKind::Layer(l) => {
                let k = g.picture_by_source[src];
                if !present(g.pictures, k) {
                    missing
                } else {
                    let p = g.pictures[k as int]->0;
                    let g1 = GraphView {
                        pictures: g.pictures.update(
                            k as int,
                            Some(
                                CompiledPicture {
                                    descriptor: l.descriptor,
                                    content_version: content_of(m[src].epochs),
                                    composite_version: m[src].epochs.composite,
                                    ..p
                                },
                            ),
                        ),
                        items: g.items.update(k as int, Seq::empty()),
                        ..g
                    };
                    let l0 = LiveView {
                        pictures: set![k],
                        primitives: Set::empty(),
                        spatials: Set::empty(),
                        clips: Set::empty(),
                    };
                    match l.child {
                        Some(c) => spec_walk(
                            g1,
                            l0,
                            m,
                            c,
                            WalkContext { picture: k, spatial: p.placement_spatial, clip: None },
                            walk_fuel(source, c),
                        ),
                        None => Ok((g1, l0)),
                    }
                }
            },
            _ => Err(
                SceneCompileError::Scene(SceneError::WrongNodeKind { node: src, expected: "isolated layer" }),
            ),
        }
    }
}

/// Rebuilds the contents of the picture of the isolated layer `source_id`
/// (see `spec_rebuild_picture`), keeping the ids of what it finds again.
pub fn rebuild_picture_contents(compiled: &mut CompiledGraph, source: &RenderScene, source_id: RenderNodeId) -> (r:
    Result<(), SceneCompileError>)
    requires
        old(compiled).wf(),
        source.wf(),
    ensures
        final(compiled).wf(),
        match spec_rebuild_picture(old(compiled)@, source, source_id) {
            Ok((g, l)) => r is Ok && final(compiled)@ == g,
            Err(e) => r == Err::<(), SceneCompileError>(e),
        },
        forall|p: usize| present(old(compiled)@.pictures, p) ==> #[trigger] present(final(compiled)@.pictures, p),
        forall|p: usize| present(old(compiled)@.spatials, p) ==> #[trigger] present(final(compiled)@.spatials, p),
        final(compiled)@.pictures.len() >= old(compiled)@.pictures.len(),
        final(compiled)@.spatials.len() >= old(compiled)@.spatials.len(),
        final(compiled)@.root_picture == old(compiled)@.root_picture,
        final(compiled)@.root_spatial == old(compiled)@.root_spatial,
{
    let ghost g = compiled@;
    let k = match index_get(&compiled.picture_by_source, source_id) {
        Some(k) => k,
        None => {
            return Err(SceneCompileError::Scene(SceneError::MissingNode(source_id)));
        },
    };
    let node = match source.node(source_id) {
        Some(n) => n,
        None => {
            return Err(SceneCompileError::Scene(SceneError::MissingNode(source_id)));
        },
    };
    let layer = match &node.kind {
        RenderNodeKind::Layer(l) => *l,
        _ => {
            return Err(
                SceneCompileError::Scene(SceneError::WrongNodeKind { node: source_id, expected: "isolated layer" }),
            );
        },
    };
    let p = match compiled.picture(k) {
        Some(p) => p,
        None => {
            return Err(SceneCompileError::Scene(SceneError::MissingNode(source_id)));
        },
    };
    compiled.pictures.set(
        k,
        Some(
            CompiledPicture {
                descriptor: layer.descriptor,
                content_version: node.epochs.content_version(),
                composite_version: node.epochs.composite,
                ..p
            },
        ),
    );
    compiled.items.set(k, Vec::new());
    let mut live = LiveIds { pictures: vec![k], primitives: Vec::new(), spatials: Vec::new(), clips: Vec::new() };
    proof {
        assert(compiled@.items =~= g.items.update(k as int, Seq::empty()));
        assert(live@.pictures =~= set![k]);
        assert(live@.spatials =~= Set::<usize>::empty());
        assert(live@.primitives =~= Set::<usize>::empty());
        assert(live@.clips =~= Set::<usize>::empty());
        assert(present(compiled@.pictures, k));
    }
    match layer.child {
        Some(c) => walk_node(
            compiled,
            source,
            c,
            WalkContext { picture: k, spatial: p.placement_spatial, clip: None },
            &mut live,
        ),
        None => Ok(()),
    }
}

/// Rebuilding the pictures of the branches `bs` one after another, stopping
/// at the first error.
pub open spec fn spec_rebuild_pictures(g: GraphView, source: &RenderScene, bs: Seq<RenderNodeId>) -> Result<
    GraphView,
    SceneCompileError,
>
    decreases bs.len(),
{
    if bs.len() == 0 {
        Ok(g)
    } else {
        match spec_rebuild_pictures(g, source, bs.drop_last()) {
            Ok(g1) => match spec_rebuild_picture(g1, source, bs.last()) {
                Ok((g2, l)) => Ok(g2),
                Err(e) => Err(e),
            },
            Err(e) => Err(e),
        }
    }
}

/// A rebuild of the branches `bs`: their pictures are rebuilt in turn, and
/// then only what the picture graph reaches from the root picture is kept.
pub open spec fn spec_rebuild_branches(g: GraphView, source: &RenderScene, bs: Seq<RenderNodeId>) -> Result<
    GraphView,
    SceneCompileError,
> {
    match spec_rebuild_pictures(g, source, bs) {
        Ok(g1) => Ok(retained(g1, reached(g1))),
        Err(e) => Err(e),
    }
}

/// Every closed set holds the root picture, so the picture graph reaches it.
pub proof fn lemma_reached_root(g: GraphView)
    ensures
        reached(g).pictures.contains(g.root_picture),
{
}

/// Dropping what `l` does not hold keeps each compiled primitive and clip
/// the one entry of its source.
pub proof fn lemma_retained_indexed(g: GraphView, l: LiveView)
    requires
        indexed_by_source(g),
    ensures
        indexed_by_source(retained(g, l)),
        retained(g, l).primitives.len() == g.primitives.len(),
        retained(g, l).clips.len() == g.clips.len(),
{
    let r = retained(g, l);
    assert forall|k: usize| #[trigger] present(r.primitives, k) implies r.primitive_by_source.dom().contains(
        r.primitives[k as int]->0.source,
    ) && r.primitive_by_source[r.primitives[k as int]->0.source] == k by {
        assert(present(g.primitives, k));
    }
    assert forall|t: RenderNodeId| #[trigger] r.primitive_by_source.dom().contains(t) implies present(
        r.primitives,
        r.primitive_by_source[t],
    ) && r.primitives[r.primitive_by_source[t] as int]->0.source == t by {
        assert(g.primitive_by_source.dom().contains(t));
    }
    assert forall|k: usize| #[trigger] present(r.clips, k) implies r.clip_by_source.dom().contains(
        r.clips[k as int]->0.source,
    ) && r.clip_by_source[r.clips[k as int]->0.source] == k by {
        assert(present(g.clips, k));
    }
    assert forall|t: RenderNodeId| #[trigger] r.clip_by_source.dom().contains(t) implies present(
        r.clips,
        r.clip_by_source[t],
    ) && r.clips[r.clip_by_source[t] as int]->0.source == t by {
        assert(g.clip_by_source.dom().contains(t));
    }
}

proof fn lemma_rebuild_pictures_indexed(g: GraphView, source: &RenderScene, bs: Seq<RenderNodeId>)
    requires
        spec_rebuild_pictures(g, source, bs) is Ok,
    ensures
        grows(g, spec_rebuild_pictures(g, source, bs)->Ok_0),
        indexed_by_source(g) && fits(spec_rebuild_pictures(g, source, bs)->Ok_0) ==> indexed_by_source(
            spec_rebuild_pictures(g, source, bs)->Ok_0,
        ),
    decreases bs.len(),
{
    if bs.len() > 0 {
        lemma_rebuild_pictures_indexed(g, source, bs.drop_last());
        let g1 = spec_rebuild_pictures(g, source, bs.drop_last())->Ok_0;
        let src = bs.last();
        let m = source@;
        if let RenderNodeKind::Layer(l) = m[src].kind {
            let k = g1.picture_by_source[src];
            let p = g1.pictures[k as int]->0;
            let g2 = GraphView {
                pictures: g1.pictures.update(
                    k as int,
                    Some(
                        CompiledPicture {
                            descriptor: l.descriptor,
                            content_version: content_of(m[src].epochs),
                            composite_version: m[src].epochs.composite,
                            ..p
                        },
                    ),
                ),
                items: g1.items.update(k as int, Seq::empty()),
                ..g1
            };
            let l0 = LiveView {
                pictures: set![k],
                primitives: Set::empty(),
                spatials: Set::empty(),
                clips: Set::empty(),
            };
            assert(same_primitives_and_clips(g1, g2));
            if let Some(c) = l.child {
                lemma_walk_indexed(
                    g2,
                    l0,
                    m,
                    c,
                    WalkContext { picture: k, spatial: p.placement_spatial, clip: None },
                    walk_fuel(source, c),
                );
            }
        }
    }
}

/// A rebuild of branches keeps each compiled primitive and clip the one
/// entry of its source, when the graph was so before.
pub proof fn law_branches_keep_one_entry_per_source(g: GraphView, source: &RenderScene, bs: Seq<RenderNodeId>)
    requires
        indexed_by_source(g),
        spec_rebuild_branches(g, source, bs) is Ok,
        fits(spec_rebuild_branches(g, source, bs)->Ok_0),
    ensures
        indexed_by_source(spec_rebuild_branches(g, source, bs)->Ok_0),
{
    lemma_rebuild_pictures_indexed(g, source, bs);
    let g1 = spec_rebuild_pictures(g, source, bs)->Ok_0;
    lemma_retained_indexed(g1, reached(g1));
}

/// Rebuilds the pictures of the isolated layers `branches` in turn, then
/// keeps only what the picture graph reaches (see `spec_rebuild_branches`).
pub fn rebuild_structural_branches(
    compiled: &mut CompiledGraph,
    source: &RenderScene,
    branches: &Vec<RenderNodeId>,
) -> (r: Result<(), SceneCompileError>)
    requires
        old(compiled).wf(),
        source.wf(),
    ensures
        final(compiled).wf(),
        match spec_rebuild_branches(old(compiled)@, source, branches@) {
            Ok(g) => r is Ok && final(compiled)@ == g,
            Err(e) => r == Err::<(), SceneCompileError>(e),
        },
        r is Ok && present(old(compiled)@.pictures, old(compiled)@.root_picture) ==> present(
            final(compiled)@.pictures,
            final(compiled)@.root_picture,
        ),
        final(compiled)@.spatials.len() >= old(compiled)@.spatials.len(),
        final(compiled)@.root_picture == old(compiled)@.root_picture,
        final(compiled)@.root_spatial == old(compiled)@.root_spatial,
{
    let ghost g0 = compiled@;
    let mut i: usize = 0;
    proof {
        assert(branches@.take(0) =~= Seq::<RenderNodeId>::empty());
    }
    while i < branches.len()
        invariant
            i <= branches@.len(),
            compiled.wf(),
            source.wf(),
            g0 == old(compiled)@,
            spec_rebuild_pictures(g0, source, branches@.take(i as int)) == Ok::<GraphView, SceneCompileError>(compiled@),
            present(g0.pictures, g0.root_picture) ==> present(compiled@.pictures, compiled@.root_picture),
            compiled@.spatials.len() >= g0.spatials.len(),
            compiled@.root_picture == g0.root_picture,
            compiled@.root_spatial == g0.root_spatial,
        decreases branches@.len() - i,
    {
        let b = branches[i];
        proof {
            assert(branches@.take(i as int + 1).drop_last() =~= branches@.take(i as int));
            assert(branches@.take(i as int + 1).last() == b);
        }
        match rebuild_picture_contents(compiled, source, b) {
            Err(e) => {
                proof {
                    lemma_branches_error(g0, source, branches@, i as int + 1, e);
                }
                return Err(e);
            },
            Ok(()) => {},
        }
        i = i + 1;
    }
    proof {
        assert(branches@.take(i as int) =~= branches@);
        lemma_reached_root(compiled@);
    }
    compiled.retain_picture_graph();
    Ok(())
}

proof fn lemma_branches_error(g: GraphView, source: &RenderScene, bs: Seq<RenderNodeId>, j: int, e: SceneCompileError)
    requires
        0 <= j <= bs.len(),
        spec_rebuild_pictures(g, source, bs.take(j)) == Err::<GraphView, SceneCompileError>(e),
    ensures
        spec_rebuild_pictures(g, source, bs) == Err::<GraphView, SceneCompileError>(e),
    decreases bs.len() - j,
{
    if j < bs.len() {
        assert(bs.take(j + 1).drop_last() =~= bs.take(j));
        lemma_branches_error(g, source, bs, j + 1, e);
    } else {
        assert(bs.take(j) =~= bs);
    }
}

/// Applies changes that keep the structure, one after another (see
/// `spec_updates`).
pub fn apply_non_structural_updates(
    compiled: &mut CompiledGraph,
    source: &RenderScene,
    changed: &Vec<(RenderNodeId, RenderDirty)>,
) -> (r: Result<(), SceneCompileError>)
    requires
        old(compiled).wf(),
    ensures
        final(compiled).wf(),
        match spec_updates(old(compiled)@, source@, changed@) {
            Ok(g) => r is Ok && final(compiled)@ == g,
            Err(e) => r == Err::<(), SceneCompileError>(e),
        },
        r matches Err(e) ==> exists|j: int|
            0 <= j < changed@.len() && #[trigger] spec_updates(old(compiled)@, source@, changed@.take(j)) == Ok::<
                GraphView,
                SceneCompileError,
            >(final(compiled)@) && spec_update_one(final(compiled)@, source@, changed@[j].0, changed@[j].1) == Err::<
                GraphView,
                SceneCompileError,
            >(e),
{
    let ghost g0 = compiled@;
    let mut i: usize = 0;
    proof {
        assert(changed@.take(0) =~= Seq::<(RenderNodeId, RenderDirty)>::empty());
    }
    while i < changed.len()
        invariant
            i <= changed@.len(),
            compiled.wf(),
            g0 == old(compiled)@,
            spec_updates(g0, source@, changed@.take(i as int)) == Ok::<GraphView, SceneCompileError>(compiled@),
        decreases changed@.len() - i,
    {
        let (id, dirty) = changed[i];
        let ghost gi = compiled@;
        proof {
            assert(changed@.take(i as int + 1).drop_last() =~= changed@.take(i as int));
            assert(changed@.take(i as int + 1).last() == (id, dirty));
        }
        let step = compiled.update_one(source, id, dirty);
        match step {
            Err(e) => {
                proof {
                    lemma_updates_error(g0, source@, changed@, i as int + 1, e);
                    assert(spec_updates(g0, source@, changed@.take(i as int)) == Ok::<GraphView, SceneCompileError>(
                        compiled@,
                    ));
                }
                return Err(e);
            },
            Ok(()) => {},
        }
        i = i + 1;
    }
    proof {
        assert(changed@.take(i as int) =~= changed@);
    }
    Ok(())
}

impl CompiledGraph {
    fn update_one(&mut self, source: &RenderScene, id: RenderNodeId, dirty: RenderDirty) -> (r: Result<
        (),
        SceneCompileError,
    >)
        requires
            old(self).wf(),
        ensures
            final(self).wf(),
            match spec_update_one(old(self)@, source@, id, dirty) {
                Ok(g) => r is Ok && final(self)@ == g,
                Err(e) => r == Err::<(), SceneCompileError>(e) && final(self)@ == old(self)@,
            },
    {
        let ghost g = self@;
        let missing = Err(SceneCompileError::Scene(SceneError::MissingNode(id)));
        let node = match source.node(id) {
            Some(n) => n,
            None => {
                return missing;
            },
        };
        let version = node.epochs.content_version();
        match &node.kind {
            RenderNodeKind::Group(_) => Ok(()),
            RenderNodeKind::Primitive(p) => match kept_entry(&self.primitive_by_source, &self.primitives, id) {
                None => missing,
                Some(k) => {
                    if dirty.bits & 6 != 0 {
                        let old_rec = self.primitives[k].unwrap();
                        self.primitives.set(
                            k,
                            Some(CompiledPrimitive { primitive: p.primitive, content_version: version, ..old_rec }),
                        );
                        proof {
                            assert(self@.items =~= g.items);
                        }
                    }
                    Ok(())
                },
            },
            RenderNodeKind::Transform(t) => match kept_entry(&self.spatial_by_source, &self.spatials, id) {
                None => missing,
                Some(k) => {
                    if dirty.bits & 2 != 0 {
                        let old_rec = self.spatials[k].unwrap();
                        self.spatials.set(
                            k,
                            Some(CompiledSpatialNode { local_transform: t.transform, content_version: version, ..old_rec }),
                        );
                        proof {
                            assert(self@.items =~= g.items);
                        }
                    }
                    Ok(())
                },
            },
            RenderNodeKind::Clip(c) => match kept_entry(&self.clip_by_source, &self.clips, id) {
                None => missing,
                Some(k) => {
                    if dirty.bits & 10 != 0 {
                        let old_rec = self.clips[k].unwrap();
                        self.clips.set(k, Some(CompiledClip { clip: c.clip, content_version: version, ..old_rec }));
                        proof {
                            assert(self@.items =~= g.items);
                        }
                    }
                    Ok(())
                },
            },
            RenderNodeKind::Layer(l) => match index_get(&self.picture_by_source, id) {
                None => Ok(()),
                Some(k) => {
                    if k < self.pictures.len() && self.pictures[k].is_some() {
                        let old_rec = self.pictures[k].unwrap();
                        self.pictures.set(
                            k,
                            Some(
                                CompiledPicture {
                                    descriptor: l.descriptor,
                                    content_version: version,
                                    composite_version: node.epochs.composite,
                                    ..old_rec
                                },
                            ),
                        );
                        proof {
                            assert(self@.items =~= g.items);
                        }
                        Ok(())
                    } else {
                        missing
                    }
                },
            },
        }
    }
}

} // verus!
