//! The retained render scene: a rooted forest of render nodes with parent
//! links, per-node dirty flags, subtree dirty summaries and change epochs.
//!
//! Node payloads that are floating-point values elsewhere in the runtime
//! (transforms, clip shapes, bounds, composite styles, effect lists) are held
//! here by their interned identity: equal values carry equal identities, so
//! comparing identities is comparing values.

use vstd::prelude::*;

use crate::dirty::{law_mark_moves_its_epochs, RenderDirty, RenderEpochs};
use crate::scene_spec::{
    NodeMap, law_primitive_change_bits, preorder, preorder_all, stack_preorder, has_flag, subtree_flag, children_flag, under_children, summaries_rebuilt, children_rebuilt, lemma_rebuild_step, lemma_rebuild_finish, lemma_flags_step, lemma_or_flag, lemma_children_disjoint, lemma_refreshed_dom, lemma_refresh_one_dom, summary_from, node_summary, refreshed, refreshed_all, acknowledged, still_pending, law_acknowledge_is_precise, is_live, subtree_of, lemma_ancestor_pred, lemma_remove_subtree_wf, lemma_same_shape_subtree, layer_change_bits, primitive_change_bits, detached_clean, lemma_singleton_to_set, lemma_insert_to_set, lemma_remove_to_set, lemma_update_to_set, lemma_index_of_unique, single_child_of, single_child_error, swap_updates, unlink_error, lemma_reorder_wf, lemma_replace_wf, depths_after_replace, relinked, same_but_children, attach_error, group_error, with_parent, ancestor_at, ancestor_set, below_k, child_links_ok, depths_after_attach, depths_after_detach, dirty_marked, dirty_union, forest_wf, in_subtree, lemma_ancestor_depth, lemma_ancestor_exists, lemma_ancestor_hop, lemma_ancestor_none, lemma_ancestor_step, lemma_attach_wf, lemma_depth_bound, lemma_detach_wf, lemma_marked_shape, lemma_missing_empty, lemma_partial_advance, lemma_partial_final, lemma_partial_untouched, lemma_same_shape_ancestors, lemma_same_shape_wf, lemma_subtree_child, lemma_subtree_parent, marked_node, next_revision, on_dirty_path, parent_link_ok, partial_marked, propagation_blocked, same_but_parent, same_shape, summary_marked,
};
use crate::node_store::{
    node_slots, node_slots_removals, node_slots_retired, slots_contains, slots_get, slots_get_mut, slots_insert, slots_new, slots_remove,
    NodeSlots, RenderNodeId,
};


verus! {

/// Which geometry and which paint inputs changed between two primitives.
#[derive(Debug, Clone, Copy, PartialEq, Eq, Default, Structural)]
pub struct PrimitiveChange {
    pub geometry: bool,
    pub paint: bool,
}

/// The variant of a drawing primitive.
#[derive(Debug, Clone, Copy, PartialEq, Eq, Structural)]
pub enum PrimitiveKind {
    Shape,
    Path,
    Image,
    Text,
}

/// A drawing primitive as change tracking sees it: its variant, the interned
/// identity of its geometry inputs (bounds, shape, path transform) and that
/// of its paint inputs (fill, stroke, shadow, path, image, text paint).
#[derive(Debug, Clone, Copy, PartialEq, Eq, Structural)]
pub struct Primitive {
    pub kind: PrimitiveKind,
    pub geometry: u64,
    pub paint: u64,
}

impl Primitive {
    pub open spec fn spec_diff(self, next: Primitive) -> PrimitiveChange {
        if self == next {
            PrimitiveChange { geometry: false, paint: false }
        } else if self.kind != next.kind {
            PrimitiveChange { geometry: true, paint: true }
        } else {
            PrimitiveChange { geometry: self.geometry != next.geometry, paint: self.paint != next.paint }
        }
    }

    /// What a diff reports, for any two primitives: of the same variant,
    /// geometry changed exactly when the geometry inputs differ and paint
    /// exactly when the paint inputs differ, each independently of the
    /// other; across variants both changed; equal primitives report nothing,
    /// and a primitive that differs reports some change.
    pub proof fn law_diff_reports_each_part(a: Primitive, b: Primitive)
        ensures
            a.kind == b.kind ==> (a.spec_diff(b).geometry <==> a.geometry != b.geometry),
            a.kind == b.kind ==> (a.spec_diff(b).paint <==> a.paint != b.paint),
            a.kind != b.kind ==> a.spec_diff(b).geometry && a.spec_diff(b).paint,
            a == b ==> !a.spec_diff(b).geometry && !a.spec_diff(b).paint,
            a != b ==> a.spec_diff(b).geometry || a.spec_diff(b).paint,
            a.spec_diff(b) == b.spec_diff(a),
    {
    }

    /// Which parts differ: nothing for equal primitives, everything across
    /// variants, otherwise the geometry and paint parts independently.
    pub fn diff(&self, next: &Primitive) -> (r: PrimitiveChange)
        ensures
            r == self.spec_diff(*next),
    {
        if self.kind == next.kind && self.geometry == next.geometry && self.paint == next.paint {
            return PrimitiveChange { geometry: false, paint: false };
        }
        if self.kind != next.kind {
            return PrimitiveChange { geometry: true, paint: true };
        }
        PrimitiveChange { geometry: self.geometry != next.geometry, paint: self.paint != next.paint }
    }
}

#[derive(Debug, Clone, Copy, PartialEq, Eq, Structural)]
pub enum CachePolicy {
    Disabled,
    Auto,
    Always,
}

impl Default for CachePolicy {
    fn default() -> (r: CachePolicy)
        ensures
            r == CachePolicy::Disabled,
    {
        CachePolicy::Disabled
    }
}

/// Whether descendants of a layer may observe destination history outside it.
#[derive(Debug, Clone, Copy, PartialEq, Eq, Hash, Structural)]
pub enum BackdropIsolation {
    Passthrough,
    Isolate,
}

impl Default for BackdropIsolation {
    fn default() -> (r: BackdropIsolation)
        ensures
            r == BackdropIsolation::Passthrough,
    {
        BackdropIsolation::Passthrough
    }
}

/// The interned identity reserved for the default composite style (opaque,
/// identity transform, normal blend, source-over).
pub open spec fn default_composite() -> u64 {
    0
}

/// The interned identity reserved for an empty effect list.
pub open spec fn no_effects() -> u64 {
    0
}

/// How a layer is cached, composited and isolated. Float-valued parts are
/// held by interned identity.
#[derive(Debug, Clone, Copy, PartialEq, Eq, Structural)]
pub struct LayerDescriptor {
    pub bounds: Option<u64>,
    pub cache_key: Option<u64>,
    pub cache_policy: CachePolicy,
    pub composite: u64,
    pub backdrop_style: Option<u64>,
    pub backdrop_isolation: BackdropIsolation,
    pub effects: u64,
    pub force_offscreen: bool,
}

impl LayerDescriptor {
    /// The layer must render to its own surface: it is forced offscreen,
    /// isolates its backdrop, has effects or a backdrop style, is cached, or
    /// composites other than the default way.
    pub open spec fn spec_requires_isolation(self) -> bool {
        self.force_offscreen || self.backdrop_isolation == BackdropIsolation::Isolate || self.effects
            != no_effects() || self.backdrop_style is Some || self.cache_policy != CachePolicy::Disabled
            || self.composite != default_composite()
    }

    /// A layer needs its own surface exactly when something about it must be
    /// applied to its contents as a whole: each of being forced offscreen,
    /// isolating its backdrop, a non-empty effect list, a backdrop style, a
    /// cache policy, and a composite other than the default one is enough on
    /// its own; without all of them (whatever its bounds and cache key) it
    /// draws in place.
    pub proof fn law_isolation_causes(d: LayerDescriptor)
        ensures
            d.force_offscreen ==> d.spec_requires_isolation(),
            d.backdrop_isolation == BackdropIsolation::Isolate ==> d.spec_requires_isolation(),
            d.effects != no_effects() ==> d.spec_requires_isolation(),
            d.backdrop_style is Some ==> d.spec_requires_isolation(),
            d.cache_policy != CachePolicy::Disabled ==> d.spec_requires_isolation(),
            d.composite != default_composite() ==> d.spec_requires_isolation(),
            !d.force_offscreen && d.backdrop_isolation == BackdropIsolation::Passthrough && d.effects
                == no_effects() && d.backdrop_style is None && d.cache_policy == CachePolicy::Disabled && d.composite
                == default_composite() ==> !d.spec_requires_isolation(),
    {
    }

    pub fn requires_isolation(&self) -> (r: bool)
        ensures
            r == self.spec_requires_isolation(),
    {
        self.force_offscreen || self.backdrop_isolation == BackdropIsolation::Isolate
            || self.effects != 0 || self.backdrop_style.is_some() || self.cache_policy
            != CachePolicy::Disabled || self.composite != 0
    }
}

impl Default for LayerDescriptor {
    fn default() -> (r: LayerDescriptor)
        ensures
            r == (LayerDescriptor {
                bounds: None,
                cache_key: None,
                cache_policy: CachePolicy::Disabled,
                composite: default_composite(),
                backdrop_style: None,
                backdrop_isolation: BackdropIsolation::Passthrough,
                effects: no_effects(),
                force_offscreen: false,
            }),
    {
        LayerDescriptor {
            bounds: None,
            cache_key: None,
            cache_policy: CachePolicy::Disabled,
            composite: 0,
            backdrop_style: None,
            backdrop_isolation: BackdropIsolation::Passthrough,
            effects: 0,
            force_offscreen: false,
        }
    }
}

/// Errors of scene edits.
#[derive(Debug, Clone, Copy, PartialEq, Eq)]
pub enum SceneError {
    MissingNode(RenderNodeId),
    NodeCannotHaveChildren(RenderNodeId),
    UseSingleChildApi(RenderNodeId),
    UseGroupChildrenApi(RenderNodeId),
    InvalidChildIndex { parent: RenderNodeId, index: usize, len: usize },
    DuplicateChild { parent: RenderNodeId, child: RenderNodeId },
    AlreadyHasParent(RenderNodeId),
    CycleDetected { parent: RenderNodeId, child: RenderNodeId },
    ChildNotFound { parent: RenderNodeId, child: RenderNodeId },
    WrongNodeKind { node: RenderNodeId, expected: &'static str },
    CannotRemoveRoot,
}

/// A change to the scene, named as data.
#[derive(Debug, Clone, Copy, PartialEq, Eq, Structural)]
pub enum ScenePatch {
    SetVisible { node: RenderNodeId, visible: bool },
    UpdatePrimitive { node: RenderNodeId, primitive: Primitive },
    UpdateTransform { node: RenderNodeId, transform: u64 },
    UpdateClip { node: RenderNodeId, clip: u64 },
    UpdateLayerComposite { node: RenderNodeId, composite: u64 },
    UpdateLayer { node: RenderNodeId, descriptor: LayerDescriptor },
    RemoveSubtree { node: RenderNodeId },
}

/// An edit's result without its change flag.
pub open spec fn unit_result(b: Result<bool, SceneError>) -> Result<(), SceneError> {
    match b {
        Ok(_) => Ok(()),
        Err(e) => Err(e),
    }
}

fn drop_flag(b: Result<bool, SceneError>) -> (r: Result<(), SceneError>)
    ensures
        r == unit_result(b),
{
    match b {
        Ok(_) => Ok(()),
        Err(e) => Err(e),
    }
}

#[derive(Debug, Clone, PartialEq, Eq)]
pub struct GroupNode {
    pub children: Vec<RenderNodeId>,
}

#[derive(Debug, Clone, Copy, PartialEq, Eq, Structural)]
pub struct PrimitiveNode {
    pub primitive: Primitive,
}

/// A transform node; `transform` is the interned identity of its affine map.
#[derive(Debug, Clone, Copy, PartialEq, Eq, Structural)]
pub struct TransformNode {
    pub transform: u64,
    pub child: Option<RenderNodeId>,
}

/// A clip node; `clip` is the interned identity of its clip shape.
#[derive(Debug, Clone, Copy, PartialEq, Eq, Structural)]
pub struct ClipNode {
    pub clip: u64,
    pub child: Option<RenderNodeId>,
}

#[derive(Debug, Clone, Copy, PartialEq, Eq, Structural)]
pub struct LayerNode {
    pub descriptor: LayerDescriptor,
    pub child: Option<RenderNodeId>,
}

#[derive(Debug, Clone, PartialEq, Eq)]
pub enum RenderNodeKind {
    Group(GroupNode),
    Primitive(PrimitiveNode),
    Transform(TransformNode),
    Clip(ClipNode),
    Layer(LayerNode),
}

/// The children of a node kind: a group's ordered list, the optional single
/// child of a transform, clip or layer, nothing for a primitive.
pub open spec fn kind_children(kind: RenderNodeKind) -> Seq<RenderNodeId> {
    match kind {
        RenderNodeKind::Group(g) => g.children@,
        RenderNodeKind::Primitive(_) => Seq::empty(),
        RenderNodeKind::Transform(t) => opt_seq(t.child),
        RenderNodeKind::Clip(c) => opt_seq(c.child),
        RenderNodeKind::Layer(l) => opt_seq(l.child),
    }
}

pub open spec fn opt_seq(o: Option<RenderNodeId>) -> Seq<RenderNodeId> {
    match o {
        Some(c) => seq![c],
        None => Seq::empty(),
    }
}

#[derive(Debug, Clone)]
pub struct RenderNode {
    pub parent: Option<RenderNodeId>,
    pub kind: RenderNodeKind,
    pub visible: bool,
    pub dirty: RenderDirty,
    pub subtree_dirty: RenderDirty,
    pub epochs: RenderEpochs,
    /// Whether the node is already queued in the scene's dirty list.
    pub dirty_enqueued: bool,
}

impl RenderNode {
    pub open spec fn spec_children(self) -> Seq<RenderNodeId> {
        kind_children(self.kind)
    }

    /// A detached, visible, clean node.
    pub open spec fn is_clean_detached(self) -> bool {
        &&& self.parent is None
        &&& self.visible
        &&& self.dirty.mask() == 0
        &&& self.subtree_dirty.mask() == 0
        &&& self.epochs == (RenderEpochs { topology: 0, geometry: 0, paint: 0, composite: 0 })
        &&& !self.dirty_enqueued
    }

    pub open spec fn is_fresh(self, kind: RenderNodeKind) -> bool {
        self.is_clean_detached() && self.kind == kind
    }

    pub fn new(kind: RenderNodeKind) -> (r: RenderNode)
        ensures
            r.is_fresh(kind),
    {
        RenderNode {
            parent: None,
            kind,
            visible: true,
            dirty: RenderDirty::empty(),
            subtree_dirty: RenderDirty::empty(),
            epochs: RenderEpochs { topology: 0, geometry: 0, paint: 0, composite: 0 },
            dirty_enqueued: false,
        }
    }

    pub fn group() -> (r: RenderNode)
        ensures
            r.is_clean_detached(),
            r.kind is Group,
            r.spec_children() == Seq::<RenderNodeId>::empty(),
    {
        RenderNode::new(RenderNodeKind::Group(GroupNode { children: Vec::new() }))
    }

    pub fn primitive(primitive: Primitive) -> (r: RenderNode)
        ensures
            r.is_fresh(RenderNodeKind::Primitive(PrimitiveNode { primitive })),
    {
        RenderNode::new(RenderNodeKind::Primitive(PrimitiveNode { primitive }))
    }

    pub fn transform(transform: u64) -> (r: RenderNode)
        ensures
            r.is_fresh(RenderNodeKind::Transform(TransformNode { transform, child: None })),
    {
        RenderNode::new(RenderNodeKind::Transform(TransformNode { transform, child: None }))
    }

    pub fn clip(clip: u64) -> (r: RenderNode)
        ensures
            r.is_fresh(RenderNodeKind::Clip(ClipNode { clip, child: None })),
    {
        RenderNode::new(RenderNodeKind::Clip(ClipNode { clip, child: None }))
    }

    pub fn layer(descriptor: LayerDescriptor) -> (r: RenderNode)
        ensures
            r.is_fresh(RenderNodeKind::Layer(LayerNode { descriptor, child: None })),
    {
        RenderNode::new(RenderNodeKind::Layer(LayerNode { descriptor, child: None }))
    }

    /// The node's children in order.
    pub fn children(&self) -> (r: &[RenderNodeId])
        ensures
            r@ == self.spec_children(),
    {
        match &self.kind {
            RenderNodeKind::Group(group) => group.children.as_slice(),
            RenderNodeKind::Transform(node) => node.child.as_slice(),
            RenderNodeKind::Clip(node) => node.child.as_slice(),
            RenderNodeKind::Layer(node) => node.child.as_slice(),
            RenderNodeKind::Primitive(_) => &[],
        }
    }
}

/// The first position of `x` in `v`.
fn position_of(v: &[RenderNodeId], x: RenderNodeId) -> (r: Option<usize>)
    ensures
        r matches Some(i) ==> i < v@.len() && v@[i as int] == x,
        r is None ==> !v@.contains(x),
{
    let mut i: usize = 0;
    while i < v.len()
        invariant
            i <= v@.len(),
            forall|j: int| 0 <= j < i ==> v@[j] != x,
        decreases v@.len() - i,
    {
        if v[i] == x {
            return Some(i);
        }
        i = i + 1;
    }
    None
}

/// A copy of a list of handles.
fn copy_ids(v: &[RenderNodeId]) -> (r: Vec<RenderNodeId>)
    ensures
        r@ == v@,
{
    let mut r: Vec<RenderNodeId> = Vec::new();
    let mut i: usize = 0;
    while i < v.len()
        invariant
            i <= v@.len(),
            r@ == v@.subrange(0, i as int),
        decreases v@.len() - i,
    {
        r.push(v[i]);
        i = i + 1;
    }
    assert(r@ =~= v@);
    r
}

/// The scene revision and the dirty queue at one moment.
#[derive(Debug, Clone)]
pub struct DirtySnapshot {
    pub revision: u64,
    pub nodes: Vec<RenderNodeId>,
}

/// A retained render scene. Nodes live in a slot map; each node knows its
/// parent, and parents list their children.
pub struct RenderScene {
    nodes: NodeSlots,
    root: RenderNodeId,
    revision: u64,
    dirty_nodes: Vec<RenderNodeId>,
    depth: Ghost<Map<RenderNodeId, nat>>,
}

impl View for RenderScene {
    type V = NodeMap;

    closed spec fn view(&self) -> NodeMap {
        node_slots(self.nodes)
    }
}

impl RenderScene {
    pub closed spec fn spec_root(&self) -> RenderNodeId {
        self.root
    }

    pub closed spec fn spec_revision(&self) -> u64 {
        self.revision
    }

    /// The queue of nodes marked dirty since they were last taken or acknowledged.
    pub closed spec fn spec_dirty_nodes(&self) -> Seq<RenderNodeId> {
        self.dirty_nodes@
    }

    /// The outcome of a successful edit of `p`'s children: the links change as
    /// `relinked` says, then `p` is marked with a topology change.
    pub open spec fn topology_edited(
        old: &RenderScene,
        new: &RenderScene,
        p: RenderNodeId,
        s: Seq<RenderNodeId>,
        ups: Map<RenderNodeId, Option<RenderNodeId>>,
    ) -> bool {
        &&& new.spec_root() == old.spec_root()
        &&& new.spec_revision() == next_revision(old.spec_revision())
        &&& exists|m1: NodeMap|
            relinked(old@, m1, p, s, ups) && new@ == dirty_marked(
                m1,
                p,
                RenderDirty { bits: 1 },
                new.spec_revision(),
            )
        &&& new.spec_dirty_nodes() == if old@[p].dirty_enqueued {
            old.spec_dirty_nodes()
        } else {
            old.spec_dirty_nodes().push(p)
        }
    }

    /// The outcome of a successful change to node `id`: it becomes `n`, then
    /// is marked dirty with `bits`.
    pub open spec fn node_edited(
        old: &RenderScene,
        new: &RenderScene,
        id: RenderNodeId,
        n: RenderNode,
        bits: u16,
    ) -> bool {
        &&& new.spec_root() == old.spec_root()
        &&& new.spec_revision() == next_revision(old.spec_revision())
        &&& new@ == dirty_marked(old@.insert(id, n), id, RenderDirty { bits }, new.spec_revision())
        &&& new.spec_dirty_nodes() == if old@[id].dirty_enqueued {
            old.spec_dirty_nodes()
        } else {
            old.spec_dirty_nodes().push(id)
        }
    }

    /// The outcome of a successful `detach(c)` of a live node `c`.
    pub open spec fn detached(old: &RenderScene, new: &RenderScene, c: RenderNodeId) -> bool {
        match old@[c].parent {
            None => *new == *old,
            Some(p) => Self::topology_edited(
                old,
                new,
                p,
                old@[p].spec_children().remove(old@[p].spec_children().index_of(c)),
                map![c => None],
            ),
        }
    }

    /// Parent and child links agree and parent chains end.
    /// What `update_primitive` does: its result and the scene after it.
    pub open spec fn primitive_outcome(
        old: &RenderScene,
        new: &RenderScene,
        id: RenderNodeId, primitive: Primitive,
        r: Result<bool, SceneError>,
    ) -> bool {
        &&& (!old@.dom().contains(id) ==> r == Err::<bool, SceneError>(SceneError::MissingNode(id)) && *new == *old)
        &&& (old@.dom().contains(id) && old@[id].kind !is Primitive ==> r == Err::< bool, SceneError, >(SceneError::WrongNodeKind { node: id, expected: "Primitive" }) && *new == *old)
        &&& (old@.dom().contains(id) && old@[id].kind is Primitive ==> { let current = old@[id].kind->Primitive_0.primitive; &&& primitive_change_bits(current, primitive) == 0 ==> r == Ok::<bool, SceneError>(false) && *new == *old &&& primitive_change_bits(current, primitive) != 0 ==> r == Ok::<bool, SceneError>(true) && Self::node_edited( old, new, id, RenderNode { kind: RenderNodeKind::Primitive(PrimitiveNode { primitive }), ..old@[id] }, primitive_change_bits(current, primitive), ) })
    }

    /// A change of a node's value, for any scene and edit that changes it:
    /// the node takes its new value, gains exactly the edit's flags on top of
    /// those it had, is queued, and its epochs are stamped with the scene's
    /// next revision (those of the edit's kinds; see
    /// `law_mark_moves_its_epochs`).
    pub proof fn law_edit_marks_node(old: &RenderScene, new: &RenderScene, id: RenderNodeId, n: RenderNode, bits: u16)
        requires
            Self::node_edited(old, new, id, n, bits),
            old@.dom().contains(id),
        ensures
            new.spec_revision() == next_revision(old.spec_revision()),
            new@[id].kind == n.kind,
            new@[id].visible == n.visible,
            new@[id].dirty == (RenderDirty { bits: n.dirty.bits | bits }),
            new@[id].dirty_enqueued,
            new@[id].epochs == n.epochs.spec_mark(RenderDirty { bits }, new.spec_revision()),
            !old@[id].dirty_enqueued ==> new.spec_dirty_nodes() == old.spec_dirty_nodes().push(id),
            new@.dom() == old@.dom(),
    {
        assert(new@.dom() =~= old@.dom());
    }

    /// Which flags each value edit that changes something marks, for any
    /// scene: a transform marks geometry (2) and moves the geometry epoch; a
    /// clip marks clip and geometry (8 | 2) and moves the geometry epoch; a
    /// layer composite marks composite (16) and moves only the composite
    /// epoch; showing or hiding marks visibility (64) and moves the geometry
    /// epoch; a primitive marks geometry when its geometry inputs changed and
    /// paint when its paint inputs changed, moving those epochs.
    pub proof fn law_value_edits_mark_their_flags(old: &RenderScene, new: &RenderScene, id: RenderNodeId)
        requires
            old@.dom().contains(id),
        ensures
            forall|t: u64|
                Self::transform_outcome(old, new, id, t, Ok(true)) ==> new@[id].dirty == (RenderDirty {
                    bits: old@[id].dirty.bits | 2,
                }) && new@[id].epochs.geometry == new.spec_revision() && new@[id].epochs.paint == old@[id].epochs.paint
                    && new@[id].kind->Transform_0.transform == t,
            forall|c: u64|
                Self::clip_outcome(old, new, id, c, Ok(true)) ==> new@[id].dirty == (RenderDirty {
                    bits: old@[id].dirty.bits | 10,
                }) && new@[id].epochs.geometry == new.spec_revision() && new@[id].kind->Clip_0.clip == c,
            forall|c: u64|
                Self::composite_outcome(old, new, id, c, Ok(true)) ==> new@[id].dirty == (RenderDirty {
                    bits: old@[id].dirty.bits | 16,
                }) && new@[id].epochs.composite == new.spec_revision() && new@[id].epochs.geometry
                    == old@[id].epochs.geometry && new@[id].epochs.paint == old@[id].epochs.paint
                    && new@[id].epochs.topology == old@[id].epochs.topology
                    && new@[id].kind->Layer_0.descriptor.composite == c,
            forall|v: bool|
                Self::visible_outcome(old, new, id, v, Ok(true)) ==> new@[id].dirty == (RenderDirty {
                    bits: old@[id].dirty.bits | 64,
                }) && new@[id].epochs.geometry == new.spec_revision() && new@[id].visible == v,
            forall|p: Primitive|
                Self::primitive_outcome(old, new, id, p, Ok(true)) ==> {
                    let cur = old@[id].kind->Primitive_0.primitive;
                    &&& new@[id].kind->Primitive_0.primitive == p
                    &&& (cur.kind == p.kind && cur.geometry != p.geometry || cur.kind != p.kind) ==> new@[id].epochs.geometry
                        == new.spec_revision()
                    &&& (cur.kind == p.kind && cur.paint != p.paint || cur.kind != p.kind) ==> new@[id].epochs.paint
                        == new.spec_revision()
                    &&& (cur.kind == p.kind && cur.geometry == p.geometry) ==> new@[id].epochs.geometry
                        == old@[id].epochs.geometry
                    &&& (cur.kind == p.kind && cur.paint == p.paint) ==> new@[id].epochs.paint == old@[id].epochs.paint
                },
    {
        let rev = next_revision(old.spec_revision());
        let o = old@[id];
        assert(2u16 & 1 == 0 && 2u16 & 2 != 0 && 2u16 & 4 == 0 && 2u16 & 32 == 0 && 2u16 & 16 == 0 && 10u16 & 2
            != 0 && 16u16 & 1 == 0 && 16u16 & 2 == 0 && 16u16 & 8 == 0 && 16u16 & 64 == 0 && 16u16 & 4 == 0 && 16u16
            & 32 == 0 && 16u16 & 16 != 0 && 64u16 & 64 != 0) by (bit_vector);
        assert forall|t: u64| Self::transform_outcome(old, new, id, t, Ok(true)) implies new@[id].dirty == (RenderDirty {
            bits: old@[id].dirty.bits | 2,
        }) && new@[id].epochs.geometry == new.spec_revision() && new@[id].epochs.paint == old@[id].epochs.paint
            && new@[id].kind->Transform_0.transform == t by {
            let cur = o.kind->Transform_0;
            let n = RenderNode { kind: RenderNodeKind::Transform(TransformNode { transform: t, ..cur }), ..o };
            Self::law_edit_marks_node(old, new, id, n, 2);
            law_mark_moves_its_epochs(o.epochs, RenderDirty { bits: 2 }, rev);
        }
        assert forall|c: u64| Self::clip_outcome(old, new, id, c, Ok(true)) implies new@[id].dirty == (RenderDirty {
            bits: old@[id].dirty.bits | 10,
        }) && new@[id].epochs.geometry == new.spec_revision() && new@[id].kind->Clip_0.clip == c by {
            let cur = o.kind->Clip_0;
            let n = RenderNode { kind: RenderNodeKind::Clip(ClipNode { clip: c, ..cur }), ..o };
            Self::law_edit_marks_node(old, new, id, n, 10);
            law_mark_moves_its_epochs(o.epochs, RenderDirty { bits: 10 }, rev);
        }
        assert forall|c: u64| Self::composite_outcome(old, new, id, c, Ok(true)) implies new@[id].dirty == (RenderDirty {
            bits: old@[id].dirty.bits | 16,
        }) && new@[id].epochs.composite == new.spec_revision() && new@[id].epochs.geometry == old@[id].epochs.geometry
            && new@[id].epochs.paint == old@[id].epochs.paint && new@[id].epochs.topology == old@[id].epochs.topology
            && new@[id].kind->Layer_0.descriptor.composite == c by {
            let cur = o.kind->Layer_0;
            let n = RenderNode {
                kind: RenderNodeKind::Layer(LayerNode { descriptor: LayerDescriptor { composite: c, ..cur.descriptor }, ..cur }),
                ..o
            };
            Self::law_edit_marks_node(old, new, id, n, 16);
            law_mark_moves_its_epochs(o.epochs, RenderDirty { bits: 16 }, rev);
        }
        assert forall|v: bool| Self::visible_outcome(old, new, id, v, Ok(true)) implies new@[id].dirty == (RenderDirty {
            bits: old@[id].dirty.bits | 64,
        }) && new@[id].epochs.geometry == new.spec_revision() && new@[id].visible == v by {
            let n = RenderNode { visible: v, ..o };
            Self::law_edit_marks_node(old, new, id, n, 64);
            law_mark_moves_its_epochs(o.epochs, RenderDirty { bits: 64 }, rev);
        }
        assert forall|p: Primitive| Self::primitive_outcome(old, new, id, p, Ok(true)) implies {
            let cur = old@[id].kind->Primitive_0.primitive;
            &&& new@[id].kind->Primitive_0.primitive == p
            &&& (cur.kind == p.kind && cur.geometry != p.geometry || cur.kind != p.kind) ==> new@[id].epochs.geometry
                == new.spec_revision()
            &&& (cur.kind == p.kind && cur.paint != p.paint || cur.kind != p.kind) ==> new@[id].epochs.paint
                == new.spec_revision()
            &&& (cur.kind == p.kind && cur.geometry == p.geometry) ==> new@[id].epochs.geometry == old@[id].epochs.geometry
            &&& (cur.kind == p.kind && cur.paint == p.paint) ==> new@[id].epochs.paint == old@[id].epochs.paint
        } by {
            let cur = o.kind->Primitive_0.primitive;
            let bits = primitive_change_bits(cur, p);
            law_primitive_change_bits(cur, p);
            let n = RenderNode { kind: RenderNodeKind::Primitive(PrimitiveNode { primitive: p }), ..o };
            Self::law_edit_marks_node(old, new, id, n, bits);
            law_mark_moves_its_epochs(o.epochs, RenderDirty { bits }, rev);
            assert(bits & 0xfff9 == 0);
            assert((bits & 0xfff9 == 0 ==> bits & 8 == 0 && bits & 64 == 0 && bits & 32 == 0) && (bits == 6 ==> bits & 2
                != 0 && bits & 4 != 0)) by (bit_vector);
        }
    }

    /// What `update_transform` does: its result and the scene after it.
    pub open spec fn transform_outcome(
        old: &RenderScene,
        new: &RenderScene,
        id: RenderNodeId, transform: u64,
        r: Result<bool, SceneError>,
    ) -> bool {
        &&& (!old@.dom().contains(id) ==> r == Err::<bool, SceneError>(SceneError::MissingNode(id)) && *new == *old)
        &&& (old@.dom().contains(id) && old@[id].kind !is Transform ==> r == Err::< bool, SceneError, >(SceneError::WrongNodeKind { node: id, expected: "Transform" }) && *new == *old)
        &&& (old@.dom().contains(id) && old@[id].kind is Transform ==> { let current = old@[id].kind->Transform_0; &&& current.transform == transform ==> r == Ok::<bool, SceneError>(false) && *new == *old &&& current.transform != transform ==> r == Ok::<bool, SceneError>(true) && Self::node_edited( old, new, id, RenderNode { kind: RenderNodeKind::Transform(TransformNode { transform, ..current }), ..old@[id] }, 2, ) })
    }

    /// What `update_clip` does: its result and the scene after it.
    pub open spec fn clip_outcome(
        old: &RenderScene,
        new: &RenderScene,
        id: RenderNodeId, clip: u64,
        r: Result<bool, SceneError>,
    ) -> bool {
        &&& (!old@.dom().contains(id) ==> r == Err::<bool, SceneError>(SceneError::MissingNode(id)) && *new == *old)
        &&& (old@.dom().contains(id) && old@[id].kind !is Clip ==> r == Err::< bool, SceneError, >(SceneError::WrongNodeKind { node: id, expected: "Clip" }) && *new == *old)
        &&& (old@.dom().contains(id) && old@[id].kind is Clip ==> { let current = old@[id].kind->Clip_0; &&& current.clip == clip ==> r == Ok::<bool, SceneError>(false) && *new == *old &&& current.clip != clip ==> r == Ok::<bool, SceneError>(true) && Self::node_edited( old, new, id, RenderNode { kind: RenderNodeKind::Clip(ClipNode { clip, ..current }), ..old@[id] }, 10, ) })
    }

    /// What `update_layer_descriptor` does: its result and the scene after it.
    pub open spec fn layer_outcome(
        old: &RenderScene,
        new: &RenderScene,
        id: RenderNodeId, descriptor: LayerDescriptor,
        r: Result<bool, SceneError>,
    ) -> bool {
        &&& (!old@.dom().contains(id) ==> r == Err::<bool, SceneError>(SceneError::MissingNode(id)) && *new == *old)
        &&& (old@.dom().contains(id) && old@[id].kind !is Layer ==> r == Err::< bool, SceneError, >(SceneError::WrongNodeKind { node: id, expected: "Layer" }) && *new == *old)
        &&& (old@.dom().contains(id) && old@[id].kind is Layer ==> { let current = old@[id].kind->Layer_0; &&& current.descriptor == descriptor ==> r == Ok::<bool, SceneError>(false) && *new == *old &&& current.descriptor != descriptor ==> r == Ok::<bool, SceneError>(true) && Self::node_edited( old, new, id, RenderNode { kind: RenderNodeKind::Layer(LayerNode { descriptor, ..current }), ..old@[id] }, layer_change_bits(current.descriptor, descriptor), ) })
    }

    /// What `update_layer_composite` does: its result and the scene after it.
    pub open spec fn composite_outcome(
        old: &RenderScene,
        new: &RenderScene,
        id: RenderNodeId, composite: u64,
        r: Result<bool, SceneError>,
    ) -> bool {
        &&& (!old@.dom().contains(id) ==> r == Err::<bool, SceneError>(SceneError::MissingNode(id)) && *new == *old)
        &&& (old@.dom().contains(id) && old@[id].kind !is Layer ==> r == Err::< bool, SceneError, >(SceneError::WrongNodeKind { node: id, expected: "Layer" }) && *new == *old)
        &&& (old@.dom().contains(id) && old@[id].kind is Layer ==> { let current = old@[id].kind->Layer_0; &&& current.descriptor.composite == composite ==> r == Ok::<bool, SceneError>(false) && *new == *old &&& current.descriptor.composite != composite ==> r == Ok::<bool, SceneError>(true) && Self::node_edited( old, new, id, RenderNode { kind: RenderNodeKind::Layer( LayerNode { descriptor: LayerDescriptor { composite, ..current.descriptor }, ..current }, ), ..old@[id] }, 16, ) })
    }

    /// What `set_visible` does: its result and the scene after it.
    pub open spec fn visible_outcome(
        old: &RenderScene,
        new: &RenderScene,
        id: RenderNodeId, visible: bool,
        r: Result<bool, SceneError>,
    ) -> bool {
        &&& (!old@.dom().contains(id) ==> r == Err::<bool, SceneError>(SceneError::MissingNode(id)) && *new == *old)
        &&& (old@.dom().contains(id) && old@[id].visible == visible ==> r == Ok::< bool, SceneError, >(false) && *new == *old)
        &&& (old@.dom().contains(id) && old@[id].visible != visible ==> r == Ok::< bool, SceneError, >(true) && Self::node_edited( old, new, id, RenderNode { visible, ..old@[id] }, 64, ))
    }

    /// What `remove_subtree` does: its result and the scene after it.
    pub open spec fn removal_outcome(
        old: &RenderScene,
        new: &RenderScene,
        root: RenderNodeId,
        r: Result<(), SceneError>,
    ) -> bool {
        &&& (new.spec_root() == old.spec_root())
        &&& (root == old.spec_root() ==> r == Err::<(), SceneError>(SceneError::CannotRemoveRoot) && *new == *old)
        &&& (root != old.spec_root() && !old@.dom().contains(root) ==> r == Err::< (), SceneError, >(SceneError::MissingNode(root)) && *new == *old)
        &&& (root != old.spec_root() && old@.dom().contains(root) ==> { &&& r == Ok::<(), SceneError>(()) &&& new@.dom() == old@.dom().difference(subtree_of(old@, root)) &&& exists|mid: RenderScene| Self::detached(old, &mid, root) && new@ == mid@.remove_keys( subtree_of(old@, root), ) && new.spec_revision() == mid.spec_revision() && new.spec_dirty_nodes() == mid.spec_dirty_nodes() })
    }

    pub closed spec fn wf(&self) -> bool {
        &&& forest_wf(self@, self.depth@)
        &&& self@.dom().len() < 0xffff_fffe
    }

    pub proof fn lemma_wf_forest(&self)
        requires
            self.wf(),
        ensures
            exists|d: Map<RenderNodeId, nat>| forest_wf(self@, d),
            self@.dom().finite(),
    {
        assert(forest_wf(self@, self.depth@));
    }

    /// The distance of each node from the top of its tree.
    pub closed spec fn spec_depth(&self) -> Map<RenderNodeId, nat> {
        self.depth@
    }

    /// The depth map witnesses that the nodes form a forest.
    pub proof fn lemma_depth_forest(&self)
        requires
            self.wf(),
        ensures
            forest_wf(self@, self.spec_depth()),
    {
    }


    pub fn new() -> (r: RenderScene)
        ensures
            r.wf(),
            r@.dom() == set![r.spec_root()],
            r@[r.spec_root()].parent is None,
            r@[r.spec_root()].kind is Group,
            r@[r.spec_root()].spec_children() == Seq::<RenderNodeId>::empty(),
            r@[r.spec_root()].visible,
            r@[r.spec_root()].dirty.mask() == 0x7f,
            r@[r.spec_root()].subtree_dirty.mask() == 0x7f,
            r@[r.spec_root()].epochs == (RenderEpochs { topology: 1, geometry: 1, paint: 1, composite: 1 }),
            r@[r.spec_root()].dirty_enqueued,
            r.spec_revision() == 1,
            r.spec_dirty_nodes() == seq![r.spec_root()],
            r.spec_retired() == Set::<RenderNodeId>::empty(),
            r.spec_removals() == 0,
    {
        let mut nodes = slots_new();
        let root = slots_insert(&mut nodes, RenderNode::group());
        let mut scene = RenderScene {
            nodes,
            root,
            revision: 0,
            dirty_nodes: Vec::new(),
            depth: Ghost(Map::empty().insert(root, 0)),
        };
        proof {
            assert(scene@.dom() =~= set![root]);
            assert(scene@[root].spec_children().len() == 0);
            assert(forest_wf(scene@, scene.depth@));
            assert(scene@.dom().len() == 1);
        }
        scene.mark_dirty(root, RenderDirty::all());
        proof {
            assert((0u16 | 0x7fu16) == 0x7fu16 && 0x7fu16 & 1 == 1 && 0x7fu16 & 0x4a != 0 && 0x7fu16 & 0x24 != 0
                && 0x7fu16 & 16 == 16) by (bit_vector);
        }
        scene
    }

    pub fn root(&self) -> (r: RenderNodeId)
        ensures
            r == self.spec_root(),
    {
        self.root
    }

    pub fn revision(&self) -> (r: u64)
        ensures
            r == self.spec_revision(),
    {
        self.revision
    }

    pub fn node(&self, id: RenderNodeId) -> (r: Option<&RenderNode>)
        ensures
            r.is_some() == self@.dom().contains(id),
            r matches Some(n) ==> *n == self@[id],
    {
        proof {
            use_type_invariant(&id);
        }
        slots_get(&self.nodes, id)
    }

    pub fn contains(&self, id: RenderNodeId) -> (r: bool)
        ensures
            r == self@.dom().contains(id),
    {
        proof {
            use_type_invariant(&id);
        }
        slots_contains(&self.nodes, id)
    }

    /// Whether any node is queued as dirty.
    pub fn is_dirty(&self) -> (r: bool)
        ensures
            r == (self.spec_dirty_nodes().len() > 0),
    {
        self.dirty_nodes.len() > 0
    }

    /// The children of a node, in order.
    pub fn children(&self, id: RenderNodeId) -> (r: Result<&[RenderNodeId], SceneError>)
        ensures
            self@.dom().contains(id) ==> (r matches Ok(c) && c@ == self@[id].spec_children()),
            !self@.dom().contains(id) ==> r == Err::<&[RenderNodeId], SceneError>(
                SceneError::MissingNode(id),
            ),
    {
        match self.node(id) {
            Some(node) => Ok(node.children()),
            None => Err(SceneError::MissingNode(id)),
        }
    }


    /// Refuses nodes that are not groups, as the child-list API does.
    fn validate_group(&self, parent: RenderNodeId) -> (r: Result<(), SceneError>)
        ensures
            r == match group_error(self@, parent) {
                Some(e) => Err::<(), SceneError>(e),
                None => Ok(()),
            },
    {
        match self.node(parent) {
            None => Err(SceneError::MissingNode(parent)),
            Some(node) => match &node.kind {
                RenderNodeKind::Group(_) => Ok(()),
                RenderNodeKind::Primitive(_) => Err(SceneError::NodeCannotHaveChildren(parent)),
                _ => Err(SceneError::UseSingleChildApi(parent)),
            },
        }
    }

    /// Refuses to hang `child` under `parent` when either is missing, when
    /// `child` already has a parent, or when `child` lies above `parent`.
    fn validate_attach(&self, parent: RenderNodeId, child: RenderNodeId) -> (r: Result<(), SceneError>)
        requires
            self.wf(),
        ensures
            r == match attach_error(self@, parent, child) {
                Some(e) => Err::<(), SceneError>(e),
                None => Ok(()),
            },
    {
        if !self.contains(parent) {
            return Err(SceneError::MissingNode(parent));
        }
        let child_node = match self.node(child) {
            Some(node) => node,
            None => return Err(SceneError::MissingNode(child)),
        };
        if child_node.parent == Some(parent) {
            return Err(SceneError::DuplicateChild { parent, child });
        }
        if child_node.parent.is_some() {
            return Err(SceneError::AlreadyHasParent(child));
        }
        let ghost m = self@;
        let ghost d = self.depth@;
        let mut ancestor = Some(parent);
        let ghost mut k: nat = 0;
        while ancestor.is_some()
            invariant
                self.wf(),
                m == self@,
                d == self.depth@,
                m.dom().contains(parent),
                ancestor == ancestor_at(m, parent, k),
                forall|j: nat| j < k ==> ancestor_at(m, parent, j) != Some(child),
                attach_error(m, parent, child) is None || attach_error(m, parent, child) == Some(
                    SceneError::CycleDetected { parent, child },
                ),
            decreases
                match ancestor {
                    Some(a) => d[a] + 1,
                    None => 0,
                },
        {
            let id = ancestor.unwrap();
            proof {
                lemma_ancestor_depth(m, d, parent, k, id);
            }
            if id == child {
                return Err(SceneError::CycleDetected { parent, child });
            }
            let node = self.node(id).unwrap();
            ancestor = node.parent;
            proof {
                lemma_ancestor_hop(m, parent, k, id);
                lemma_ancestor_step(m, id, 0);
                assert(parent_link_ok(m, d, id));
                match ancestor {
                    Some(q) => lemma_ancestor_depth(m, d, id, 1, q),
                    None => {},
                }
                k = k + 1;
            }
        }
        proof {
            if in_subtree(m, parent, child) {
                let j = choose|j: nat| ancestor_at(m, parent, j) == Some(child);
                if j >= k {
                    lemma_ancestor_none(m, parent, k, j);
                }
            }
        }
        Ok(())
    }

    /// Appends `child` to the end of group `parent`'s children.
    pub fn append_child(&mut self, parent: RenderNodeId, child: RenderNodeId) -> (r: Result<(), SceneError>)
        requires
            old(self).wf(),
        ensures
            final(self).spec_retired() == old(self).spec_retired(),
            final(self).spec_removals() == old(self).spec_removals(),
            final(self).wf(),
            final(self).spec_root() == old(self).spec_root(),
            group_error(old(self)@, parent) is Some ==> r == Err::<(), SceneError>(
                group_error(old(self)@, parent).unwrap(),
            ) && *final(self) == *old(self),
            group_error(old(self)@, parent) is None && attach_error(old(self)@, parent, child) is Some
                ==> r == Err::<(), SceneError>(attach_error(old(self)@, parent, child).unwrap())
                && *final(self) == *old(self),
            group_error(old(self)@, parent) is None && attach_error(old(self)@, parent, child) is None
                ==> {
                &&& r == Ok::<(), SceneError>(())
                &&& Self::topology_edited(
                    old(self),
                    final(self),
                    parent,
                    old(self)@[parent].spec_children().push(child),
                    map![child => Some(parent)],
                )
            },
    {
        self.validate_group(parent)?;
        self.validate_attach(parent, child)?;
        let ghost m = self@;
        let ghost d = self.depth@;
        proof {
            use_type_invariant(&parent);
            use_type_invariant(&child);
            assert(child_links_ok(m, parent));
            assert(ancestor_at(m, parent, 0) == Some(parent));
            assert(parent != child);
            if m[parent].spec_children().contains(child) {
                let i = choose|i: int| 0 <= i < m[parent].spec_children().len() && m[parent].spec_children()[i] == child;
                assert(m[m[parent].spec_children()[i]].parent == Some(parent));
            }
        }
        let node = slots_get_mut(&mut self.nodes, parent);
        if let RenderNodeKind::Group(group) = &mut node.kind {
            group.children.push(child);
        }
        let child_node = slots_get_mut(&mut self.nodes, child);
        child_node.parent = Some(parent);
        let ghost m1 = self@;
        proof {
            let s = m[parent].spec_children().push(child);
            assert(m1.dom() =~= m.dom());
            assert(same_but_children(m[parent], m1[parent], s));
            assert(m1[child] == with_parent(m[child], Some(parent)));
            assert(relinked(m, m1, parent, s, map![child => Some(parent)]));
            m[parent].spec_children().lemma_push_to_set_commute(child);
            assert(s.no_duplicates());
            lemma_attach_wf(m, d, parent, child, m1);
            self.depth = Ghost(depths_after_attach(m, d, child, parent));
        }
        let topology = RenderDirty::topology();
        self.mark_dirty(parent, topology);
        proof {
            assert(topology == RenderDirty { bits: 1 });
            let s = m[parent].spec_children().push(child);
            assert(relinked(m, m1, parent, s, map![child => Some(parent)]) && self@ == dirty_marked(
                m1,
                parent,
                RenderDirty { bits: 1 },
                self.spec_revision(),
            ));
        }
        Ok(())
    }


    /// Inserts `child` at position `index` of group `parent`'s children.
    pub fn insert_child(&mut self, parent: RenderNodeId, index: usize, child: RenderNodeId) -> (r:
        Result<(), SceneError>)
        requires
            old(self).wf(),
        ensures
            final(self).spec_retired() == old(self).spec_retired(),
            final(self).spec_removals() == old(self).spec_removals(),
            final(self).wf(),
            final(self).spec_root() == old(self).spec_root(),
            group_error(old(self)@, parent) is Some ==> r == Err::<(), SceneError>(
                group_error(old(self)@, parent).unwrap(),
            ) && *final(self) == *old(self),
            group_error(old(self)@, parent) is None && attach_error(old(self)@, parent, child) is Some
                ==> r == Err::<(), SceneError>(attach_error(old(self)@, parent, child).unwrap())
                && *final(self) == *old(self),
            group_error(old(self)@, parent) is None && attach_error(old(self)@, parent, child) is None
                && index > old(self)@[parent].spec_children().len() ==> r == Err::<(), SceneError>(
                SceneError::InvalidChildIndex {
                    parent,
                    index,
                    len: old(self)@[parent].spec_children().len() as usize,
                },
            ) && *final(self) == *old(self),
            group_error(old(self)@, parent) is None && attach_error(old(self)@, parent, child) is None
                && index <= old(self)@[parent].spec_children().len() ==> r == Ok::<(), SceneError>(())
                && Self::topology_edited(
                old(self),
                final(self),
                parent,
                old(self)@[parent].spec_children().insert(index as int, child),
                map![child => Some(parent)],
            ),
    {
        self.validate_group(parent)?;
        self.validate_attach(parent, child)?;
        let ghost m = self@;
        let ghost d = self.depth@;
        proof {
            use_type_invariant(&parent);
            use_type_invariant(&child);
            assert(child_links_ok(m, parent));
            assert(ancestor_at(m, parent, 0) == Some(parent));
            if m[parent].spec_children().contains(child) {
                let i = choose|i: int|
                    0 <= i < m[parent].spec_children().len() && m[parent].spec_children()[i] == child;
                assert(m[m[parent].spec_children()[i]].parent == Some(parent));
            }
        }
        let len = self.node(parent).unwrap().children().len();
        if index > len {
            return Err(SceneError::InvalidChildIndex { parent, index, len });
        }
        let node = slots_get_mut(&mut self.nodes, parent);
        if let RenderNodeKind::Group(group) = &mut node.kind {
            group.children.insert(index, child);
        }
        let child_node = slots_get_mut(&mut self.nodes, child);
        child_node.parent = Some(parent);
        let ghost m1 = self@;
        let ghost s = m[parent].spec_children().insert(index as int, child);
        proof {
            assert(m1.dom() =~= m.dom());
            assert(same_but_children(m[parent], m1[parent], s));
            assert(relinked(m, m1, parent, s, map![child => Some(parent)]));
            lemma_insert_to_set(m[parent].spec_children(), index as int, child);
            lemma_attach_wf(m, d, parent, child, m1);
            self.depth = Ghost(depths_after_attach(m, d, child, parent));
        }
        let topology = RenderDirty::topology();
        self.mark_dirty(parent, topology);
        proof {
            assert(topology == RenderDirty { bits: 1 });
            assert(relinked(m, m1, parent, s, map![child => Some(parent)]) && self@ == dirty_marked(
                m1,
                parent,
                RenderDirty { bits: 1 },
                self.spec_revision(),
            ));
        }
        Ok(())
    }


    /// Removes the link from `parent` to its child `child`; the child stays in
    /// the scene, parentless.
    pub fn remove_child(&mut self, parent: RenderNodeId, child: RenderNodeId) -> (r: Result<
        (),
        SceneError,
    >)
        requires
            old(self).wf(),
        ensures
            final(self).spec_retired() == old(self).spec_retired(),
            final(self).spec_removals() == old(self).spec_removals(),
            final(self).wf(),
            final(self).spec_root() == old(self).spec_root(),
            unlink_error(old(self)@, parent, child) is Some ==> r == Err::<(), SceneError>(
                unlink_error(old(self)@, parent, child).unwrap(),
            ) && *final(self) == *old(self),
            unlink_error(old(self)@, parent, child) is None ==> r == Ok::<(), SceneError>(())
                && Self::topology_edited(
                old(self),
                final(self),
                parent,
                old(self)@[parent].spec_children().remove(
                    old(self)@[parent].spec_children().index_of(child),
                ),
                map![child => None],
            ) && forall|x: RenderNodeId|
                old(self)@.dom().contains(x) ==> (#[trigger] in_subtree(final(self)@, x, child)
                    <==> in_subtree(old(self)@, x, child)),
    {
        let ghost m = self@;
        let ghost d = self.depth@;
        let node = match self.node(parent) {
            Some(node) => node,
            None => return Err(SceneError::MissingNode(parent)),
        };
        if let RenderNodeKind::Primitive(_) = &node.kind {
            return Err(SceneError::NodeCannotHaveChildren(parent));
        }
        let index = match position_of(node.children(), child) {
            Some(index) => index,
            None => return Err(SceneError::ChildNotFound { parent, child }),
        };
        proof {
            use_type_invariant(&parent);
            use_type_invariant(&child);
            assert(child_links_ok(m, parent));
            assert(m.dom().contains(m[parent].spec_children()[index as int]));
            lemma_index_of_unique(m[parent].spec_children(), index as int);
            lemma_remove_to_set(m[parent].spec_children(), index as int);
        }
        let node = slots_get_mut(&mut self.nodes, parent);
        match &mut node.kind {
            RenderNodeKind::Group(group) => {
                group.children.remove(index);
            },
            RenderNodeKind::Transform(t) => {
                t.child = None;
            },
            RenderNodeKind::Clip(c) => {
                c.child = None;
            },
            RenderNodeKind::Layer(l) => {
                l.child = None;
            },
            RenderNodeKind::Primitive(_) => {},
        }
        let child_node = slots_get_mut(&mut self.nodes, child);
        child_node.parent = None;
        let ghost m1 = self@;
        let ghost s = m[parent].spec_children().remove(index as int);
        proof {
            assert(m1.dom() =~= m.dom());
            assert(s =~= m1[parent].spec_children());
            assert(same_but_children(m[parent], m1[parent], s));
            assert(relinked(m, m1, parent, s, map![child => None]));
            lemma_detach_wf(m, d, parent, child, m1);
            self.depth = Ghost(depths_after_detach(m, d, child));
        }
        let topology = RenderDirty::topology();
        self.mark_dirty(parent, topology);
        proof {
            assert(topology == RenderDirty { bits: 1 });
            assert(relinked(m, m1, parent, s, map![child => None]) && self@ == dirty_marked(
                m1,
                parent,
                RenderDirty { bits: 1 },
                self.spec_revision(),
            ));
            lemma_marked_shape(m1, parent, topology, self.revision);
            assert forall|x: RenderNodeId|
                m.dom().contains(x) implies (#[trigger] in_subtree(self@, x, child) <==> in_subtree(m, x, child)) by {
                lemma_same_shape_subtree(m1, self.depth@, self@, x, child);
            }
        }
        Ok(())
    }

    /// Detaches `child` from its parent, if it has one; `Ok(true)` when it had.
    pub fn detach(&mut self, child: RenderNodeId) -> (r: Result<bool, SceneError>)
        requires
            old(self).wf(),
        ensures
            final(self).spec_retired() == old(self).spec_retired(),
            final(self).spec_removals() == old(self).spec_removals(),
            final(self).wf(),
            final(self).spec_root() == old(self).spec_root(),
            !old(self)@.dom().contains(child) ==> r == Err::<bool, SceneError>(
                SceneError::MissingNode(child),
            ) && *final(self) == *old(self),
            old(self)@.dom().contains(child) && old(self)@[child].parent is None ==> r == Ok::<
                bool,
                SceneError,
            >(false) && *final(self) == *old(self),
            old(self)@.dom().contains(child) && old(self)@[child].parent is Some ==> {
                let parent = old(self)@[child].parent.unwrap();
                &&& r == Ok::<bool, SceneError>(true)
                &&& Self::topology_edited(
                    old(self),
                    final(self),
                    parent,
                    old(self)@[parent].spec_children().remove(
                        old(self)@[parent].spec_children().index_of(child),
                    ),
                    map![child => None],
                )
                &&& forall|x: RenderNodeId|
                    old(self)@.dom().contains(x) ==> (#[trigger] in_subtree(final(self)@, x, child)
                        <==> in_subtree(old(self)@, x, child))
            },
    {
        let parent = match self.node(child) {
            Some(node) => node.parent,
            None => return Err(SceneError::MissingNode(child)),
        };
        let parent = match parent {
            Some(parent) => parent,
            None => return Ok(false),
        };
        proof {
            assert(parent_link_ok(self@, self.depth@, child));
            assert(self@[parent].kind !is Primitive);
        }
        self.remove_child(parent, child)?;
        Ok(true)
    }


    /// Moves `child` to position `new_index` among group `parent`'s children;
    /// `Ok(false)` when it is already there.
    pub fn reorder_child(&mut self, parent: RenderNodeId, child: RenderNodeId, new_index: usize) -> (r:
        Result<bool, SceneError>)
        requires
            old(self).wf(),
        ensures
            final(self).spec_retired() == old(self).spec_retired(),
            final(self).spec_removals() == old(self).spec_removals(),
            final(self).wf(),
            final(self).spec_root() == old(self).spec_root(),
            group_error(old(self)@, parent) is Some ==> r == Err::<bool, SceneError>(
                group_error(old(self)@, parent).unwrap(),
            ) && *final(self) == *old(self),
            group_error(old(self)@, parent) is None && !old(self)@[parent].spec_children().contains(
                child,
            ) ==> r == Err::<bool, SceneError>(SceneError::ChildNotFound { parent, child })
                && *final(self) == *old(self),
            group_error(old(self)@, parent) is None && old(self)@[parent].spec_children().contains(
                child,
            ) ==> {
                let s = old(self)@[parent].spec_children();
                let i = s.index_of(child);
                &&& new_index >= s.len() ==> r == Err::<bool, SceneError>(
                    SceneError::InvalidChildIndex { parent, index: new_index, len: s.len() as usize },
                ) && *final(self) == *old(self)
                &&& new_index < s.len() && new_index == i ==> r == Ok::<bool, SceneError>(false)
                    && *final(self) == *old(self)
                &&& new_index < s.len() && new_index != i ==> r == Ok::<bool, SceneError>(true)
                    && Self::topology_edited(
                    old(self),
                    final(self),
                    parent,
                    s.remove(i).insert(new_index as int, child),
                    Map::empty(),
                )
            },
    {
        self.validate_group(parent)?;
        let ghost m = self@;
        let ghost d = self.depth@;
        let children = self.node(parent).unwrap().children();
        let old_index = match position_of(children, child) {
            Some(i) => i,
            None => return Err(SceneError::ChildNotFound { parent, child }),
        };
        let len = children.len();
        proof {
            assert(child_links_ok(m, parent));
            lemma_index_of_unique(m[parent].spec_children(), old_index as int);
        }
        if new_index >= len {
            return Err(SceneError::InvalidChildIndex { parent, index: new_index, len });
        }
        if old_index == new_index {
            return Ok(false);
        }
        proof {
            use_type_invariant(&parent);
            lemma_remove_to_set(m[parent].spec_children(), old_index as int);
            lemma_insert_to_set(m[parent].spec_children().remove(old_index as int), new_index as int, child);
        }
        let node = slots_get_mut(&mut self.nodes, parent);
        if let RenderNodeKind::Group(group) = &mut node.kind {
            let moved = group.children.remove(old_index);
            group.children.insert(new_index, moved);
        }
        let ghost m1 = self@;
        let ghost s = m[parent].spec_children().remove(old_index as int).insert(new_index as int, child);
        proof {
            assert(m1.dom() =~= m.dom());
            assert(s =~= m1[parent].spec_children());
            assert(same_but_children(m[parent], m1[parent], s));
            assert(relinked(m, m1, parent, s, Map::empty()));
            assert(m1[parent].spec_children().to_set() =~= m[parent].spec_children().to_set());
            lemma_reorder_wf(m, d, parent, m1);
        }
        let topology = RenderDirty::topology();
        self.mark_dirty(parent, topology);
        proof {
            assert(topology == RenderDirty { bits: 1 });
            assert(relinked(m, m1, parent, s, Map::empty()) && self@ == dirty_marked(
                m1,
                parent,
                RenderDirty { bits: 1 },
                self.spec_revision(),
            ));
        }
        Ok(true)
    }


    /// The single child slot of a transform, clip or layer node.
    fn single_child(&self, id: RenderNodeId) -> (r: Result<Option<RenderNodeId>, SceneError>)
        ensures
            single_child_error(self@, id) is Some ==> r == Err::<Option<RenderNodeId>, SceneError>(
                single_child_error(self@, id).unwrap(),
            ),
            single_child_error(self@, id) is None ==> r == Ok::<Option<RenderNodeId>, SceneError>(
                single_child_of(self@[id]),
            ),
    {
        match self.node(id) {
            None => Err(SceneError::MissingNode(id)),
            Some(node) => match &node.kind {
                RenderNodeKind::Transform(n) => Ok(n.child),
                RenderNodeKind::Clip(n) => Ok(n.child),
                RenderNodeKind::Layer(n) => Ok(n.child),
                RenderNodeKind::Primitive(_) => Err(SceneError::NodeCannotHaveChildren(id)),
                RenderNodeKind::Group(_) => Err(SceneError::UseGroupChildrenApi(id)),
            },
        }
    }

    /// Sets (or clears) the single child of a transform, clip or layer node;
    /// a previous child is left in the scene, parentless.
    pub fn set_child(&mut self, parent: RenderNodeId, child: Option<RenderNodeId>) -> (r: Result<
        (),
        SceneError,
    >)
        requires
            old(self).wf(),
        ensures
            final(self).spec_retired() == old(self).spec_retired(),
            final(self).spec_removals() == old(self).spec_removals(),
            final(self).wf(),
            final(self).spec_root() == old(self).spec_root(),
            single_child_error(old(self)@, parent) is Some ==> r == Err::<(), SceneError>(
                single_child_error(old(self)@, parent).unwrap(),
            ) && *final(self) == *old(self),
            single_child_error(old(self)@, parent) is None && single_child_of(old(self)@[parent])
                == child ==> r == Ok::<(), SceneError>(()) && *final(self) == *old(self),
            single_child_error(old(self)@, parent) is None && single_child_of(old(self)@[parent])
                != child && child is Some && attach_error(old(self)@, parent, child.unwrap()) is Some
                ==> r == Err::<(), SceneError>(attach_error(old(self)@, parent, child.unwrap()).unwrap())
                && *final(self) == *old(self),
            single_child_error(old(self)@, parent) is None && single_child_of(old(self)@[parent])
                != child && (child is None || attach_error(old(self)@, parent, child.unwrap()) is None)
                ==> r == Ok::<(), SceneError>(()) && Self::topology_edited(
                old(self),
                final(self),
                parent,
                opt_seq(child),
                swap_updates(single_child_of(old(self)@[parent]), child, parent),
            ),
    {
        let ghost m = self@;
        let ghost d = self.depth@;
        let previous = self.single_child(parent)?;
        if previous == child {
            return Ok(());
        }
        if let Some(c) = child {
            self.validate_attach(parent, c)?;
        }
        proof {
            use_type_invariant(&parent);
            assert(child_links_ok(m, parent));
            assert(ancestor_at(m, parent, 0) == Some(parent));
            if let Some(o) = previous {
                assert(m[parent].spec_children()[0] == o);
                assert(m.dom().contains(o));
                use_type_invariant(&o);
            }
            if let Some(c) = child {
                use_type_invariant(&c);
            }
        }
        if let Some(o) = previous {
            let old_node = slots_get_mut(&mut self.nodes, o);
            old_node.parent = None;
        }
        let node = slots_get_mut(&mut self.nodes, parent);
        match &mut node.kind {
            RenderNodeKind::Transform(n) => {
                n.child = child;
            },
            RenderNodeKind::Clip(n) => {
                n.child = child;
            },
            RenderNodeKind::Layer(n) => {
                n.child = child;
            },
            _ => {},
        }
        if let Some(c) = child {
            let child_node = slots_get_mut(&mut self.nodes, c);
            child_node.parent = Some(parent);
        }
        let ghost m1 = self@;
        let ghost s = opt_seq(child);
        let ghost ups = swap_updates(previous, child, parent);
        proof {
            assert(m1.dom() =~= m.dom());
            assert(s =~= m1[parent].spec_children());
            assert(same_but_children(m[parent], m1[parent], s));
            assert(relinked(m, m1, parent, s, ups));
            lemma_singleton_to_set(s);
            lemma_singleton_to_set(m[parent].spec_children());
            match (previous, child) {
                (Some(o), Some(c)) => {
                    assert(s.to_set() =~= m[parent].spec_children().to_set().remove(o).insert(c));
                    lemma_replace_wf(m, d, parent, o, c, m1);
                    self.depth = Ghost(depths_after_replace(m, d, parent, o, c));
                },
                (Some(o), None) => {
                    assert(s.to_set() =~= m[parent].spec_children().to_set().remove(o));
                    lemma_detach_wf(m, d, parent, o, m1);
                    self.depth = Ghost(depths_after_detach(m, d, o));
                },
                (None, Some(c)) => {
                    assert(s.to_set() =~= m[parent].spec_children().to_set().insert(c));
                    lemma_attach_wf(m, d, parent, c, m1);
                    self.depth = Ghost(depths_after_attach(m, d, c, parent));
                },
                (None, None) => {},
            }
        }
        let topology = RenderDirty::topology();
        self.mark_dirty(parent, topology);
        proof {
            assert(topology == RenderDirty { bits: 1 });
            assert(relinked(m, m1, parent, s, ups) && self@ == dirty_marked(
                m1,
                parent,
                RenderDirty { bits: 1 },
                self.spec_revision(),
            ));
        }
        Ok(())
    }

    /// Puts `new_child` in the place of `parent`'s child `old_child`; `old_child` stays in the
    /// scene, parentless.
    pub fn replace_child(&mut self, parent: RenderNodeId, old_child: RenderNodeId, new_child: RenderNodeId) -> (r:
        Result<(), SceneError>)
        requires
            old(self).wf(),
        ensures
            final(self).spec_retired() == old(self).spec_retired(),
            final(self).spec_removals() == old(self).spec_removals(),
            final(self).wf(),
            final(self).spec_root() == old(self).spec_root(),
            old_child == new_child ==> *final(self) == *old(self) && r == if old(self)@.dom().contains(old_child)
                && old(self)@[old_child].parent == Some(parent) {
                Ok::<(), SceneError>(())
            } else {
                Err(SceneError::ChildNotFound { parent, child: old_child })
            },
            old_child != new_child && attach_error(old(self)@, parent, new_child) is Some ==> r == Err::<(), SceneError>(
                attach_error(old(self)@, parent, new_child).unwrap(),
            ) && *final(self) == *old(self),
            old_child != new_child && attach_error(old(self)@, parent, new_child) is None && old(self)@[parent].kind is Primitive
                ==> r == Err::<(), SceneError>(SceneError::NodeCannotHaveChildren(parent))
                && *final(self) == *old(self),
            old_child != new_child && attach_error(old(self)@, parent, new_child) is None && old(self)@[parent].kind !is Primitive
                && !old(self)@[parent].spec_children().contains(old_child) ==> r == Err::<(), SceneError>(
                SceneError::ChildNotFound { parent, child: old_child },
            ) && *final(self) == *old(self),
            old_child != new_child && attach_error(old(self)@, parent, new_child) is None && old(self)@[parent].kind !is Primitive
                && old(self)@[parent].spec_children().contains(old_child) ==> r == Ok::<(), SceneError>(())
                && Self::topology_edited(
                old(self),
                final(self),
                parent,
                old(self)@[parent].spec_children().update(
                    old(self)@[parent].spec_children().index_of(old_child),
                    new_child,
                ),
                swap_updates(Some(old_child), Some(new_child), parent),
            ),
    {
        if old_child == new_child {
            let found = match self.node(old_child) {
                Some(node) => node.parent == Some(parent),
                None => false,
            };
            if found {
                return Ok(());
            }
            return Err(SceneError::ChildNotFound { parent, child: old_child });
        }
        self.validate_attach(parent, new_child)?;
        let ghost m = self@;
        let ghost d = self.depth@;
        let node = self.node(parent).unwrap();
        if let RenderNodeKind::Primitive(_) = &node.kind {
            return Err(SceneError::NodeCannotHaveChildren(parent));
        }
        let index = match position_of(node.children(), old_child) {
            Some(index) => index,
            None => return Err(SceneError::ChildNotFound { parent, child: old_child }),
        };
        proof {
            use_type_invariant(&parent);
            use_type_invariant(&old_child);
            use_type_invariant(&new_child);
            assert(child_links_ok(m, parent));
            assert(ancestor_at(m, parent, 0) == Some(parent));
            assert(m.dom().contains(m[parent].spec_children()[index as int]));
            lemma_index_of_unique(m[parent].spec_children(), index as int);
            if m[parent].spec_children().contains(new_child) {
                let i = choose|i: int|
                    0 <= i < m[parent].spec_children().len() && m[parent].spec_children()[i] == new_child;
                assert(m[m[parent].spec_children()[i]].parent == Some(parent));
            }
            lemma_update_to_set(m[parent].spec_children(), index as int, new_child);
        }
        let old_node = slots_get_mut(&mut self.nodes, old_child);
        old_node.parent = None;
        let node = slots_get_mut(&mut self.nodes, parent);
        match &mut node.kind {
            RenderNodeKind::Group(group) => {
                group.children.set(index, new_child);
            },
            RenderNodeKind::Transform(n) => {
                n.child = Some(new_child);
            },
            RenderNodeKind::Clip(n) => {
                n.child = Some(new_child);
            },
            RenderNodeKind::Layer(n) => {
                n.child = Some(new_child);
            },
            RenderNodeKind::Primitive(_) => {},
        }
        let new_node = slots_get_mut(&mut self.nodes, new_child);
        new_node.parent = Some(parent);
        let ghost m1 = self@;
        let ghost s = m[parent].spec_children().update(index as int, new_child);
        let ghost ups = swap_updates(Some(old_child), Some(new_child), parent);
        proof {
            assert(m1.dom() =~= m.dom());
            assert(s =~= m1[parent].spec_children());
            assert(same_but_children(m[parent], m1[parent], s));
            assert(relinked(m, m1, parent, s, ups));
            lemma_replace_wf(m, d, parent, old_child, new_child, m1);
            self.depth = Ghost(depths_after_replace(m, d, parent, old_child, new_child));
        }
        let topology = RenderDirty::topology();
        self.mark_dirty(parent, topology);
        proof {
            assert(topology == RenderDirty { bits: 1 });
            assert(relinked(m, m1, parent, s, ups) && self@ == dirty_marked(
                m1,
                parent,
                RenderDirty { bits: 1 },
                self.spec_revision(),
            ));
        }
        Ok(())
    }


    /// The number of live nodes.
    pub open spec fn spec_len(&self) -> nat {
        self@.dom().len()
    }

    /// The handles of nodes that were removed from the scene.
    pub closed spec fn spec_retired(&self) -> Set<RenderNodeId> {
        node_slots_retired(self.nodes)
    }

    /// How many nodes have been removed from the scene.
    pub closed spec fn spec_removals(&self) -> nat {
        node_slots_removals(self.nodes)
    }

    /// Removed handles do not come back: a handle that `remove_subtree` took
    /// out of the scene is retired; every later edit keeps the retired handles
    /// (each states that they are unchanged, a patch list that they only
    /// grow); and an insertion made while fewer than `2^31` removals were seen
    /// hands out no retired handle. So a handle inserted at any later point is
    /// none of the removed ones.
    pub proof fn law_removed_handles_do_not_return(
        before: &RenderScene,
        after: &RenderScene,
        later: &RenderScene,
        gone: RenderNodeId,
        fresh: RenderNodeId,
    )
        requires
            after.spec_retired() == before.spec_retired().union(before@.dom().difference(after@.dom())),
            before@.dom().contains(gone),
            !after@.dom().contains(gone),
            after.spec_retired().subset_of(later.spec_retired()),
            later.spec_removals() < 0x8000_0000 ==> !later.spec_retired().contains(fresh),
            later.spec_removals() < 0x8000_0000,
        ensures
            after.spec_retired().contains(gone),
            later.spec_retired().contains(gone),
            fresh != gone,
    {
    }

    /// What `acknowledge` does, as it states it: from `old`, with a snapshot
    /// of `nodes` taken at `revision`.
    pub open spec fn acknowledge_outcome(old: &RenderScene, new: &RenderScene, nodes: Seq<RenderNodeId>, revision: u64) -> bool {
        let m1 = acknowledged(old@, nodes, revision);
        &&& new.spec_root() == old.spec_root()
        &&& new.spec_revision() == old.spec_revision()
        &&& new.spec_dirty_nodes() == old.spec_dirty_nodes().filter(still_pending(m1))
        &&& new@ == refreshed_all(m1, nodes, old@.dom().len())
    }

    /// Acknowledging a snapshot after further edits is precise: a node the
    /// snapshot names and that was not edited after it (its newest epoch is
    /// not past the snapshot's revision) loses its flags and queue mark; a
    /// node edited after the snapshot (every edit stamps a later revision)
    /// keeps its flags, and stays queued if it was queued and dirty; a node
    /// the snapshot does not name keeps its flags; no node comes or goes.
    pub proof fn law_acknowledge_after_edits(
        edited: &RenderScene,
        after: &RenderScene,
        nodes: Seq<RenderNodeId>,
        revision: u64,
        x: RenderNodeId,
    )
        requires
            Self::acknowledge_outcome(edited, after, nodes, revision),
        ensures
            after@.dom() == edited@.dom(),
            edited@.dom().contains(x) && nodes.contains(x) && edited@[x].epochs.spec_newest() <= revision ==> {
                &&& after@[x].dirty == RenderDirty { bits: 0 }
                &&& !after@[x].dirty_enqueued
            },
            edited@.dom().contains(x) && (!nodes.contains(x) || edited@[x].epochs.spec_newest() > revision) ==> {
                &&& after@[x].dirty == edited@[x].dirty
                &&& after@[x].dirty_enqueued == edited@[x].dirty_enqueued
            },
            edited@.dom().contains(x) && edited@[x].epochs.spec_newest() > revision && edited@[x].dirty_enqueued
                && edited@[x].dirty.bits != 0 && edited.spec_dirty_nodes().contains(x)
                ==> after.spec_dirty_nodes().contains(x),
    {
        law_acknowledge_is_precise(edited@, nodes, revision, edited@.dom().len(), x);
        let m1 = acknowledged(edited@, nodes, revision);
        if edited@.dom().contains(x) && edited@[x].epochs.spec_newest() > revision && edited@[x].dirty_enqueued
            && edited@[x].dirty.bits != 0 && edited.spec_dirty_nodes().contains(x) {
            let q = edited.spec_dirty_nodes();
            let i = choose|i: int| 0 <= i < q.len() && q[i] == x;
            assert(still_pending(m1)(q[i]));
            q.lemma_filter_contains(still_pending(m1), i);
        }
    }

    /// Adds a childless node, detached and clean, and marks it with every
    /// dirty flag.
    pub fn insert_node(&mut self, node: RenderNode) -> (id: RenderNodeId)
        requires
            old(self).wf(),
            node.spec_children().len() == 0,
            old(self).spec_len() < 0xffff_fffd,
        ensures
            final(self).spec_retired() == old(self).spec_retired(),
            final(self).spec_removals() == old(self).spec_removals(),
            final(self).wf(),
            final(self).spec_root() == old(self).spec_root(),
            !old(self)@.dom().contains(id),
            old(self).spec_removals() < 0x8000_0000 ==> !old(self).spec_retired().contains(id),
            final(self).spec_revision() == next_revision(old(self).spec_revision()),
            final(self)@ == dirty_marked(
                old(self)@.insert(id, detached_clean(node)),
                id,
                RenderDirty { bits: 0x7f },
                final(self).spec_revision(),
            ),
            final(self).spec_dirty_nodes() == old(self).spec_dirty_nodes().push(id),
    {
        let mut node = node;
        node.parent = None;
        node.dirty = RenderDirty::empty();
        node.subtree_dirty = RenderDirty::empty();
        node.dirty_enqueued = false;
        let ghost m = self@;
        let ghost d = self.depth@;
        let id = slots_insert(&mut self.nodes, node);
        proof {
            let m1 = self@;
            let d1 = d.insert(id, 0);
            assert(m1 == m.insert(id, detached_clean(node)));
            assert forall|x: RenderNodeId| #[trigger] m1.dom().contains(x) implies parent_link_ok(m1, d1, x) by {
                if x != id {
                    assert(parent_link_ok(m, d, x));
                    if let Some(p) = m[x].parent {
                        assert(m.dom().contains(p));
                    }
                }
            }
            assert forall|x: RenderNodeId| #[trigger] m1.dom().contains(x) implies child_links_ok(m1, x) by {
                if x != id {
                    assert(child_links_ok(m, x));
                    assert forall|i: int|
                        0 <= i < m1[x].spec_children().len() implies m1.dom().contains(
                        #[trigger] m1[x].spec_children()[i],
                    ) && m1[m1[x].spec_children()[i]].parent == Some(x) by {
                        assert(m.dom().contains(m[x].spec_children()[i]));
                    }
                }
            }
            self.depth = Ghost(d1);
            assert(forest_wf(m1, d1));
        }
        let all = RenderDirty::all();
        self.mark_dirty(id, all);
        proof {
            assert(all == RenderDirty { bits: 0x7f });
        }
        id
    }

    pub fn insert_group(&mut self) -> (id: RenderNodeId)
        requires
            old(self).wf(),
            old(self).spec_len() < 0xffff_fffd,
        ensures
            final(self).spec_retired() == old(self).spec_retired(),
            final(self).spec_removals() == old(self).spec_removals(),
            final(self).wf(),
            final(self).spec_root() == old(self).spec_root(),
            !old(self)@.dom().contains(id),
            old(self).spec_removals() < 0x8000_0000 ==> !old(self).spec_retired().contains(id),
            final(self)@.dom() == old(self)@.dom().insert(id),
            final(self)@[id].kind is Group,
            final(self)@[id].spec_children().len() == 0,
            final(self)@[id].parent is None,
            final(self)@[id].dirty.mask() == 0x7f,
            forall|x: RenderNodeId| #[trigger] old(self)@.dom().contains(x) ==> final(self)@[x]
                == old(self)@[x],
    {
        let id = self.insert_node(RenderNode::group());
        proof {
            assert((0u16 | 0x7fu16) == 0x7fu16) by (bit_vector);
        }
        id
    }

    pub fn insert_primitive(&mut self, primitive: Primitive) -> (id: RenderNodeId)
        requires
            old(self).wf(),
            old(self).spec_len() < 0xffff_fffd,
        ensures
            final(self).spec_retired() == old(self).spec_retired(),
            final(self).spec_removals() == old(self).spec_removals(),
            final(self).wf(),
            final(self).spec_root() == old(self).spec_root(),
            !old(self)@.dom().contains(id),
            old(self).spec_removals() < 0x8000_0000 ==> !old(self).spec_retired().contains(id),
            final(self)@.dom() == old(self)@.dom().insert(id),
            final(self)@[id].kind == RenderNodeKind::Primitive(PrimitiveNode { primitive }),
            final(self)@[id].parent is None,
            forall|x: RenderNodeId| #[trigger] old(self)@.dom().contains(x) ==> final(self)@[x]
                == old(self)@[x],
    {
        self.insert_node(RenderNode::primitive(primitive))
    }

    pub fn insert_transform(&mut self, transform: u64) -> (id: RenderNodeId)
        requires
            old(self).wf(),
            old(self).spec_len() < 0xffff_fffd,
        ensures
            final(self).spec_retired() == old(self).spec_retired(),
            final(self).spec_removals() == old(self).spec_removals(),
            final(self).wf(),
            final(self).spec_root() == old(self).spec_root(),
            !old(self)@.dom().contains(id),
            old(self).spec_removals() < 0x8000_0000 ==> !old(self).spec_retired().contains(id),
            final(self)@.dom() == old(self)@.dom().insert(id),
            final(self)@[id].kind == RenderNodeKind::Transform(TransformNode { transform, child: None }),
            final(self)@[id].parent is None,
            forall|x: RenderNodeId| #[trigger] old(self)@.dom().contains(x) ==> final(self)@[x]
                == old(self)@[x],
    {
        self.insert_node(RenderNode::transform(transform))
    }

    pub fn insert_clip(&mut self, clip: u64) -> (id: RenderNodeId)
        requires
            old(self).wf(),
            old(self).spec_len() < 0xffff_fffd,
        ensures
            final(self).spec_retired() == old(self).spec_retired(),
            final(self).spec_removals() == old(self).spec_removals(),
            final(self).wf(),
            final(self).spec_root() == old(self).spec_root(),
            !old(self)@.dom().contains(id),
            old(self).spec_removals() < 0x8000_0000 ==> !old(self).spec_retired().contains(id),
            final(self)@.dom() == old(self)@.dom().insert(id),
            final(self)@[id].kind == RenderNodeKind::Clip(ClipNode { clip, child: None }),
            final(self)@[id].parent is None,
            forall|x: RenderNodeId| #[trigger] old(self)@.dom().contains(x) ==> final(self)@[x]
                == old(self)@[x],
    {
        self.insert_node(RenderNode::clip(clip))
    }

    pub fn insert_layer(&mut self, descriptor: LayerDescriptor) -> (id: RenderNodeId)
        requires
            old(self).wf(),
            old(self).spec_len() < 0xffff_fffd,
        ensures
            final(self).spec_retired() == old(self).spec_retired(),
            final(self).spec_removals() == old(self).spec_removals(),
            final(self).wf(),
            final(self).spec_root() == old(self).spec_root(),
            !old(self)@.dom().contains(id),
            old(self).spec_removals() < 0x8000_0000 ==> !old(self).spec_retired().contains(id),
            final(self)@.dom() == old(self)@.dom().insert(id),
            final(self)@[id].kind == RenderNodeKind::Layer(LayerNode { descriptor, child: None }),
            final(self)@[id].parent is None,
            forall|x: RenderNodeId| #[trigger] old(self)@.dom().contains(x) ==> final(self)@[x]
                == old(self)@[x],
    {
        self.insert_node(RenderNode::layer(descriptor))
    }


    /// Marks node `id` after an in-place edit that left every link as it was.
    fn finish_payload_edit(&mut self, id: RenderNodeId, dirty: RenderDirty, m: Ghost<NodeMap>)
        requires
            forest_wf(m@, old(self).depth@),
            old(self)@.dom().len() < 0xffff_fffe,
            m@.dom().contains(id),
            old(self)@.dom() == m@.dom(),
            forall|x: RenderNodeId|
                #[trigger] m@.dom().contains(x) && x != id ==> old(self)@[x] == m@[x],
            old(self)@[id].parent == m@[id].parent,
            old(self)@[id].spec_children() == m@[id].spec_children(),
        ensures
            final(self).spec_retired() == old(self).spec_retired(),
            final(self).spec_removals() == old(self).spec_removals(),
            final(self).wf(),
            final(self).root == old(self).root,
            dirty.mask() == 0 ==> *final(self) == *old(self),
            dirty.mask() != 0 ==> {
                &&& final(self).revision == next_revision(old(self).revision)
                &&& final(self)@ == dirty_marked(old(self)@, id, dirty, final(self).revision)
                &&& final(self).dirty_nodes@ == if old(self)@[id].dirty_enqueued {
                    old(self).dirty_nodes@
                } else {
                    old(self).dirty_nodes@.push(id)
                }
            },
    {
        proof {
            assert(same_shape(m@, self@));
            lemma_same_shape_wf(m@, self.depth@, self@);
        }
        self.mark_dirty(id, dirty);
    }

    /// Gives a primitive node a new primitive; `Ok(false)` when nothing changed.
    pub fn update_primitive(&mut self, id: RenderNodeId, primitive: Primitive) -> (r: Result<
        bool,
        SceneError,
    >)
        requires
            old(self).wf(),
        ensures
            final(self).spec_retired() == old(self).spec_retired(),
            final(self).spec_removals() == old(self).spec_removals(),
            final(self).wf(),
            Self::primitive_outcome(old(self), final(self), id, primitive, r),
    {
        let node = match self.node(id) {
            Some(node) => node,
            None => return Err(SceneError::MissingNode(id)),
        };
        let current = match &node.kind {
            RenderNodeKind::Primitive(p) => p.primitive,
            _ => return Err(SceneError::WrongNodeKind { node: id, expected: "Primitive" }),
        };
        let change = current.diff(&primitive);
        if !change.geometry && !change.paint {
            proof {
                assert((0u16 | 0u16) == 0u16) by (bit_vector);
            }
            return Ok(false);
        }
        let mut dirty = RenderDirty::empty();
        if change.geometry {
            dirty.insert(RenderDirty::geometry());
        }
        if change.paint {
            dirty.insert(RenderDirty::paint());
        }
        proof {
            assert((0u16 | 2u16) | 4u16 == 6u16 && (0u16 | 2u16) == 2u16 && (0u16 | 4u16) == 4u16
                && (2u16 | 0u16) == 2u16 && (0u16 | 4u16) == 4u16 && (2u16 | 4u16) == 6u16) by (bit_vector);
        }
        let ghost m = self@;
        proof {
            use_type_invariant(&id);
        }
        let node = slots_get_mut(&mut self.nodes, id);
        node.kind = RenderNodeKind::Primitive(PrimitiveNode { primitive });
        proof {
            assert(self@.dom() =~= m.dom());
        }
        self.finish_payload_edit(id, dirty, Ghost(m));
        proof {
            assert(self@ == dirty_marked(old(self)@.insert(id, RenderNode {
                kind: RenderNodeKind::Primitive(PrimitiveNode { primitive }),
                ..old(self)@[id]
            }), id, RenderDirty { bits: primitive_change_bits(current, primitive) }, self.spec_revision()));
        }
        Ok(true)
    }


    /// Gives a transform node a new transform; `Ok(false)` when it is the same.
    pub fn update_transform(&mut self, id: RenderNodeId, transform: u64) -> (r: Result<bool, SceneError>)
        requires
            old(self).wf(),
        ensures
            final(self).spec_retired() == old(self).spec_retired(),
            final(self).spec_removals() == old(self).spec_removals(),
            final(self).wf(),
            Self::transform_outcome(old(self), final(self), id, transform, r),
    {
        let current = match self.node(id) {
            Some(node) => match &node.kind {
                RenderNodeKind::Transform(value) => *value,
                _ => return Err(SceneError::WrongNodeKind { node: id, expected: "Transform" }),
            },
            None => return Err(SceneError::MissingNode(id)),
        };
        if current.transform == transform {
            return Ok(false);
        }
        let ghost m = self@;
        proof {
            use_type_invariant(&id);
        }
        let node = slots_get_mut(&mut self.nodes, id);
        node.kind = RenderNodeKind::Transform(TransformNode { transform, ..current });
        proof {
            assert(self@.dom() =~= m.dom());
        }
        let dirty = RenderDirty { bits: 2 };
        self.finish_payload_edit(id, dirty, Ghost(m));
        Ok(true)
    }

    /// Gives a clip node a new clip shape (a clip and geometry change); `Ok(false)` when it is the same.
    pub fn update_clip(&mut self, id: RenderNodeId, clip: u64) -> (r: Result<bool, SceneError>)
        requires
            old(self).wf(),
        ensures
            final(self).spec_retired() == old(self).spec_retired(),
            final(self).spec_removals() == old(self).spec_removals(),
            final(self).wf(),
            Self::clip_outcome(old(self), final(self), id, clip, r),
    {
        let current = match self.node(id) {
            Some(node) => match &node.kind {
                RenderNodeKind::Clip(value) => *value,
                _ => return Err(SceneError::WrongNodeKind { node: id, expected: "Clip" }),
            },
            None => return Err(SceneError::MissingNode(id)),
        };
        if current.clip == clip {
            return Ok(false);
        }
        let ghost m = self@;
        proof {
            use_type_invariant(&id);
        }
        let node = slots_get_mut(&mut self.nodes, id);
        node.kind = RenderNodeKind::Clip(ClipNode { clip, ..current });
        proof {
            assert(self@.dom() =~= m.dom());
        }
        let dirty = RenderDirty { bits: 10 };
        self.finish_payload_edit(id, dirty, Ghost(m));
        Ok(true)
    }

    /// Gives a layer node a new descriptor, marking geometry, composite and
    /// effect changes by the fields that differ; `Ok(false)` when it is the same.
    pub fn update_layer_descriptor(&mut self, id: RenderNodeId, descriptor: LayerDescriptor) -> (r:
        Result<bool, SceneError>)
        requires
            old(self).wf(),
        ensures
            final(self).spec_retired() == old(self).spec_retired(),
            final(self).spec_removals() == old(self).spec_removals(),
            final(self).wf(),
            Self::layer_outcome(old(self), final(self), id, descriptor, r),
    {
        let current = match self.node(id) {
            Some(node) => match &node.kind {
                RenderNodeKind::Layer(value) => *value,
                _ => return Err(SceneError::WrongNodeKind { node: id, expected: "Layer" }),
            },
            None => return Err(SceneError::MissingNode(id)),
        };
        let old_desc = current.descriptor;
        if old_desc == descriptor {
            return Ok(false);
        }
        let mut dirty = RenderDirty::empty();
        if old_desc.bounds != descriptor.bounds {
            dirty.insert(RenderDirty::geometry());
        }
        if old_desc.composite != descriptor.composite || old_desc.backdrop_style != descriptor.backdrop_style {
            dirty.insert(RenderDirty::composite());
        }
        if old_desc.effects != descriptor.effects || old_desc.force_offscreen != descriptor.force_offscreen
            || old_desc.cache_policy != descriptor.cache_policy || old_desc.cache_key != descriptor.cache_key
            || old_desc.backdrop_isolation != descriptor.backdrop_isolation {
            dirty.insert(RenderDirty::effect());
        }
        proof {
            let g: u16 = if old_desc.bounds != descriptor.bounds { 2 } else { 0 };
            let c: u16 = if old_desc.composite != descriptor.composite
                || old_desc.backdrop_style != descriptor.backdrop_style { 16 } else { 0 };
            let e: u16 = if old_desc.effects != descriptor.effects
                || old_desc.force_offscreen != descriptor.force_offscreen
                || old_desc.cache_policy != descriptor.cache_policy
                || old_desc.cache_key != descriptor.cache_key
                || old_desc.backdrop_isolation != descriptor.backdrop_isolation { 32 } else { 0 };
            assert(dirty.bits == (g | c) | e) by {
                assert(forall|a: u16| (0u16 | a) == a && (a | 0u16) == a) by (bit_vector);
            }
            assert(dirty.bits != 0) by {
                assert((g == 0 || g == 2) && (c == 0 || c == 16) && (e == 0 || e == 32) && (g != 0
                    || c != 0 || e != 0) ==> ((g | c) | e) != 0) by (bit_vector);
            }
        }
        let ghost m = self@;
        proof {
            use_type_invariant(&id);
        }
        let node = slots_get_mut(&mut self.nodes, id);
        node.kind = RenderNodeKind::Layer(LayerNode { descriptor, ..current });
        proof {
            assert(self@.dom() =~= m.dom());
        }
        self.finish_payload_edit(id, dirty, Ghost(m));
        Ok(true)
    }

    /// Gives a layer node a new composite style; `Ok(false)` when it is the same.
    pub fn update_layer_composite(&mut self, id: RenderNodeId, composite: u64) -> (r: Result<
        bool,
        SceneError,
    >)
        requires
            old(self).wf(),
        ensures
            final(self).spec_retired() == old(self).spec_retired(),
            final(self).spec_removals() == old(self).spec_removals(),
            final(self).wf(),
            Self::composite_outcome(old(self), final(self), id, composite, r),
    {
        let current = match self.node(id) {
            Some(node) => match &node.kind {
                RenderNodeKind::Layer(value) => *value,
                _ => return Err(SceneError::WrongNodeKind { node: id, expected: "Layer" }),
            },
            None => return Err(SceneError::MissingNode(id)),
        };
        if current.descriptor.composite == composite {
            return Ok(false);
        }
        let ghost m = self@;
        proof {
            use_type_invariant(&id);
        }
        let node = slots_get_mut(&mut self.nodes, id);
        node.kind = RenderNodeKind::Layer(
            LayerNode { descriptor: LayerDescriptor { composite, ..current.descriptor }, ..current },
        );
        proof {
            assert(self@.dom() =~= m.dom());
        }
        self.finish_payload_edit(id, RenderDirty { bits: 16 }, Ghost(m));
        Ok(true)
    }

    /// Shows or hides a node; `Ok(false)` when it already was so.
    pub fn set_visible(&mut self, id: RenderNodeId, visible: bool) -> (r: Result<bool, SceneError>)
        requires
            old(self).wf(),
        ensures
            final(self).spec_retired() == old(self).spec_retired(),
            final(self).spec_removals() == old(self).spec_removals(),
            final(self).wf(),
            Self::visible_outcome(old(self), final(self), id, visible, r),
    {
        let current = match self.node(id) {
            Some(node) => node.visible,
            None => return Err(SceneError::MissingNode(id)),
        };
        if current == visible {
            return Ok(false);
        }
        let ghost m = self@;
        proof {
            use_type_invariant(&id);
        }
        let node = slots_get_mut(&mut self.nodes, id);
        node.visible = visible;
        proof {
            assert(self@.dom() =~= m.dom());
        }
        self.finish_payload_edit(id, RenderDirty { bits: 64 }, Ghost(m));
        Ok(true)
    }


    /// Removes `root` and every node below it from the scene.
    #[verifier::rlimit(100)]
    pub fn remove_subtree(&mut self, root: RenderNodeId) -> (r: Result<(), SceneError>)
        requires
            old(self).wf(),
        ensures
            final(self).wf(),
            Self::removal_outcome(old(self), final(self), root, r),
            final(self).spec_retired() == old(self).spec_retired().union(old(self)@.dom().difference(final(self)@.dom())),
            final(self).spec_removals() == old(self).spec_removals() + old(self)@.dom().difference(final(self)@.dom()).len(),
    {
        proof {
            assert(old(self)@.dom().difference(self@.dom()) =~= Set::<RenderNodeId>::empty());
            assert(old(self).spec_retired().union(Set::<RenderNodeId>::empty()) =~= old(self).spec_retired());
        }
        if root == self.root {
            return Err(SceneError::CannotRemoveRoot);
        }
        if !self.contains(root) {
            return Err(SceneError::MissingNode(root));
        }
        let ghost m_old = self@;
        self.detach(root)?;
        let ghost mid = *self;
        let ghost m0 = self@;
        let ghost d0 = self.depth@;
        let ghost sub = subtree_of(m0, root);
        proof {
            assert(parent_link_ok(m0, d0, root)) by {
                assert(m0.dom().contains(root));
            }
            assert(m0[root].parent is None) by {
                if m_old[root].parent is Some {
                    // the detached node lost its parent link
                    let m1 = choose|m1: NodeMap|
                        relinked(
                            m_old,
                            m1,
                            m_old[root].parent.unwrap(),
                            m_old[m_old[root].parent.unwrap()].spec_children().remove(
                                m_old[m_old[root].parent.unwrap()].spec_children().index_of(root),
                            ),
                            map![root => None],
                        ) && m0 == dirty_marked(m1, m_old[root].parent.unwrap(), RenderDirty { bits: 1 }, mid.revision);
                    assert(m1[root].parent is None);
                    assert(root != m_old[root].parent.unwrap()) by {
                        assert(parent_link_ok(m_old, old(self).depth@, root));
                    }
                }
            }
            assert(subtree_of(m_old, root) =~= sub) by {
                assert forall|x: RenderNodeId| #[trigger] m_old.dom().contains(x) implies
                    (in_subtree(m0, x, root) <==> in_subtree(m_old, x, root)) by {}
            }
            assert(in_subtree(m0, root, root)) by {
                assert(ancestor_at(m0, root, 0) == Some(root));
            }
        }
        let mut stack: Vec<RenderNodeId> = Vec::new();
        stack.push(root);
        let ghost mut removed: Set<RenderNodeId> = Set::empty();
        proof {
            assert(self@ =~= m0.remove_keys(removed));
            assert forall|x: RenderNodeId| #[trigger] sub.contains(x) && !removed.contains(x) implies exists|
                i: int,
                k: nat,
            |
                #![trigger stack@[i], ancestor_at(m0, x, k)]
                0 <= i < stack@.len() && ancestor_at(m0, x, k) == Some(stack@[i]) by {
                let k = choose|k: nat| ancestor_at(m0, x, k) == Some(root);
                assert(stack@[0] == root);
            }
        }
        loop
            invariant
                forest_wf(m0, d0),
                m0.dom().contains(root),
                m0[root].parent is None,
                sub == subtree_of(m0, root),
                self@ == m0.remove_keys(removed),
                self.depth@ == d0,
                self.root == mid.root,
                self.revision == mid.revision,
                self.dirty_nodes == mid.dirty_nodes,
                removed.finite(),
                removed.subset_of(sub),
                self.spec_retired() == old(self).spec_retired().union(removed),
                self.spec_removals() == old(self).spec_removals() + removed.len(),
                forall|i: int| 0 <= i < stack@.len() ==> #[trigger] sub.contains(stack@[i])
                    && !removed.contains(stack@[i]),
                forall|i: int| 0 <= i < stack@.len() ==> #[trigger] stack@[i] == root || (
                    m0[stack@[i]].parent matches Some(p) && removed.contains(p)),
                stack@.no_duplicates(),
                forall|x: RenderNodeId| #[trigger] removed.contains(x) ==> x == root || (
                    m0[x].parent matches Some(p) && removed.contains(p)),
                forall|x: RenderNodeId| #[trigger] sub.contains(x) && !removed.contains(x) ==> exists|
                    i: int,
                    k: nat,
                |
                    #![trigger stack@[i], ancestor_at(m0, x, k)]
                    0 <= i < stack@.len() && ancestor_at(m0, x, k) == Some(stack@[i]),
            ensures
                stack@.len() == 0,
            decreases self@.dom().len(),
        {
            let ghost stack_before = stack@;
            let ghost len_before = self@.dom().len();
            let id = match stack.pop() {
                Some(id) => id,
                None => break,
            };
            proof {
                use_type_invariant(&id);
                assert(stack@ =~= stack_before.drop_last());
                assert(stack_before[stack_before.len() - 1] == id);
                assert(sub.contains(stack_before[stack_before.len() - 1]));
                assert(m0.dom().contains(id));
                assert(self@.dom().contains(id));
                vstd::set_lib::lemma_len_subset(self@.dom(), m0.dom());
            }
            let node = slots_remove(&mut self.nodes, id).unwrap();
            let children = node.children();
            let ghost old_removed = removed;
            proof {
                assert(!old_removed.contains(id));
                removed = removed.insert(id);
                assert(self.spec_retired() =~= old(self).spec_retired().union(removed));
                assert(child_links_ok(m0, id));
                assert(m0[id] == node);
                assert(self@.dom().len() < len_before);
            }
            let mut j: usize = 0;
            while j < children.len()
                invariant
                    0 <= j <= children@.len(),
                    children@ == m0[id].spec_children(),
                    child_links_ok(m0, id),
                    stack@ == stack_before.drop_last() + children@.subrange(0, j as int),
                decreases children@.len() - j,
            {
                stack.push(children[j]);
                j = j + 1;
                proof {
                    assert(stack@ =~= stack_before.drop_last() + children@.subrange(0, j as int));
                }
            }
            proof {
                assert(children@.subrange(0, children@.len() as int) =~= children@);
                let cs = children@;
                let sb = stack_before.drop_last();
                assert(self@ =~= m0.remove_keys(removed));
                assert forall|i: int| 0 <= i < cs.len() implies #[trigger] sub.contains(cs[i])
                    && !removed.contains(cs[i]) && m0[cs[i]].parent == Some(id) by {
                    assert(m0.dom().contains(cs[i]));
                    lemma_subtree_child(m0, cs[i], id, root);
                    if old_removed.contains(cs[i]) {
                        assert(cs[i] != root);
                    }
                }
                assert forall|i: int| 0 <= i < stack@.len() implies #[trigger] sub.contains(stack@[i])
                    && !removed.contains(stack@[i]) && (stack@[i] == root || (
                    m0[stack@[i]].parent matches Some(p) && removed.contains(p))) by {
                    if i < sb.len() {
                        assert(stack@[i] == stack_before[i]);
                        assert(stack_before[i] != id);
                    } else {
                        assert(stack@[i] == cs[i - sb.len()]);
                    }
                }
                assert forall|a: int, b: int|
                    0 <= a < stack@.len() && 0 <= b < stack@.len() && a != b implies stack@[a] != stack@[b] by {
                    if a < sb.len() && b < sb.len() {
                        assert(stack@[a] == stack_before[a] && stack@[b] == stack_before[b]);
                    } else if a >= sb.len() && b >= sb.len() {
                        assert(stack@[a] == cs[a - sb.len()] && stack@[b] == cs[b - sb.len()]);
                    } else {
                        let (u, v) = if a < sb.len() { (a, b) } else { (b, a) };
                        assert(stack@[u] == stack_before[u]);
                        assert(stack_before[u] != id);
                        assert(stack@[v] == cs[v - sb.len()]);
                        assert(m0[cs[v - sb.len()]].parent == Some(id));
                        if stack@[u] == stack@[v] {
                            assert(stack@[u] != root);
                        }
                    }
                }
                assert forall|x: RenderNodeId| #[trigger] sub.contains(x) && !removed.contains(x) implies exists|
                    i: int,
                    k: nat,
                |
                    #![trigger stack@[i], ancestor_at(m0, x, k)]
                    0 <= i < stack@.len() && ancestor_at(m0, x, k) == Some(stack@[i]) by {
                    let (i, k) = choose|i: int, k: nat|
                        #![trigger stack_before[i], ancestor_at(m0, x, k)]
                        0 <= i < stack_before.len() && ancestor_at(m0, x, k) == Some(stack_before[i]);
                    if stack_before[i] == id {
                        assert(k >= 1) by {
                            if k == 0 {
                                assert(x == id);
                            }
                        }
                        lemma_ancestor_pred(m0, x, k, id);
                        let y = ancestor_at(m0, x, (k - 1) as nat).unwrap();
                        lemma_ancestor_depth(m0, d0, x, (k - 1) as nat, y);
                        assert(parent_link_ok(m0, d0, y));
                        assert(cs.contains(y));
                        let t = choose|t: int| 0 <= t < cs.len() && cs[t] == y;
                        assert(stack@[sb.len() + t] == y);
                    } else {
                        assert(i < sb.len());
                        assert(stack@[i] == stack_before[i]);
                    }
                }
            }
        }
        proof {
            assert forall|x: RenderNodeId| #[trigger] sub.contains(x) implies removed.contains(x) by {
                if !removed.contains(x) {
                    let (i, k) = choose|i: int, k: nat|
                        #![trigger stack@[i], ancestor_at(m0, x, k)]
                        0 <= i < stack@.len() && ancestor_at(m0, x, k) == Some(stack@[i]);
                }
            }
            assert(removed =~= sub);
            lemma_remove_subtree_wf(m0, d0, root);
            vstd::set_lib::lemma_len_subset(self@.dom(), m0.dom());
            assert(self@.dom() =~= m_old.dom().difference(subtree_of(m_old, root)));
            assert(Self::detached(old(self), &mid, root));
            assert(self@ == mid@.remove_keys(subtree_of(old(self)@, root)));
            assert(self.spec_revision() == mid.spec_revision());
            assert(self.spec_dirty_nodes() == mid.spec_dirty_nodes());
            assert(old(self)@.dom().difference(self@.dom()) =~= removed);
        }
        Ok(())
    }


    /// The current revision and a copy of the dirty queue.
    pub fn dirty_snapshot(&self) -> (r: DirtySnapshot)
        ensures
            r.revision == self.spec_revision(),
            r.nodes@ == self.spec_dirty_nodes(),
    {
        DirtySnapshot { revision: self.revision, nodes: copy_ids(self.dirty_nodes.as_slice()) }
    }

    /// Empties the dirty queue, un-queues its nodes, and returns the queued
    /// nodes that are still live, in queue order.
    pub fn take_dirty_nodes(&mut self) -> (r: Vec<RenderNodeId>)
        requires
            old(self).wf(),
        ensures
            final(self).spec_retired() == old(self).spec_retired(),
            final(self).spec_removals() == old(self).spec_removals(),
            final(self).wf(),
            final(self).spec_root() == old(self).spec_root(),
            final(self).spec_revision() == old(self).spec_revision(),
            final(self).spec_dirty_nodes() == Seq::<RenderNodeId>::empty(),
            final(self)@.dom() == old(self)@.dom(),
            forall|x: RenderNodeId| #[trigger] final(self)@.dom().contains(x) ==> final(self)@[x] == if old(
                self,
            ).spec_dirty_nodes().contains(x) {
                RenderNode { dirty_enqueued: false, ..old(self)@[x] }
            } else {
                old(self)@[x]
            },
            r@ == old(self).spec_dirty_nodes().filter(is_live(old(self)@)),
    {
        let mut nodes: Vec<RenderNodeId> = Vec::new();
        std::mem::swap(&mut nodes, &mut self.dirty_nodes);
        let ghost m0 = self@;
        let ghost q = nodes@;
        let mut result: Vec<RenderNodeId> = Vec::new();
        let mut i: usize = 0;
        while i < nodes.len()
            invariant
                self.spec_retired() == old(self).spec_retired(),
                self.spec_removals() == old(self).spec_removals(),
                i <= q.len(),
                nodes@ == q,
                self.wf() || forest_wf(self@, self.depth@),
                forest_wf(m0, self.depth@),
                same_shape(m0, self@),
                self@.dom().len() < 0xffff_fffe,
                self.root == old(self).root,
                self.revision == old(self).revision,
                self.dirty_nodes@ == Seq::<RenderNodeId>::empty(),
                forall|x: RenderNodeId| #[trigger] self@.dom().contains(x) ==> self@[x] == if q.subrange(
                    0,
                    i as int,
                ).contains(x) {
                    RenderNode { dirty_enqueued: false, ..m0[x] }
                } else {
                    m0[x]
                },
                result@ == q.subrange(0, i as int).filter(is_live(m0)),
            decreases q.len() - i,
        {
            let id = nodes[i];
            proof {
                use_type_invariant(&id);
                assert(q.subrange(0, i + 1) =~= q.subrange(0, i as int).push(id));
                q.subrange(0, i as int).lemma_push_to_set_commute(id);
                vstd::seq_lib::lemma_seq_contains_after_push(q.subrange(0, i as int), id, id);
                reveal(Seq::filter);
                assert(q.subrange(0, i as int).push(id).drop_last() =~= q.subrange(0, i as int));
                assert(q.subrange(0, i as int).push(id).filter(is_live(m0)) == if m0.dom().contains(id) {
                    q.subrange(0, i as int).filter(is_live(m0)).push(id)
                } else {
                    q.subrange(0, i as int).filter(is_live(m0))
                });
            }
            let ghost pre = q.subrange(0, i as int);
            if slots_contains(&self.nodes, id) {
                let node = slots_get_mut(&mut self.nodes, id);
                node.dirty_enqueued = false;
                result.push(id);
            }
            i = i + 1;
            let ghost post = q.subrange(0, i as int);
            proof {
                assert(post =~= pre.push(id));
                assert forall|x: RenderNodeId| #[trigger] self@.dom().contains(x) implies self@[x] == if q.subrange(
                    0,
                    i as int,
                ).contains(x) {
                    RenderNode { dirty_enqueued: false, ..m0[x] }
                } else {
                    m0[x]
                } by {
                    if post.contains(x) && x != id {
                        let j = choose|j: int| 0 <= j < post.len() && post[j] == x;
                        assert(pre[j] == x);
                    }
                    if pre.contains(x) {
                        let j = choose|j: int| 0 <= j < pre.len() && pre[j] == x;
                        assert(post[j] == x);
                    }
                    if x == id {
                        assert(post[pre.len() as int] == x);
                    }
                }
                assert(self@.dom() =~= m0.dom());
                assert(same_shape(m0, self@));
            }
        }
        proof {
            assert(q.subrange(0, q.len() as int) =~= q);
            lemma_same_shape_wf(m0, self.depth@, self@);
        }
        result
    }

    /// The subtree under `root` in depth-first preorder, children in their
    /// listed order.
    pub fn depth_first(&self, root: RenderNodeId) -> (r: Result<Vec<RenderNodeId>, SceneError>)
        requires
            self.wf(),
        ensures
            !self@.dom().contains(root) ==> r == Err::<Vec<RenderNodeId>, SceneError>(
                SceneError::MissingNode(root),
            ),
            self@.dom().contains(root) ==> (r matches Ok(v) && v@ == preorder(
                self@,
                root,
                self@.dom().len(),
            )),
    {
        if !self.contains(root) {
            return Err(SceneError::MissingNode(root));
        }
        let ghost m = self@;
        let ghost d = self.depth@;
        let ghost total = m.dom().len();
        let mut out: Vec<RenderNodeId> = Vec::new();
        let mut stack: Vec<RenderNodeId> = vec![root];
        let ghost mut fuels: Seq<nat> = seq![total];
        proof {
            lemma_depth_bound(m, d, root);
            assert(stack_preorder(m, stack@, fuels) =~= preorder(m, root, total)) by {
                assert(stack@ =~= seq![root]);
                assert(stack@.last() == root);
                assert(fuels.last() == total);
                assert(stack@.drop_last().len() == 0);
                assert(stack_preorder(m, stack@.drop_last(), fuels.drop_last()) =~= Seq::empty());
            }
            assert(out@ + stack_preorder(m, stack@, fuels) =~= preorder(m, root, total));
        }
        loop
            invariant
                m == self@,
                forest_wf(m, d),
                m.dom().contains(root),
                total == m.dom().len(),
                stack@.len() == fuels.len(),
                forall|i: int|
                    #![trigger stack@[i]]
                    0 <= i < stack@.len() ==> m.dom().contains(stack@[i]) && d[stack@[i]] >= d[root]
                        && fuels[i] + d[stack@[i]] == total + d[root],
                out@ + stack_preorder(m, stack@, fuels) == preorder(m, root, total),
            ensures
                out@ == preorder(m, root, total),
            decreases stack_preorder(m, stack@, fuels).len(),
        {
            let ghost before = stack@;
            let ghost fb = fuels;
            let top = stack.pop();
            let x = match top {
                Some(x) => x,
                None => {
                    proof {
                        assert(out@ =~= out@ + stack_preorder(m, before, fb));
                    }
                    break;
                },
            };
            let ghost rest = stack@;
            let ghost f = fb.last();
            proof {
                assert(before.len() > 0);
                assert(rest =~= before.drop_last());
                assert(x == before[before.len() - 1]);
                lemma_depth_bound(m, d, x);
                assert(f >= 1);
                assert(stack_preorder(m, before, fb) =~= preorder(m, x, f) + stack_preorder(
                    m,
                    rest,
                    fb.drop_last(),
                ));
            }
            proof {
                fuels = fb.drop_last();
            }
            out.push(x);
            let children = match self.node(x) {
                Some(node) => node.children(),
                None => {
                    proof {
                        assert(false);
                    }
                    return Err(SceneError::MissingNode(x));
                },
            };
            let ghost cs = children@;
            proof {
                assert(child_links_ok(m, x));
                assert(cs == m[x].spec_children());
            }
            let mut i: usize = children.len();
            proof {
                assert(cs.subrange(i as int, cs.len() as int).len() == 0);
                assert(stack_preorder(m, stack@, fuels) =~= preorder_all(
                    m,
                    cs.subrange(i as int, cs.len() as int),
                    (f - 1) as nat,
                ) + stack_preorder(m, rest, fb.drop_last()));
            }
            while i > 0
                invariant
                    i <= cs.len(),
                    cs == children@,
                    cs == m[x].spec_children(),
                    m == self@,
                    forest_wf(m, d),
                    m.dom().contains(x),
                    m.dom().contains(root),
                    f >= 1,
                    d[x] >= d[root],
                    f + d[x] == total + d[root],
                    stack@.len() == fuels.len(),
                    forall|k: int|
                        #![trigger stack@[k]]
                        0 <= k < stack@.len() ==> m.dom().contains(stack@[k]) && d[stack@[k]]
                            >= d[root] && fuels[k] + d[stack@[k]] == total + d[root],
                    stack_preorder(m, stack@, fuels) == preorder_all(
                        m,
                        cs.subrange(i as int, cs.len() as int),
                        (f - 1) as nat,
                    ) + stack_preorder(m, rest, fb.drop_last()),
                decreases i,
            {
                i = i - 1;
                let c = children[i];
                let ghost sb = stack@;
                let ghost fsb = fuels;
                stack.push(c);
                proof {
                    fuels = fuels.push((f - 1) as nat);
                    assert(child_links_ok(m, x));
                    assert(m[x].spec_children()[i as int] == c);
                    assert(m.dom().contains(c));
                    assert(parent_link_ok(m, d, c));
                    assert(stack@.drop_last() =~= sb);
                    assert(fuels.drop_last() =~= fsb);
                    assert(cs.subrange(i as int, cs.len() as int).drop_first() =~= cs.subrange(
                        i + 1,
                        cs.len() as int,
                    ));
                    assert(cs.subrange(i as int, cs.len() as int)[0] == c);
                    assert(stack_preorder(m, stack@, fuels) =~= preorder(m, c, (f - 1) as nat)
                        + stack_preorder(m, sb, fsb));
                }
            }
            proof {
                assert(cs.subrange(0, cs.len() as int) =~= cs);
                assert(preorder(m, x, f) =~= seq![x] + preorder_all(m, cs, (f - 1) as nat));
                assert(out@ + stack_preorder(m, stack@, fuels) =~= preorder(m, root, total));
            }
        }
        Ok(out)
    }


    /// What applying `patch` does: what the edit it names does, with its
    /// change flag dropped.
    pub open spec fn patch_outcome(
        old: &RenderScene,
        new: &RenderScene,
        patch: ScenePatch,
        r: Result<(), SceneError>,
    ) -> bool {
        match patch {
            ScenePatch::SetVisible { node, visible } => exists|b: Result<bool, SceneError>|
                Self::visible_outcome(old, new, node, visible, b) && r == unit_result(b),
            ScenePatch::UpdatePrimitive { node, primitive } => exists|b: Result<bool, SceneError>|
                Self::primitive_outcome(old, new, node, primitive, b) && r == unit_result(b),
            ScenePatch::UpdateTransform { node, transform } => exists|b: Result<bool, SceneError>|
                Self::transform_outcome(old, new, node, transform, b) && r == unit_result(b),
            ScenePatch::UpdateClip { node, clip } => exists|b: Result<bool, SceneError>|
                Self::clip_outcome(old, new, node, clip, b) && r == unit_result(b),
            ScenePatch::UpdateLayerComposite { node, composite } => exists|b: Result<bool, SceneError>|
                Self::composite_outcome(old, new, node, composite, b) && r == unit_result(b),
            ScenePatch::UpdateLayer { node, descriptor } => exists|b: Result<bool, SceneError>|
                Self::layer_outcome(old, new, node, descriptor, b) && r == unit_result(b),
            ScenePatch::RemoveSubtree { node } => Self::removal_outcome(old, new, node, r),
        }
    }

    /// Applies one patch through the edit it names.
    pub fn apply_patch(&mut self, patch: ScenePatch) -> (r: Result<(), SceneError>)
        requires
            old(self).wf(),
        ensures
            final(self).wf(),
            Self::patch_outcome(old(self), final(self), patch, r),
            old(self).spec_retired().subset_of(final(self).spec_retired()),
            old(self).spec_removals() <= final(self).spec_removals(),
    {
        match patch {
            ScenePatch::SetVisible { node, visible } => {
                let b = self.set_visible(node, visible);
                drop_flag(b)
            },
            ScenePatch::UpdatePrimitive { node, primitive } => {
                let b = self.update_primitive(node, primitive);
                drop_flag(b)
            },
            ScenePatch::UpdateTransform { node, transform } => {
                let b = self.update_transform(node, transform);
                drop_flag(b)
            },
            ScenePatch::UpdateClip { node, clip } => {
                let b = self.update_clip(node, clip);
                drop_flag(b)
            },
            ScenePatch::UpdateLayerComposite { node, composite } => {
                let b = self.update_layer_composite(node, composite);
                drop_flag(b)
            },
            ScenePatch::UpdateLayer { node, descriptor } => {
                let b = self.update_layer_descriptor(node, descriptor);
                drop_flag(b)
            },
            ScenePatch::RemoveSubtree { node } => self.remove_subtree(node),
        }
    }

    /// Applies patches in order, stopping at the first that fails.
    pub fn apply_patches(&mut self, patches: Vec<ScenePatch>) -> (r: Result<(), SceneError>)
        requires
            old(self).wf(),
        ensures
            final(self).wf(),
            r is Ok ==> exists|st: Seq<RenderScene>|
                #[trigger] Self::patch_run(st, patches@, patches@.len() as int) && st[0] == *old(self)
                    && st.last() == *final(self),
            r matches Err(e) ==> exists|st: Seq<RenderScene>, k: int|
                #[trigger] Self::patch_run(st, patches@, k) && 0 <= k < patches@.len() && st[0]
                    == *old(self) && Self::patch_outcome(&st.last(), final(self), patches@[k], Err(e)),
            old(self).spec_retired().subset_of(final(self).spec_retired()),
            old(self).spec_removals() <= final(self).spec_removals(),
    {
        let ghost ps = patches@;
        let ghost mut st: Seq<RenderScene> = seq![*self];
        let mut i: usize = 0;
        while i < patches.len()
            invariant
                self.wf(),
                i <= ps.len(),
                ps == patches@,
                Self::patch_run(st, ps, i as int),
                st[0] == *old(self),
                st.last() == *self,
                old(self).spec_retired().subset_of(self.spec_retired()),
                old(self).spec_removals() <= self.spec_removals(),
            decreases ps.len() - i,
        {
            let ghost before = *self;
            let patch = patches[i];
            let r = self.apply_patch(patch);
            match r {
                Ok(()) => {},
                Err(e) => {
                    proof {
                        assert(Self::patch_run(st, ps, i as int));
                    }
                    return Err(e);
                },
            }
            proof {
                let st2 = st.push(*self);
                assert forall|t: int| 0 <= t < i + 1 implies #[trigger] Self::patch_outcome(
                    &st2[t],
                    &st2[t + 1],
                    ps[t],
                    Ok(()),
                ) by {
                    if t < i {
                        assert(st2[t] == st[t] && st2[t + 1] == st[t + 1]);
                    } else {
                        assert(st2[t] == before && st2[t + 1] == *self);
                    }
                }
                st = st2;
            }
            i = i + 1;
        }
        Ok(())
    }

    /// `st` holds the scenes before and after each of the first `k` patches,
    /// every one of which succeeded.
    pub open spec fn patch_run(st: Seq<RenderScene>, ps: Seq<ScenePatch>, k: int) -> bool {
        &&& 0 <= k <= ps.len()
        &&& st.len() == k + 1
        &&& forall|t: int|
            0 <= t < k ==> #[trigger] Self::patch_outcome(&st[t], &st[t + 1], ps[t], Ok(()))
    }


    /// Recomputes the subtree summary of every node under `id` from the
    /// flags of its subtree, and returns the summary of `id`.
    fn rebuild_visit(&mut self, id: RenderNodeId) -> (r: RenderDirty)
        requires
            old(self).wf(),
            old(self)@.dom().contains(id),
        ensures
            final(self).spec_retired() == old(self).spec_retired(),
            final(self).spec_removals() == old(self).spec_removals(),
            final(self).wf(),
            final(self).depth == old(self).depth,
            final(self).root == old(self).root,
            final(self).revision == old(self).revision,
            final(self).dirty_nodes == old(self).dirty_nodes,
            summaries_rebuilt(old(self)@, final(self)@, id),
            r == final(self)@[id].subtree_dirty,
        decreases old(self)@.dom().len() - old(self).depth@[id],
    {
        let ghost m0 = self@;
        let ghost d0 = self.depth@;
        proof {
            use_type_invariant(&id);
            lemma_depth_bound(m0, d0, id);
        }
        let node = slots_get(&self.nodes, id).unwrap();
        let children = copy_ids(node.children());
        let mut acc = node.dirty;
        let ghost cs = children@;
        let mut i: usize = 0;
        proof {
            assert(children_rebuilt(m0, self@, cs, 0));
            assert forall|j: u16| j < 16 implies #[trigger] has_flag(acc.bits, j) == (has_flag(
                m0[id].dirty.bits,
                j,
            ) || children_flag(m0, cs, 0, j)) by {}
        }
        while i < children.len()
            invariant
                self.spec_retired() == old(self).spec_retired(),
                self.spec_removals() == old(self).spec_removals(),
                self.wf(),
                m0.dom().contains(id),
                forest_wf(m0, d0),
                d0 == self.depth@,
                self.depth == old(self).depth,
                self.root == old(self).root,
                self.revision == old(self).revision,
                self.dirty_nodes == old(self).dirty_nodes,
                m0 == old(self)@,
                cs == children@,
                cs == m0[id].spec_children(),
                d0[id] < m0.dom().len(),
                i <= cs.len(),
                children_rebuilt(m0, self@, cs, i as int),
                forall|j: u16|
                    j < 16 ==> #[trigger] has_flag(acc.bits, j) == (has_flag(m0[id].dirty.bits, j)
                        || children_flag(m0, cs, i as int, j)),
            decreases cs.len() - i,
        {
            let c = children[i];
            let ghost si = self@;
            proof {
                assert(child_links_ok(m0, id));
                assert(m0.dom().contains(c) && m0[c].parent == Some(id));
                assert(parent_link_ok(m0, d0, c));
                lemma_depth_bound(m0, d0, c);
                assert(si.dom().contains(c));
            }
            let sub = self.rebuild_visit(c);
            proof {
                lemma_rebuild_step(m0, d0, si, self@, id, i as int);
                lemma_flags_step(m0, cs, i as int, m0[id].dirty.bits, acc.bits, sub.bits);
            }
            acc = acc.union(sub);
            i = i + 1;
        }
        let ghost s = self@;
        proof {
            assert(children_rebuilt(m0, s, cs, cs.len() as int));
            assert(s[id] == m0[id]) by {
                assert(!under_children(m0, cs, cs.len() as int, id)) by {
                    if under_children(m0, cs, cs.len() as int, id) {
                        let t = choose|t: int| 0 <= t < cs.len() && #[trigger] in_subtree(m0, id, cs[t]);
                        assert(child_links_ok(m0, id));
                        lemma_children_disjoint(m0, d0, id, cs[t], cs[t], id);
                    }
                }
            }
        }
        let node = slots_get_mut(&mut self.nodes, id);
        node.subtree_dirty = acc;
        proof {
            lemma_rebuild_finish(m0, d0, s, id, acc.bits, self@);
            assert(same_shape(s, self@)) by {
                assert(self@.dom() =~= s.dom());
            }
            assert(same_shape(m0, s)) by {
                assert forall|y: RenderNodeId| #[trigger] s.dom().contains(y) implies s[y].parent == m0[y].parent
                    && s[y].spec_children() == m0[y].spec_children() by {
                    assert(s[y] == RenderNode { subtree_dirty: s[y].subtree_dirty, ..m0[y] });
                }
            }
            assert(same_shape(m0, self@)) by {
                assert forall|y: RenderNodeId| #[trigger] self@.dom().contains(y) implies self@[y].parent
                    == m0[y].parent && self@[y].spec_children() == m0[y].spec_children() by {
                    assert(self@[y] == RenderNode { subtree_dirty: self@[y].subtree_dirty, ..m0[y] });
                }
            }
            lemma_same_shape_wf(m0, d0, self@);
        }
        acc
    }

    /// Recomputes every subtree summary under the root from scratch: each
    /// becomes exactly the union of the flags in its subtree. Nothing else
    /// changes, and nodes outside the root's tree keep their summaries.
    pub fn rebuild_subtree_dirty(&mut self)
        requires
            old(self).wf(),
        ensures
            final(self).spec_retired() == old(self).spec_retired(),
            final(self).spec_removals() == old(self).spec_removals(),
            final(self).wf(),
            final(self).spec_root() == old(self).spec_root(),
            final(self).spec_revision() == old(self).spec_revision(),
            final(self).spec_dirty_nodes() == old(self).spec_dirty_nodes(),
            old(self)@.dom().contains(old(self).spec_root()) ==> summaries_rebuilt(
                old(self)@,
                final(self)@,
                old(self).spec_root(),
            ),
            !old(self)@.dom().contains(old(self).spec_root()) ==> *final(self) == *old(self),
    {
        if self.contains(self.root) {
            let root = self.root;
            self.rebuild_visit(root);
        }
    }


    /// Clears the given flags from one node's own dirty flags (its queue
    /// entry and subtree summary stay); unknown handles are ignored.
    pub fn clear_node_dirty(&mut self, id: RenderNodeId, dirty: RenderDirty)
        requires
            old(self).wf(),
        ensures
            final(self).spec_retired() == old(self).spec_retired(),
            final(self).spec_removals() == old(self).spec_removals(),
            final(self).wf(),
            final(self).spec_root() == old(self).spec_root(),
            final(self).spec_revision() == old(self).spec_revision(),
            final(self).spec_dirty_nodes() == old(self).spec_dirty_nodes(),
            final(self)@ == if old(self)@.dom().contains(id) {
                old(self)@.insert(
                    id,
                    RenderNode {
                        dirty: RenderDirty { bits: old(self)@[id].dirty.bits & !dirty.bits },
                        ..old(self)@[id]
                    },
                )
            } else {
                old(self)@
            },
    {
        proof {
            use_type_invariant(&id);
        }
        if slots_contains(&self.nodes, id) {
            let ghost m = self@;
            let node = slots_get_mut(&mut self.nodes, id);
            node.dirty.remove(dirty);
            proof {
                assert(self@.dom() =~= m.dom());
                assert(same_shape(m, self@));
                lemma_same_shape_wf(m, self.depth@, self@);
            }
        }
    }


    /// Recomputes subtree summaries from `from` upwards until one is unchanged.
    fn refresh_subtree_dirty_from(&mut self, from: RenderNodeId)
        requires
            old(self).wf(),
        ensures
            final(self).spec_retired() == old(self).spec_retired(),
            final(self).spec_removals() == old(self).spec_removals(),
            final(self).wf(),
            final(self).root == old(self).root,
            final(self).revision == old(self).revision,
            final(self).dirty_nodes == old(self).dirty_nodes,
            final(self).depth == old(self).depth,
            final(self)@ == refreshed(old(self)@, Some(from), old(self)@.dom().len()),
    {
        let ghost m0 = self@;
        let ghost d0 = self.depth@;
        let ghost fuel0 = m0.dom().len();
        let mut current = Some(from);
        let ghost mut fuel: nat = fuel0;
        proof {
            if m0.dom().contains(from) {
                lemma_depth_bound(m0, d0, from);
            }
        }
        loop
            invariant_except_break
                self.spec_retired() == old(self).spec_retired(),
                self.spec_removals() == old(self).spec_removals(),
                refreshed(self@, current, fuel) == refreshed(m0, Some(from), fuel0),
                (current matches Some(c) && self@.dom().contains(c)) ==> fuel > d0[current.unwrap()],
            invariant
                self.spec_retired() == old(self).spec_retired(),
                self.spec_removals() == old(self).spec_removals(),
                forest_wf(self@, d0),
                same_shape(m0, self@),
                self.depth@ == d0,
                self@.dom().len() < 0xffff_fffe,
                self.root == old(self).root,
                self.revision == old(self).revision,
                self.dirty_nodes == old(self).dirty_nodes,
                self.depth == old(self).depth,
            ensures
                self@ == refreshed(m0, Some(from), fuel0),
            decreases fuel,
        {
            let id = match current {
                Some(id) => id,
                None => break,
            };
            proof {
                use_type_invariant(&id);
            }
            let node = match self.node(id) {
                Some(node) => node,
                None => break,
            };
            let parent = node.parent;
            let old_summary = node.subtree_dirty;
            let children = node.children();
            let mut summary = node.dirty;
            let mut i: usize = 0;
            while i < children.len()
                invariant
                    self.spec_retired() == old(self).spec_retired(),
                    self.spec_removals() == old(self).spec_removals(),
                    i <= children@.len(),
                    children@ == self@[id].spec_children(),
                    summary.bits == summary_from(self@, self@[id].dirty.bits, children@.subrange(0, i as int)),
                decreases children@.len() - i,
            {
                let c = children[i];
                proof {
                    use_type_invariant(&c);
                    assert(children@.subrange(0, i + 1).drop_last() =~= children@.subrange(0, i as int));
                }
                match self.node(c) {
                    Some(child) => {
                        summary = summary.union(child.subtree_dirty);
                    },
                    None => {
                        proof {
                            assert((summary.bits | 0u16) == summary.bits) by (bit_vector);
                        }
                    },
                }
                i = i + 1;
            }
            proof {
                assert(children@.subrange(0, children@.len() as int) =~= children@);
            }
            if old_summary == summary {
                break;
            }
            let ghost before = self@;
            let node = slots_get_mut(&mut self.nodes, id);
            node.subtree_dirty = summary;
            current = parent;
            proof {
                assert(self@.dom() =~= before.dom());
                assert(same_shape(before, self@));
                lemma_same_shape_wf(before, d0, self@);
                assert(parent_link_ok(before, d0, id));
                fuel = (fuel - 1) as nat;
            }
        }
    }

    /// Acknowledges a snapshot: nodes it names that have not changed since
    /// lose their dirty flags and queue marks, the queue keeps only nodes
    /// still queued and dirty, and subtree summaries are recomputed upwards
    /// from each named node.
    pub fn acknowledge(&mut self, snapshot: &DirtySnapshot)
        requires
            old(self).wf(),
        ensures
            final(self).spec_retired() == old(self).spec_retired(),
            final(self).spec_removals() == old(self).spec_removals(),
            final(self).wf(),
            final(self).spec_root() == old(self).spec_root(),
            final(self).spec_revision() == old(self).spec_revision(),
            Self::acknowledge_outcome(old(self), final(self), snapshot.nodes@, snapshot.revision),
            ({
                let m1 = acknowledged(old(self)@, snapshot.nodes@, snapshot.revision);
                &&& final(self).spec_dirty_nodes() == old(self).spec_dirty_nodes().filter(still_pending(m1))
                &&& final(self)@ == refreshed_all(m1, snapshot.nodes@, old(self)@.dom().len())
            }),
    {
        let ghost m0 = self@;
        let ghost d0 = self.depth@;
        let ghost snap = snapshot.nodes@;
        let mut i: usize = 0;
        while i < snapshot.nodes.len()
            invariant
                self.spec_retired() == old(self).spec_retired(),
                self.spec_removals() == old(self).spec_removals(),
                i <= snap.len(),
                snap == snapshot.nodes@,
                forest_wf(self@, d0),
                same_shape(m0, self@),
                self.depth@ == d0,
                self@.dom().len() < 0xffff_fffe,
                self.root == old(self).root,
                self.revision == old(self).revision,
                self.dirty_nodes == old(self).dirty_nodes,
                self@ == acknowledged(m0, snap.subrange(0, i as int), snapshot.revision),
            decreases snap.len() - i,
        {
            let id = snapshot.nodes[i];
            let ghost pre = snap.subrange(0, i as int);
            proof {
                use_type_invariant(&id);
            }
            if slots_contains(&self.nodes, id) {
                let ghost before = self@;
                let node = slots_get_mut(&mut self.nodes, id);
                if node.epochs.newest() <= snapshot.revision {
                    node.dirty = RenderDirty::empty();
                    node.dirty_enqueued = false;
                }
                proof {
                    assert(self@.dom() =~= before.dom());
                    assert(same_shape(before, self@));
                    lemma_same_shape_wf(before, d0, self@);
                }
            }
            i = i + 1;
            proof {
                let post = snap.subrange(0, i as int);
                assert(post =~= pre.push(id));
                assert forall|x: RenderNodeId| post.contains(x) <==> (pre.contains(x) || x == id) by {
                    if post.contains(x) {
                        let j = choose|j: int| 0 <= j < post.len() && post[j] == x;
                        if j < pre.len() {
                            assert(pre[j] == x);
                        }
                    }
                    if pre.contains(x) {
                        let j = choose|j: int| 0 <= j < pre.len() && pre[j] == x;
                        assert(post[j] == x);
                    }
                    if x == id {
                        assert(post[pre.len() as int] == x);
                    }
                }
                assert(self@ =~= acknowledged(m0, post, snapshot.revision));
            }
        }
        proof {
            assert(snap.subrange(0, snap.len() as int) =~= snap);
        }
        let ghost m1 = self@;
        proof {
            assert(m1.dom() =~= m0.dom());
        }
        let mut kept: Vec<RenderNodeId> = Vec::new();
        let mut j: usize = 0;
        let ghost q = self.dirty_nodes@;
        while j < self.dirty_nodes.len()
            invariant
                self.spec_retired() == old(self).spec_retired(),
                self.spec_removals() == old(self).spec_removals(),
                j <= q.len(),
                q == self.dirty_nodes@,
                m1 == self@,
                kept@ == q.subrange(0, j as int).filter(still_pending(m1)),
            decreases q.len() - j,
        {
            let id = self.dirty_nodes[j];
            proof {
                use_type_invariant(&id);
                reveal(Seq::filter);
                assert(q.subrange(0, j + 1).drop_last() =~= q.subrange(0, j as int));
                assert(q.subrange(0, j + 1).last() == id);
            }
            let keep = match self.node(id) {
                Some(node) => node.dirty_enqueued && !node.dirty.is_empty(),
                None => false,
            };
            if keep {
                kept.push(id);
            }
            j = j + 1;
        }
        proof {
            assert(q.subrange(0, q.len() as int) =~= q);
        }
        self.dirty_nodes = kept;
        let ghost fuel = m0.dom().len();
        let mut k: usize = 0;
        while k < snapshot.nodes.len()
            invariant
                self.spec_retired() == old(self).spec_retired(),
                self.spec_removals() == old(self).spec_removals(),
                k <= snap.len(),
                snap == snapshot.nodes@,
                forest_wf(self@, d0),
                self.depth@ == d0,
                self@.dom() == m0.dom(),
                fuel == m0.dom().len(),
                self@.dom().len() < 0xffff_fffe,
                self.root == old(self).root,
                self.revision == old(self).revision,
                self.dirty_nodes@ == q.filter(still_pending(m1)),
                self@ == refreshed_all(m1, snap.subrange(0, k as int), fuel),
            decreases snap.len() - k,
        {
            let id = snapshot.nodes[k];
            let ghost before = self@;
            proof {
                assert(before.dom() == m0.dom());
                assert(before.dom().len() == fuel);
            }
            self.refresh_subtree_dirty_from(id);
            proof {
                lemma_refresh_one_dom(before, Some(id), fuel);
                assert(snap.subrange(0, k + 1).drop_last() =~= snap.subrange(0, k as int));
                assert(snap.subrange(0, k + 1).last() == id);
                lemma_refreshed_dom(m1, snap.subrange(0, k + 1), fuel);
            }
            k = k + 1;
        }
        proof {
            assert(snap.subrange(0, snap.len() as int) =~= snap);
        }
    }

    /// Marks `id` dirty with `dirty`, stamping the node's epochs with a new
    /// revision and widening the subtree summaries of its ancestors.
    fn mark_dirty(&mut self, id: RenderNodeId, dirty: RenderDirty)
        requires
            old(self).wf(),
            old(self)@.dom().contains(id),
        ensures
            final(self).spec_retired() == old(self).spec_retired(),
            final(self).spec_removals() == old(self).spec_removals(),
            final(self).wf(),
            final(self).depth == old(self).depth,
            final(self).root == old(self).root,
            dirty.mask() == 0 ==> *final(self) == *old(self),
            dirty.mask() != 0 ==> {
                &&& final(self).revision == next_revision(old(self).revision)
                &&& final(self)@ == dirty_marked(old(self)@, id, dirty, final(self).revision)
                &&& final(self).dirty_nodes@ == if old(self)@[id].dirty_enqueued {
                    old(self).dirty_nodes@
                } else {
                    old(self).dirty_nodes@.push(id)
                }
            },
    {
        if dirty.is_empty() {
            return;
        }
        let ghost m0 = self@;
        let ghost d0 = self.depth@;
        proof {
            use_type_invariant(&id);
        }
        self.revision = if self.revision == u64::MAX { 1 } else { self.revision + 1 };
        let revision = self.revision;
        let node = slots_get_mut(&mut self.nodes, id);
        node.dirty = node.dirty.union(dirty);
        node.subtree_dirty = node.subtree_dirty.union(dirty);
        node.epochs.mark(dirty, revision);
        let enqueued = node.dirty_enqueued;
        node.dirty_enqueued = true;
        let mut ancestor = node.parent;
        if !enqueued {
            self.dirty_nodes.push(id);
        }
        let ghost mut k: nat = 1;
        proof {
            assert(ancestor_at(m0, id, 1) == ancestor) by {
                lemma_ancestor_step(m0, id, 0);
            }
            assert(self@ == partial_marked(m0, id, dirty, revision, 1)) by {
                assert forall|x: RenderNodeId| !below_k(m0, id, x, 1) by {}
            }
        }
        loop
            invariant_except_break
                ancestor == ancestor_at(m0, id, k),
                forall|j: nat| 1 <= j < k ==> !#[trigger] propagation_blocked(m0, id, j, dirty),
                self@ == partial_marked(m0, id, dirty, revision, k),
            invariant
                self.spec_retired() == old(self).spec_retired(),
                self.spec_removals() == old(self).spec_removals(),
                forest_wf(m0, d0),
                m0.dom().contains(id),
                self.depth@ == d0,
                self.depth == old(self).depth,
                self.root == old(self).root,
                self.revision == revision,
                revision == next_revision(old(self).revision),
                dirty.mask() != 0,
                k >= 1,
                m0 == old(self)@,
                self.dirty_nodes@ == if m0[id].dirty_enqueued {
                    old(self).dirty_nodes@
                } else {
                    old(self).dirty_nodes@.push(id)
                },
            ensures
                self@ == dirty_marked(m0, id, dirty, revision),
            decreases
                match ancestor {
                    Some(a) => d0[a] + 1,
                    None => 0,
                },
        {
            let parent = match ancestor {
                Some(parent) => parent,
                None => {
                    proof {
                        lemma_partial_final(m0, d0, id, dirty, revision, k);
                    }
                    break;
                },
            };
            proof {
                use_type_invariant(&parent);
                lemma_ancestor_depth(m0, d0, id, k, parent);
                lemma_partial_untouched(m0, d0, id, dirty, revision, k, parent);
            }
            let node = slots_get_mut(&mut self.nodes, parent);
            let missing = dirty.difference(node.subtree_dirty);
            proof {
                lemma_missing_empty(dirty, node.subtree_dirty);
            }
            if missing.is_empty() {
                proof {
                    assert(propagation_blocked(m0, id, k, dirty));
                    lemma_partial_final(m0, d0, id, dirty, revision, k);
                }
                break;
            }
            node.subtree_dirty = node.subtree_dirty.union(dirty);
            ancestor = node.parent;
            proof {
                lemma_partial_advance(m0, d0, id, dirty, revision, k, parent);
                lemma_ancestor_hop(m0, id, k, parent);
                lemma_ancestor_step(m0, parent, 0);
                assert(parent_link_ok(m0, d0, parent));
                match ancestor {
                    Some(q) => {
                        lemma_ancestor_depth(m0, d0, parent, 1, q);
                    },
                    None => {},
                }
                k = k + 1;
            }
        }
        proof {
            lemma_marked_shape(m0, id, dirty, revision);
            lemma_same_shape_wf(m0, d0, self@);
        }
    }
}

} // verus!
