//! The decisions of the scene compiler that read only the scene and the
//! index of what was compiled from it: which changes a node carries since a
//! revision, whether a change forces a structural rebuild, which isolated
//! layer's branch a change belongs to, and whether explicit layer cache keys
//! are unique.

use vstd::prelude::*;

use crate::dirty::RenderDirty;
use crate::node_store::RenderNodeId;
use crate::properties::FrameProperties;
use crate::assoc::{lemma_filter_no_dup, lemma_filter_sub};
use crate::scene::{DirtySnapshot, RenderNode, RenderNodeKind, RenderScene, SceneError};
use crate::scene_spec::{
    ancestor_at, forest_wf, in_subtree, lemma_ancestor_none, lemma_ancestor_step, parent_link_ok,
    preorder,
};

verus! {

/// Why a scene could not be compiled.
#[derive(Debug, Clone, Copy, PartialEq, Eq)]
pub enum SceneCompileError {
    Scene(SceneError),
    DuplicateLayerCacheKey(u64),
}

/// The change flags of `node` that were stamped after `revision`, each part
/// checked against the epoch that records it.
pub open spec fn spec_dirty_since(node: RenderNode, revision: u64) -> u16 {
    let d = node.dirty.bits;
    (if node.epochs.topology > revision { d & 0x1u16 } else { 0u16 }) | (if node.epochs.geometry
        > revision {
        d & 0x4au16
    } else {
        0u16
    }) | (if node.epochs.paint > revision { d & 0x24u16 } else { 0u16 }) | (
    if node.epochs.composite > revision {
        d & 0x10u16
    } else {
        0u16
    })
}

/// Which flags count as changed since a revision, for any node and
/// revision: a flag counts exactly when the node carries it and the epoch
/// that records its kind of change is past the revision (topology by the
/// topology epoch; geometry, clip and visibility by the geometry epoch;
/// paint and effect by the paint epoch; composite by the composite epoch);
/// no other bit is ever reported.
pub proof fn law_dirty_since_parts(node: RenderNode, revision: u64)
    ensures
        ({
            let r = spec_dirty_since(node, revision);
            let d = node.dirty.bits;
            &&& (r & 0x1 != 0) == (d & 0x1 != 0 && node.epochs.topology > revision)
            &&& (r & 0x2 != 0) == (d & 0x2 != 0 && node.epochs.geometry > revision)
            &&& (r & 0x8 != 0) == (d & 0x8 != 0 && node.epochs.geometry > revision)
            &&& (r & 0x40 != 0) == (d & 0x40 != 0 && node.epochs.geometry > revision)
            &&& (r & 0x4 != 0) == (d & 0x4 != 0 && node.epochs.paint > revision)
            &&& (r & 0x20 != 0) == (d & 0x20 != 0 && node.epochs.paint > revision)
            &&& (r & 0x10 != 0) == (d & 0x10 != 0 && node.epochs.composite > revision)
            &&& r & 0xff80 == 0
        }),
{
    let d = node.dirty.bits;
    let t = node.epochs.topology > revision;
    let g = node.epochs.geometry > revision;
    let p = node.epochs.paint > revision;
    let c = node.epochs.composite > revision;
    let r: u16 = (if t { d & 0x1u16 } else { 0u16 }) | (if g { d & 0x4au16 } else { 0u16 }) | (if p {
        d & 0x24u16
    } else {
        0u16
    }) | (if c { d & 0x10u16 } else { 0u16 });
    assert(r == spec_dirty_since(node, revision));
    assert({
        &&& (r & 0x1 != 0) == (d & 0x1 != 0 && t)
        &&& (r & 0x2 != 0) == (d & 0x2 != 0 && g)
        &&& (r & 0x8 != 0) == (d & 0x8 != 0 && g)
        &&& (r & 0x40 != 0) == (d & 0x40 != 0 && g)
        &&& (r & 0x4 != 0) == (d & 0x4 != 0 && p)
        &&& (r & 0x20 != 0) == (d & 0x20 != 0 && p)
        &&& (r & 0x10 != 0) == (d & 0x10 != 0 && c)
        &&& r & 0xff80 == 0
    }) by (bit_vector)
        requires
            r == (if t { d & 0x1u16 } else { 0u16 }) | (if g { d & 0x4au16 } else { 0u16 }) | (if p {
                d & 0x24u16
            } else {
                0u16
            }) | (if c { d & 0x10u16 } else { 0u16 }),
    ;
}

/// The changes of `node` since `revision`: topology by the topology epoch,
/// geometry, clip and visibility by the geometry epoch, paint and effect by
/// the paint epoch, composite by the composite epoch.
pub fn dirty_since(node: &RenderNode, revision: u64) -> (r: RenderDirty)
    ensures
        r.bits == spec_dirty_since(*node, revision),
{
    let d = node.dirty.bits;
    let topology: u16 = if node.epochs.topology > revision { d & 0x1 } else { 0 };
    let geometry: u16 = if node.epochs.geometry > revision { d & 0x4a } else { 0 };
    let paint: u16 = if node.epochs.paint > revision { d & 0x24 } else { 0 };
    let composite: u16 = if node.epochs.composite > revision { d & 0x10 } else { 0 };
    RenderDirty { bits: topology | geometry | paint | composite }
}

/// The index of what a compiled scene holds, by source node: which nodes
/// have a compiled primitive, spatial node, clip, or picture.
#[derive(Debug, Clone)]
pub struct CompiledSources {
    pub primitives: Vec<RenderNodeId>,
    pub spatials: Vec<RenderNodeId>,
    pub clips: Vec<RenderNodeId>,
    pub pictures: Vec<RenderNodeId>,
    /// The scene revision the compiled scene was built from.
    pub scene_revision: u64,
}

fn listed(v: &Vec<RenderNodeId>, id: RenderNodeId) -> (r: bool)
    ensures
        r == v@.contains(id),
{
    let mut i: usize = 0;
    while i < v.len()
        invariant
            i <= v@.len(),
            forall|j: int| 0 <= j < i ==> v@[j] != id,
        decreases v@.len() - i,
    {
        if v[i] == id {
            return true;
        }
        i = i + 1;
    }
    false
}

/// Whether a change of `id` forces the compiled picture graph to be rebuilt:
/// with nothing compiled, for topology or visibility changes, for a node
/// that is gone, for a primitive, transform or clip that has no compiled
/// counterpart yet, and for a layer whose isolation no longer matches
/// whether it has a picture.
pub open spec fn spec_requires_structural_rebuild(
    m: Map<RenderNodeId, RenderNode>,
    compiled: Option<(Seq<RenderNodeId>, Seq<RenderNodeId>, Seq<RenderNodeId>, Seq<RenderNodeId>)>,
    id: RenderNodeId,
    dirty: RenderDirty,
) -> bool {
    if dirty.bits & 0x41u16 != 0 {
        true
    } else if !m.dom().contains(id) {
        true
    } else {
        match compiled {
            None => true,
            Some(c) => match m[id].kind {
                RenderNodeKind::Group(_) => false,
                RenderNodeKind::Primitive(_) => !c.0.contains(id),
                RenderNodeKind::Transform(_) => !c.1.contains(id),
                RenderNodeKind::Clip(_) => !c.2.contains(id),
                RenderNodeKind::Layer(l) => l.descriptor.spec_requires_isolation() != c.3.contains(id),
            },
        }
    }
}

/// When a change forces the picture graph to be rebuilt, for any scene,
/// index and change: a change of topology or of visibility always does (a
/// hidden node must leave its picture, a shown one join it), as does a node
/// that is gone or a scene never compiled. Otherwise a group never does; a
/// primitive, transform or clip does exactly when the index lacks its entry;
/// a layer does exactly when whether it needs isolation disagrees with
/// whether the index has its picture.
pub proof fn law_structural_rebuild_causes(
    m: Map<RenderNodeId, RenderNode>,
    compiled: Option<(Seq<RenderNodeId>, Seq<RenderNodeId>, Seq<RenderNodeId>, Seq<RenderNodeId>)>,
    id: RenderNodeId,
    dirty: RenderDirty,
)
    ensures
        dirty.bits & 0x40u16 != 0 ==> spec_requires_structural_rebuild(m, compiled, id, dirty),
        dirty.bits & 0x1u16 != 0 ==> spec_requires_structural_rebuild(m, compiled, id, dirty),
        !m.dom().contains(id) ==> spec_requires_structural_rebuild(m, compiled, id, dirty),
        compiled is None ==> spec_requires_structural_rebuild(m, compiled, id, dirty),
        dirty.bits & 0x41u16 == 0 && m.dom().contains(id) ==> match compiled {
            None => true,
            Some((prims, spatials, clips, pictures)) => spec_requires_structural_rebuild(m, compiled, id, dirty)
                <==> match m[id].kind {
                RenderNodeKind::Group(_) => false,
                RenderNodeKind::Primitive(_) => !prims.contains(id),
                RenderNodeKind::Transform(_) => !spatials.contains(id),
                RenderNodeKind::Clip(_) => !clips.contains(id),
                RenderNodeKind::Layer(l) => l.descriptor.spec_requires_isolation() != pictures.contains(id),
            },
        },
{
    let b = dirty.bits;
    assert((b & 0x40u16 != 0 ==> b & 0x41u16 != 0) && (b & 0x1u16 != 0 ==> b & 0x41u16 != 0)) by (bit_vector);
}

/// The four source lists of an index.
pub open spec fn sources_view(c: CompiledSources) -> (
    Seq<RenderNodeId>,
    Seq<RenderNodeId>,
    Seq<RenderNodeId>,
    Seq<RenderNodeId>,
) {
    (c.primitives@, c.spatials@, c.clips@, c.pictures@)
}

pub fn requires_structural_rebuild(
    source: &RenderScene,
    compiled: Option<&CompiledSources>,
    id: RenderNodeId,
    dirty: RenderDirty,
) -> (r: bool)
    ensures
        r == spec_requires_structural_rebuild(
            source@,
            match compiled {
                Some(c) => Some(sources_view(*c)),
                None => None,
            },
            id,
            dirty,
        ),
{
    proof {
        assert((0x1u16 | 0x40u16) == 0x41u16) by (bit_vector);
    }
    if dirty.intersects(RenderDirty::topology().union(RenderDirty::visibility())) {
        return true;
    }
    let node = match source.node(id) {
        Some(node) => node,
        None => return true,
    };
    let compiled = match compiled {
        Some(c) => c,
        None => return true,
    };
    match &node.kind {
        RenderNodeKind::Group(_) => false,
        RenderNodeKind::Primitive(_) => !listed(&compiled.primitives, id),
        RenderNodeKind::Transform(_) => !listed(&compiled.spatials, id),
        RenderNodeKind::Clip(_) => !listed(&compiled.clips, id),
        RenderNodeKind::Layer(layer) => layer.descriptor.requires_isolation() != listed(
            &compiled.pictures,
            id,
        ),
    }
}

/// `ancestor` is `descendant` or one of its ancestors (a node that is not in
/// the scene is only its own ancestor).
pub open spec fn is_ancestor(m: Map<RenderNodeId, RenderNode>, ancestor: RenderNodeId, descendant: RenderNodeId) -> bool {
    descendant == ancestor || (m.dom().contains(descendant) && in_subtree(m, descendant, ancestor))
}

/// Whether `ancestor` is `descendant` or lies above it.
pub fn is_source_ancestor(source: &RenderScene, ancestor: RenderNodeId, descendant: RenderNodeId) -> (r:
    bool)
    requires
        source.wf(),
    ensures
        r == is_ancestor(source@, ancestor, descendant),
{
    if descendant == ancestor {
        return true;
    }
    if !source.contains(descendant) {
        return false;
    }
    let ghost m = source@;
    proof {
        source.lemma_depth_forest();
    }
    let ghost d = source.spec_depth();
    let mut current = Some(descendant);
    let ghost mut k: nat = 0;
    loop
        invariant
            m == source@,
            forest_wf(m, d),
            m.dom().contains(descendant),
            descendant != ancestor,
            current == ancestor_at(m, descendant, k),
            current matches Some(c) ==> m.dom().contains(c),
            forall|j: nat| j < k ==> #[trigger] ancestor_at(m, descendant, j) != Some(ancestor),
        decreases
            match current {
                Some(c) => d[c] + 1,
                None => 0,
            },
    {
        let id = match current {
            Some(id) => id,
            None => {
                proof {
                    assert forall|j: nat| #[trigger] ancestor_at(m, descendant, j) != Some(ancestor) by {
                        if j >= k {
                            lemma_ancestor_none(m, descendant, k, j);
                        }
                    }
                }
                return false;
            },
        };
        if id == ancestor {
            return true;
        }
        proof {
            assert(parent_link_ok(m, d, id));
            crate::scene_spec::lemma_ancestor_hop(m, descendant, k, id);
            lemma_ancestor_step(m, id, 0);
        }
        current = match source.node(id) {
            Some(node) => node.parent,
            None => None,
        };
        proof {
            k = k + 1;
        }
    }
}

/// The branch a change belongs to when it starts the walk at `start`: the
/// first node on the way up that has a picture, unless the root (or the top
/// of the tree) comes first.
pub open spec fn is_branch_walk(
    m: Map<RenderNodeId, RenderNode>,
    root: RenderNodeId,
    pictures: Seq<RenderNodeId>,
    start: RenderNodeId,
    r: Option<RenderNodeId>,
) -> bool {
    exists|k: nat|
        #![trigger ancestor_at(m, start, k)]
        (forall|j: nat|
            j < k ==> (#[trigger] ancestor_at(m, start, j) matches Some(a) && a != root
                && !pictures.contains(a))) && match ancestor_at(m, start, k) {
            None => r is None,
            Some(a) => if a == root {
                r is None
            } else {
                pictures.contains(a) && r == Some(a)
            },
        }
}

/// `r` is the branch of a change of `id` with flags `dirty`: none when `id`
/// is not in the scene; otherwise the walk starts at `id` itself when it is
/// an isolated layer with a picture whose topology or effects changed (and
/// not its visibility), and at its parent otherwise.
pub open spec fn branch_of(
    pictures: Seq<RenderNodeId>,
    m: Map<RenderNodeId, RenderNode>,
    root: RenderNodeId,
    id: RenderNodeId,
    dirty: RenderDirty,
    r: Option<RenderNodeId>,
) -> bool {
    if !m.dom().contains(id) {
        r is None
    } else {
        let n = m[id];
        let self_branch = !dirty.spec_contains(RenderDirty { bits: 0x40 }) && dirty.bits & 0x21u16 != 0
            && match n.kind {
            RenderNodeKind::Layer(l) => l.descriptor.spec_requires_isolation() && pictures.contains(id),
            _ => false,
        };
        if self_branch {
            is_branch_walk(m, root, pictures, id, r)
        } else {
            match n.parent {
                None => r is None,
                Some(p) => is_branch_walk(m, root, pictures, p, r),
            }
        }
    }
}

/// The isolated layer whose picture a structural change of `id` is rebuilt
/// in: the node itself when it is an isolated layer with a picture whose
/// topology or effects changed (and not its visibility), otherwise the
/// nearest ancestor with a picture; none when the walk reaches the root
/// first, or when `id` is not in the scene.
pub fn structural_branch_source(
    compiled: &CompiledSources,
    source: &RenderScene,
    id: RenderNodeId,
    dirty: RenderDirty,
) -> (r: Option<RenderNodeId>)
    requires
        source.wf(),
    ensures
        branch_of(compiled.pictures@, source@, source.spec_root(), id, dirty, r),
{
    let node = match source.node(id) {
        Some(node) => node,
        None => return None,
    };
    let is_isolated_picture = match &node.kind {
        RenderNodeKind::Layer(layer) => layer.descriptor.requires_isolation() && listed(
            &compiled.pictures,
            id,
        ),
        _ => false,
    };
    proof {
        assert((0x1u16 | 0x20u16) == 0x21u16) by (bit_vector);
    }
    let can_rebuild_self = !dirty.contains(RenderDirty::visibility()) && dirty.intersects(
        RenderDirty::topology().union(RenderDirty::effect()),
    ) && is_isolated_picture;
    let ghost m = source@;
    let ghost pics = compiled.pictures@;
    let ghost root = source.spec_root();
    let start = if can_rebuild_self {
        Some(id)
    } else {
        node.parent
    };
    let ghost s = match start {
        Some(x) => x,
        None => id,
    };
    if start.is_none() {
        return None;
    }
    proof {
        source.lemma_depth_forest();
        assert(parent_link_ok(m, source.spec_depth(), id));
        assert((0x1u16 | 0x20u16) == 0x21u16) by (bit_vector);
    }
    let ghost d = source.spec_depth();
    let mut current = start;
    let ghost mut k: nat = 0;
    loop
        invariant
            m == source@,
            root == source.spec_root(),
            pics == compiled.pictures@,
            forest_wf(m, d),
            m.dom().contains(s),
            m.dom().contains(id),
            can_rebuild_self == (!dirty.spec_contains(RenderDirty { bits: 0x40 }) && dirty.bits
                & 0x21u16 != 0 && match m[id].kind {
                RenderNodeKind::Layer(l) => l.descriptor.spec_requires_isolation() && pics.contains(id),
                _ => false,
            }),
            can_rebuild_self ==> s == id,
            !can_rebuild_self ==> m[id].parent == Some(s),
            current == ancestor_at(m, s, k),
            current matches Some(c) ==> m.dom().contains(c),
            forall|j: nat|
                j < k ==> (#[trigger] ancestor_at(m, s, j) matches Some(a) && a != root
                    && !pics.contains(a)),
        decreases
            match current {
                Some(c) => d[c] + 1,
                None => 0,
            },
    {
        let candidate = match current {
            Some(c) => c,
            None => {
                proof {
                    assert(ancestor_at(m, s, k) is None);
                }
                return None;
            },
        };
        if candidate == source.root() {
            proof {
                assert(ancestor_at(m, s, k) == Some(root));
            }
            return None;
        }
        if listed(&compiled.pictures, candidate) {
            proof {
                assert(ancestor_at(m, s, k) == Some(candidate));
            }
            return Some(candidate);
        }
        proof {
            assert(parent_link_ok(m, d, candidate));
            crate::scene_spec::lemma_ancestor_hop(m, s, k, candidate);
            lemma_ancestor_step(m, candidate, 0);
        }
        current = match source.node(candidate) {
            Some(n) => n.parent,
            None => None,
        };
        proof {
            k = k + 1;
        }
    }
}


/// No member of `s` is `x` or an ancestor of another member.
pub open spec fn antichain(m: Map<RenderNodeId, RenderNode>, s: Seq<RenderNodeId>) -> bool {
    forall|i: int, j: int|
        0 <= i < s.len() && 0 <= j < s.len() && i != j ==> !is_ancestor(m, #[trigger] s[i], #[trigger] s[j])
}

/// Some member of `s` is `x` or an ancestor of it.
pub open spec fn covered(m: Map<RenderNodeId, RenderNode>, s: Seq<RenderNodeId>, x: RenderNodeId) -> bool {
    exists|i: int| 0 <= i < s.len() && is_ancestor(m, #[trigger] s[i], x)
}

/// The branch source is not below `b`.
pub open spec fn not_below(m: Map<RenderNodeId, RenderNode>, b: RenderNodeId) -> spec_fn(RenderNodeId) -> bool {
    |e: RenderNodeId| !is_ancestor(m, b, e)
}

/// Ancestry composes.
proof fn lemma_ancestor_trans(m: Map<RenderNodeId, RenderNode>, d: Map<RenderNodeId, nat>, a: RenderNodeId, b: RenderNodeId, c: RenderNodeId)
    requires
        is_ancestor(m, a, b),
        is_ancestor(m, b, c),
    ensures
        is_ancestor(m, a, c),
{
    if c != b && b != a {
        let k1 = choose|k: nat| ancestor_at(m, c, k) == Some(b);
        let k2 = choose|k: nat| ancestor_at(m, b, k) == Some(a);
        lemma_ancestor_concat(m, c, k1, b, k2);
    }
}

proof fn lemma_ancestor_concat(m: Map<RenderNodeId, RenderNode>, c: RenderNodeId, k1: nat, b: RenderNodeId, k2: nat)
    requires
        ancestor_at(m, c, k1) == Some(b),
    ensures
        ancestor_at(m, c, k1 + k2) == ancestor_at(m, b, k2),
    decreases k1,
{
    if k1 > 0 {
        match m[c].parent {
            Some(p) => {
                lemma_ancestor_concat(m, p, (k1 - 1) as nat, b, k2);
            },
            None => {},
        }
    }
}

/// Adds `branch` to a set of branch sources that never nest: nothing
/// changes when a member already covers it; otherwise the members it covers
/// leave and it joins.
pub fn add_branch(branches: &mut Vec<RenderNodeId>, source: &RenderScene, branch: RenderNodeId)
    requires
        source.wf(),
    ensures
        covered(source@, old(branches)@, branch) ==> final(branches)@ == old(branches)@,
        !covered(source@, old(branches)@, branch) ==> final(branches)@ == old(branches)@.filter(
            not_below(source@, branch),
        ).push(branch),
        antichain(source@, old(branches)@) ==> antichain(source@, final(branches)@),
        forall|x: RenderNodeId|
            is_ancestor(source@, branch, x) || covered(source@, old(branches)@, x) ==> #[trigger] covered(
                source@,
                final(branches)@,
                x,
            ),
{
    let ghost m = source@;
    let ghost b0 = branches@;
    proof {
        source.lemma_depth_forest();
    }
    let ghost d = source.spec_depth();
    let mut i: usize = 0;
    while i < branches.len()
        invariant
            i <= b0.len(),
            b0 == branches@,
            m == source@,
            source.wf(),
            forall|j: int| 0 <= j < i ==> !is_ancestor(m, #[trigger] b0[j], branch),
        decreases b0.len() - i,
    {
        if is_source_ancestor(source, branches[i], branch) {
            proof {
                assert(is_ancestor(m, b0[i as int], branch));
                assert forall|x: RenderNodeId|
                    is_ancestor(m, branch, x) || covered(m, b0, x) implies #[trigger] covered(m, b0, x) by {
                    if is_ancestor(m, branch, x) {
                        lemma_ancestor_trans(m, d, b0[i as int], branch, x);
                    }
                }
            }
            return;
        }
        i = i + 1;
    }
    let pred = Ghost(not_below(m, branch));
    let mut kept: Vec<RenderNodeId> = Vec::new();
    let mut j: usize = 0;
    while j < branches.len()
        invariant
            j <= b0.len(),
            b0 == branches@,
            m == source@,
            source.wf(),
            pred@ == not_below(m, branch),
            kept@ == b0.subrange(0, j as int).filter(pred@),
        decreases b0.len() - j,
    {
        let e = branches[j];
        let below = is_source_ancestor(source, branch, e);
        proof {
            reveal(Seq::filter);
            assert(b0.subrange(0, j + 1).drop_last() =~= b0.subrange(0, j as int));
            assert(b0.subrange(0, j + 1).last() == e);
        }
        if !below {
            kept.push(e);
        }
        j = j + 1;
    }
    proof {
        assert(b0.subrange(0, b0.len() as int) =~= b0);
    }
    let ghost f = kept@;
    kept.push(branch);
    proof {
        let k = kept@;
        assert(k == f.push(branch));
        lemma_filter_sub(b0, pred@);
        assert forall|t: int| 0 <= t < f.len() implies pred@(#[trigger] f[t]) by {
            b0.lemma_filter_pred(pred@, t);
        }
        assert(!covered(m, b0, branch));
        assert forall|x: RenderNodeId|
            is_ancestor(m, branch, x) || covered(m, b0, x) implies #[trigger] covered(m, k, x) by {
            if is_ancestor(m, branch, x) {
                assert(k[k.len() - 1] == branch);
            } else {
                let t = choose|t: int| 0 <= t < b0.len() && is_ancestor(m, #[trigger] b0[t], x);
                if is_ancestor(m, branch, b0[t]) {
                    lemma_ancestor_trans(m, d, branch, b0[t], x);
                    assert(k[k.len() - 1] == branch);
                } else {
                    b0.lemma_filter_contains(pred@, t);
                    let u = choose|u: int| 0 <= u < f.len() && f[u] == b0[t];
                    assert(k[u] == b0[t]);
                }
            }
        }
        if antichain(m, b0) {
            assert forall|a: int, c: int|
                0 <= a < k.len() && 0 <= c < k.len() && a != c implies !is_ancestor(
                m,
                #[trigger] k[a],
                #[trigger] k[c],
            ) by {
                if a == k.len() - 1 {
                    assert(pred@(f[c]));
                } else if c == k.len() - 1 {
                    let ta = choose|ta: int| 0 <= ta < b0.len() && b0[ta] == f[a];
                    assert(!is_ancestor(m, b0[ta], branch));
                } else {
                    let ta = choose|ta: int| 0 <= ta < b0.len() && b0[ta] == f[a];
                    let tc = choose|tc: int| 0 <= tc < b0.len() && b0[tc] == f[c];
                    if ta == tc {
                        assert(b0.no_duplicates()) by {
                            assert forall|p: int, q: int| 0 <= p < b0.len() && 0 <= q < b0.len() && p != q
                                implies b0[p] != b0[q] by {
                                assert(!is_ancestor(m, b0[p], b0[q]));
                            }
                        }
                        lemma_filter_no_dup(b0, pred@);
                    }
                }
            }
        }
    }
    *branches = kept;
}


/// A branch found for a change is the changed node or one of its ancestors.
proof fn lemma_branch_covers(
    pictures: Seq<RenderNodeId>,
    m: Map<RenderNodeId, RenderNode>,
    root: RenderNodeId,
    id: RenderNodeId,
    dirty: RenderDirty,
    b: RenderNodeId,
)
    requires
        branch_of(pictures, m, root, id, dirty, Some(b)),
    ensures
        is_ancestor(m, b, id),
{
    let n = m[id];
    let self_branch = !dirty.spec_contains(RenderDirty { bits: 0x40 }) && dirty.bits & 0x21u16 != 0
        && match n.kind {
        RenderNodeKind::Layer(l) => l.descriptor.spec_requires_isolation() && pictures.contains(id),
        _ => false,
    };
    if self_branch {
        let k = choose|k: nat|
            #![trigger ancestor_at(m, id, k)]
            (forall|j: nat|
                j < k ==> (#[trigger] ancestor_at(m, id, j) matches Some(a) && a != root
                    && !pictures.contains(a))) && match ancestor_at(m, id, k) {
                None => Some(b) is None,
                Some(a) => if a == root {
                    Some(b) is None
                } else {
                    pictures.contains(a) && Some(b) == Some(a)
                },
            };
        assert(ancestor_at(m, id, k) == Some(b));
    } else {
        let p = n.parent.unwrap();
        let k = choose|k: nat|
            #![trigger ancestor_at(m, p, k)]
            (forall|j: nat|
                j < k ==> (#[trigger] ancestor_at(m, p, j) matches Some(a) && a != root
                    && !pictures.contains(a))) && match ancestor_at(m, p, k) {
                None => Some(b) is None,
                Some(a) => if a == root {
                    Some(b) is None
                } else {
                    pictures.contains(a) && Some(b) == Some(a)
                },
            };
        assert(ancestor_at(m, p, k) == Some(b));
        lemma_ancestor_step(m, id, k);
        assert(ancestor_at(m, id, k + 1) == Some(b));
    }
}

/// The picture branches to rebuild for a list of changes: none (a full
/// rebuild) as soon as one change has no branch; otherwise branch sources
/// that never nest and that cover every changed node.
pub fn structural_branches(
    compiled: &CompiledSources,
    source: &RenderScene,
    changed: &Vec<(RenderNodeId, RenderDirty)>,
) -> (r: Option<Vec<RenderNodeId>>)
    requires
        source.wf(),
    ensures
        r is None ==> exists|i: int|
            0 <= i < changed@.len() && branch_of(
                compiled.pictures@,
                source@,
                source.spec_root(),
                #[trigger] changed@[i].0,
                changed@[i].1,
                None,
            ),
        r matches Some(v) ==> antichain(source@, v@) && forall|i: int|
            0 <= i < changed@.len() ==> #[trigger] covered(source@, v@, changed@[i].0),
{
    let mut branches: Vec<RenderNodeId> = Vec::new();
    let mut i: usize = 0;
    while i < changed.len()
        invariant
            i <= changed@.len(),
            source.wf(),
            antichain(source@, branches@),
            forall|j: int| 0 <= j < i ==> #[trigger] covered(source@, branches@, changed@[j].0),
        decreases changed@.len() - i,
    {
        let (id, dirty) = changed[i];
        match structural_branch_source(compiled, source, id, dirty) {
            None => {
                proof {
                    assert(changed@[i as int].0 == id);
                }
                return None;
            },
            Some(branch) => {
                let ghost before = branches@;
                proof {
                    lemma_branch_covers(compiled.pictures@, source@, source.spec_root(), id, dirty, branch);
                }
                add_branch(&mut branches, source, branch);
                proof {
                    assert forall|j: int| 0 <= j < i + 1 implies #[trigger] covered(
                        source@,
                        branches@,
                        changed@[j].0,
                    ) by {
                        if j < i {
                            assert(covered(source@, before, changed@[j].0));
                        } else {
                            assert(changed@[j].0 == id);
                        }
                    }
                }
            },
        }
        i = i + 1;
    }
    Some(branches)
}


/// The explicit cache key of an isolated layer node.
pub open spec fn cache_key_of(m: Map<RenderNodeId, RenderNode>, id: RenderNodeId) -> Option<u64> {
    if m.dom().contains(id) {
        match m[id].kind {
            RenderNodeKind::Layer(l) => if l.descriptor.spec_requires_isolation() {
                l.descriptor.cache_key
            } else {
                None
            },
            _ => None,
        }
    } else {
        None
    }
}

/// The explicit cache keys of the isolated layers among `ids`, in order.
pub open spec fn keys_of(m: Map<RenderNodeId, RenderNode>, ids: Seq<RenderNodeId>) -> Seq<u64>
    decreases ids.len(),
{
    if ids.len() == 0 {
        Seq::empty()
    } else {
        keys_of(m, ids.drop_last()) + match cache_key_of(m, ids.last()) {
            Some(k) => seq![k],
            None => Seq::empty(),
        }
    }
}

/// The keys checked for repeats, for any scene and walk order: a key is
/// among them exactly when some node of the order is a layer there that
/// needs isolation and carries that explicit key (layers drawn in place,
/// and layers without a key, take no part); and a key reported as the first
/// repeat occurs at two places.
pub proof fn law_cache_keys(m: Map<RenderNodeId, RenderNode>, ids: Seq<RenderNodeId>, k: u64)
    ensures
        keys_of(m, ids).contains(k) <==> exists|i: int|
            0 <= i < ids.len() && m.dom().contains(#[trigger] ids[i]) && m[ids[i]].kind is Layer
                && m[ids[i]].kind->Layer_0.descriptor.spec_requires_isolation()
                && m[ids[i]].kind->Layer_0.descriptor.cache_key == Some(k),
        first_repeat(keys_of(m, ids), k) ==> exists|a: int, b: int|
            0 <= a < b < keys_of(m, ids).len() && keys_of(m, ids)[a] == k && keys_of(m, ids)[b] == k,
    decreases ids.len(),
{
    if ids.len() > 0 {
        let t = ids.drop_last();
        law_cache_keys(m, t, k);
        let before = keys_of(m, t);
        let r = keys_of(m, ids);
        let x = ids.last();
        if keys_of(m, ids).contains(k) {
            let j = choose|j: int| 0 <= j < r.len() && r[j] == k;
            if j < before.len() {
                assert(r[j] == before[j]);
                assert(before.contains(k));
                let i = choose|i: int|
                    0 <= i < t.len() && m.dom().contains(#[trigger] t[i]) && m[t[i]].kind is Layer
                        && m[t[i]].kind->Layer_0.descriptor.spec_requires_isolation()
                        && m[t[i]].kind->Layer_0.descriptor.cache_key == Some(k);
                assert(ids[i] == t[i]);
            } else {
                assert(ids[ids.len() - 1] == x);
            }
        }
        if exists|i: int|
            0 <= i < ids.len() && m.dom().contains(#[trigger] ids[i]) && m[ids[i]].kind is Layer
                && m[ids[i]].kind->Layer_0.descriptor.spec_requires_isolation()
                && m[ids[i]].kind->Layer_0.descriptor.cache_key == Some(k) {
            let i = choose|i: int|
                0 <= i < ids.len() && m.dom().contains(#[trigger] ids[i]) && m[ids[i]].kind is Layer
                    && m[ids[i]].kind->Layer_0.descriptor.spec_requires_isolation()
                    && m[ids[i]].kind->Layer_0.descriptor.cache_key == Some(k);
            if i < ids.len() - 1 {
                assert(t[i] == ids[i]);
                let j = choose|j: int| 0 <= j < before.len() && before[j] == k;
                assert(r[j] == k);
            } else {
                assert(r[before.len() as int] == k);
            }
        }
    }
    if first_repeat(keys_of(m, ids), k) {
        let keys = keys_of(m, ids);
        let i = choose|i: int|
            0 <= i < keys.len() && #[trigger] keys[i] == k && keys.take(i).contains(k) && keys.take(i).no_duplicates();
        let a = choose|a: int| 0 <= a < keys.take(i).len() && keys.take(i)[a] == k;
        assert(keys[a] == k);
    }
}

/// `k` is the first key of `keys` that repeats an earlier one.
pub open spec fn first_repeat(keys: Seq<u64>, k: u64) -> bool {
    exists|i: int|
        0 <= i < keys.len() && #[trigger] keys[i] == k && keys.take(i).contains(k) && keys.take(
            i,
        ).no_duplicates()
}

/// Checks that no two isolated layers of the scene, in depth-first order
/// from the root, share an explicit cache key; the first key met twice is
/// the error.
pub fn validate_explicit_cache_keys(source: &RenderScene) -> (r: Result<(), SceneCompileError>)
    requires
        source.wf(),
    ensures
        !source@.dom().contains(source.spec_root()) ==> r == Err::<(), SceneCompileError>(
            SceneCompileError::Scene(SceneError::MissingNode(source.spec_root())),
        ),
        source@.dom().contains(source.spec_root()) ==> ({
            let keys = keys_of(source@, preorder(source@, source.spec_root(), source@.dom().len()));
            &&& (r is Ok) == keys.no_duplicates()
            &&& r matches Err(e) ==> (e matches SceneCompileError::DuplicateLayerCacheKey(k) && first_repeat(
                keys,
                k,
            ))
        }),
{
    let root = source.root();
    let order = match source.depth_first(root) {
        Ok(v) => v,
        Err(e) => return Err(SceneCompileError::Scene(e)),
    };
    let ghost m = source@;
    let ghost ids = order@;
    let mut seen: Vec<u64> = Vec::new();
    let mut i: usize = 0;
    while i < order.len()
        invariant
            i <= ids.len(),
            ids == order@,
            m == source@,
            m.dom().contains(source.spec_root()),
            ids == preorder(m, source.spec_root(), m.dom().len()),
            seen@ == keys_of(m, ids.take(i as int)),
            seen@.no_duplicates(),
        decreases ids.len() - i,
    {
        let id = order[i];
        proof {
            assert(ids.take(i + 1).drop_last() =~= ids.take(i as int));
            assert(ids.take(i + 1).last() == id);
        }
        let key = match source.node(id) {
            Some(node) => match &node.kind {
                RenderNodeKind::Layer(layer) => if layer.descriptor.requires_isolation() {
                    layer.descriptor.cache_key
                } else {
                    None
                },
                _ => None,
            },
            None => None,
        };
        if let Some(k) = key {
            let mut t: usize = 0;
            while t < seen.len()
                invariant
                    t <= seen@.len(),
                    forall|u: int| 0 <= u < t ==> seen@[u] != k,
                    i < ids.len(),
                    ids == order@,
                    m == source@,
                    m.dom().contains(source.spec_root()),
                    ids == preorder(m, source.spec_root(), m.dom().len()),
                    id == ids[i as int],
                    seen@ == keys_of(m, ids.take(i as int)),
                    seen@.no_duplicates(),
                    cache_key_of(m, id) == Some(k),
                    ids.take(i + 1).drop_last() =~= ids.take(i as int),
                    ids.take(i + 1).last() == id,
                decreases seen@.len() - t,
            {
                if seen[t] == k {
                    proof {
                        let keys = keys_of(m, ids);
                        lemma_keys_prefix(m, ids, i + 1);
                        let n = seen@.len() as int;
                        assert(keys_of(m, ids.take(i + 1)) =~= seen@.push(k));
                        assert(keys.take(n + 1) == seen@.push(k));
                        assert(keys.take(n + 1)[n] == k);
                        assert(keys[n] == k);
                        assert(keys.take(n) =~= seen@);
                        assert(keys.take(n).contains(k)) by {
                            assert(keys.take(n)[t as int] == k);
                        }
                        assert(!keys.no_duplicates()) by {
                            assert(keys[t as int] == k);
                        }
                    }
                    return Err(SceneCompileError::DuplicateLayerCacheKey(k));
                }
                t = t + 1;
            }
            proof {
                assert(!seen@.contains(k));
                assert(seen@.push(k) == keys_of(m, ids.take(i + 1)));
            }
            seen.push(k);
        }
        i = i + 1;
    }
    proof {
        assert(ids.take(ids.len() as int) =~= ids);
    }
    Ok(())
}

/// The keys of a prefix are a prefix of the keys.
proof fn lemma_keys_prefix(m: Map<RenderNodeId, RenderNode>, ids: Seq<RenderNodeId>, j: int)
    requires
        0 <= j <= ids.len(),
    ensures
        keys_of(m, ids).take(keys_of(m, ids.take(j)).len() as int) == keys_of(m, ids.take(j)),
        keys_of(m, ids.take(j)).len() <= keys_of(m, ids).len(),
    decreases ids.len() - j,
{
    if j < ids.len() {
        lemma_keys_prefix(m, ids, j + 1);
        assert(ids.take(j + 1).drop_last() =~= ids.take(j));
        let a = keys_of(m, ids.take(j));
        let b = keys_of(m, ids.take(j + 1));
        assert(b.take(a.len() as int) =~= a);
        assert(keys_of(m, ids).take(a.len() as int) =~= keys_of(m, ids).take(b.len() as int).take(a.len() as int));
    } else {
        assert(ids.take(j) =~= ids);
        assert(keys_of(m, ids).take(keys_of(m, ids).len() as int) =~= keys_of(m, ids));
    }
}


/// What a compile pass has to do.
#[derive(Debug)]
pub enum CompilePlan {
    /// The compiled scene is already at the source's revision.
    UpToDate,
    /// Rebuild the whole picture graph.
    Full,
    /// Rebuild the contents of these isolated-layer pictures.
    Branches(Vec<RenderNodeId>),
    /// Update compiled items in place from these changes.
    InPlace(Vec<(RenderNodeId, RenderDirty)>),
}

/// The changes of the snapshot's nodes since `rev`: each live node with
/// some change, in snapshot order.
pub open spec fn changes_since(m: Map<RenderNodeId, RenderNode>, nodes: Seq<RenderNodeId>, rev: u64) -> Seq<
    (RenderNodeId, RenderDirty),
>
    decreases nodes.len(),
{
    if nodes.len() == 0 {
        Seq::empty()
    } else {
        let id = nodes.last();
        changes_since(m, nodes.drop_last(), rev) + if m.dom().contains(id) && spec_dirty_since(m[id], rev)
            != 0 {
            seq![(id, RenderDirty { bits: spec_dirty_since(m[id], rev) })]
        } else {
            Seq::empty()
        }
    }
}

/// The changes a compile pass sees, for any scene, snapshot and revision:
/// each names a live node of the snapshot together with exactly its flags
/// changed since the revision, which are not empty; and every live node of
/// the snapshot with some change since the revision is among them.
pub proof fn law_changes_since(m: Map<RenderNodeId, RenderNode>, nodes: Seq<RenderNodeId>, rev: u64)
    ensures
        forall|i: int|
            0 <= i < changes_since(m, nodes, rev).len() ==> {
                let c = #[trigger] changes_since(m, nodes, rev)[i];
                &&& nodes.contains(c.0)
                &&& m.dom().contains(c.0)
                &&& c.1.bits == spec_dirty_since(m[c.0], rev)
                &&& c.1.bits != 0
            },
        forall|id: RenderNodeId|
            nodes.contains(id) && m.dom().contains(id) && spec_dirty_since(m[id], rev) != 0 ==> exists|i: int|
                0 <= i < changes_since(m, nodes, rev).len() && #[trigger] changes_since(m, nodes, rev)[i] == (
                id,
                RenderDirty { bits: spec_dirty_since(m[id], rev) },
            ),
    decreases nodes.len(),
{
    if nodes.len() > 0 {
        let t = nodes.drop_last();
        law_changes_since(m, t, rev);
        let before = changes_since(m, t, rev);
        let r = changes_since(m, nodes, rev);
        let id = nodes.last();
        assert forall|i: int| 0 <= i < r.len() implies {
            let c = #[trigger] r[i];
            &&& nodes.contains(c.0)
            &&& m.dom().contains(c.0)
            &&& c.1.bits == spec_dirty_since(m[c.0], rev)
            &&& c.1.bits != 0
        } by {
            if i < before.len() {
                assert(r[i] == before[i]);
                let j = choose|j: int| 0 <= j < t.len() && t[j] == before[i].0;
                assert(nodes[j] == t[j]);
            } else {
                assert(r[i].0 == id);
                assert(nodes[nodes.len() - 1] == id);
            }
        }
        assert forall|x: RenderNodeId|
            nodes.contains(x) && m.dom().contains(x) && spec_dirty_since(m[x], rev) != 0 implies exists|i: int|
            0 <= i < r.len() && #[trigger] r[i] == (x, RenderDirty { bits: spec_dirty_since(m[x], rev) }) by {
            let j = choose|j: int| 0 <= j < nodes.len() && nodes[j] == x;
            if j < nodes.len() - 1 {
                assert(t[j] == x);
                assert(t.contains(x));
                let i = choose|i: int|
                    0 <= i < before.len() && #[trigger] before[i] == (x, RenderDirty {
                        bits: spec_dirty_since(m[x], rev),
                    });
                assert(r[i] == before[i]);
            } else {
                assert(r[before.len() as int] == (x, RenderDirty { bits: spec_dirty_since(m[x], rev) }));
            }
        }
    }
}

/// The compiled index as plain sequences.
pub open spec fn compiled_view(compiled: Option<&CompiledSources>) -> Option<
    (Seq<RenderNodeId>, Seq<RenderNodeId>, Seq<RenderNodeId>, Seq<RenderNodeId>),
> {
    match compiled {
        Some(c) => Some(sources_view(*c)),
        None => None,
    }
}

/// Some change touches topology or effects.
pub open spec fn any_key_change(ch: Seq<(RenderNodeId, RenderDirty)>) -> bool {
    exists|i: int| 0 <= i < ch.len() && #[trigger] ch[i].1.bits & 0x21u16 != 0
}

/// Some change forces a structural rebuild.
pub open spec fn any_structural(
    m: Map<RenderNodeId, RenderNode>,
    cv: Option<(Seq<RenderNodeId>, Seq<RenderNodeId>, Seq<RenderNodeId>, Seq<RenderNodeId>)>,
    ch: Seq<(RenderNodeId, RenderDirty)>,
) -> bool {
    exists|i: int|
        0 <= i < ch.len() && #[trigger] spec_requires_structural_rebuild(m, cv, ch[i].0, ch[i].1)
}

proof fn lemma_any_push(
    m: Map<RenderNodeId, RenderNode>,
    cv: Option<(Seq<RenderNodeId>, Seq<RenderNodeId>, Seq<RenderNodeId>, Seq<RenderNodeId>)>,
    ch: Seq<(RenderNodeId, RenderDirty)>,
    e: (RenderNodeId, RenderDirty),
)
    ensures
        any_key_change(ch.push(e)) == (any_key_change(ch) || e.1.bits & 0x21u16 != 0),
        any_structural(m, cv, ch.push(e)) == (any_structural(m, cv, ch)
            || spec_requires_structural_rebuild(m, cv, e.0, e.1)),
{
    let s = ch.push(e);
    if any_key_change(ch) {
        let t = choose|t: int| 0 <= t < ch.len() && #[trigger] ch[t].1.bits & 0x21u16 != 0;
        assert(s[t] == ch[t]);
    }
    if e.1.bits & 0x21u16 != 0 {
        assert(s[ch.len() as int] == e);
    }
    if any_key_change(s) {
        let t = choose|t: int| 0 <= t < s.len() && #[trigger] s[t].1.bits & 0x21u16 != 0;
        if t < ch.len() {
            assert(s[t] == ch[t]);
        }
    }
    if any_structural(m, cv, ch) {
        let t = choose|t: int|
            0 <= t < ch.len() && #[trigger] spec_requires_structural_rebuild(m, cv, ch[t].0, ch[t].1);
        assert(s[t] == ch[t]);
    }
    if spec_requires_structural_rebuild(m, cv, e.0, e.1) {
        assert(s[ch.len() as int] == e);
    }
    if any_structural(m, cv, s) {
        let t = choose|t: int|
            0 <= t < s.len() && #[trigger] spec_requires_structural_rebuild(m, cv, s[t].0, s[t].1);
        if t < ch.len() {
            assert(s[t] == ch[t]);
        }
    }
}

/// The revision the compiled scene was built from (zero before the first compile).
pub open spec fn compiled_revision_of(compiled: Option<&CompiledSources>) -> u64 {
    match compiled {
        Some(c) => c.scene_revision,
        None => 0,
    }
}

/// The compiled scene is already at the source's revision.
pub open spec fn compile_is_current(source: &RenderScene, compiled: Option<&CompiledSources>) -> bool {
    compiled is Some && source.spec_revision() <= compiled_revision_of(compiled)
}

/// The changes a compile pass looks at.
pub open spec fn compile_changes(
    source: &RenderScene,
    compiled: Option<&CompiledSources>,
    snapshot: &DirtySnapshot,
) -> Seq<(RenderNodeId, RenderDirty)> {
    changes_since(source@, snapshot.nodes@, compiled_revision_of(compiled))
}

/// The pass checks the explicit cache keys.
pub open spec fn compile_validates(
    source: &RenderScene,
    compiled: Option<&CompiledSources>,
    snapshot: &DirtySnapshot,
) -> bool {
    compiled is None || any_key_change(compile_changes(source, compiled, snapshot))
}

/// The explicit cache keys of the scene, in depth-first order.
pub open spec fn scene_keys(source: &RenderScene) -> Seq<u64> {
    keys_of(source@, preorder(source@, source.spec_root(), source@.dom().len()))
}

/// The key check, if the pass makes it, succeeds.
pub open spec fn compile_passes_keys(
    source: &RenderScene,
    compiled: Option<&CompiledSources>,
    snapshot: &DirtySnapshot,
) -> bool {
    compile_validates(source, compiled, snapshot) ==> source@.dom().contains(source.spec_root())
        && scene_keys(source).no_duplicates()
}

/// The pass has to change the compiled picture graph.
pub open spec fn compile_is_structural(
    source: &RenderScene,
    compiled: Option<&CompiledSources>,
    snapshot: &DirtySnapshot,
) -> bool {
    compiled is None || any_structural(
        source@,
        compiled_view(compiled),
        compile_changes(source, compiled, snapshot),
    )
}

/// Decides what compiling `source` at `snapshot` takes, given the index of
/// the current compiled scene (none before the first compile). Explicit
/// cache keys are checked first whenever the whole scene is new or some
/// change touches topology or effects.
pub fn plan_compile(
    source: &RenderScene,
    compiled: Option<&CompiledSources>,
    snapshot: &DirtySnapshot,
) -> (r: Result<CompilePlan, SceneCompileError>)
    requires
        source.wf(),
    ensures
        compile_is_current(source, compiled) ==> r matches Ok(CompilePlan::UpToDate),
        !compile_is_current(source, compiled) && compile_validates(source, compiled, snapshot)
            && !source@.dom().contains(source.spec_root()) ==> r == Err::<CompilePlan, SceneCompileError>(
            SceneCompileError::Scene(SceneError::MissingNode(source.spec_root())),
        ),
        !compile_is_current(source, compiled) && compile_validates(source, compiled, snapshot)
            && source@.dom().contains(source.spec_root()) && !scene_keys(source).no_duplicates() ==> (r matches Err(
            SceneCompileError::DuplicateLayerCacheKey(k),
        ) && first_repeat(scene_keys(source), k)),
        !compile_is_current(source, compiled) && compile_passes_keys(source, compiled, snapshot)
            && compiled is None ==> r matches Ok(CompilePlan::Full),
        !compile_is_current(source, compiled) && compile_passes_keys(source, compiled, snapshot)
            && compiled is Some && compile_is_structural(source, compiled, snapshot) ==> match r {
            Ok(CompilePlan::Full) => exists|i: int|
                0 <= i < compile_changes(source, compiled, snapshot).len() && branch_of(
                    compiled.unwrap().pictures@,
                    source@,
                    source.spec_root(),
                    #[trigger] compile_changes(source, compiled, snapshot)[i].0,
                    compile_changes(source, compiled, snapshot)[i].1,
                    None,
                ),
            Ok(CompilePlan::Branches(v)) => antichain(source@, v@) && forall|i: int|
                0 <= i < compile_changes(source, compiled, snapshot).len() ==> #[trigger] covered(
                    source@,
                    v@,
                    compile_changes(source, compiled, snapshot)[i].0,
                ),
            _ => false,
        },
        !compile_is_current(source, compiled) && compile_passes_keys(source, compiled, snapshot)
            && !compile_is_structural(source, compiled, snapshot) ==> (r matches Ok(CompilePlan::InPlace(v))
            && v@ == compile_changes(source, compiled, snapshot)),
{
    let needs_initial = compiled.is_none();
    let compiled_revision = match compiled {
        Some(c) => c.scene_revision,
        None => 0,
    };
    if !needs_initial && source.revision() <= compiled_revision {
        return Ok(CompilePlan::UpToDate);
    }
    let ghost m = source@;
    let ghost nodes = snapshot.nodes@;
    let mut changed: Vec<(RenderNodeId, RenderDirty)> = Vec::new();
    let mut touches_keys = false;
    let mut structural = needs_initial;
    let mut i: usize = 0;
    proof {
        assert((0x1u16 | 0x20u16) == 0x21u16) by (bit_vector);
    }
    while i < snapshot.nodes.len()
        invariant
            i <= nodes.len(),
            nodes == snapshot.nodes@,
            m == source@,
            source.wf(),
            needs_initial == compiled is None,
            compiled_revision == match compiled {
                Some(c) => c.scene_revision,
                None => 0u64,
            },
            changed@ == changes_since(m, nodes.take(i as int), compiled_revision),
            touches_keys == any_key_change(changed@),
            structural == (needs_initial || any_structural(m, compiled_view(compiled), changed@)),
        decreases nodes.len() - i,
    {
        let id = snapshot.nodes[i];
        let ghost before = changed@;
        proof {
            assert(nodes.take(i + 1).drop_last() =~= nodes.take(i as int));
            assert(nodes.take(i + 1).last() == id);
        }
        if let Some(node) = source.node(id) {
            let dirty = dirty_since(node, compiled_revision);
            if !dirty.is_empty() {
                proof {
                    assert((0x1u16 | 0x20u16) == 0x21u16) by (bit_vector);
                }
                let hits_keys = dirty.intersects(RenderDirty::topology().union(RenderDirty::effect()));
                let rebuild = requires_structural_rebuild(source, compiled, id, dirty);
                changed.push((id, dirty));
                proof {
                    assert(changed@ == before.push((id, dirty)));
                    lemma_any_push(m, compiled_view(compiled), before, (id, dirty));
                }
                touches_keys = touches_keys || hits_keys;
                structural = structural || rebuild;
            }
        }
        i = i + 1;
    }
    proof {
        assert(nodes.take(nodes.len() as int) =~= nodes);
    }
    if needs_initial || touches_keys {
        match validate_explicit_cache_keys(source) {
            Ok(()) => {},
            Err(e) => return Err(e),
        }
    }
    if !structural {
        return Ok(CompilePlan::InPlace(changed));
    }
    let ghost ch = changes_since(m, nodes, compiled_revision);
    proof {
        assert(changed@ == ch);
    }
    match compiled {
        None => Ok(CompilePlan::Full),
        Some(c) => match structural_branches(c, source, &changed) {
            None => {
                proof {
                    let i = choose|i: int|
                        0 <= i < changed@.len() && branch_of(
                            c.pictures@,
                            source@,
                            source.spec_root(),
                            #[trigger] changed@[i].0,
                            changed@[i].1,
                            None,
                        );
                    assert(branch_of(c.pictures@, m, source.spec_root(), ch[i].0, ch[i].1, None));
                }
                Ok(CompilePlan::Full)
            },
            Some(v) => {
                proof {
                    assert forall|i: int| 0 <= i < ch.len() implies #[trigger] covered(m, v@, ch[i].0) by {
                        assert(covered(source@, v@, changed@[i].0));
                    }
                }
                Ok(CompilePlan::Branches(v))
            },
        },
    }
}

/// What the next frame takes.
#[derive(Debug, Clone, Copy, PartialEq, Eq, Structural)]
pub enum FrameNeed {
    /// The last frame still shows everything.
    Nothing,
    /// A new frame from the compiled scene.
    Build,
    /// Compiling the scene again, then a new frame.
    CompileAndBuild,
}

/// Decides what the next frame takes: compiling again when the scene was
/// never compiled or has dirty nodes; else a new frame when frame
/// properties changed since the last acknowledged frame or the viewport
/// changed; else nothing.
pub fn frame_need(
    scene: &RenderScene,
    properties: &FrameProperties,
    compiled: Option<&CompiledSources>,
    viewport_changed: bool,
) -> (r: FrameNeed)
    ensures
        r == if compiled is None || scene.spec_dirty_nodes().len() > 0 {
            FrameNeed::CompileAndBuild
        } else if properties.spec_revision() > properties.spec_acknowledged() || viewport_changed {
            FrameNeed::Build
        } else {
            FrameNeed::Nothing
        },
{
    let needs_scene_compile = compiled.is_none() || scene.is_dirty();
    if !needs_scene_compile && !properties.is_dirty() && !viewport_changed {
        return FrameNeed::Nothing;
    }
    if needs_scene_compile {
        FrameNeed::CompileAndBuild
    } else {
        FrameNeed::Build
    }
}

} // verus!
