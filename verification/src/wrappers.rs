//! The retained nodes of a UI host and how they follow the host: a root
//! transform over the style transform, then the optional clip and layer
//! wrappers, then the contents group holding the paint group, the children
//! group (under a scroll transform while the host scrolls) and the scrollbar
//! overlay. Creating a host's nodes establishes this arrangement
//! (`host_linked`), and every update here keeps it.

use vstd::prelude::*;

use crate::node_store::RenderNodeId;
use crate::scaffold::{identity_transform, HostRenderBinding};
use crate::dirty::RenderDirty;
use crate::scene::{
    opt_seq, ClipNode, TransformNode, LayerDescriptor, LayerNode, RenderNode, RenderNodeKind, RenderScene,
    SceneError,
};
use crate::scene_spec::{
    ancestor_at, dirty_marked, forest_wf, in_subtree, lemma_ancestor_pred, parent_link_ok,
    single_child_of, subtree_of, swap_updates, NodeMap,
};
use crate::properties::FrameProperties;
use crate::writer::{lemma_chain_agree, lemma_edit_shape, same_payload};

verus! {

/// `m2` has the nodes of `m`, and every node but those in `changed` keeps
/// its kind and its parent.
pub open spec fn shape_kept(m: NodeMap, m2: NodeMap, changed: Set<RenderNodeId>) -> bool {
    &&& m2.dom() == m.dom()
    &&& forall|x: RenderNodeId|
        #[trigger] m.dom().contains(x) && !changed.contains(x) ==> m2[x].kind == m[x].kind
            && m2[x].parent == m[x].parent
}

/// A node kind with one child slot.
pub open spec fn single_slot(k: RenderNodeKind) -> bool {
    k is Transform || k is Clip || k is Layer
}

/// The children of a single-slot node are its slot.
pub proof fn lemma_single_children(k: RenderNodeKind, c: Option<RenderNodeId>)
    requires
        single_slot(k),
        crate::scene::kind_children(k) == opt_seq(c),
    ensures
        match k {
            RenderNodeKind::Transform(t) => t.child == c,
            RenderNodeKind::Clip(x) => x.child == c,
            RenderNodeKind::Layer(l) => l.child == c,
            _ => true,
        },
{
    match k {
        RenderNodeKind::Transform(t) => lemma_opt_seq_inj(t.child, c),
        RenderNodeKind::Clip(x) => lemma_opt_seq_inj(x.child, c),
        RenderNodeKind::Layer(l) => lemma_opt_seq_inj(l.child, c),
        _ => {},
    }
}

proof fn lemma_opt_seq_inj(a: Option<RenderNodeId>, b: Option<RenderNodeId>)
    requires
        opt_seq(a) == opt_seq(b),
    ensures
        a == b,
{
    match (a, b) {
        (Some(x), Some(y)) => assert(opt_seq(a)[0] == x && opt_seq(b)[0] == y),
        (Some(_), None) => assert(opt_seq(a).len() == 1),
        (None, Some(_)) => assert(opt_seq(b).len() == 1),
        _ => {},
    }
}

/// Empties the slot of single-slot node `p`; its former child loses its
/// parent and no other node changes kind or parent.
fn unlink(scene: &mut RenderScene, p: RenderNodeId) -> (r: Result<(), SceneError>)
    requires
        old(scene).wf(),
        old(scene)@.dom().contains(p),
        single_slot(old(scene)@[p].kind),
    ensures
        final(scene).wf(),
        final(scene).spec_root() == old(scene).spec_root(),
        r is Ok,
        single_child_of(final(scene)@[p]) is None,
        final(scene)@[p].parent == old(scene)@[p].parent,
        same_payload(old(scene)@[p].kind, final(scene)@[p].kind),
        match single_child_of(old(scene)@[p]) {
            Some(c) => shape_kept(old(scene)@, final(scene)@, set![p, c]) && final(scene)@[c].parent
                is None && final(scene)@[c].kind == old(scene)@[c].kind,
            None => shape_kept(old(scene)@, final(scene)@, set![p]),
        },
{
    let ghost s0 = *scene;
    let r = scene.set_child(p, None);
    proof {
        let c = single_child_of(s0@[p]);
        if c is None {
            assert(*scene == s0);
            assert(set![p].contains(p));
        } else {
            lemma_edit_shape(&s0, scene, p, opt_seq(None), swap_updates(c, None, p));
            lemma_single_children(scene@[p].kind, None);
            let cc = c.unwrap();
            assert(swap_updates(c, None, p).dom().contains(cc));
            assert(s0@.dom().contains(cc)) by {
                s0.lemma_depth_forest();
                assert(crate::scene_spec::child_links_ok(s0@, p));
                assert(s0@[p].spec_children()[0] == cc);
            }
            assert forall|x: RenderNodeId|
                #[trigger] s0@.dom().contains(x) && !set![p, cc].contains(x) implies scene@[x].kind
                    == s0@[x].kind && scene@[x].parent == s0@[x].parent by {
                assert(!swap_updates(c, None, p).dom().contains(x));
            }
        }
    }
    r
}

/// Puts the parentless node `c` into the empty slot of single-slot node
/// `p`; no other node changes kind or parent.
fn link(scene: &mut RenderScene, p: RenderNodeId, c: RenderNodeId) -> (r: Result<(), SceneError>)
    requires
        old(scene).wf(),
        old(scene)@.dom().contains(p),
        old(scene)@.dom().contains(c),
        single_slot(old(scene)@[p].kind),
        single_child_of(old(scene)@[p]) is None,
        old(scene)@[c].parent is None,
        !in_subtree(old(scene)@, p, c),
    ensures
        final(scene).wf(),
        final(scene).spec_root() == old(scene).spec_root(),
        r is Ok,
        single_child_of(final(scene)@[p]) == Some(c),
        final(scene)@[p].parent == old(scene)@[p].parent,
        same_payload(old(scene)@[p].kind, final(scene)@[p].kind),
        final(scene)@[c].parent == Some(p),
        final(scene)@[c].kind == old(scene)@[c].kind,
        shape_kept(old(scene)@, final(scene)@, set![p, c]),
{
    let ghost s0 = *scene;
    proof {
        if p == c {
            assert(crate::scene_spec::ancestor_at(s0@, p, 0) == Some(p));
        }
    }
    let r = scene.set_child(p, Some(c));
    proof {
        let ups = swap_updates(None, Some(c), p);
        lemma_edit_shape(&s0, scene, p, opt_seq(Some(c)), ups);
        lemma_single_children(scene@[p].kind, Some(c));
        assert(ups.dom().contains(c) && ups[c] == Some(p));
        assert forall|x: RenderNodeId|
            #[trigger] s0@.dom().contains(x) && !set![p, c].contains(x) implies scene@[x].kind
                == s0@[x].kind && scene@[x].parent == s0@[x].parent by {
            assert(!ups.dom().contains(x));
        }
    }
    r
}

/// What an in-place change of node `id` to `n` leaves of the shape: the
/// same nodes, `id` with `n`'s kind and parent, every other node as it was.
proof fn lemma_edited_shape(old: &RenderScene, new: &RenderScene, id: RenderNodeId, n: RenderNode, bits: u16)
    requires
        RenderScene::node_edited(old, new, id, n, bits),
        old@.dom().contains(id),
    ensures
        new@.dom() == old@.dom(),
        new@[id].kind == n.kind,
        new@[id].parent == n.parent,
        forall|x: RenderNodeId| #[trigger] new@.dom().contains(x) && x != id ==> new@[x].kind == old@[x].kind
            && new@[x].parent == old@[x].parent,
{
    let m1 = old@.insert(id, n);
    let m2 = dirty_marked(m1, id, RenderDirty { bits }, new.spec_revision());
    assert(m2.dom() =~= old@.dom());
    assert(m2[id].kind == m1[id].kind && m2[id].parent == m1[id].parent);
    assert forall|x: RenderNodeId| #[trigger] m2.dom().contains(x) && x != id implies m2[x].kind == old@[x].kind
        && m2[x].parent == old@[x].parent by {
        assert(m2[x].kind == m1[x].kind && m2[x].parent == m1[x].parent);
    }
}

/// Gives clip `c` the shape `shape`, keeping its child.
fn reshape_clip(scene: &mut RenderScene, c: RenderNodeId, shape: u64) -> (r: Result<(), SceneError>)
    requires
        old(scene).wf(),
        old(scene)@.dom().contains(c),
        old(scene)@[c].kind is Clip,
    ensures
        final(scene).wf(),
        final(scene).spec_root() == old(scene).spec_root(),
        r is Ok,
        final(scene)@[c].kind == RenderNodeKind::Clip(ClipNode { clip: shape, ..old(scene)@[c].kind->Clip_0 }),
        final(scene)@[c].parent == old(scene)@[c].parent,
        shape_kept(old(scene)@, final(scene)@, set![c]),
{
    let ghost s0 = *scene;
    let r = scene.update_clip(c, shape);
    proof {
        let cur = s0@[c].kind->Clip_0;
        if cur.clip != shape {
            lemma_edited_shape(
                &s0,
                scene,
                c,
                RenderNode { kind: RenderNodeKind::Clip(ClipNode { clip: shape, ..cur }), ..s0@[c] },
                10,
            );
        } else {
            assert(ClipNode { clip: shape, ..cur } == cur);
        }
    }
    match r {
        Ok(_) => Ok(()),
        Err(e) => Err(e),
    }
}

/// Gives layer `l` the descriptor `descriptor`, keeping its child.
fn redescribe_layer(scene: &mut RenderScene, l: RenderNodeId, descriptor: LayerDescriptor) -> (r: Result<(), SceneError>)
    requires
        old(scene).wf(),
        old(scene)@.dom().contains(l),
        old(scene)@[l].kind is Layer,
    ensures
        final(scene).wf(),
        final(scene).spec_root() == old(scene).spec_root(),
        r is Ok,
        final(scene)@[l].kind == RenderNodeKind::Layer(LayerNode { descriptor, ..old(scene)@[l].kind->Layer_0 }),
        final(scene)@[l].parent == old(scene)@[l].parent,
        shape_kept(old(scene)@, final(scene)@, set![l]),
{
    let ghost s0 = *scene;
    let r = scene.update_layer_descriptor(l, descriptor);
    proof {
        let cur = s0@[l].kind->Layer_0;
        if cur.descriptor != descriptor {
            lemma_edited_shape(
                &s0,
                scene,
                l,
                RenderNode { kind: RenderNodeKind::Layer(LayerNode { descriptor, ..cur }), ..s0@[l] },
                crate::scene_spec::layer_change_bits(cur.descriptor, descriptor),
            );
        } else {
            assert(LayerNode { descriptor, ..cur } == cur);
        }
    }
    match r {
        Ok(_) => Ok(()),
        Err(e) => Err(e),
    }
}

/// A node without children is alone in its subtree.
pub proof fn lemma_leaf_subtree(m: NodeMap, d: Map<RenderNodeId, nat>, r: RenderNodeId)
    requires
        forest_wf(m, d),
        m.dom().contains(r),
        m[r].spec_children().len() == 0,
    ensures
        subtree_of(m, r) == set![r],
{
    assert forall|x: RenderNodeId| #[trigger] subtree_of(m, r).contains(x) implies x == r by {
        let k = choose|k: nat| ancestor_at(m, x, k) == Some(r);
        if k > 0 {
            lemma_ancestor_pred(m, x, k, r);
            let y = ancestor_at(m, x, (k - 1) as nat).unwrap();
            crate::scene_spec::lemma_ancestor_depth(m, d, x, (k - 1) as nat, y);
            assert(parent_link_ok(m, d, y));
        }
    }
    assert(m.dom().contains(r) && in_subtree(m, r, r)) by {
        assert(ancestor_at(m, r, 0) == Some(r));
    }
    assert(subtree_of(m, r) =~= set![r]);
}

/// Removes the detached, childless node `x`; every other node stays as it was.
fn drop_leaf(scene: &mut RenderScene, x: RenderNodeId) -> (r: Result<(), SceneError>)
    requires
        old(scene).wf(),
        old(scene)@.dom().contains(x),
        old(scene)@[x].parent is None,
        old(scene)@[x].spec_children().len() == 0,
        x != old(scene).spec_root(),
    ensures
        final(scene).wf(),
        final(scene).spec_root() == old(scene).spec_root(),
        r is Ok,
        final(scene)@ == old(scene)@.remove(x),
{
    let ghost s0 = *scene;
    proof {
        s0.lemma_depth_forest();
        lemma_leaf_subtree(s0@, s0.spec_depth(), x);
    }
    let r = scene.remove_subtree(x);
    proof {
        let mid = choose|mid: RenderScene|
            RenderScene::detached(&s0, &mid, x) && scene@ == mid@.remove_keys(subtree_of(s0@, x))
                && scene.spec_revision() == mid.spec_revision() && scene.spec_dirty_nodes()
                == mid.spec_dirty_nodes();
        assert(scene@ =~= s0@.remove(x));
    }
    r
}

/// The node right below the style transform in a chain with these
/// wrappers: the clip if any, else the layer if any, else the contents.
pub open spec fn chain_start(clip: Option<RenderNodeId>, layer: Option<RenderNodeId>, contents: RenderNodeId) -> RenderNodeId {
    match clip {
        Some(c) => c,
        None => below_clip(layer, contents),
    }
}

/// The node right below the clip: the layer if any, else the contents.
pub open spec fn below_clip(layer: Option<RenderNodeId>, contents: RenderNodeId) -> RenderNodeId {
    match layer {
        Some(l) => l,
        None => contents,
    }
}

/// The binding's wrappers are linked transform, clip, layer, contents (the
/// absent ones skipped), are distinct nodes, and none is the scene's root,
/// which is live.
pub open spec fn wrappers_linked(s: &RenderScene, b: HostRenderBinding) -> bool {
    let m = s@;
    &&& m.dom().contains(s.spec_root())
    &&& m.dom().contains(b.transform)
    &&& m[b.transform].kind is Transform
    &&& single_child_of(m[b.transform]) == Some(chain_start(b.clip, b.layer, b.contents))
    &&& m.dom().contains(b.contents)
    &&& b.contents != b.transform
    &&& (b.clip matches Some(c) ==> {
        &&& m.dom().contains(c)
        &&& m[c].kind is Clip
        &&& single_child_of(m[c]) == Some(below_clip(b.layer, b.contents))
        &&& c != s.spec_root()
        &&& c != b.transform
        &&& c != b.contents
    })
    &&& (b.layer matches Some(l) ==> {
        &&& m.dom().contains(l)
        &&& m[l].kind is Layer
        &&& single_child_of(m[l]) == Some(b.contents)
        &&& l != s.spec_root()
        &&& l != b.transform
        &&& l != b.contents
        &&& b.clip != Some(l)
    })
}

/// Updates the binding's clip and layer wrappers to `clip_shape` and
/// `layer_descriptor`: a wrapper that stays is updated in place and keeps its
/// id, a new one is inserted, one no longer wanted is removed, and when the
/// set of wrappers changes the chain from the style transform to the
/// contents is relinked.
#[verifier::rlimit(40)]
pub fn update_wrappers(
    scene: &mut RenderScene,
    binding: &mut HostRenderBinding,
    clip_shape: Option<u64>,
    layer_descriptor: Option<LayerDescriptor>,
) -> (r: Result<(), SceneError>)
    requires
        old(scene).wf(),
        old(scene).spec_len() < 0xffff_fffb,
        wrappers_linked(old(scene), *old(binding)),
    ensures
        final(scene).wf(),
        final(scene).spec_root() == old(scene).spec_root(),
        r is Ok,
        wrappers_linked(final(scene), *final(binding)),
        *final(binding) == (HostRenderBinding {
            clip: final(binding).clip,
            layer: final(binding).layer,
            ..*old(binding)
        }),
        final(binding).clip is Some == clip_shape is Some,
        final(binding).layer is Some == layer_descriptor is Some,
        old(binding).clip is Some && clip_shape is Some ==> final(binding).clip == old(binding).clip,
        old(binding).layer is Some && layer_descriptor is Some ==> final(binding).layer == old(binding).layer,
        old(binding).clip is None && final(binding).clip is Some ==> !old(scene)@.dom().contains(
            final(binding).clip.unwrap(),
        ),
        old(binding).layer is None && final(binding).layer is Some ==> !old(scene)@.dom().contains(
            final(binding).layer.unwrap(),
        ),
        final(binding).clip matches Some(c) ==> final(scene)@[c].kind->Clip_0.clip == clip_shape.unwrap(),
        final(binding).layer matches Some(l) ==> final(scene)@[l].kind->Layer_0.descriptor
            == layer_descriptor.unwrap(),
        final(scene)@.dom() == old(scene)@.dom().difference(
            opt_set(if clip_shape is None { old(binding).clip } else { None }) + opt_set(
                if layer_descriptor is None { old(binding).layer } else { None },
            ),
        ) + opt_set(final(binding).clip) + opt_set(final(binding).layer),
        forall|x: RenderNodeId|
            #[trigger] old(scene)@.dom().contains(x) && x != old(binding).transform && x
                != old(binding).contents && Some(x) != old(binding).clip && Some(x) != old(
                binding,
            ).layer ==> final(scene)@[x].kind == old(scene)@[x].kind && final(scene)@[x].parent
                == old(scene)@[x].parent,
        final(scene)@[old(binding).transform].parent == old(scene)@[old(binding).transform].parent,
        same_payload(old(scene)@[old(binding).transform].kind, final(scene)@[old(binding).transform].kind),
        final(scene)@[old(binding).contents].kind == old(scene)@[old(binding).contents].kind,
        contents_linked(old(scene), *old(binding)) ==> contents_linked(final(scene), *final(binding)),
        old(scene)@[old(scene).spec_root()].parent is None ==> final(scene)@[final(scene).spec_root()].parent
            is None,
        host_linked(old(scene), *old(binding)) ==> host_linked(final(scene), *final(binding)),
{
    let ghost s0 = *scene;
    let ghost b0 = *binding;
    let ghost t = b0.transform;
    let ghost k = b0.contents;
    proof {
        s0.lemma_depth_forest();
    }
    let topology_changed = clip_shape.is_some() != binding.clip.is_some()
        || layer_descriptor.is_some() != binding.layer.is_some();
    let old_clip = binding.clip;
    let old_layer = binding.layer;
    let removed_clip = match clip_shape {
        Some(shape) => {
            match binding.clip {
                Some(clip) => {
                    reshape_clip(scene, clip, shape)?;
                },
                None => {
                    binding.clip = Some(scene.insert_clip(shape));
                },
            }
            None
        },
        None => binding.clip.take(),
    };
    let ghost s1 = *scene;
    proof {
        assert forall|x: RenderNodeId| #[trigger] s0@.dom().contains(x) && Some(x) != b0.clip implies s1@.dom().contains(x)
            && s1@[x].kind == s0@[x].kind && s1@[x].parent == s0@[x].parent by {
            if b0.clip is Some && clip_shape is Some {
                assert(!set![b0.clip.unwrap()].contains(x));
            }
        }
    }
    let removed_layer = match layer_descriptor {
        Some(descriptor) => {
            match binding.layer {
                Some(layer) => {
                    proof {
                        assert(s0@.dom().contains(layer) && Some(layer) != b0.clip);
                    }
                    redescribe_layer(scene, layer, descriptor)?;
                },
                None => {
                    binding.layer = Some(scene.insert_layer(descriptor));
                },
            }
            None
        },
        None => binding.layer.take(),
    };
    let ghost s2 = *scene;
    let ghost b1 = *binding;
    proof {
        assert forall|x: RenderNodeId|
            #[trigger] s0@.dom().contains(x) && Some(x) != b0.clip && Some(x) != b0.layer implies s2@.dom().contains(x)
                && s2@[x].kind == s0@[x].kind && s2@[x].parent == s0@[x].parent by {
            assert(s1@.dom().contains(x));
            if b0.layer is Some && layer_descriptor is Some {
                assert(!set![b0.layer.unwrap()].contains(x));
            }
        }
        if let Some(c) = b1.clip {
            if b0.clip is None {
                assert(!s0@.dom().contains(c) && s2@.dom().contains(c));
            }
            assert(s2@.dom().contains(c) && s2@[c].kind is Clip);
            assert(s2@[c].kind->Clip_0.clip == clip_shape.unwrap());
        }
        if let Some(l) = b1.layer {
            assert(s2@.dom().contains(l) && s2@[l].kind is Layer);
            assert(s2@[l].kind->Layer_0.descriptor == layer_descriptor.unwrap());
        }
    }
    if !topology_changed {
        proof {
            assert(b1.clip == b0.clip && b1.layer == b0.layer);
            assert(s2@.dom() =~= s0@.dom());
            assert(s2@.dom() =~= s0@.dom().difference(
                opt_set(if clip_shape is None { b0.clip } else { None }) + opt_set(
                    if layer_descriptor is None { b0.layer } else { None },
                ),
            ) + opt_set(b1.clip) + opt_set(b1.layer));
            if contents_linked(&s0, b0) {
                lemma_wrappers_keep_contents(s0, b0, *scene, *binding);
            }
            if s0@[s0.spec_root()].parent is None {
                lemma_wrappers_keep_root(s0, b0, *scene);
            }
            if host_linked(&s0, b0) {
                lemma_wrappers_keep_host(s0, b0, *scene, *binding);
            }
        }
        return Ok(());
    }
    unlink(scene, binding.transform)?;
    let ghost s3 = *scene;
    if let Some(clip) = old_clip {
        unlink(scene, clip)?;
    }
    let ghost s4 = *scene;
    if let Some(layer) = old_layer {
        unlink(scene, layer)?;
    }
    let ghost s5 = *scene;
    let mut child = binding.contents;
    if let Some(layer) = binding.layer {
        link(scene, layer, child)?;
        child = layer;
    }
    let ghost s6 = *scene;
    if let Some(clip) = binding.clip {
        link(scene, clip, child)?;
        child = clip;
    }
    let ghost s7 = *scene;
    proof {
        let d0 = s0.spec_depth();
        let top0 = chain_start(b0.clip, b0.layer, k);
        assert(crate::scene_spec::child_links_ok(s0@, t));
        assert(s0@[t].spec_children()[0] == top0);
        assert(parent_link_ok(s0@, d0, top0));
        if let Some(c0) = b0.clip {
            assert(crate::scene_spec::child_links_ok(s0@, c0));
            assert(s0@[c0].spec_children()[0] == below_clip(b0.layer, k));
            assert(parent_link_ok(s0@, d0, below_clip(b0.layer, k)));
        }
        if let Some(l0) = b0.layer {
            assert(crate::scene_spec::child_links_ok(s0@, l0));
            assert(s0@[l0].spec_children()[0] == k);
            assert(parent_link_ok(s0@, d0, k));
        }
        assert forall|j: nat|
            #![trigger ancestor_at(s0@, t, j)]
            ancestor_at(s0@, t, j) is Some implies s7@[ancestor_at(s0@, t, j).unwrap()].parent
                == s0@[ancestor_at(s0@, t, j).unwrap()].parent by {
            let y = ancestor_at(s0@, t, j).unwrap();
            crate::scene_spec::lemma_ancestor_depth(s0@, d0, t, j, y);
            assert(y != k && Some(y) != b0.clip && Some(y) != b0.layer);
            assert(s2@[y].parent == s0@[y].parent);
            assert(s3@[y].parent == s2@[y].parent);
            assert(s4@[y].parent == s3@[y].parent);
            assert(s5@[y].parent == s4@[y].parent);
            assert(s6@[y].parent == s5@[y].parent);
            assert(s7@[y].parent == s6@[y].parent);
        }
        lemma_still_above(s0@, d0, s7@, t, child);
    }
    link(scene, binding.transform, child)?;
    let ghost s8 = *scene;
    proof {
        let top0 = chain_start(b0.clip, b0.layer, k);
        if let Some(c0) = b0.clip {
            assert(top0 == c0);
            assert(s3@[c0].parent is None);
            assert(s4@[c0].parent is None && single_child_of(s4@[c0]) is None);
            if b1.clip is None {
                assert(s5@[c0].parent is None && s5@[c0].kind == s4@[c0].kind);
                assert(s5@.dom().contains(c0) && c0 != k);
                if let Some(l1) = b1.layer {
                    assert(l1 != c0);
                    assert(!set![l1, k].contains(c0));
                }
                assert(s6@[c0].parent is None && s6@[c0].kind == s5@[c0].kind);
                assert(s7@[c0] == s6@[c0] || (s7@[c0].parent is None && s7@[c0].kind == s6@[c0].kind));
                assert(s8@[c0].parent is None && s8@[c0].kind == s7@[c0].kind);
                lemma_slot_children(s8@[c0]);
            }
        }
        if let Some(l0) = b0.layer {
            assert(s4@[l0].parent is None);
            assert(s5@[l0].parent is None && single_child_of(s5@[l0]) is None);
            if b1.layer is None {
                assert(s5@.dom().contains(l0) && l0 != k);
                assert(s6@[l0].parent is None && s6@[l0].kind == s5@[l0].kind);
                if let Some(c1) = b1.clip {
                    assert(c1 != l0);
                    assert(!set![c1, below_clip(b1.layer, k)].contains(l0));
                }
                assert(s7@[l0].parent is None && s7@[l0].kind == s6@[l0].kind);
                assert(s8@[l0].parent is None && s8@[l0].kind == s7@[l0].kind);
                lemma_slot_children(s8@[l0]);
            }
        }
    }
    if let Some(clip) = removed_clip {
        drop_leaf(scene, clip)?;
    }
    let ghost s9 = *scene;
    if let Some(layer) = removed_layer {
        proof {
            assert(s9@[layer] == s8@[layer]);
        }
        drop_leaf(scene, layer)?;
    }
    proof {
        if contents_linked(&s0, b0) {
            lemma_wrappers_keep_contents(s0, b0, *scene, *binding);
        }
        if s0@[s0.spec_root()].parent is None {
            lemma_wrappers_keep_root(s0, b0, *scene);
        }
        if host_linked(&s0, b0) {
            lemma_wrappers_keep_host(s0, b0, *scene, *binding);
        }
    }
    Ok(())
}

/// The wrapper update keeps linked contents linked: the transient nodes are
/// none of the wrappers, so their kinds stay as the contents' kind does.
proof fn lemma_wrappers_keep_contents(s0: RenderScene, b0: HostRenderBinding, s: RenderScene, b: HostRenderBinding)
    requires
        s0.wf(),
        wrappers_linked(&s0, b0),
        contents_linked(&s0, b0),
        s.spec_root() == s0.spec_root(),
        wrappers_linked(&s, b),
        b == (HostRenderBinding { clip: b.clip, layer: b.layer, ..b0 }),
        forall|x: RenderNodeId|
            #[trigger] s0@.dom().contains(x) && x != b0.transform && x != b0.contents && Some(x) != b0.clip
                && Some(x) != b0.layer ==> s@[x].kind == s0@[x].kind && s@[x].parent == s0@[x].parent,
        s@[b0.contents].kind == s0@[b0.contents].kind,
    ensures
        contents_linked(&s, b),
{
    lemma_transients_apart(s0, b0);
    lemma_contents_depths(s0, b0);
    if let Some(st) = b0.scroll_transform {
        assert(s@[st].kind == s0@[st].kind);
    }
    if let Some(c) = b0.children {
        assert(s@[c].kind == s0@[c].kind);
    }
    if let Some(o) = b0.overlay {
        assert(s@[o].kind == s0@[o].kind);
    }
}

/// A node whose ancestors kept their parents is still below none of the
/// nodes that were deeper than it, or new.
pub proof fn lemma_still_above(
    m0: NodeMap,
    d0: Map<RenderNodeId, nat>,
    m: NodeMap,
    t: RenderNodeId,
    c: RenderNodeId,
)
    requires
        forest_wf(m0, d0),
        m0.dom().contains(t),
        !m0.dom().contains(c) || d0[c] > d0[t],
        forall|j: nat|
            #![trigger ancestor_at(m0, t, j)]
            ancestor_at(m0, t, j) is Some ==> m[ancestor_at(m0, t, j).unwrap()].parent
                == m0[ancestor_at(m0, t, j).unwrap()].parent,
    ensures
        !in_subtree(m, t, c),
{
    if in_subtree(m, t, c) {
        let k = choose|k: nat| ancestor_at(m, t, k) == Some(c);
        lemma_chain_agree(m0, m, t, k);
        crate::scene_spec::lemma_ancestor_depth(m0, d0, t, k, c);
    }
}

/// A single-slot node with an empty slot has no children.
pub proof fn lemma_slot_children(n: RenderNode)
    requires
        single_slot(n.kind),
        single_child_of(n) is None,
    ensures
        n.spec_children().len() == 0,
{
}

/// Cuts `c` loose from its parent, if it has one: the parent loses it from
/// its children and no other node changes kind or parent.
fn cut(scene: &mut RenderScene, c: RenderNodeId) -> (r: Result<(), SceneError>)
    requires
        old(scene).wf(),
        old(scene)@.dom().contains(c),
    ensures
        final(scene).wf(),
        final(scene).spec_root() == old(scene).spec_root(),
        r is Ok,
        final(scene)@[c].parent is None,
        final(scene)@[c].kind == old(scene)@[c].kind,
        match old(scene)@[c].parent {
            Some(p) => {
                &&& shape_kept(old(scene)@, final(scene)@, set![p, c])
                &&& final(scene)@[p].parent == old(scene)@[p].parent
                &&& same_payload(old(scene)@[p].kind, final(scene)@[p].kind)
                &&& final(scene)@[p].spec_children() == old(scene)@[p].spec_children().remove(
                    old(scene)@[p].spec_children().index_of(c),
                )
            },
            None => *final(scene) == *old(scene),
        },
{
    let ghost s0 = *scene;
    let r = scene.detach(c);
    proof {
        if let Some(p) = s0@[c].parent {
            let ups = map![c => None::<RenderNodeId>];
            s0.lemma_depth_forest();
            assert(parent_link_ok(s0@, s0.spec_depth(), c));
            lemma_edit_shape(
                &s0,
                scene,
                p,
                s0@[p].spec_children().remove(s0@[p].spec_children().index_of(c)),
                ups,
            );
            assert(ups.dom().contains(c));
            assert forall|x: RenderNodeId|
                #[trigger] s0@.dom().contains(x) && !set![p, c].contains(x) implies scene@[x].kind
                    == s0@[x].kind && scene@[x].parent == s0@[x].parent by {
                assert(!ups.dom().contains(x));
            }
        }
    }
    match r {
        Ok(_) => Ok(()),
        Err(e) => Err(e),
    }
}

/// Whether two id lists are equal.
fn same_ids(a: &Vec<RenderNodeId>, b: &Vec<RenderNodeId>) -> (r: bool)
    ensures
        r == (a@ == b@),
{
    if a.len() != b.len() {
        return false;
    }
    let mut i: usize = 0;
    while i < a.len()
        invariant
            a@.len() == b@.len(),
            i <= a@.len(),
            forall|j: int| 0 <= j < i ==> a@[j] == b@[j],
        decreases a.len() - i,
    {
        if a[i] != b[i] {
            return false;
        }
        i = i + 1;
    }
    proof {
        assert(a@ =~= b@);
    }
    true
}

/// Makes `roots` the children of group `group`, in order, unless they
/// already are: the current children are cut loose, then each root is cut
/// from wherever it hangs and appended. Only the group, the nodes that
/// leave it or join it, and the former parents of joining nodes change.
#[verifier::rlimit(80)]
pub fn reconcile_children(scene: &mut RenderScene, group: RenderNodeId, roots: &Vec<RenderNodeId>) -> (r:
    Result<(), SceneError>)
    requires
        old(scene).wf(),
        old(scene)@.dom().contains(group),
        old(scene)@[group].kind is Group,
        roots@.no_duplicates(),
        forall|i: int|
            0 <= i < roots@.len() ==> old(scene)@.dom().contains(#[trigger] roots@[i]) && !in_subtree(
                old(scene)@,
                group,
                roots@[i],
            ),
    ensures
        final(scene).wf(),
        final(scene).spec_root() == old(scene).spec_root(),
        r is Ok,
        final(scene)@.dom() == old(scene)@.dom(),
        final(scene)@[group].spec_children() == roots@,
        final(scene)@[group].kind is Group,
        final(scene)@[group].parent == old(scene)@[group].parent,
        forall|x: RenderNodeId|
            #[trigger] old(scene)@.dom().contains(x) ==> final(scene)@[x].parent == if roots@.contains(x) {
                Some(group)
            } else if old(scene)@[group].spec_children().contains(x) {
                None::<RenderNodeId>
            } else {
                old(scene)@[x].parent
            },
        forall|x: RenderNodeId|
            #[trigger] old(scene)@.dom().contains(x) && x != group ==> same_payload(
                old(scene)@[x].kind,
                final(scene)@[x].kind,
            ),
        forall|x: RenderNodeId|
            #[trigger] old(scene)@.dom().contains(x) && x != group && (forall|i: int|
                0 <= i < roots@.len() ==> old(scene)@[roots@[i]].parent != Some(x)) ==> final(scene)@[x].kind
                == old(scene)@[x].kind,
{
    let ghost s0 = *scene;
    let ghost m0 = scene@;
    let ghost d0 = scene.spec_depth();
    proof {
        s0.lemma_depth_forest();
        assert(crate::scene_spec::child_links_ok(m0, group));
    }
    let kids = scene.children(group)?;
    let current = vstd::slice::slice_to_vec(kids);
    let ghost cur = current@;
    if same_ids(&current, roots) {
        proof {
            assert forall|x: RenderNodeId| #[trigger] m0.dom().contains(x) && roots@.contains(x) implies m0[x].parent == Some(group) by {
                let i = roots@.index_of(x);
                assert(roots@[i] == x);
            }
            assert forall|x: RenderNodeId| #[trigger] m0.dom().contains(x) && x != group && (forall|i: int|
                0 <= i < roots@.len() ==> m0[roots@[i]].parent != Some(x)) implies true by {
            }
        }
        return Ok(());
    }
    let mut i: usize = 0;
    while i < current.len()
        invariant
            scene.wf(),
            scene.spec_root() == s0.spec_root(),
            forest_wf(m0, d0),
            m0.dom().contains(group),
            current@ == cur,
            cur == m0[group].spec_children(),
            i <= cur.len(),
            scene@.dom() == m0.dom(),
            scene@[group].spec_children() == cur.subrange(i as int, cur.len() as int),
            scene@[group].kind is Group,
            scene@[group].parent == m0[group].parent,
            forall|t: int| 0 <= t < i ==> scene@[#[trigger] cur[t]].parent is None,
            forall|x: RenderNodeId|
                #[trigger] m0.dom().contains(x) && !cur.subrange(0, i as int).contains(x) ==> scene@[x].parent
                    == m0[x].parent,
            forall|x: RenderNodeId| #[trigger] m0.dom().contains(x) && x != group ==> scene@[x].kind == m0[x].kind,
        decreases cur.len() - i,
    {
        let c = current[i];
        let ghost s = *scene;
        proof {
            s.lemma_depth_forest();
            assert(crate::scene_spec::child_links_ok(s@, group));
            assert(s@[group].spec_children()[0] == c);
            assert(s@[group].spec_children().index_of(c) == 0) by {
                crate::scene_spec::lemma_index_of_unique(s@[group].spec_children(), 0);
            }
        }
        cut(scene, c)?;
        proof {
            assert(s@[group].spec_children().remove(0) =~= cur.subrange(i + 1, cur.len() as int));
            assert forall|x: RenderNodeId| #[trigger] m0.dom().contains(x) && !cur.subrange(0, i + 1).contains(x) implies scene@[x].parent == m0[x].parent by {
                assert(!cur.subrange(0, i as int).contains(x)) by {
                    if cur.subrange(0, i as int).contains(x) {
                        let t = cur.subrange(0, i as int).index_of(x);
                        assert(cur.subrange(0, i + 1)[t] == x);
                    }
                }
                assert(x != c) by {
                    assert(cur.subrange(0, i + 1)[i as int] == c);
                }
            }
            assert forall|t: int| 0 <= t < i + 1 implies scene@[#[trigger] cur[t]].parent is None by {
                if t < i {
                    assert(cur[t] != c) by {
                        crate::scene_spec::lemma_index_of_unique(cur, t);
                        crate::scene_spec::lemma_index_of_unique(cur, i as int);
                    }
                }
            }
        }
        i = i + 1;
    }
    proof {
        assert(cur.subrange(0, cur.len() as int) =~= cur);
        assert forall|k: nat| ancestor_at(scene@, group, k) == ancestor_at(m0, group, k) by {
            assert forall|j: nat|
                #![trigger ancestor_at(m0, group, j)]
                j < k && ancestor_at(m0, group, j) is Some implies scene@[ancestor_at(m0, group, j).unwrap()].parent
                    == m0[ancestor_at(m0, group, j).unwrap()].parent by {
                let y = ancestor_at(m0, group, j).unwrap();
                crate::scene_spec::lemma_ancestor_depth(m0, d0, group, j, y);
                if cur.contains(y) {
                    let t = cur.index_of(y);
                    assert(m0[cur[t]].parent == Some(group));
                    crate::writer::lemma_not_under_child(m0, d0, y, group);
                    assert(in_subtree(m0, group, y));
                }
            }
            lemma_chain_agree(m0, scene@, group, k);
        }
    }
    let mut j: usize = 0;
    while j < roots.len()
        invariant
            scene.wf(),
            scene.spec_root() == s0.spec_root(),
            forest_wf(m0, d0),
            m0.dom().contains(group),
            cur == m0[group].spec_children(),
            roots@.no_duplicates(),
            forall|t: int|
                0 <= t < roots@.len() ==> m0.dom().contains(#[trigger] roots@[t]) && !in_subtree(
                    m0,
                    group,
                    roots@[t],
                ),
            j <= roots@.len(),
            scene@.dom() == m0.dom(),
            scene@[group].spec_children() == roots@.subrange(0, j as int),
            scene@[group].kind is Group,
            scene@[group].parent == m0[group].parent,
            forall|k: nat| #[trigger] ancestor_at(scene@, group, k) == ancestor_at(m0, group, k),
            forall|x: RenderNodeId|
                #[trigger] m0.dom().contains(x) ==> scene@[x].parent == if roots@.subrange(0, j as int).contains(x) {
                    Some(group)
                } else if cur.contains(x) {
                    None::<RenderNodeId>
                } else {
                    m0[x].parent
                },
            forall|x: RenderNodeId| #[trigger] m0.dom().contains(x) && x != group ==> same_payload(m0[x].kind, scene@[x].kind),
            forall|x: RenderNodeId|
                #[trigger] m0.dom().contains(x) && x != group && (forall|t: int|
                    0 <= t < j ==> m0[roots@[t]].parent != Some(x)) ==> scene@[x].kind == m0[x].kind,
        decreases roots@.len() - j,
    {
        let r = roots[j];
        let ghost s = *scene;
        proof {
            assert(m0.dom().contains(r) && !in_subtree(m0, group, r));
            assert(!roots@.subrange(0, j as int).contains(r)) by {
                if roots@.subrange(0, j as int).contains(r) {
                    let t = roots@.subrange(0, j as int).index_of(r);
                    assert(roots@[t] == r);
                    crate::scene_spec::lemma_index_of_unique(roots@, t);
                    crate::scene_spec::lemma_index_of_unique(roots@, j as int);
                }
            }
            if let Some(p) = s@[r].parent {
                assert(!cur.contains(r));
                assert(m0[r].parent == Some(p));
                assert(parent_link_ok(m0, d0, r));
                assert(p != group);
            }
        }
        cut(scene, r)?;
        let ghost s1 = *scene;
        proof {
            assert forall|k: nat| ancestor_at(s1@, group, k) == ancestor_at(s@, group, k) by {
                assert forall|t: nat|
                    #![trigger ancestor_at(s@, group, t)]
                    t < k && ancestor_at(s@, group, t) is Some implies s1@[ancestor_at(s@, group, t).unwrap()].parent
                        == s@[ancestor_at(s@, group, t).unwrap()].parent by {
                    let y = ancestor_at(s@, group, t).unwrap();
                    crate::scene_spec::lemma_ancestor_depth(m0, d0, group, t, y);
                    assert(y != r);
                }
                lemma_chain_agree(s@, s1@, group, k);
            }
            assert(!in_subtree(s1@, group, r)) by {
                if in_subtree(s1@, group, r) {
                    let k = choose|k: nat| ancestor_at(s1@, group, k) == Some(r);
                    assert(ancestor_at(m0, group, k) == Some(r));
                }
            }
            assert(s1@[group].spec_children() == roots@.subrange(0, j as int));
        }
        let appended = scene.append_child(group, r);
        proof {
            assert(appended is Ok);
            let ups = map![r => Some(group)];
            lemma_edit_shape(&s1, scene, group, roots@.subrange(0, j as int).push(r), ups);
            assert(roots@.subrange(0, j as int).push(r) =~= roots@.subrange(0, j + 1));
            assert(ups.dom().contains(r));
            assert forall|k: nat| ancestor_at(scene@, group, k) == ancestor_at(s1@, group, k) by {
                assert forall|t: nat|
                    #![trigger ancestor_at(s1@, group, t)]
                    t < k && ancestor_at(s1@, group, t) is Some implies scene@[ancestor_at(s1@, group, t).unwrap()].parent
                        == s1@[ancestor_at(s1@, group, t).unwrap()].parent by {
                    let y = ancestor_at(s1@, group, t).unwrap();
                    crate::scene_spec::lemma_ancestor_depth(m0, d0, group, t, y);
                    assert(y != r);
                    if y != group {
                        assert(!ups.dom().contains(y));
                    }
                }
                lemma_chain_agree(s1@, scene@, group, k);
            }
            assert forall|x: RenderNodeId| #[trigger] m0.dom().contains(x) implies scene@[x].parent == if roots@.subrange(0, j + 1).contains(x) {
                Some(group)
            } else if cur.contains(x) {
                None::<RenderNodeId>
            } else {
                m0[x].parent
            } by {
                if x == r {
                    assert(roots@.subrange(0, j + 1)[j as int] == r);
                } else {
                    assert(roots@.subrange(0, j + 1).contains(x) == roots@.subrange(0, j as int).contains(x)) by {
                        if roots@.subrange(0, j + 1).contains(x) {
                            let t = roots@.subrange(0, j + 1).index_of(x);
                            assert(roots@.subrange(0, j as int)[t] == x);
                        }
                        if roots@.subrange(0, j as int).contains(x) {
                            let t = roots@.subrange(0, j as int).index_of(x);
                            assert(roots@.subrange(0, j + 1)[t] == x);
                        }
                    }
                    if x != group {
                        assert(!ups.dom().contains(x));
                    }
                }
            }
            assert forall|x: RenderNodeId| #[trigger] m0.dom().contains(x) && x != group && (forall|t: int|
                0 <= t < j + 1 ==> m0[roots@[t]].parent != Some(x)) implies scene@[x].kind == m0[x].kind by {
                assert(m0[roots@[j as int]].parent != Some(x));
            }
            assert forall|k: nat| #[trigger] ancestor_at(scene@, group, k) == ancestor_at(m0, group, k) by {
                assert(ancestor_at(scene@, group, k) == ancestor_at(s1@, group, k));
                assert(ancestor_at(s1@, group, k) == ancestor_at(s@, group, k));
                assert(ancestor_at(s@, group, k) == ancestor_at(m0, group, k));
            }
        }
        j = j + 1;
    }
    proof {
        assert(roots@.subrange(0, roots@.len() as int) =~= roots@);
    }
    Ok(())
}

/// Puts the parentless node `c` at position `i` among group `p`'s
/// children; no other node changes kind or parent.
fn insert_at(scene: &mut RenderScene, p: RenderNodeId, i: usize, c: RenderNodeId) -> (r: Result<(), SceneError>)
    requires
        old(scene).wf(),
        old(scene)@.dom().contains(p),
        old(scene)@.dom().contains(c),
        old(scene)@[p].kind is Group,
        old(scene)@[c].parent is None,
        !in_subtree(old(scene)@, p, c),
        i <= old(scene)@[p].spec_children().len(),
    ensures
        final(scene).wf(),
        final(scene).spec_root() == old(scene).spec_root(),
        r is Ok,
        final(scene)@[p].spec_children() == old(scene)@[p].spec_children().insert(i as int, c),
        final(scene)@[p].kind is Group,
        final(scene)@[p].parent == old(scene)@[p].parent,
        final(scene)@[c].parent == Some(p),
        final(scene)@[c].kind == old(scene)@[c].kind,
        shape_kept(old(scene)@, final(scene)@, set![p, c]),
{
    let ghost s0 = *scene;
    proof {
        if p == c {
            assert(ancestor_at(s0@, p, 0) == Some(p));
        }
    }
    let r = scene.insert_child(p, i, c);
    proof {
        let ups = map![c => Some(p)];
        lemma_edit_shape(&s0, scene, p, s0@[p].spec_children().insert(i as int, c), ups);
        assert(ups.dom().contains(c));
        assert forall|x: RenderNodeId|
            #[trigger] s0@.dom().contains(x) && !set![p, c].contains(x) implies scene@[x].kind
                == s0@[x].kind && scene@[x].parent == s0@[x].parent by {
            assert(!ups.dom().contains(x));
        }
    }
    r
}

/// Adds the parentless node `c` as the last child of group `p`; no other
/// node changes kind or parent.
fn append(scene: &mut RenderScene, p: RenderNodeId, c: RenderNodeId) -> (r: Result<(), SceneError>)
    requires
        old(scene).wf(),
        old(scene)@.dom().contains(p),
        old(scene)@.dom().contains(c),
        old(scene)@[p].kind is Group,
        old(scene)@[c].parent is None,
        !in_subtree(old(scene)@, p, c),
    ensures
        final(scene).wf(),
        final(scene).spec_root() == old(scene).spec_root(),
        r is Ok,
        final(scene)@[p].spec_children() == old(scene)@[p].spec_children().push(c),
        final(scene)@[p].kind is Group,
        final(scene)@[p].parent == old(scene)@[p].parent,
        final(scene)@[c].parent == Some(p),
        final(scene)@[c].kind == old(scene)@[c].kind,
        shape_kept(old(scene)@, final(scene)@, set![p, c]),
{
    let ghost s0 = *scene;
    proof {
        if p == c {
            assert(ancestor_at(s0@, p, 0) == Some(p));
        }
    }
    let r = scene.append_child(p, c);
    proof {
        let ups = map![c => Some(p)];
        lemma_edit_shape(&s0, scene, p, s0@[p].spec_children().push(c), ups);
        assert(ups.dom().contains(c));
        assert forall|x: RenderNodeId|
            #[trigger] s0@.dom().contains(x) && !set![p, c].contains(x) implies scene@[x].kind
                == s0@[x].kind && scene@[x].parent == s0@[x].parent by {
            assert(!ups.dom().contains(x));
        }
    }
    r
}

/// Removes the detached node `x` with its subtree; every other node stays
/// as it was.
fn drop_tree(scene: &mut RenderScene, x: RenderNodeId) -> (r: Result<(), SceneError>)
    requires
        old(scene).wf(),
        old(scene)@.dom().contains(x),
        old(scene)@[x].parent is None,
        x != old(scene).spec_root(),
    ensures
        final(scene).wf(),
        final(scene).spec_root() == old(scene).spec_root(),
        r is Ok,
        final(scene)@ == old(scene)@.remove_keys(subtree_of(old(scene)@, x)),
{
    let ghost s0 = *scene;
    let r = scene.remove_subtree(x);
    proof {
        let mid = choose|mid: RenderScene|
            RenderScene::detached(&s0, &mid, x) && scene@ == mid@.remove_keys(subtree_of(s0@, x))
                && scene.spec_revision() == mid.spec_revision() && scene.spec_dirty_nodes()
                == mid.spec_dirty_nodes();
    }
    r
}

/// A node without a parent is below no node but itself.
pub proof fn lemma_parentless_below(m: NodeMap, x: RenderNodeId, a: RenderNodeId)
    requires
        m[x].parent is None,
        in_subtree(m, x, a),
    ensures
        x == a,
{
    let k = choose|k: nat| ancestor_at(m, x, k) == Some(a);
    if k > 0 {
        assert(ancestor_at(m, x, k) is None);
    }
}

/// The parents that a host's transient-node update leaves alone: every old
/// node other than the old children group, scroll transform and overlay is
/// still there under its old parent.
pub open spec fn others_kept(m0: NodeMap, m: NodeMap, b: HostRenderBinding) -> bool {
    forall|y: RenderNodeId|
        #[trigger] m0.dom().contains(y) && Some(y) != b.children && Some(y) != b.scroll_transform
            && Some(y) != b.overlay ==> m.dom().contains(y) && m[y].parent == m0[y].parent
}

/// While the other parents are kept, the contents are still below none of
/// the nodes that were deeper than them, or new.
pub proof fn lemma_contents_above(
    m0: NodeMap,
    d0: Map<RenderNodeId, nat>,
    m: NodeMap,
    b: HostRenderBinding,
    x: RenderNodeId,
)
    requires
        forest_wf(m0, d0),
        m0.dom().contains(b.contents),
        others_kept(m0, m, b),
        b.children matches Some(c) ==> !m0.dom().contains(c) || d0[c] > d0[b.contents],
        b.scroll_transform matches Some(st) ==> !m0.dom().contains(st) || d0[st] > d0[b.contents],
        b.overlay matches Some(o) ==> !m0.dom().contains(o) || d0[o] > d0[b.contents],
        !m0.dom().contains(x) || d0[x] > d0[b.contents],
    ensures
        !in_subtree(m, b.contents, x),
{
    assert forall|j: nat|
        #![trigger ancestor_at(m0, b.contents, j)]
        ancestor_at(m0, b.contents, j) is Some implies m[ancestor_at(m0, b.contents, j).unwrap()].parent
            == m0[ancestor_at(m0, b.contents, j).unwrap()].parent by {
        let y = ancestor_at(m0, b.contents, j).unwrap();
        crate::scene_spec::lemma_ancestor_depth(m0, d0, b.contents, j, y);
    }
    lemma_still_above(m0, d0, m, b.contents, x);
}

/// Under linked contents, the children group, scroll transform and overlay
/// lie deeper than the contents.
pub proof fn lemma_contents_depths(s: RenderScene, b: HostRenderBinding)
    requires
        s.wf(),
        contents_linked(&s, b),
    ensures
        b.children matches Some(c) ==> s@.dom().contains(c) && s.spec_depth()[c] > s.spec_depth()[b.contents],
        b.scroll_transform matches Some(st) ==> s@.dom().contains(st) && s.spec_depth()[st] > s.spec_depth()[b.contents]
            && s@[st].parent == Some(b.contents),
        b.overlay matches Some(o) ==> s@.dom().contains(o) && s.spec_depth()[o] > s.spec_depth()[b.contents]
            && s@[o].parent == Some(b.contents),
        s@.dom().contains(b.paint),
{
    s.lemma_depth_forest();
    let m = s@;
    let d = s.spec_depth();
    let k = b.contents;
    let cs = m[k].spec_children();
    assert(crate::scene_spec::child_links_ok(m, k));
    assert(cs[0] == b.paint);
    if let Some(x) = scroll_or_children(b) {
        assert(cs[1] == x);
        assert(parent_link_ok(m, d, x));
    }
    if let Some(o) = b.overlay {
        assert(cs[cs.len() - 1] == o);
        assert(parent_link_ok(m, d, o));
    }
    if let Some(st) = b.scroll_transform {
        let c = b.children.unwrap();
        assert(crate::scene_spec::child_links_ok(m, st));
        assert(m[st].spec_children()[0] == c);
        assert(parent_link_ok(m, d, c));
    }
}

/// The node between the contents and the host children: the scroll
/// transform while scrolling, else the children group.
pub open spec fn scroll_or_children(b: HostRenderBinding) -> Option<RenderNodeId> {
    match b.scroll_transform {
        Some(st) => Some(st),
        None => b.children,
    }
}

/// The contents group holds the paint group, then the scroll transform or
/// the children group, then the scrollbar overlay; a scroll transform holds
/// the children group; the transient nodes are not the scene's root, which
/// is live.
pub open spec fn contents_linked(s: &RenderScene, b: HostRenderBinding) -> bool {
    let m = s@;
    &&& m.dom().contains(s.spec_root())
    &&& m.dom().contains(b.contents)
    &&& m[b.contents].kind is Group
    &&& m[b.contents].spec_children() == seq![b.paint] + opt_seq(scroll_or_children(b)) + opt_seq(
        b.overlay,
    )
    &&& (b.scroll_transform is Some ==> b.children is Some)
    &&& (b.scroll_transform matches Some(st) ==> m[st].kind is Transform && single_child_of(m[st])
        == b.children && st != s.spec_root())
    &&& (b.children matches Some(c) ==> m[c].kind is Group)
    &&& (b.overlay matches Some(o) ==> m[o].kind is Group && o != s.spec_root())
}

/// Old nodes keep their parents, except those in `changed`; the scene may
/// also have new nodes.
pub open spec fn parents_kept(m0: NodeMap, m: NodeMap, changed: Set<RenderNodeId>) -> bool {
    forall|y: RenderNodeId|
        #[trigger] m0.dom().contains(y) && !changed.contains(y) ==> m.dom().contains(y) && m[y].parent
            == m0[y].parent
}

/// Gives the contents a children group once the host has children.
fn ensure_children_group(scene: &mut RenderScene, binding: &mut HostRenderBinding, has_children: bool) -> (r:
    Result<(), SceneError>)
    requires
        old(scene).wf(),
        old(scene).spec_len() < 0xffff_fffd,
        contents_linked(old(scene), *old(binding)),
    ensures
        final(scene).wf(),
        final(scene).spec_root() == old(scene).spec_root(),
        r is Ok,
        contents_linked(final(scene), *final(binding)),
        *final(binding) == (HostRenderBinding { children: final(binding).children, ..*old(binding) }),
        old(binding).children is Some ==> final(binding).children == old(binding).children && *final(scene)
            == *old(scene),
        old(binding).children is None ==> (final(binding).children is Some == has_children),
        old(binding).children is None && final(binding).children is Some ==> !old(scene)@.dom().contains(
            final(binding).children.unwrap(),
        ) && final(scene)@.dom() == old(scene)@.dom().insert(final(binding).children.unwrap()),
        old(binding).children is None && final(binding).children is None ==> *final(scene) == *old(scene),
        parents_kept(old(scene)@, final(scene)@, Set::empty()),
        forall|y: RenderNodeId| #[trigger] old(scene)@.dom().contains(y) && y != old(binding).contents
            ==> final(scene)@[y].kind == old(scene)@[y].kind,
{
    let ghost s0 = *scene;
    let ghost m0 = scene@;
    let ghost b0 = *binding;
    let ghost k = b0.contents;
    let ghost d0 = scene.spec_depth();
    proof {
        s0.lemma_depth_forest();
        lemma_contents_depths(s0, b0);
    }
    if has_children && binding.children.is_none() {
        let contents = binding.contents;
        let children = scene.insert_group();
        let ghost s1 = *scene;
        proof {
            lemma_contents_above(m0, d0, scene@, b0, children);
            assert((seq![b0.paint] + opt_seq(b0.overlay)).insert(1, children) =~= seq![b0.paint]
                + opt_seq(Some(children)) + opt_seq(b0.overlay));
        }
        insert_at(scene, contents, 1, children)?;
        binding.children = Some(children);
        proof {
            assert(scene@.dom() =~= m0.dom().insert(children));
            assert forall|y: RenderNodeId| #[trigger] m0.dom().contains(y) implies scene@.dom().contains(y)
                && scene@[y].parent == m0[y].parent && (y != k ==> scene@[y].kind == m0[y].kind) by {
                assert(s1@[y] == m0[y]);
                assert(s1@.dom().contains(y) && y != children);
                if y != k {
                    assert(!set![k, children].contains(y));
                }
            }
        }
    }
    Ok(())
}

/// Puts a scroll transform above the children group while the host
/// scrolls, and takes it out when it stops; returns the transform taken
/// out, left detached and empty.
fn sync_scroll(scene: &mut RenderScene, binding: &mut HostRenderBinding, needs_scroll: bool) -> (r: Result<
    Option<RenderNodeId>,
    SceneError,
>)
    requires
        old(scene).wf(),
        old(scene).spec_len() < 0xffff_fffd,
        contents_linked(old(scene), *old(binding)),
    ensures
        final(scene).wf(),
        final(scene).spec_root() == old(scene).spec_root(),
        r is Ok,
        contents_linked(final(scene), *final(binding)),
        *final(binding) == (HostRenderBinding {
            scroll_transform: final(binding).scroll_transform,
            ..*old(binding)
        }),
        final(binding).scroll_transform is Some == (needs_scroll && old(binding).children is Some),
        old(binding).scroll_transform is Some && needs_scroll ==> final(binding).scroll_transform
            == old(binding).scroll_transform && *final(scene) == *old(scene),
        old(binding).scroll_transform is None && final(binding).scroll_transform is Some ==> !old(
            scene,
        )@.dom().contains(final(binding).scroll_transform.unwrap()) && final(scene)@.dom() == old(
            scene,
        )@.dom().insert(final(binding).scroll_transform.unwrap()),
        old(binding).scroll_transform is None && final(binding).scroll_transform is None ==> *final(scene)
            == *old(scene),
        r == Ok::<Option<RenderNodeId>, SceneError>(
            if !needs_scroll { old(binding).scroll_transform } else { None },
        ),
        r matches Ok(Some(st)) ==> {
            &&& final(scene)@.dom() == old(scene)@.dom()
            &&& final(scene)@[st].parent is None
            &&& final(scene)@[st].spec_children().len() == 0
            &&& st != final(scene).spec_root()
        },
        parents_kept(
            old(scene)@,
            final(scene)@,
            opt_set(old(binding).children) + opt_set(old(binding).scroll_transform),
        ),
        old(binding).children matches Some(c) ==> final(scene)@[c].kind == old(scene)@[c].kind,
        forall|y: RenderNodeId|
            #[trigger] old(scene)@.dom().contains(y) && y != old(binding).contents && Some(y) != old(
                binding,
            ).scroll_transform ==> final(scene)@[y].kind == old(scene)@[y].kind,
{
    let ghost s0 = *scene;
    let ghost m0 = scene@;
    let ghost b0 = *binding;
    let ghost k = b0.contents;
    let ghost d0 = scene.spec_depth();
    proof {
        s0.lemma_depth_forest();
        lemma_contents_depths(s0, b0);
    }
    let contents = binding.contents;
    if needs_scroll {
        if binding.scroll_transform.is_none() {
            if let Some(children) = binding.children {
                proof {
                    assert(crate::scene_spec::child_links_ok(m0, k));
                    assert(m0[k].spec_children()[1] == children);
                    crate::scene_spec::lemma_index_of_unique(m0[k].spec_children(), 1);
                }
                cut(scene, children)?;
                let ghost s1 = *scene;
                let scroll_transform = scene.insert_transform(0);
                let ghost s2 = *scene;
                proof {
                    if in_subtree(scene@, scroll_transform, children) {
                        lemma_parentless_below(scene@, scroll_transform, children);
                    }
                }
                link(scene, scroll_transform, children)?;
                let ghost s3 = *scene;
                proof {
                    assert forall|y: RenderNodeId|
                        #[trigger] m0.dom().contains(y) && y != children implies scene@.dom().contains(y)
                            && scene@[y].parent == m0[y].parent && (y != k ==> scene@[y].kind == m0[y].kind) by {
                        assert(s1@.dom().contains(y));
                        if y != k {
                            assert(!set![k, children].contains(y));
                        }
                        assert(s2@[y] == s1@[y]);
                        assert(s2@.dom().contains(y) && y != scroll_transform);
                        assert(!set![scroll_transform, children].contains(y));
                    }
                    assert(others_kept(m0, scene@, b0));
                    lemma_contents_above(m0, d0, scene@, b0, scroll_transform);
                    assert(m0[k].spec_children().remove(1) =~= seq![b0.paint] + opt_seq(b0.overlay));
                    assert((seq![b0.paint] + opt_seq(b0.overlay)).insert(1, scroll_transform) =~= seq![b0.paint]
                        + opt_seq(Some(scroll_transform)) + opt_seq(b0.overlay));
                }
                insert_at(scene, contents, 1, scroll_transform)?;
                binding.scroll_transform = Some(scroll_transform);
                proof {
                    assert(scene@.dom() =~= m0.dom().insert(scroll_transform));
                    assert forall|y: RenderNodeId|
                        #[trigger] m0.dom().contains(y) && y != children implies scene@.dom().contains(y)
                            && scene@[y].parent == m0[y].parent && (y != k ==> scene@[y].kind == m0[y].kind) by {
                        assert(s3@.dom().contains(y) && s3@[y].parent == m0[y].parent);
                        assert(y != scroll_transform);
                        if y != k {
                            assert(!set![k, scroll_transform].contains(y));
                        }
                    }
                    assert(s1@[children].kind == m0[children].kind);
                    assert(s1@.dom().contains(children));
                    assert(s2@[children] == s1@[children]);
                    assert(s3@[children].kind == s2@[children].kind);
                    assert(children != k && children != scroll_transform);
                    assert(!set![k, scroll_transform].contains(children));
                    assert(s3@.dom().contains(children));
                    assert(scene@[children].kind == s3@[children].kind);
                    assert(scene@[children].kind == m0[children].kind);
                }
            }
        }
        Ok(None)
    } else if let Some(scroll_transform) = binding.scroll_transform {
        binding.scroll_transform = None;
        let children = binding.children.unwrap();
        unlink(scene, scroll_transform)?;
        let ghost s1 = *scene;
        proof {
            assert(crate::scene_spec::child_links_ok(m0, k));
            assert(m0[k].spec_children()[1] == scroll_transform);
            crate::scene_spec::lemma_index_of_unique(m0[k].spec_children(), 1);
        }
        cut(scene, scroll_transform)?;
        let ghost s2 = *scene;
        proof {
            assert forall|y: RenderNodeId|
                #[trigger] m0.dom().contains(y) && y != children && y != scroll_transform implies scene@.dom().contains(y)
                    && scene@[y].parent == m0[y].parent && (y != k ==> scene@[y].kind == m0[y].kind) by {
                assert(!set![scroll_transform, children].contains(y));
                if y != k {
                    assert(!set![k, scroll_transform].contains(y));
                }
            }
            let b1 = HostRenderBinding { scroll_transform: None, ..b0 };
            assert(others_kept(m0, scene@, b0));
            lemma_contents_above(m0, d0, scene@, b0, children);
            assert(m0[k].spec_children().remove(1) =~= seq![b0.paint] + opt_seq(b0.overlay));
            assert((seq![b0.paint] + opt_seq(b0.overlay)).insert(1, children) =~= seq![b0.paint]
                + opt_seq(Some(children)) + opt_seq(b0.overlay));
        }
        insert_at(scene, contents, 1, children)?;
        proof {
            assert(scene@.dom() =~= m0.dom());
            assert forall|y: RenderNodeId|
                #[trigger] m0.dom().contains(y) && y != children && y != scroll_transform implies scene@.dom().contains(y)
                    && scene@[y].parent == m0[y].parent && (y != k ==> scene@[y].kind == m0[y].kind) by {
                if y != k {
                    assert(!set![k, children].contains(y));
                }
            }
            assert(scene@[scroll_transform].parent is None);
            assert(single_child_of(scene@[scroll_transform]) is None);
            lemma_slot_children(scene@[scroll_transform]);
        }
        Ok(Some(scroll_transform))
    } else {
        Ok(None)
    }
}

/// Gives the contents a scrollbar overlay, last, while the host shows
/// scrollbars, and takes it out when it stops; returns the overlay taken
/// out, left detached with its subtree.
fn sync_overlay(scene: &mut RenderScene, binding: &mut HostRenderBinding, needs_overlay: bool) -> (r: Result<
    Option<RenderNodeId>,
    SceneError,
>)
    requires
        old(scene).wf(),
        old(scene).spec_len() < 0xffff_fffd,
        contents_linked(old(scene), *old(binding)),
    ensures
        final(scene).wf(),
        final(scene).spec_root() == old(scene).spec_root(),
        r is Ok,
        contents_linked(final(scene), *final(binding)),
        *final(binding) == (HostRenderBinding { overlay: final(binding).overlay, ..*old(binding) }),
        final(binding).overlay is Some == needs_overlay,
        old(binding).overlay is Some && needs_overlay ==> final(binding).overlay == old(binding).overlay
            && *final(scene) == *old(scene),
        old(binding).overlay is None && needs_overlay ==> !old(scene)@.dom().contains(
            final(binding).overlay.unwrap(),
        ) && final(scene)@.dom() == old(scene)@.dom().insert(final(binding).overlay.unwrap()),
        old(binding).overlay is None && !needs_overlay ==> *final(scene) == *old(scene),
        r == Ok::<Option<RenderNodeId>, SceneError>(if !needs_overlay { old(binding).overlay } else { None }),
        r matches Ok(Some(o)) ==> {
            &&& final(scene)@.dom() == old(scene)@.dom()
            &&& final(scene)@[o].parent is None
            &&& o != final(scene).spec_root()
            &&& forall|x: RenderNodeId| #[trigger] in_subtree(old(scene)@, x, o) && old(scene)@.dom().contains(x)
                ==> in_subtree(final(scene)@, x, o)
        },
        parents_kept(old(scene)@, final(scene)@, opt_set(old(binding).overlay)),
        forall|y: RenderNodeId|
            #[trigger] old(scene)@.dom().contains(y) && y != old(binding).contents ==> final(scene)@[y].kind
                == old(scene)@[y].kind,
{
    let ghost s0 = *scene;
    let ghost m0 = scene@;
    let ghost b0 = *binding;
    let ghost k = b0.contents;
    let ghost d0 = scene.spec_depth();
    proof {
        s0.lemma_depth_forest();
        lemma_contents_depths(s0, b0);
    }
    let contents = binding.contents;
    if needs_overlay {
        if binding.overlay.is_none() {
            let overlay = scene.insert_group();
            let ghost s1 = *scene;
            proof {
                lemma_contents_above(m0, d0, scene@, b0, overlay);
            }
            append(scene, contents, overlay)?;
            binding.overlay = Some(overlay);
            proof {
                assert(scene@.dom() =~= m0.dom().insert(overlay));
                assert((seq![b0.paint] + opt_seq(scroll_or_children(b0))).push(overlay) =~= seq![b0.paint]
                    + opt_seq(scroll_or_children(b0)) + opt_seq(Some(overlay)));
                assert forall|y: RenderNodeId| #[trigger] m0.dom().contains(y) implies scene@.dom().contains(y)
                    && scene@[y].parent == m0[y].parent && (y != k ==> scene@[y].kind == m0[y].kind) by {
                    assert(s1@[y] == m0[y]);
                    assert(s1@.dom().contains(y) && y != overlay);
                    if y != k {
                        assert(!set![k, overlay].contains(y));
                    }
                }
                if let Some(st) = b0.scroll_transform {
                    assert(st != overlay && st != k);
                    assert(scene@[st].kind == m0[st].kind);
                }
                if let Some(c) = b0.children {
                    assert(scene@[c].kind == m0[c].kind);
                }
            }
        }
        Ok(None)
    } else if let Some(overlay) = binding.overlay {
        binding.overlay = None;
        proof {
            assert(crate::scene_spec::child_links_ok(m0, k));
            let n = m0[k].spec_children().len() - 1;
            assert(m0[k].spec_children()[n] == overlay);
            crate::scene_spec::lemma_index_of_unique(m0[k].spec_children(), n);
        }
        cut(scene, overlay)?;
        proof {
            let cs = m0[k].spec_children();
            assert(cs.remove(cs.len() - 1) =~= seq![b0.paint] + opt_seq(scroll_or_children(b0)));
            assert forall|y: RenderNodeId| #[trigger] m0.dom().contains(y) && y != overlay implies scene@.dom().contains(y)
                && scene@[y].parent == m0[y].parent && (y != k ==> scene@[y].kind == m0[y].kind) by {
                if y != k {
                    assert(!set![k, overlay].contains(y));
                }
            }
            if let Some(st) = b0.scroll_transform {
                assert(scene@[st].kind == m0[st].kind);
            }
            if let Some(c) = b0.children {
                assert(scene@[c].kind == m0[c].kind);
            }
            assert forall|x: RenderNodeId| #[trigger] in_subtree(m0, x, overlay) && m0.dom().contains(x)
                implies in_subtree(scene@, x, overlay) by {
                let n = choose|n: nat| ancestor_at(m0, x, n) == Some(overlay);
                assert forall|j: nat|
                    #![trigger ancestor_at(m0, x, j)]
                    j < n && ancestor_at(m0, x, j) is Some implies scene@[ancestor_at(m0, x, j).unwrap()].parent
                        == m0[ancestor_at(m0, x, j).unwrap()].parent by {
                    let y = ancestor_at(m0, x, j).unwrap();
                    crate::scene_spec::lemma_ancestor_depth(m0, d0, x, j, y);
                    if y == overlay {
                        crate::writer::lemma_ancestor_once(m0, d0, x, j, n, overlay);
                    }
                }
                lemma_chain_agree(m0, scene@, x, n);
            }
        }
        Ok(Some(overlay))
    } else {
        Ok(None)
    }
}

/// The set holding the node, if there is one.
pub open spec fn opt_set(o: Option<RenderNodeId>) -> Set<RenderNodeId> {
    match o {
        Some(x) => set![x],
        None => Set::empty(),
    }
}

/// A subtree carries over to another node map that keeps the parent of
/// every node strictly inside it.
pub proof fn lemma_subtree_carries(
    m: NodeMap,
    d: Map<RenderNodeId, nat>,
    m2: NodeMap,
    x: RenderNodeId,
    o: RenderNodeId,
)
    requires
        forest_wf(m, d),
        m.dom().contains(x),
        in_subtree(m, x, o),
        forall|y: RenderNodeId|
            #[trigger] in_subtree(m, y, o) && y != o && m.dom().contains(y) ==> m2[y].parent == m[y].parent,
    ensures
        in_subtree(m2, x, o),
{
    let n = choose|n: nat| ancestor_at(m, x, n) == Some(o);
    assert forall|j: nat|
        #![trigger ancestor_at(m, x, j)]
        j < n && ancestor_at(m, x, j) is Some implies m2[ancestor_at(m, x, j).unwrap()].parent
            == m[ancestor_at(m, x, j).unwrap()].parent by {
        let y = ancestor_at(m, x, j).unwrap();
        crate::scene_spec::lemma_ancestor_depth(m, d, x, j, y);
        crate::writer::lemma_ancestor_compose(m, x, j, (n - j) as nat);
        assert(ancestor_at(m, y, (n - j) as nat) == Some(o));
        assert(in_subtree(m, y, o));
        if y == o {
            crate::writer::lemma_ancestor_once(m, d, x, j, n, o);
        }
    }
    lemma_chain_agree(m, m2, x, n);
    assert(ancestor_at(m2, x, n) == Some(o));
}

/// Two children of one node head disjoint subtrees.
pub proof fn lemma_sibling_apart(
    m: NodeMap,
    d: Map<RenderNodeId, nat>,
    a: RenderNodeId,
    o: RenderNodeId,
    x: RenderNodeId,
)
    requires
        forest_wf(m, d),
        m.dom().contains(x),
        m.dom().contains(a),
        m.dom().contains(o),
        m[a].parent is Some,
        m[a].parent == m[o].parent,
        a != o,
        in_subtree(m, x, a),
    ensures
        !in_subtree(m, x, o),
{
    if in_subtree(m, x, o) {
        let i = choose|i: nat| ancestor_at(m, x, i) == Some(a);
        let j = choose|j: nat| ancestor_at(m, x, j) == Some(o);
        crate::scene_spec::lemma_ancestor_depth(m, d, x, i, a);
        crate::scene_spec::lemma_ancestor_depth(m, d, x, j, o);
        assert(parent_link_ok(m, d, a));
        assert(parent_link_ok(m, d, o));
    }
}

/// Under linked contents with an overlay, the contents, the scroll
/// transform and the children group lie outside the overlay's subtree, and
/// the overlay is a child of the contents.
pub proof fn lemma_off_overlay(s: RenderScene, b: HostRenderBinding, o: RenderNodeId)
    requires
        s.wf(),
        contents_linked(&s, b),
        b.overlay == Some(o),
    ensures
        s@.dom().contains(o),
        s@[o].parent == Some(b.contents),
        !in_subtree(s@, b.contents, o),
        b.scroll_transform matches Some(st) ==> !in_subtree(s@, st, o) && s@[st].parent == Some(b.contents),
        b.children matches Some(c) ==> !in_subtree(s@, c, o) && s@[c].parent is Some,
{
    s.lemma_depth_forest();
    lemma_contents_depths(s, b);
    let m = s@;
    let d = s.spec_depth();
    let k = b.contents;
    let cs = m[k].spec_children();
    crate::writer::lemma_not_under_child(m, d, o, k);
    assert(crate::scene_spec::child_links_ok(m, k));
    if let Some(x) = scroll_or_children(b) {
        assert(cs.len() == 3);
        assert(cs[1] == x && cs[2] == o);
        assert(m.dom().contains(x) && m[x].parent == Some(k));
        assert(x != o);
        assert(ancestor_at(m, x, 0) == Some(x));
        lemma_sibling_apart(m, d, x, o, x);
        if let Some(st) = b.scroll_transform {
            let c = b.children.unwrap();
            assert(crate::scene_spec::child_links_ok(m, st));
            assert(m[st].spec_children()[0] == c);
            assert(m[c].parent == Some(st));
            assert(ancestor_at(m, c, 1) == Some(st));
            lemma_sibling_apart(m, d, st, o, c);
        }
    }
}

/// Moving the children group and the scroll transform leaves the overlay's
/// subtree as it was: from `s0` to `s2` the old nodes other than those two
/// keep their parents, the new nodes are the new children group or scroll
/// transform, and a scroll transform no longer in use is left detached.
pub proof fn lemma_overlay_stable(
    s0: RenderScene,
    s2: RenderScene,
    b0: HostRenderBinding,
    b2: HostRenderBinding,
    o: RenderNodeId,
    x: RenderNodeId,
)
    requires
        s0.wf(),
        s2.wf(),
        contents_linked(&s0, b0),
        contents_linked(&s2, b2),
        b0.overlay == Some(o),
        b2.overlay == Some(o),
        forall|y: RenderNodeId|
            #[trigger] s0@.dom().contains(y) && Some(y) != b0.children && Some(y) != b0.scroll_transform
                ==> s2@.dom().contains(y) && s2@[y].parent == s0@[y].parent,
        forall|y: RenderNodeId|
            #[trigger] s2@.dom().contains(y) ==> s0@.dom().contains(y) || Some(y) == b2.children || Some(y)
                == b2.scroll_transform,
        b0.children matches Some(c) ==> b2.children == Some(c),
        b0.scroll_transform matches Some(st) ==> b2.scroll_transform == Some(st) || s2@[st].parent is None,
        s0@.dom().contains(x),
    ensures
        in_subtree(s0@, x, o) <==> in_subtree(s2@, x, o),
{
    s0.lemma_depth_forest();
    s2.lemma_depth_forest();
    lemma_off_overlay(s0, b0, o);
    lemma_off_overlay(s2, b2, o);
    assert(ancestor_at(s0@, o, 0) == Some(o));
    if in_subtree(s0@, x, o) {
        assert forall|y: RenderNodeId|
            #[trigger] in_subtree(s0@, y, o) && y != o && s0@.dom().contains(y) implies s2@[y].parent
                == s0@[y].parent by {}
        lemma_subtree_carries(s0@, s0.spec_depth(), s2@, x, o);
    }
    if in_subtree(s2@, x, o) {
        if let Some(st) = b0.scroll_transform {
            if x == st && b2.scroll_transform != Some(st) {
                lemma_parentless_below(s2@, st, o);
            }
        }
        assert(s2@.dom().contains(x));
        assert forall|y: RenderNodeId|
            #[trigger] in_subtree(s2@, y, o) && y != o && s2@.dom().contains(y) implies s0@[y].parent
                == s2@[y].parent by {
            if let Some(st) = b0.scroll_transform {
                if y == st && b2.scroll_transform != Some(st) {
                    lemma_parentless_below(s2@, st, o);
                }
            }
        }
        lemma_subtree_carries(s2@, s2.spec_depth(), s0@, x, o);
    }
}

/// Dropping a detached scroll transform `rs` and then the subtree of an
/// overlay `ro` detached from `m2` to `m3`: a node of `m3` stays exactly
/// when it is not `rs` and was not under `ro` in `m2`, and it stays as it
/// was in `m3`.
pub proof fn lemma_removals(
    m2: NodeMap,
    d2: Map<RenderNodeId, nat>,
    m3: NodeMap,
    d3: Map<RenderNodeId, nat>,
    m4: NodeMap,
    d4: Map<RenderNodeId, nat>,
    m5: NodeMap,
    rs: Option<RenderNodeId>,
    ro: Option<RenderNodeId>,
)
    requires
        forest_wf(m2, d2),
        forest_wf(m3, d3),
        forest_wf(m4, d4),
        ro matches Some(o) ==> {
            &&& m3.dom() == m2.dom()
            &&& parents_kept(m2, m3, set![o])
            &&& m3.dom().contains(o)
            &&& m3[o].parent is None
            &&& forall|x: RenderNodeId| #[trigger] in_subtree(m2, x, o) && m2.dom().contains(x)
                ==> in_subtree(m3, x, o)
        },
        rs matches Some(st) ==> m3.dom().contains(st) && m3[st].parent is None && ro != Some(st),
        m4 == match rs {
            Some(st) => m3.remove(st),
            None => m3,
        },
        m5 == match ro {
            Some(o) => m4.remove_keys(subtree_of(m4, o)),
            None => m4,
        },
    ensures
        forall|y: RenderNodeId|
            #[trigger] m3.dom().contains(y) ==> (m5.dom().contains(y) <==> rs != Some(y) && !(ro matches Some(
                o,
            ) && in_subtree(m2, y, o))),
        forall|y: RenderNodeId| #[trigger] m5.dom().contains(y) ==> m3.dom().contains(y) && m5[y] == m3[y],
{
    assert forall|y: RenderNodeId| #[trigger] m3.dom().contains(y) implies (m5.dom().contains(y) <==> rs != Some(
        y,
    ) && !(ro matches Some(o) && in_subtree(m2, y, o))) by {
        if rs != Some(y) {
            assert(m4.dom().contains(y) && m4[y] == m3[y]);
            if let Some(o) = ro {
                if in_subtree(m4, y, o) {
                    assert forall|z: RenderNodeId|
                        #[trigger] in_subtree(m4, z, o) && z != o && m4.dom().contains(z) implies m3[z].parent
                            == m4[z].parent by {}
                    lemma_subtree_carries(m4, d4, m3, y, o);
                    assert forall|z: RenderNodeId|
                        #[trigger] in_subtree(m3, z, o) && z != o && m3.dom().contains(z) implies m2[z].parent
                            == m3[z].parent by {
                        assert(m2.dom().contains(z) && !set![o].contains(z));
                    }
                    lemma_subtree_carries(m3, d3, m2, y, o);
                }
                if in_subtree(m2, y, o) {
                    assert(m2.dom().contains(y));
                    assert forall|z: RenderNodeId|
                        #[trigger] in_subtree(m3, z, o) && z != o && m3.dom().contains(z) implies m4[z].parent
                            == m3[z].parent by {
                        if rs == Some(z) {
                            lemma_parentless_below(m3, z, o);
                        }
                    }
                    lemma_subtree_carries(m3, d3, m4, y, o);
                    assert(subtree_of(m4, o).contains(y));
                }
            }
        }
    }
}

/// How the transient slots of a binding follow the host: a children group
/// once the host has children, kept from then on; a scroll transform while
/// the host scrolls and has a children group; a scrollbar overlay while the
/// host shows scrollbars. A slot that stays wanted keeps its node.
pub open spec fn transients_follow(
    b0: HostRenderBinding,
    b: HostRenderBinding,
    has_children: bool,
    needs_scroll: bool,
    needs_overlay: bool,
) -> bool {
    &&& b == (HostRenderBinding {
        children: b.children,
        scroll_transform: b.scroll_transform,
        overlay: b.overlay,
        ..b0
    })
    &&& (b.children is Some <==> b0.children is Some || has_children)
    &&& (b0.children is Some ==> b.children == b0.children)
    &&& (b.scroll_transform is Some <==> needs_scroll && b.children is Some)
    &&& (needs_scroll && b0.scroll_transform is Some ==> b.scroll_transform == b0.scroll_transform)
    &&& (b.overlay is Some <==> needs_overlay)
    &&& (needs_overlay && b0.overlay is Some ==> b.overlay == b0.overlay)
}

/// The transient nodes that `b` holds and `b0` did not.
pub open spec fn gained(b0: HostRenderBinding, b: HostRenderBinding) -> Set<RenderNodeId> {
    Set::new(
        |x: RenderNodeId|
            (b.children == Some(x) && b0.children != Some(x)) || (b.scroll_transform == Some(x)
                && b0.scroll_transform != Some(x)) || (b.overlay == Some(x) && b0.overlay != Some(x)),
    )
}

/// Whether `x` goes with a transient node that is no longer wanted: the
/// scroll transform itself, or anything in the overlay's subtree.
pub open spec fn dropped(
    m: NodeMap,
    b0: HostRenderBinding,
    needs_scroll: bool,
    needs_overlay: bool,
    x: RenderNodeId,
) -> bool {
    ||| (!needs_scroll && b0.scroll_transform == Some(x))
    ||| (!needs_overlay && (b0.overlay matches Some(o) && in_subtree(m, x, o)))
}

/// Brings a host's transient nodes in line with what it needs: creates the
/// children group once it has children, puts in or takes out the scroll
/// transform and the scrollbar overlay, removes from the scene the nodes
/// taken out only after the binding has let go of them, drops the frame
/// properties of a removed scroll transform, and gives the scroll transform
/// in use the transform `scroll`.
#[verifier::rlimit(60)]
pub fn sync_transient_nodes(
    scene: &mut RenderScene,
    props: &mut FrameProperties,
    binding: &mut HostRenderBinding,
    has_children: bool,
    needs_scroll: bool,
    needs_overlay: bool,
    scroll: u64,
) -> (r: Result<(), SceneError>)
    requires
        old(scene).wf(),
        old(scene).spec_len() < 0xffff_fffa,
        contents_linked(old(scene), *old(binding)),
        old(scene)@[old(scene).spec_root()].parent is None,
        old(props).wf(),
    ensures
        final(scene).wf(),
        final(scene).spec_root() == old(scene).spec_root(),
        r is Ok,
        contents_linked(final(scene), *final(binding)),
        final(scene)@[final(scene).spec_root()].parent is None,
        transients_follow(*old(binding), *final(binding), has_children, needs_scroll, needs_overlay),
        forall|x: RenderNodeId| #[trigger]
            gained(*old(binding), *final(binding)).contains(x) ==> !old(scene)@.dom().contains(x),
        forall|x: RenderNodeId| #[trigger]
            final(scene)@.dom().contains(x) <==> (old(scene)@.dom().contains(x) && !dropped(
                old(scene)@,
                *old(binding),
                needs_scroll,
                needs_overlay,
                x,
            )) || gained(*old(binding), *final(binding)).contains(x),
        forall|y: RenderNodeId|
            #[trigger] final(scene)@.dom().contains(y) && old(scene)@.dom().contains(y) && Some(y) != old(
                binding,
            ).children && Some(y) != old(binding).scroll_transform && Some(y) != old(binding).overlay
                ==> final(scene)@[y].parent == old(scene)@[y].parent,
        forall|y: RenderNodeId|
            #[trigger] final(scene)@.dom().contains(y) && old(scene)@.dom().contains(y) && y != old(
                binding,
            ).contents && Some(y) != old(binding).scroll_transform ==> final(scene)@[y].kind == old(
                scene,
            )@[y].kind,
        wrappers_linked(old(scene), *old(binding)) ==> wrappers_linked(final(scene), *final(binding)),
        host_linked(old(scene), *old(binding)) ==> host_linked(final(scene), *final(binding)),
        final(props).wf(),
        final(props).spec_acknowledged() == old(props).spec_acknowledged(),
        match final(binding).scroll_transform {
            Some(st) => {
                &&& final(props).spec_transforms().dom().contains(st)
                &&& final(props).spec_transforms()[st].value == scroll
                &&& final(props).spec_transforms().remove(st) == old(props).spec_transforms().remove(st)
                &&& final(props).spec_composites() == old(props).spec_composites()
            },
            None => {
                &&& final(props).spec_transforms() == old(props).spec_transforms().remove_keys(
                    opt_set(old(binding).scroll_transform),
                )
                &&& final(props).spec_composites() == old(props).spec_composites().remove_keys(
                    opt_set(old(binding).scroll_transform),
                )
            },
        },
{
    let ghost s0 = *scene;
    let ghost b0 = *binding;
    let ghost p0 = *props;
    proof {
        s0.lemma_depth_forest();
        lemma_contents_depths(s0, b0);
    }
    ensure_children_group(scene, binding, has_children)?;
    let ghost s1 = *scene;
    let ghost b1 = *binding;
    let removed_scroll = sync_scroll(scene, binding, needs_scroll)?;
    let ghost s2 = *scene;
    let ghost b2 = *binding;
    if let Some(st) = removed_scroll {
        props.remove_source(st);
    }
    let ghost p1 = *props;
    let removed_overlay = sync_overlay(scene, binding, needs_overlay)?;
    let ghost s3 = *scene;
    proof {
        s2.lemma_depth_forest();
        if let Some(o) = b2.overlay {
            lemma_off_overlay(s2, b2, o);
        }
        if let Some(st) = removed_scroll {
            assert(s2@[b2.contents].spec_children().len() > 0);
            assert(s3@[st].spec_children() == s2@[st].spec_children());
        }
    }
    if let Some(st) = removed_scroll {
        drop_leaf(scene, st)?;
    }
    let ghost s4 = *scene;
    if let Some(o) = removed_overlay {
        drop_tree(scene, o)?;
    }
    let ghost s5 = *scene;
    if let Some(st) = binding.scroll_transform {
        props.set_transform(st, scroll);
    }
    proof {
        let b3 = *binding;
        let rs = removed_scroll;
        let ro = removed_overlay;
        s3.lemma_depth_forest();
        s4.lemma_depth_forest();
        lemma_removals(
            s2@,
            s2.spec_depth(),
            s3@,
            s3.spec_depth(),
            s4@,
            s4.spec_depth(),
            s5@,
            rs,
            ro,
        );
        // the old nodes other than the old children group and scroll
        // transform keep their parents up to `s2`
        assert forall|y: RenderNodeId|
            #[trigger] s0@.dom().contains(y) && Some(y) != b0.children && Some(y) != b0.scroll_transform
                implies s2@.dom().contains(y) && s2@[y].parent == s0@[y].parent by {
            assert(s1@.dom().contains(y) && s1@[y].parent == s0@[y].parent);
            assert(!(opt_set(b1.children) + opt_set(b1.scroll_transform)).contains(y));
        }
        assert forall|x: RenderNodeId| #[trigger] s3@.dom().contains(x) <==> s0@.dom().contains(x) || gained(
            b0,
            b3,
        ).contains(x) by {}
        assert forall|x: RenderNodeId| #[trigger] gained(b0, b3).contains(x) implies !s0@.dom().contains(x) by {}
        assert forall|y: RenderNodeId|
            #[trigger] s2@.dom().contains(y) implies s0@.dom().contains(y) || Some(y) == b2.children || Some(y)
                == b2.scroll_transform by {}
        assert forall|x: RenderNodeId| #[trigger]
            s5@.dom().contains(x) <==> (s0@.dom().contains(x) && !dropped(s0@, b0, needs_scroll, needs_overlay, x))
                || gained(b0, b3).contains(x) by {
            if let Some(o) = ro {
                if s0@.dom().contains(x) {
                    lemma_overlay_stable(s0, s2, b0, b2, o, x);
                }
            }
        }
        assert(s5@.dom().contains(s0.spec_root())) by {
            if let Some(o) = ro {
                if in_subtree(s0@, s0.spec_root(), o) {
                    lemma_parentless_below(s0@, s0.spec_root(), o);
                }
            }
        }
        assert(s5@.dom().contains(b0.contents)) by {
            if let Some(o) = ro {
                lemma_off_overlay(s0, b0, o);
            }
        }
        if let Some(st) = b3.scroll_transform {
            assert(s5@.dom().contains(st)) by {
                if let Some(o) = ro {
                    lemma_off_overlay(s0, b0, o);
                }
            }
        }
        if let Some(c) = b3.children {
            assert(s5@.dom().contains(c)) by {
                if let Some(o) = ro {
                    lemma_off_overlay(s0, b0, o);
                }
            }
        }
        if let Some(o3) = b3.overlay {
            assert(s5@.dom().contains(o3));
        }
        assert(contents_linked(&s5, b3));
        assert forall|y: RenderNodeId|
            #[trigger] s5@.dom().contains(y) && s0@.dom().contains(y) && Some(y) != b0.children && Some(y)
                != b0.scroll_transform && Some(y) != b0.overlay implies s5@[y].parent == s0@[y].parent by {
            assert(!opt_set(b2.overlay).contains(y));
        }
        assert forall|y: RenderNodeId|
            #[trigger] s5@.dom().contains(y) && s0@.dom().contains(y) && y != b0.contents && Some(y)
                != b0.scroll_transform implies s5@[y].kind == s0@[y].kind by {}
        if wrappers_linked(&s0, b0) {
            lemma_transients_keep_wrappers(s0, b0, s5, b3, needs_scroll, needs_overlay);
        }
        if host_linked(&s0, b0) {
            lemma_transients_keep_root(s0, b0, s5, b3, needs_scroll, needs_overlay);
        }
        if let Some(st) = b3.scroll_transform {
            assert(props.spec_transforms().remove(st) =~= p0.spec_transforms().remove(st));
        } else {
            assert(props.spec_transforms() =~= p0.spec_transforms().remove_keys(opt_set(b0.scroll_transform)));
            assert(props.spec_composites() =~= p0.spec_composites().remove_keys(opt_set(b0.scroll_transform)));
        }
    }
    Ok(())
}

/// Builds the fixed nodes of a new host: a root transform over the style
/// transform over the contents group, which holds the paint group. The
/// scaffold of the root host hangs last below the scene's root; when that
/// node is no group the scaffold stays detached and its error is returned.
/// Nothing else in the scene changes kind or parent.
pub fn create_host_render_binding(scene: &mut RenderScene, is_root_host: bool) -> (r: Result<
    HostRenderBinding,
    SceneError,
>)
    requires
        old(scene).wf(),
        old(scene).spec_len() < 0xffff_fffa,
        old(scene)@.dom().contains(old(scene).spec_root()),
    ensures
        final(scene).wf(),
        final(scene).spec_root() == old(scene).spec_root(),
        r is Err <==> is_root_host && crate::scene_spec::group_error(old(scene)@, old(scene).spec_root()) is Some,
        r matches Err(e) ==> crate::scene_spec::group_error(old(scene)@, old(scene).spec_root()) == Some(e),
        r matches Ok(b) ==> {
            let m0 = old(scene)@;
            let m = final(scene)@;
            let sr = old(scene).spec_root();
            &&& b == (HostRenderBinding {
                root: b.root,
                transform: b.transform,
                contents: b.contents,
                paint: b.paint,
                children: None,
                overlay: None,
                scroll_transform: None,
                clip: None,
                layer: None,
                host_layout_epoch: 0,
                host_paint_epoch: 0,
                host_composite_epoch: 0,
            })
            &&& !m0.dom().contains(b.root) && !m0.dom().contains(b.transform)
            &&& !m0.dom().contains(b.contents) && !m0.dom().contains(b.paint)
            &&& b.root != b.transform && b.root != b.contents && b.root != b.paint
            &&& b.transform != b.contents && b.transform != b.paint && b.contents != b.paint
            &&& m.dom() == m0.dom().insert(b.root).insert(b.transform).insert(b.contents).insert(b.paint)
            &&& m[b.root].kind == RenderNodeKind::Transform(
                TransformNode { transform: identity_transform(), child: Some(b.transform) },
            )
            &&& m[b.root].parent == if is_root_host { Some(sr) } else { None }
            &&& m[b.transform].kind == RenderNodeKind::Transform(
                TransformNode { transform: identity_transform(), child: Some(b.contents) },
            )
            &&& m[b.transform].parent == Some(b.root)
            &&& m[b.contents].kind is Group
            &&& m[b.contents].spec_children() == seq![b.paint]
            &&& m[b.contents].parent == Some(b.transform)
            &&& m[b.paint].kind is Group
            &&& m[b.paint].spec_children().len() == 0
            &&& m[b.paint].parent == Some(b.contents)
            &&& wrappers_linked(final(scene), b)
            &&& contents_linked(final(scene), b)
            &&& (m0[sr].parent is None ==> host_linked(final(scene), b))
            &&& is_root_host ==> m[sr].spec_children() == m0[sr].spec_children().push(b.root)
                && m[sr].kind is Group && m[sr].parent == m0[sr].parent
            &&& forall|x: RenderNodeId|
                #[trigger] m0.dom().contains(x) && !(is_root_host && x == sr) ==> m[x].kind == m0[x].kind
                    && m[x].parent == m0[x].parent
        },
{
    let ghost s0 = *scene;
    let ghost sr = scene.spec_root();
    proof {
        s0.lemma_depth_forest();
    }
    let root = scene.insert_transform(0);
    let ghost sa = *scene;
    proof {
        sa.lemma_depth_forest();
    }
    let transform = scene.insert_transform(0);
    let ghost sb = *scene;
    proof {
        sb.lemma_depth_forest();
    }
    let contents = scene.insert_group();
    let ghost sc = *scene;
    proof {
        sc.lemma_depth_forest();
    }
    let paint = scene.insert_group();
    let ghost s1 = *scene;
    proof {
        assert(sa@.dom().contains(root) && sb@.dom().contains(root) && sb@.dom().contains(transform));
        assert(sc@.dom().contains(contents) && sc@.dom().contains(root) && sc@.dom().contains(transform));
        assert(s1@[contents] == sc@[contents]);
        assert(s1@[transform] == sc@[transform] && sc@[transform] == sb@[transform]);
        assert(s1@[root] == sc@[root] && sc@[root] == sb@[root] && sb@[root] == sa@[root]);
        assert forall|x: RenderNodeId| #[trigger] s0@.dom().contains(x) implies s1@.dom().contains(x) && s1@[x]
            == s0@[x] by {
            assert(sa@[x] == s0@[x] && sa@.dom().contains(x));
            assert(sb@[x] == sa@[x] && sb@.dom().contains(x));
            assert(sc@[x] == sb@[x] && sc@.dom().contains(x));
        }
        if in_subtree(scene@, contents, paint) {
            lemma_parentless_below(scene@, contents, paint);
        }
    }
    append(scene, contents, paint)?;
    let ghost s2 = *scene;
    proof {
        assert(s1@.dom().contains(transform) && s1@.dom().contains(root));
        assert(!set![contents, paint].contains(transform));
        assert(!set![contents, paint].contains(root));
        assert(s2@[transform].parent == s1@[transform].parent && s2@[transform].kind == s1@[transform].kind);
        assert(s2@[root].parent == s1@[root].parent && s2@[root].kind == s1@[root].kind);
        if in_subtree(scene@, transform, contents) {
            lemma_parentless_below(scene@, transform, contents);
        }
    }
    link(scene, transform, contents)?;
    let ghost s3 = *scene;
    proof {
        assert(!set![transform, contents].contains(root));
        assert(s3@[root].parent == s2@[root].parent && s3@[root].kind == s2@[root].kind);
        if in_subtree(scene@, root, transform) {
            lemma_parentless_below(scene@, root, transform);
        }
    }
    link(scene, root, transform)?;
    let ghost s4 = *scene;
    let binding = HostRenderBinding::scaffold(root, transform, contents, paint, None, None, None);
    proof {
        assert(!set![transform, contents].contains(paint));
        assert(!set![root, transform].contains(paint));
        assert(!set![root, transform].contains(contents));
        assert(s3@[contents].kind == s2@[contents].kind);
        assert(s3@.dom().contains(contents) && s3@.dom().contains(paint));
        assert(scene@[contents].kind == s3@[contents].kind && scene@[contents].parent == s3@[contents].parent);
        assert(scene@[paint].kind == s3@[paint].kind && scene@[paint].parent == s3@[paint].parent);
        assert(s3@[paint].kind == s2@[paint].kind && s3@[paint].parent == s2@[paint].parent);
        assert forall|x: RenderNodeId| #[trigger] s0@.dom().contains(x) implies scene@[x].kind == s0@[x].kind
            && scene@[x].parent == s0@[x].parent by {
            assert(!set![contents, paint].contains(x));
            assert(!set![transform, contents].contains(x));
            assert(!set![root, transform].contains(x));
        }
        assert(seq![paint] + opt_seq(scroll_or_children(binding)) + opt_seq(binding.overlay) =~= seq![paint]);
        assert(s2@[contents].spec_children() =~= seq![paint]);
    }
    if is_root_host {
        let scene_root = scene.root();
        let ghost m4 = scene@;
        proof {
            s0.lemma_depth_forest();
            if in_subtree(m4, sr, root) {
                let n = choose|n: nat| ancestor_at(m4, sr, n) == Some(root);
                assert forall|j: nat|
                    #![trigger ancestor_at(s0@, sr, j)]
                    j < n && ancestor_at(s0@, sr, j) is Some implies m4[ancestor_at(s0@, sr, j).unwrap()].parent
                        == s0@[ancestor_at(s0@, sr, j).unwrap()].parent by {
                    crate::scene_spec::lemma_ancestor_depth(
                        s0@,
                        s0.spec_depth(),
                        sr,
                        j,
                        ancestor_at(s0@, sr, j).unwrap(),
                    );
                }
                lemma_chain_agree(s0@, m4, sr, n);
                crate::scene_spec::lemma_ancestor_depth(s0@, s0.spec_depth(), sr, n, root);
            }
        }
        let attached = scene.append_child(scene_root, root);
        match attached {
            Err(e) => {
                return Err(e);
            },
            Ok(()) => {},
        }
        proof {
            let ups = map![root => Some(sr)];
            lemma_edit_shape(&s4, scene, sr, m4[sr].spec_children().push(root), ups);
            assert(ups.dom().contains(root));
            assert forall|x: RenderNodeId| #[trigger] s0@.dom().contains(x) && x != sr implies scene@[x].kind
                == s0@[x].kind && scene@[x].parent == s0@[x].parent by {
                assert(!ups.dom().contains(x));
            }
            assert(!ups.dom().contains(transform) && !ups.dom().contains(contents) && !ups.dom().contains(paint));
        }
    }
    proof {
        let m = scene@;
        let m0 = s0@;
        assert(m[root].kind == RenderNodeKind::Transform(
                TransformNode { transform: identity_transform(), child: Some(transform) }));
        assert(m[transform].kind == RenderNodeKind::Transform(
                TransformNode { transform: identity_transform(), child: Some(contents) }));
        assert(m[contents].spec_children() == seq![paint]);
        assert(m[paint].spec_children().len() == 0);
        assert(m.dom() == m0.dom().insert(root).insert(transform).insert(contents).insert(paint));
        assert(wrappers_linked(scene, binding));
        assert(contents_linked(scene, binding));
    }
    Ok(binding)
}

/// The single child of a node with one is that node's child, one level
/// deeper.
pub proof fn lemma_slot_child_depth(m: NodeMap, d: Map<RenderNodeId, nat>, x: RenderNodeId, y: RenderNodeId)
    requires
        forest_wf(m, d),
        m.dom().contains(x),
        single_child_of(m[x]) == Some(y),
    ensures
        m.dom().contains(y),
        m[y].parent == Some(x),
        d[y] == d[x] + 1,
{
    assert(crate::scene_spec::child_links_ok(m, x));
    assert(m[x].spec_children()[0] == y);
    assert(parent_link_ok(m, d, y));
}

/// The wrappers of a linked binding lie above its contents.
pub proof fn lemma_wrapper_depths(s: RenderScene, b: HostRenderBinding)
    requires
        s.wf(),
        wrappers_linked(&s, b),
    ensures
        s.spec_depth()[b.transform] < s.spec_depth()[b.contents],
        b.clip matches Some(c) ==> s.spec_depth()[c] < s.spec_depth()[b.contents],
        b.layer matches Some(l) ==> s.spec_depth()[l] < s.spec_depth()[b.contents],
{
    s.lemma_depth_forest();
    let m = s@;
    let d = s.spec_depth();
    lemma_slot_child_depth(m, d, b.transform, chain_start(b.clip, b.layer, b.contents));
    if let Some(c) = b.clip {
        lemma_slot_child_depth(m, d, c, below_clip(b.layer, b.contents));
    }
    if let Some(l) = b.layer {
        lemma_slot_child_depth(m, d, l, b.contents);
    }
}

/// In a binding whose wrappers and contents are both linked, the children
/// group, the scroll transform and the overlay are none of the style
/// transform, the contents, the clip or the layer.
pub proof fn lemma_transients_apart(s: RenderScene, b: HostRenderBinding)
    requires
        s.wf(),
        wrappers_linked(&s, b),
        contents_linked(&s, b),
    ensures
        forall|x: RenderNodeId|
            Some(x) == b.children || Some(x) == b.scroll_transform || Some(x) == b.overlay ==> x
                != b.transform && x != b.contents && Some(x) != b.clip && Some(x) != b.layer,
{
    lemma_contents_depths(s, b);
    lemma_wrapper_depths(s, b);
}

/// The transient-node update keeps linked wrappers linked: the wrappers lie
/// above the contents, so none is under the overlay, and none is the scroll
/// transform, so they all stay as they were.
proof fn lemma_transients_keep_wrappers(
    s0: RenderScene,
    b0: HostRenderBinding,
    s: RenderScene,
    b: HostRenderBinding,
    needs_scroll: bool,
    needs_overlay: bool,
)
    requires
        s0.wf(),
        wrappers_linked(&s0, b0),
        contents_linked(&s0, b0),
        s.spec_root() == s0.spec_root(),
        s@.dom().contains(s.spec_root()),
        b.transform == b0.transform,
        b.contents == b0.contents,
        b.clip == b0.clip,
        b.layer == b0.layer,
        forall|x: RenderNodeId|
            #[trigger] s@.dom().contains(x) <==> (s0@.dom().contains(x) && !dropped(
                s0@,
                b0,
                needs_scroll,
                needs_overlay,
                x,
            )) || gained(b0, b).contains(x),
        forall|y: RenderNodeId|
            #[trigger] s@.dom().contains(y) && s0@.dom().contains(y) && y != b0.contents && Some(y)
                != b0.scroll_transform ==> s@[y].kind == s0@[y].kind,
    ensures
        wrappers_linked(&s, b),
{
    s0.lemma_depth_forest();
    lemma_transients_apart(s0, b0);
    lemma_wrapper_depths(s0, b0);
    lemma_contents_depths(s0, b0);
    let m0 = s0@;
    let d = s0.spec_depth();
    if let Some(o) = b0.overlay {
        let t = b0.transform;
        if in_subtree(m0, t, o) {
            let n = choose|n: nat| ancestor_at(m0, t, n) == Some(o);
            crate::scene_spec::lemma_ancestor_depth(m0, d, t, n, o);
        }
        if let Some(c) = b0.clip {
            if in_subtree(m0, c, o) {
                let n = choose|n: nat| ancestor_at(m0, c, n) == Some(o);
                crate::scene_spec::lemma_ancestor_depth(m0, d, c, n, o);
            }
        }
        if let Some(l) = b0.layer {
            if in_subtree(m0, l, o) {
                let n = choose|n: nat| ancestor_at(m0, l, n) == Some(o);
                crate::scene_spec::lemma_ancestor_depth(m0, d, l, n, o);
            }
        }
    }
    assert(s@.dom().contains(b0.transform));
    assert(s@.dom().contains(b0.contents)) by {
        if let Some(o) = b0.overlay {
            lemma_off_overlay(s0, b0, o);
        }
    }
    if let Some(c) = b0.clip {
        assert(s@.dom().contains(c));
    }
    if let Some(l) = b0.layer {
        assert(s@.dom().contains(l));
    }
}

/// The wrapper update leaves a detached scene root detached: the root is
/// none of the wrappers and, having no parent, not the contents either.
proof fn lemma_wrappers_keep_root(s0: RenderScene, b0: HostRenderBinding, s: RenderScene)
    requires
        s0.wf(),
        wrappers_linked(&s0, b0),
        s0@[s0.spec_root()].parent is None,
        s.spec_root() == s0.spec_root(),
        forall|x: RenderNodeId|
            #[trigger] s0@.dom().contains(x) && x != b0.transform && x != b0.contents && Some(x) != b0.clip
                && Some(x) != b0.layer ==> s@[x].kind == s0@[x].kind && s@[x].parent == s0@[x].parent,
        s@[b0.transform].parent == s0@[b0.transform].parent,
    ensures
        s@[s.spec_root()].parent is None,
{
    s0.lemma_depth_forest();
    lemma_wrapper_depths(s0, b0);
    assert(parent_link_ok(s0@, s0.spec_depth(), b0.contents));
}

/// A host's retained nodes are in place: its root transform holds the style
/// transform, the wrappers and the contents are linked, and the scene's root
/// is detached.
pub open spec fn host_linked(s: &RenderScene, b: HostRenderBinding) -> bool {
    &&& wrappers_linked(s, b)
    &&& contents_linked(s, b)
    &&& s@.dom().contains(b.root)
    &&& s@[b.root].kind is Transform
    &&& single_child_of(s@[b.root]) == Some(b.transform)
    &&& s@[s.spec_root()].parent is None
}

/// Gives the host's root transform `t` the transform `origin`, keeping its
/// child.
fn place_root(scene: &mut RenderScene, t: RenderNodeId, origin: u64) -> (r: Result<(), SceneError>)
    requires
        old(scene).wf(),
        old(scene)@.dom().contains(t),
        old(scene)@[t].kind is Transform,
    ensures
        final(scene).wf(),
        final(scene).spec_root() == old(scene).spec_root(),
        r is Ok,
        final(scene)@[t].kind == RenderNodeKind::Transform(
            TransformNode { transform: origin, ..old(scene)@[t].kind->Transform_0 },
        ),
        final(scene)@[t].parent == old(scene)@[t].parent,
        shape_kept(old(scene)@, final(scene)@, set![t]),
{
    let ghost s0 = *scene;
    let r = scene.update_transform(t, origin);
    proof {
        let cur = s0@[t].kind->Transform_0;
        if cur.transform != origin {
            lemma_edited_shape(
                &s0,
                scene,
                t,
                RenderNode { kind: RenderNodeKind::Transform(TransformNode { transform: origin, ..cur }), ..s0@[t] },
                2,
            );
        } else {
            assert(TransformNode { transform: origin, ..cur } == cur);
        }
    }
    match r {
        Ok(_) => Ok(()),
        Err(e) => Err(e),
    }
}

/// The host's root transform lies above its style transform, and so above
/// its wrappers and contents.
pub proof fn lemma_root_depth(s: RenderScene, b: HostRenderBinding)
    requires
        s.wf(),
        host_linked(&s, b),
    ensures
        s.spec_depth()[b.root] < s.spec_depth()[b.transform],
        s@[b.transform].parent == Some(b.root),
        s.spec_depth()[b.transform] < s.spec_depth()[b.contents],
        b.clip matches Some(c) ==> s.spec_depth()[b.root] < s.spec_depth()[c],
        b.layer matches Some(l) ==> s.spec_depth()[b.root] < s.spec_depth()[l],
        b.children matches Some(c) ==> s.spec_depth()[b.contents] < s.spec_depth()[c],
        b.scroll_transform matches Some(st) ==> s.spec_depth()[b.contents] < s.spec_depth()[st],
        b.overlay matches Some(o) ==> s.spec_depth()[b.contents] < s.spec_depth()[o],
        s.spec_depth()[b.contents] < s.spec_depth()[b.paint],
{
    s.lemma_depth_forest();
    assert(crate::scene_spec::child_links_ok(s@, b.contents));
    assert(s@[b.contents].spec_children()[0] == b.paint);
    assert(parent_link_ok(s@, s.spec_depth(), b.paint));
    lemma_slot_child_depth(s@, s.spec_depth(), b.root, b.transform);
    lemma_wrapper_depths(s, b);
    lemma_contents_depths(s, b);
    if let Some(c) = b.clip {
        lemma_slot_child_depth(s@, s.spec_depth(), b.transform, chain_start(b.clip, b.layer, b.contents));
    }
    if let Some(l) = b.layer {
        lemma_slot_child_depth(s@, s.spec_depth(), b.transform, chain_start(b.clip, b.layer, b.contents));
        if let Some(c) = b.clip {
            lemma_slot_child_depth(s@, s.spec_depth(), c, below_clip(b.layer, b.contents));
        }
    }
}

/// The nodes a binding refers to.
pub open spec fn binding_nodes(b: HostRenderBinding) -> Set<RenderNodeId> {
    set![b.root, b.transform, b.contents, b.paint] + opt_set(b.children) + opt_set(b.overlay) + opt_set(
        b.scroll_transform,
    ) + opt_set(b.clip) + opt_set(b.layer)
}

/// Brings a host's retained nodes in line with its layout, style and
/// children: moves its root transform to `origin`, updates its clip and
/// layer wrappers, its children group, scroll transform and scrollbar
/// overlay (with the scroll transform's frame property), and puts the root
/// nodes of its children, in order, into its children group.
pub fn sync_host_render_node(
    scene: &mut RenderScene,
    props: &mut FrameProperties,
    binding: &mut HostRenderBinding,
    origin: u64,
    clip_shape: Option<u64>,
    layer_descriptor: Option<LayerDescriptor>,
    needs_scroll: bool,
    needs_overlay: bool,
    scroll: u64,
    child_roots: &Vec<RenderNodeId>,
) -> (r: Result<(), SceneError>)
    requires
        old(scene).wf(),
        old(scene).spec_len() < 0xffff_fff0,
        host_linked(old(scene), *old(binding)),
        old(props).wf(),
        child_roots@.no_duplicates(),
        forall|i: int|
            0 <= i < child_roots@.len() ==> {
                let c = #[trigger] child_roots@[i];
                &&& old(scene)@.dom().contains(c)
                &&& c != old(scene).spec_root()
                &&& !binding_nodes(*old(binding)).contains(c)
                &&& !in_subtree(old(scene)@, old(binding).root, c)
                &&& (!needs_overlay && old(binding).overlay is Some ==> !in_subtree(
                    old(scene)@,
                    c,
                    old(binding).overlay.unwrap(),
                ))
            },
    ensures
        final(scene).wf(),
        final(scene).spec_root() == old(scene).spec_root(),
        r is Ok,
        host_linked(final(scene), *final(binding)),
        final(binding).children matches Some(g) ==> final(scene)@[g].spec_children() == child_roots@,
        forall|i: int|
            0 <= i < child_roots@.len() ==> final(scene)@[#[trigger] child_roots@[i]].parent
                == final(binding).children,
        final(scene)@[old(binding).root].kind == RenderNodeKind::Transform(
            TransformNode { transform: origin, child: Some(old(binding).transform) },
        ),
        final(binding).clip is Some == clip_shape is Some,
        final(binding).layer is Some == layer_descriptor is Some,
        old(binding).clip is Some && clip_shape is Some ==> final(binding).clip == old(binding).clip,
        old(binding).layer is Some && layer_descriptor is Some ==> final(binding).layer == old(binding).layer,
        old(binding).clip is None && final(binding).clip is Some ==> !old(scene)@.dom().contains(
            final(binding).clip.unwrap(),
        ),
        old(binding).layer is None && final(binding).layer is Some ==> !old(scene)@.dom().contains(
            final(binding).layer.unwrap(),
        ),
        final(binding).clip matches Some(c) ==> final(scene)@[c].kind->Clip_0.clip == clip_shape.unwrap(),
        final(binding).layer matches Some(l) ==> final(scene)@[l].kind->Layer_0.descriptor
            == layer_descriptor.unwrap(),
        transients_follow(
            HostRenderBinding { clip: final(binding).clip, layer: final(binding).layer, ..*old(binding) },
            *final(binding),
            child_roots@.len() > 0,
            needs_scroll,
            needs_overlay,
        ),
        forall|x: RenderNodeId| #[trigger]
            gained(*old(binding), *final(binding)).contains(x) ==> !old(scene)@.dom().contains(x) || (
            clip_shape is None && old(binding).clip == Some(x)) || (layer_descriptor is None && old(
                binding,
            ).layer == Some(x)),
        final(props).wf(),
        final(props).spec_acknowledged() == old(props).spec_acknowledged(),
        match final(binding).scroll_transform {
            Some(st) => {
                &&& final(props).spec_transforms().dom().contains(st)
                &&& final(props).spec_transforms()[st].value == scroll
                &&& final(props).spec_transforms().remove(st) == old(props).spec_transforms().remove(st)
                &&& final(props).spec_composites() == old(props).spec_composites()
            },
            None => {
                &&& final(props).spec_transforms() == old(props).spec_transforms().remove_keys(
                    opt_set(old(binding).scroll_transform),
                )
                &&& final(props).spec_composites() == old(props).spec_composites().remove_keys(
                    opt_set(old(binding).scroll_transform),
                )
            },
        },
{
    let ghost s0 = *scene;
    let ghost b0 = *binding;
    sync_host_nodes(
        scene,
        props,
        binding,
        origin,
        clip_shape,
        layer_descriptor,
        needs_scroll,
        needs_overlay,
        scroll,
        child_roots.len() > 0,
    )?;
    let ghost s3 = *scene;
    if let Some(group) = binding.children {
        proof {
            assert forall|i: int| 0 <= i < child_roots@.len() implies s3@.dom().contains(#[trigger] child_roots@[i])
                && !in_subtree(s3@, group, child_roots@[i]) && !binding_nodes(*binding).contains(child_roots@[i])
                && child_roots@[i] != s3.spec_root() by {
                let c = child_roots@[i];
                assert(s0@.dom().contains(c) && !binding_nodes(b0).contains(c));
                lemma_root_not_above(s0, s3, b0, *binding, group, c);
            }
        }
        place_children(scene, binding, group, child_roots)?;
        proof {
            assert(on_host_chain(*binding, binding.root));
            if let Some(c) = binding.clip {
                assert(on_host_chain(*binding, c));
            }
            if let Some(l) = binding.layer {
                assert(on_host_chain(*binding, l));
            }
        }
    }
    Ok(())
}

/// The part of a host's update before its children are placed: moves its
/// root transform to `origin`, updates its wrappers and its transient nodes.
/// Nodes that are none of the binding's keep their parents, and those of
/// the old scene that do not go with a dropped overlay stay.
#[verifier::rlimit(60)]
fn sync_host_nodes(
    scene: &mut RenderScene,
    props: &mut FrameProperties,
    binding: &mut HostRenderBinding,
    origin: u64,
    clip_shape: Option<u64>,
    layer_descriptor: Option<LayerDescriptor>,
    needs_scroll: bool,
    needs_overlay: bool,
    scroll: u64,
    has_children: bool,
) -> (r: Result<(), SceneError>)
    requires
        old(scene).wf(),
        old(scene).spec_len() < 0xffff_fff0,
        host_linked(old(scene), *old(binding)),
        old(props).wf(),
    ensures
        final(scene).wf(),
        final(scene).spec_root() == old(scene).spec_root(),
        r is Ok,
        host_linked(final(scene), *final(binding)),
        final(scene)@[old(binding).root].kind == RenderNodeKind::Transform(
            TransformNode { transform: origin, child: Some(old(binding).transform) },
        ),
        final(binding).clip is Some == clip_shape is Some,
        final(binding).layer is Some == layer_descriptor is Some,
        old(binding).clip is Some && clip_shape is Some ==> final(binding).clip == old(binding).clip,
        old(binding).layer is Some && layer_descriptor is Some ==> final(binding).layer == old(binding).layer,
        old(binding).clip is None && final(binding).clip is Some ==> !old(scene)@.dom().contains(
            final(binding).clip.unwrap(),
        ),
        old(binding).layer is None && final(binding).layer is Some ==> !old(scene)@.dom().contains(
            final(binding).layer.unwrap(),
        ),
        final(binding).clip matches Some(c) ==> final(scene)@[c].kind->Clip_0.clip == clip_shape.unwrap(),
        final(binding).layer matches Some(l) ==> final(scene)@[l].kind->Layer_0.descriptor
            == layer_descriptor.unwrap(),
        transients_follow(
            HostRenderBinding { clip: final(binding).clip, layer: final(binding).layer, ..*old(binding) },
            *final(binding),
            has_children,
            needs_scroll,
            needs_overlay,
        ),
        forall|x: RenderNodeId| #[trigger]
            gained(*old(binding), *final(binding)).contains(x) ==> !old(scene)@.dom().contains(x) || (
            clip_shape is None && old(binding).clip == Some(x)) || (layer_descriptor is None && old(
                binding,
            ).layer == Some(x)),
        forall|y: RenderNodeId|
            #[trigger] final(scene)@.dom().contains(y) && (y == final(binding).root || !binding_nodes(
                *final(binding),
            ).contains(y)) ==> old(scene)@.dom().contains(y) && final(scene)@[y].parent == old(
                scene,
            )@[y].parent,
        forall|x: RenderNodeId|
            #[trigger] old(scene)@.dom().contains(x) && !binding_nodes(*old(binding)).contains(x) && !(
            !needs_overlay && old(binding).overlay is Some && in_subtree(
                old(scene)@,
                x,
                old(binding).overlay.unwrap(),
            )) ==> final(scene)@.dom().contains(x) && !binding_nodes(*final(binding)).contains(x),
        final(props).wf(),
        final(props).spec_acknowledged() == old(props).spec_acknowledged(),
        match final(binding).scroll_transform {
            Some(st) => {
                &&& final(props).spec_transforms().dom().contains(st)
                &&& final(props).spec_transforms()[st].value == scroll
                &&& final(props).spec_transforms().remove(st) == old(props).spec_transforms().remove(st)
                &&& final(props).spec_composites() == old(props).spec_composites()
            },
            None => {
                &&& final(props).spec_transforms() == old(props).spec_transforms().remove_keys(
                    opt_set(old(binding).scroll_transform),
                )
                &&& final(props).spec_composites() == old(props).spec_composites().remove_keys(
                    opt_set(old(binding).scroll_transform),
                )
            },
        },
{
    let ghost s0 = *scene;
    let ghost b0 = *binding;
    proof {
        s0.lemma_depth_forest();
        lemma_root_depth(s0, b0);
        lemma_transients_apart(s0, b0);
        lemma_contents_depths(s0, b0);
    }
    place_root(scene, binding.root, origin)?;
    let ghost s1 = *scene;
    proof {
        assert(s1@[b0.root].parent == s0@[b0.root].parent);
        assert(!set![b0.root].contains(b0.transform) && !set![b0.root].contains(b0.contents));
        if let Some(c) = b0.clip {
            assert(!set![b0.root].contains(c));
        }
        if let Some(l) = b0.layer {
            assert(!set![b0.root].contains(l));
        }
        if let Some(c) = b0.children {
            assert(!set![b0.root].contains(c));
        }
        if let Some(st) = b0.scroll_transform {
            assert(!set![b0.root].contains(st));
        }
        if let Some(o) = b0.overlay {
            assert(!set![b0.root].contains(o));
        }
        if s0.spec_root() != b0.root {
            assert(!set![b0.root].contains(s0.spec_root()));
        }
        assert(wrappers_linked(&s1, b0));
        assert(contents_linked(&s1, b0));
        assert(host_linked(&s1, b0));
        assert(s1.spec_len() == s0.spec_len());
    }
    update_wrappers(scene, binding, clip_shape, layer_descriptor)?;
    let ghost s2 = *scene;
    let ghost b2 = *binding;
    proof {
        s1.lemma_depth_forest();
        lemma_root_depth(s1, b0);
        let grown = s1@.dom() + opt_set(b2.clip) + opt_set(b2.layer);
        assert(s2@.dom().subset_of(grown));
        vstd::set_lib::lemma_len_subset(s2@.dom(), grown);
        vstd::set_lib::lemma_len_union(s1@.dom(), opt_set(b2.clip));
        vstd::set_lib::lemma_len_union(s1@.dom() + opt_set(b2.clip), opt_set(b2.layer));
        assert(opt_set(b2.clip).len() <= 1 && opt_set(b2.layer).len() <= 1);
        assert(s2@.dom().contains(b0.root));
        assert(s2@[b0.root].kind == s1@[b0.root].kind);
        assert(host_linked(&s2, b2));
    }
    sync_transient_nodes(scene, props, binding, has_children, needs_scroll, needs_overlay, scroll)?;
    let ghost s3 = *scene;
    proof {
        s2.lemma_depth_forest();
        lemma_root_depth(s2, b2);
        assert(s3@.dom().contains(b0.root)) by {
            if let Some(o) = b2.overlay {
                if in_subtree(s2@, b0.root, o) {
                    let n = choose|n: nat| ancestor_at(s2@, b0.root, n) == Some(o);
                    crate::scene_spec::lemma_ancestor_depth(s2@, s2.spec_depth(), b0.root, n, o);
                }
            }
        }
        assert(host_linked(scene, *binding));
        assert forall|x: RenderNodeId| #[trigger] gained(b0, *binding).contains(x) implies !s0@.dom().contains(
            x,
        ) || (clip_shape is None && b0.clip == Some(x)) || (layer_descriptor is None && b0.layer == Some(x)) by {
            assert(gained(b2, *binding).contains(x));
            if s0@.dom().contains(x) {
                assert(s1@.dom().contains(x));
            }
        }
    }
    proof {
        assert(wrappers_step(s1@, s2@, b0, b2, clip_shape, layer_descriptor));
        assert(transients_step(s2@, s3@, b2, *binding, has_children, needs_scroll, needs_overlay));
        lemma_step_frame(
            s0,
            s1,
            s2,
            s3,
            b0,
            b2,
            *binding,
            clip_shape,
            layer_descriptor,
            has_children,
            needs_scroll,
            needs_overlay,
        );
    }
    Ok(())
}

/// Puts the child roots, in order, into the host's children group `g`.
fn place_children(
    scene: &mut RenderScene,
    binding: &HostRenderBinding,
    g: RenderNodeId,
    child_roots: &Vec<RenderNodeId>,
) -> (r: Result<(), SceneError>)
    requires
        old(scene).wf(),
        host_linked(old(scene), *binding),
        binding.children == Some(g),
        child_roots@.no_duplicates(),
        forall|i: int|
            0 <= i < child_roots@.len() ==> old(scene)@.dom().contains(#[trigger] child_roots@[i]) && !in_subtree(
                old(scene)@,
                g,
                child_roots@[i],
            ) && !binding_nodes(*binding).contains(child_roots@[i]) && child_roots@[i] != old(scene).spec_root(),
    ensures
        final(scene).wf(),
        final(scene).spec_root() == old(scene).spec_root(),
        r is Ok,
        host_linked(final(scene), *binding),
        final(scene)@[g].spec_children() == child_roots@,
        forall|i: int| 0 <= i < child_roots@.len() ==> final(scene)@[#[trigger] child_roots@[i]].parent == Some(g),
        forall|x: RenderNodeId| #[trigger] on_host_chain(*binding, x) && x != g ==> final(scene)@[x].kind == old(
            scene,
        )@[x].kind,
{
    let ghost s3 = *scene;
    proof {
        lemma_contents_depths(s3, *binding);
    }
    reconcile_children(scene, g, child_roots)?;
    proof {
        lemma_reconciled_linked(s3, *scene, *binding, g, child_roots@);
        assert forall|i: int| 0 <= i < child_roots@.len() implies scene@[#[trigger] child_roots@[i]].parent
            == Some(g) by {
            assert(child_roots@.contains(child_roots@[i]));
        }
    }
    Ok(())
}

/// `x` is on the chain from a host's children group up to its root
/// transform.
pub open spec fn on_host_chain(b: HostRenderBinding, x: RenderNodeId) -> bool {
    ||| x == b.root
    ||| x == b.transform
    ||| Some(x) == b.clip
    ||| Some(x) == b.layer
    ||| x == b.contents
    ||| Some(x) == b.scroll_transform
    ||| Some(x) == b.children
}

/// The parent links of a linked host's chain: children group, scroll
/// transform, contents, layer, clip, style transform, root transform.
pub proof fn lemma_chain_parents(s: RenderScene, b: HostRenderBinding)
    requires
        s.wf(),
        host_linked(&s, b),
    ensures
        s@[b.transform].parent == Some(b.root),
        b.clip matches Some(c) ==> s@[c].parent == Some(b.transform),
        b.layer matches Some(l) ==> s@[l].parent == Some(
            match b.clip {
                Some(c) => c,
                None => b.transform,
            },
        ),
        s@[b.contents].parent == Some(
            match b.layer {
                Some(l) => l,
                None => match b.clip {
                    Some(c) => c,
                    None => b.transform,
                },
            },
        ),
        b.scroll_transform matches Some(st) ==> s@[st].parent == Some(b.contents),
        b.children matches Some(g) ==> s@[g].parent == Some(
            match b.scroll_transform {
                Some(st) => st,
                None => b.contents,
            },
        ),
{
    s.lemma_depth_forest();
    let m = s@;
    let d = s.spec_depth();
    lemma_slot_child_depth(m, d, b.root, b.transform);
    lemma_slot_child_depth(m, d, b.transform, chain_start(b.clip, b.layer, b.contents));
    if let Some(c) = b.clip {
        lemma_slot_child_depth(m, d, c, below_clip(b.layer, b.contents));
    }
    if let Some(l) = b.layer {
        lemma_slot_child_depth(m, d, l, b.contents);
    }
    lemma_contents_depths(s, b);
    if let Some(g) = b.children {
        match b.scroll_transform {
            Some(st) => {
                lemma_slot_child_depth(m, d, st, g);
            },
            None => {
                assert(crate::scene_spec::child_links_ok(m, b.contents));
                assert(m[b.contents].spec_children()[1] == g);
            },
        }
    }
}

/// Going up from a node of a linked host's chain one meets only nodes of
/// the binding until the root transform, and then its ancestors.
pub proof fn lemma_up_the_chain(s: RenderScene, b: HostRenderBinding, x: RenderNodeId, n: nat, r: RenderNodeId)
    requires
        s.wf(),
        host_linked(&s, b),
        on_host_chain(b, x),
        ancestor_at(s@, x, n) == Some(r),
    ensures
        binding_nodes(b).contains(r) || in_subtree(s@, b.root, r),
    decreases n,
{
    if n == 0 {
        assert(r == x);
    } else if x == b.root {
    } else {
        lemma_chain_parents(s, b);
        let p = s@[x].parent.unwrap();
        assert(on_host_chain(b, p));
        crate::scene_spec::lemma_ancestor_step(s@, x, (n - 1) as nat);
        lemma_up_the_chain(s, b, p, (n - 1) as nat, r);
    }
}

/// What the wrapper update does to the node map, as far as the nodes
/// around a host's chain go.
spec fn wrappers_step(
    s1: NodeMap,
    s2: NodeMap,
    b0: HostRenderBinding,
    b2: HostRenderBinding,
    clip_shape: Option<u64>,
    layer_descriptor: Option<LayerDescriptor>,
) -> bool {
    &&& b2 == (HostRenderBinding { clip: b2.clip, layer: b2.layer, ..b0 })
    &&& (b2.clip is Some == clip_shape is Some)
    &&& (b2.layer is Some == layer_descriptor is Some)
    &&& (b0.clip is Some && clip_shape is Some ==> b2.clip == b0.clip)
    &&& (b0.layer is Some && layer_descriptor is Some ==> b2.layer == b0.layer)
    &&& (b0.clip is None && b2.clip is Some ==> !s1.dom().contains(b2.clip.unwrap()))
    &&& (b0.layer is None && b2.layer is Some ==> !s1.dom().contains(b2.layer.unwrap()))
    &&& s2.dom() == s1.dom().difference(
        opt_set(if clip_shape is None { b0.clip } else { None }) + opt_set(
            if layer_descriptor is None { b0.layer } else { None },
        ),
    ) + opt_set(b2.clip) + opt_set(b2.layer)
    &&& forall|x: RenderNodeId|
        #[trigger] s1.dom().contains(x) && x != b0.transform && x != b0.contents && Some(x) != b0.clip
            && Some(x) != b0.layer ==> s2[x].parent == s1[x].parent
}

/// What the transient-node update does to the node map, as far as the
/// nodes around a host's chain go.
spec fn transients_step(
    s2: NodeMap,
    s3: NodeMap,
    b2: HostRenderBinding,
    b3: HostRenderBinding,
    has_children: bool,
    needs_scroll: bool,
    needs_overlay: bool,
) -> bool {
    &&& transients_follow(b2, b3, has_children, needs_scroll, needs_overlay)
    &&& forall|x: RenderNodeId| #[trigger] gained(b2, b3).contains(x) ==> !s2.dom().contains(x)
    &&& forall|x: RenderNodeId| #[trigger]
        s3.dom().contains(x) <==> (s2.dom().contains(x) && !dropped(s2, b2, needs_scroll, needs_overlay, x))
            || gained(b2, b3).contains(x)
    &&& forall|y: RenderNodeId|
        #[trigger] s3.dom().contains(y) && s2.dom().contains(y) && Some(y) != b2.children && Some(y)
            != b2.scroll_transform && Some(y) != b2.overlay ==> s3[y].parent == s2[y].parent
}

/// Outside the host's root transform, style transform, contents and
/// wrappers, a node after the wrapper update was there before with the same
/// parent.
proof fn lemma_wrappers_frame(
    s0: NodeMap,
    s1: NodeMap,
    s2: NodeMap,
    b0: HostRenderBinding,
    b2: HostRenderBinding,
    clip_shape: Option<u64>,
    layer_descriptor: Option<LayerDescriptor>,
    y: RenderNodeId,
)
    requires
        shape_kept(s0, s1, set![b0.root]),
        s1[b0.root].parent == s0[b0.root].parent,
        wrappers_step(s1, s2, b0, b2, clip_shape, layer_descriptor),
        s2.dom().contains(y),
        y != b0.transform,
        y != b0.contents,
        Some(y) != b2.clip,
        Some(y) != b2.layer,
    ensures
        s0.dom().contains(y),
        s1.dom().contains(y),
        s2[y].parent == s0[y].parent,
{
    assert(s1.dom().contains(y));
    if y != b0.root {
        assert(!set![b0.root].contains(y));
    }
}

/// Above a host's root transform the update changes no parent: a node of
/// the final map that is the root transform or none of the final binding's
/// nodes was there at first with the same parent.
proof fn lemma_outside_kept(
    s0: NodeMap,
    s1: NodeMap,
    s2: NodeMap,
    s3: NodeMap,
    b0: HostRenderBinding,
    b2: HostRenderBinding,
    b3: HostRenderBinding,
    clip_shape: Option<u64>,
    layer_descriptor: Option<LayerDescriptor>,
    has_children: bool,
    needs_scroll: bool,
    needs_overlay: bool,
    y: RenderNodeId,
)
    requires
        shape_kept(s0, s1, set![b0.root]),
        s1[b0.root].parent == s0[b0.root].parent,
        wrappers_step(s1, s2, b0, b2, clip_shape, layer_descriptor),
        transients_step(s2, s3, b2, b3, has_children, needs_scroll, needs_overlay),
        s3.dom().contains(y),
        y == b3.root || !binding_nodes(b3).contains(y),
        b3.children != Some(b3.root),
        b3.scroll_transform != Some(b3.root),
        b3.overlay != Some(b3.root),
        b3.clip != Some(b3.root),
        b3.layer != Some(b3.root),
        b3.root != b3.transform,
        b3.root != b3.contents,
    ensures
        s0.dom().contains(y),
        s3[y].parent == s0[y].parent,
{
    assert(!gained(b2, b3).contains(y));
    assert(s2.dom().contains(y));
    if let Some(o) = b2.overlay {
        assert(ancestor_at(s2, o, 0) == Some(o));
    }
    assert(s3[y].parent == s2[y].parent);
    lemma_wrappers_frame(s0, s1, s2, b0, b2, clip_shape, layer_descriptor, y);
}

/// What the three steps of a host's update keep: every node that is the
/// root transform or none of the final binding's nodes was there before
/// with the same parent, and every old node that is none of the old
/// binding's nodes and does not go with a dropped overlay is still there,
/// still none of the binding's nodes.
proof fn lemma_step_frame(
    s0: RenderScene,
    s1: RenderScene,
    s2: RenderScene,
    s3: RenderScene,
    b0: HostRenderBinding,
    b2: HostRenderBinding,
    b3: HostRenderBinding,
    clip_shape: Option<u64>,
    layer_descriptor: Option<LayerDescriptor>,
    has_children: bool,
    needs_scroll: bool,
    needs_overlay: bool,
)
    requires
        s0.wf(),
        s2.wf(),
        s3.wf(),
        host_linked(&s2, b2),
        host_linked(&s3, b3),
        shape_kept(s0@, s1@, set![b0.root]),
        s1@[b0.root].parent == s0@[b0.root].parent,
        wrappers_step(s1@, s2@, b0, b2, clip_shape, layer_descriptor),
        transients_step(s2@, s3@, b2, b3, has_children, needs_scroll, needs_overlay),
    ensures
        forall|y: RenderNodeId|
            #[trigger] s3@.dom().contains(y) && (y == b3.root || !binding_nodes(b3).contains(y)) ==> s0@.dom().contains(
                y,
            ) && s3@[y].parent == s0@[y].parent,
        forall|x: RenderNodeId|
            #[trigger] s0@.dom().contains(x) && !binding_nodes(b0).contains(x) && !(!needs_overlay
                && b0.overlay is Some && in_subtree(s0@, x, b0.overlay.unwrap())) ==> s3@.dom().contains(x)
                && !binding_nodes(b3).contains(x),
{
    s2.lemma_depth_forest();
    s3.lemma_depth_forest();
    lemma_root_depth(s2, b2);
    lemma_root_depth(s3, b3);
    let d2 = s2.spec_depth();
    assert forall|y: RenderNodeId|
        #[trigger] s3@.dom().contains(y) && (y == b3.root || !binding_nodes(b3).contains(y)) implies s0@.dom().contains(
            y,
        ) && s3@[y].parent == s0@[y].parent by {
        lemma_outside_kept(
            s0@,
            s1@,
            s2@,
            s3@,
            b0,
            b2,
            b3,
            clip_shape,
            layer_descriptor,
            has_children,
            needs_scroll,
            needs_overlay,
            y,
        );
    }
    assert forall|r: RenderNodeId|
        #[trigger] s0@.dom().contains(r) && !binding_nodes(b0).contains(r) && !(!needs_overlay && b0.overlay is Some
            && in_subtree(s0@, r, b0.overlay.unwrap())) implies s3@.dom().contains(r) && !binding_nodes(
            b3,
        ).contains(r) by {
        assert(s1@.dom().contains(r));
        assert(s2@.dom().contains(r));
        if !needs_overlay {
            if let Some(o) = b2.overlay {
                if in_subtree(s2@, r, o) {
                    lemma_off_overlay(s2, b2, o);
                    assert forall|y: RenderNodeId|
                        #[trigger] in_subtree(s2@, y, o) && y != o && s2@.dom().contains(y) implies s0@[y].parent
                            == s2@[y].parent by {
                        let k = choose|k: nat| ancestor_at(s2@, y, k) == Some(o);
                        crate::scene_spec::lemma_ancestor_depth(s2@, d2, y, k, o);
                        lemma_wrappers_frame(s0@, s1@, s2@, b0, b2, clip_shape, layer_descriptor, y);
                    }
                    lemma_subtree_carries(s2@, d2, s0@, r, o);
                }
            }
        }
        assert(s3@.dom().contains(r));
        assert(b3.root == b0.root && b3.transform == b0.transform && b3.contents == b0.contents);
        assert(b3.paint == b0.paint && b3.clip == b2.clip && b3.layer == b2.layer);
        if let Some(c) = b3.children {
            if b2.children != Some(c) {
                assert(gained(b2, b3).contains(c));
            }
        }
        if let Some(st) = b3.scroll_transform {
            if b2.scroll_transform != Some(st) {
                assert(gained(b2, b3).contains(st));
            }
        }
        if let Some(o) = b3.overlay {
            if b2.overlay != Some(o) {
                assert(gained(b2, b3).contains(o));
            }
        }
    }
}

/// A node that is none of a linked host's nodes, that was not above the
/// host's root transform, and whose ancestors of the root transform kept
/// their parents, is not above the children group.
proof fn lemma_root_not_above(
    s0: RenderScene,
    s3: RenderScene,
    b0: HostRenderBinding,
    b3: HostRenderBinding,
    g: RenderNodeId,
    r: RenderNodeId,
)
    requires
        s3.wf(),
        host_linked(&s3, b3),
        b3.children == Some(g),
        b3.root == b0.root,
        forall|y: RenderNodeId|
            #[trigger] s3@.dom().contains(y) && (y == b3.root || !binding_nodes(b3).contains(y)) ==> s0@.dom().contains(
                y,
            ) && s3@[y].parent == s0@[y].parent,
        !binding_nodes(b3).contains(r),
        !in_subtree(s0@, b0.root, r),
    ensures
        !in_subtree(s3@, g, r),
{
    s3.lemma_depth_forest();
    lemma_root_depth(s3, b3);
    let d3 = s3.spec_depth();
    if in_subtree(s3@, g, r) {
        let n = choose|n: nat| ancestor_at(s3@, g, n) == Some(r);
        lemma_up_the_chain(s3, b3, g, n, r);
        let k = choose|k: nat| ancestor_at(s3@, b3.root, k) == Some(r);
        assert forall|j: nat|
            #![trigger ancestor_at(s3@, b3.root, j)]
            j < k && ancestor_at(s3@, b3.root, j) is Some implies s0@[ancestor_at(s3@, b3.root, j).unwrap()].parent
                == s3@[ancestor_at(s3@, b3.root, j).unwrap()].parent by {
            let y = ancestor_at(s3@, b3.root, j).unwrap();
            crate::scene_spec::lemma_ancestor_depth(s3@, d3, b3.root, j, y);
            if j == 0 {
                assert(y == b3.root);
            }
        }
        lemma_chain_agree(s3@, s0@, b3.root, k);
        assert(ancestor_at(s0@, b0.root, k) == Some(r));
    }
}

/// Putting child roots that are none of the host's nodes, nor the scene's
/// root, into the children group keeps the host linked.
proof fn lemma_reconciled_linked(
    s3: RenderScene,
    s4: RenderScene,
    b: HostRenderBinding,
    g: RenderNodeId,
    roots: Seq<RenderNodeId>,
)
    requires
        s3.wf(),
        s4.wf(),
        host_linked(&s3, b),
        b.children == Some(g),
        s4.spec_root() == s3.spec_root(),
        s4@.dom() == s3@.dom(),
        s4@[g].kind is Group,
        forall|i: int| 0 <= i < roots.len() ==> !binding_nodes(b).contains(#[trigger] roots[i]) && roots[i]
            != s3.spec_root() && s3@.dom().contains(roots[i]),
        forall|x: RenderNodeId|
            #[trigger] s3@.dom().contains(x) ==> s4@[x].parent == if roots.contains(x) {
                Some(g)
            } else if s3@[g].spec_children().contains(x) {
                None::<RenderNodeId>
            } else {
                s3@[x].parent
            },
        forall|x: RenderNodeId|
            #[trigger] s3@.dom().contains(x) && x != g ==> same_payload(s3@[x].kind, s4@[x].kind),
        forall|x: RenderNodeId|
            #[trigger] s3@.dom().contains(x) && x != g && (forall|i: int|
                0 <= i < roots.len() ==> s3@[roots[i]].parent != Some(x)) ==> s4@[x].kind == s3@[x].kind,
    ensures
        host_linked(&s4, b),
        forall|x: RenderNodeId| #[trigger] on_host_chain(b, x) && x != g ==> s4@[x].kind == s3@[x].kind,
{
    s3.lemma_depth_forest();
    let m = s3@;
    let d = s3.spec_depth();
    lemma_root_depth(s3, b);
    lemma_chain_parents(s3, b);
    lemma_contents_depths(s3, b);
    assert forall|x: RenderNodeId, i: int|
        #![trigger on_host_chain(b, x), roots[i]]
        on_host_chain(b, x) && x != g && 0 <= i < roots.len() implies m[roots[i]].parent != Some(x) by {
        let r = roots[i];
        if m[r].parent == Some(x) {
            assert(m.dom().contains(r));
            assert(parent_link_ok(m, d, r));
            assert(crate::scene_spec::child_links_ok(m, x));
            let cs = m[x].spec_children();
            let k = cs.index_of(r);
            assert(cs[k] == r);
            if x == b.contents {
                assert(cs == seq![b.paint] + opt_seq(scroll_or_children(b)) + opt_seq(b.overlay));
            } else {
                assert(single_slot(m[x].kind));
                lemma_single_children(m[x].kind, single_child_of(m[x]));
            }
        }
    }
    assert(s4@[s4.spec_root()].parent is None) by {
        if m[g].spec_children().contains(s3.spec_root()) {
            let k = m[g].spec_children().index_of(s3.spec_root());
            assert(crate::scene_spec::child_links_ok(m, g));
        }
    }
}

/// The wrapper update keeps a linked host linked: the root transform lies
/// above the wrappers and the contents, so it keeps its kind and child.
proof fn lemma_wrappers_keep_host(s0: RenderScene, b0: HostRenderBinding, s: RenderScene, b: HostRenderBinding)
    requires
        s0.wf(),
        host_linked(&s0, b0),
        s.spec_root() == s0.spec_root(),
        wrappers_linked(&s, b),
        contents_linked(&s, b),
        s@[s.spec_root()].parent is None,
        b == (HostRenderBinding { clip: b.clip, layer: b.layer, ..b0 }),
        forall|x: RenderNodeId|
            #[trigger] s0@.dom().contains(x) && x != b0.transform && x != b0.contents && Some(x) != b0.clip
                && Some(x) != b0.layer ==> s@[x].kind == s0@[x].kind && s@[x].parent == s0@[x].parent,
        forall|x: RenderNodeId|
            #[trigger] s0@.dom().contains(x) && Some(x) != b0.clip && Some(x) != b0.layer ==> s@.dom().contains(x),
    ensures
        host_linked(&s, b),
{
    lemma_root_depth(s0, b0);
    assert(s@.dom().contains(b0.root));
    assert(s@[b0.root].kind == s0@[b0.root].kind);
}

/// The transient-node update keeps the root transform of a linked host: it
/// lies above the contents, so it neither is the scroll transform nor goes
/// with the overlay.
proof fn lemma_transients_keep_root(
    s0: RenderScene,
    b0: HostRenderBinding,
    s: RenderScene,
    b: HostRenderBinding,
    needs_scroll: bool,
    needs_overlay: bool,
)
    requires
        s0.wf(),
        host_linked(&s0, b0),
        forall|x: RenderNodeId|
            #[trigger] s@.dom().contains(x) <==> (s0@.dom().contains(x) && !dropped(
                s0@,
                b0,
                needs_scroll,
                needs_overlay,
                x,
            )) || gained(b0, b).contains(x),
        forall|y: RenderNodeId|
            #[trigger] s@.dom().contains(y) && s0@.dom().contains(y) && y != b0.contents && Some(y)
                != b0.scroll_transform ==> s@[y].kind == s0@[y].kind,
    ensures
        s@.dom().contains(b0.root),
        s@[b0.root].kind == s0@[b0.root].kind,
{
    s0.lemma_depth_forest();
    lemma_root_depth(s0, b0);
    if let Some(o) = b0.overlay {
        if in_subtree(s0@, b0.root, o) {
            let n = choose|n: nat| ancestor_at(s0@, b0.root, n) == Some(o);
            crate::scene_spec::lemma_ancestor_depth(s0@, s0.spec_depth(), b0.root, n, o);
        }
    }
    assert(s@.dom().contains(b0.root));
}

} // verus!
