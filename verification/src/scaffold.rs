//! Ready-made node arrangements on top of the render scene: the binding of a
//! UI host to its retained nodes, the clip/transform/content chain of a
//! scroll view, and the cached layer of a page.

use vstd::prelude::*;

use crate::node_store::RenderNodeId;
use crate::scene::{
    CachePolicy, ClipNode, LayerDescriptor, LayerNode, RenderNodeKind, RenderScene, SceneError,
    TransformNode, BackdropIsolation, default_composite, no_effects, opt_seq,
};
use crate::scene_spec::{
    NodeMap, dirty_marked, in_subtree, lemma_subtree_parent, on_dirty_path, relinked,
    single_child_of, swap_updates, ancestor_at, lemma_ancestor_step,
};
use crate::dirty::RenderDirty;

verus! {

/// The retained nodes that render one UI host.
#[derive(Debug, Clone, Copy, PartialEq, Eq, Structural)]
pub struct HostRenderBinding {
    /// Layout-position transform and root of this host's retained subtree.
    pub root: RenderNodeId,
    /// Visual style transform, kept apart from layout so that frame
    /// properties can animate it without recompiling the retained scene.
    pub transform: RenderNodeId,
    pub contents: RenderNodeId,
    pub paint: RenderNodeId,
    pub children: Option<RenderNodeId>,
    pub overlay: Option<RenderNodeId>,
    pub scroll_transform: Option<RenderNodeId>,
    pub clip: Option<RenderNodeId>,
    pub layer: Option<RenderNodeId>,
    pub host_layout_epoch: u64,
    pub host_paint_epoch: u64,
    pub host_composite_epoch: u64,
}

/// A named reference when the node is present, nothing otherwise.
pub open spec fn named_if_some(name: &'static str, id: Option<RenderNodeId>) -> Seq<
    (&'static str, RenderNodeId),
> {
    match id {
        Some(x) => seq![(name, x)],
        None => Seq::empty(),
    }
}

/// Every node a binding refers to, each with the name of its role: the four
/// mandatory roles first, then the optional ones that are present.
pub open spec fn binding_references(b: HostRenderBinding) -> Seq<(&'static str, RenderNodeId)> {
    seq![("root", b.root), ("transform", b.transform), ("contents", b.contents), ("paint", b.paint)]
        + named_if_some("children", b.children) + named_if_some("overlay", b.overlay)
        + named_if_some("scroll_transform", b.scroll_transform) + named_if_some("clip", b.clip)
        + named_if_some("layer", b.layer)
}

impl HostRenderBinding {
    /// A binding with no clip or layer and all host epochs at zero.
    pub fn scaffold(
        root: RenderNodeId,
        transform: RenderNodeId,
        contents: RenderNodeId,
        paint: RenderNodeId,
        children: Option<RenderNodeId>,
        overlay: Option<RenderNodeId>,
        scroll_transform: Option<RenderNodeId>,
    ) -> (r: Self)
        ensures
            r == (HostRenderBinding {
                root,
                transform,
                contents,
                paint,
                children,
                overlay,
                scroll_transform,
                clip: None,
                layer: None,
                host_layout_epoch: 0,
                host_paint_epoch: 0,
                host_composite_epoch: 0,
            }),
    {
        HostRenderBinding {
            root,
            transform,
            contents,
            paint,
            children,
            overlay,
            scroll_transform,
            clip: None,
            layer: None,
            host_layout_epoch: 0,
            host_paint_epoch: 0,
            host_composite_epoch: 0,
        }
    }

    /// The nodes this binding refers to, each with its role's name.
    pub fn references(&self) -> (r: Vec<(&'static str, RenderNodeId)>)
        ensures
            r@ == binding_references(*self),
    {
        let mut values = vec![
            ("root", self.root),
            ("transform", self.transform),
            ("contents", self.contents),
            ("paint", self.paint),
        ];
        let ghost base = values@;
        proof {
            assert(base =~= seq![
                ("root", self.root),
                ("transform", self.transform),
                ("contents", self.contents),
                ("paint", self.paint),
            ]);
        }
        if let Some(id) = self.children {
            values.push(("children", id));
        }
        let ghost s1 = values@;
        proof {
            assert(s1 =~= base + named_if_some("children", self.children));
        }
        if let Some(id) = self.overlay {
            values.push(("overlay", id));
        }
        let ghost s2 = values@;
        proof {
            assert(s2 =~= s1 + named_if_some("overlay", self.overlay));
        }
        if let Some(id) = self.scroll_transform {
            values.push(("scroll_transform", id));
        }
        let ghost s3 = values@;
        proof {
            assert(s3 =~= s2 + named_if_some("scroll_transform", self.scroll_transform));
        }
        if let Some(id) = self.clip {
            values.push(("clip", id));
        }
        let ghost s4 = values@;
        proof {
            assert(s4 =~= s3 + named_if_some("clip", self.clip));
        }
        if let Some(id) = self.layer {
            values.push(("layer", id));
        }
        proof {
            assert(values@ =~= s4 + named_if_some("layer", self.layer));
        }
        values
    }
}

/// The nodes of a scroll view: a clip (the root) holding a scroll transform
/// holding the content group.
#[derive(Debug, Clone, Copy, PartialEq, Eq, Structural)]
pub struct ScrollRenderNodes {
    pub root: RenderNodeId,
    pub clip: RenderNodeId,
    pub transform: RenderNodeId,
    pub content: RenderNodeId,
}

/// The nodes of a page: a cached layer holding the content group.
#[derive(Debug, Clone, Copy, PartialEq, Eq, Structural)]
pub struct PageRenderNodes {
    pub layer: RenderNodeId,
    pub content: RenderNodeId,
}

/// The interned identity reserved for the identity transform.
pub open spec fn identity_transform() -> u64 {
    0
}

/// A single-child node kind with its child slot set to `c`.
pub open spec fn with_single_child(k: RenderNodeKind, c: Option<RenderNodeId>) -> RenderNodeKind {
    match k {
        RenderNodeKind::Transform(t) => RenderNodeKind::Transform(TransformNode { child: c, ..t }),
        RenderNodeKind::Clip(x) => RenderNodeKind::Clip(ClipNode { child: c, ..x }),
        RenderNodeKind::Layer(l) => RenderNodeKind::Layer(LayerNode { child: c, ..l }),
        _ => k,
    }
}

/// The descriptor of a page layer: always cached under `cache_key`, drawn
/// offscreen, clipped to `bounds`, otherwise default.
pub open spec fn page_descriptor(cache_key: u64, bounds: u64) -> LayerDescriptor {
    LayerDescriptor {
        bounds: Some(bounds),
        cache_key: Some(cache_key),
        cache_policy: CachePolicy::Always,
        composite: default_composite(),
        backdrop_style: None,
        backdrop_isolation: BackdropIsolation::Passthrough,
        effects: no_effects(),
        force_offscreen: true,
    }
}

/// Hanging `c` into the empty child slot of `p` changes `p`'s slot and `c`'s
/// parent link; every other node keeps its kind and parent, and is untouched
/// unless it lies on `p`'s dirty path.
pub(crate) proof fn lemma_single_link(
    m: NodeMap,
    w: NodeMap,
    p: RenderNodeId,
    c: RenderNodeId,
    d: RenderDirty,
    rev: u64,
)
    requires
        m.dom().contains(p),
        m.dom().contains(c),
        p != c,
        m[p].kind is Transform || m[p].kind is Clip || m[p].kind is Layer,
        single_child_of(m[p]) is None,
        relinked(m, w, p, opt_seq(Some(c)), swap_updates(None, Some(c), p)),
    ensures
        ({
            let m2 = dirty_marked(w, p, d, rev);
            &&& m2.dom() == m.dom()
            &&& m2[p].parent == m[p].parent
            &&& m2[p].kind == with_single_child(m[p].kind, Some(c))
            &&& m2[c].parent == Some(p)
            &&& m2[c].kind == m[c].kind
            &&& forall|x: RenderNodeId|
                #[trigger] m.dom().contains(x) && x != p && x != c ==> m2[x].kind == m[x].kind
                    && m2[x].parent == m[x].parent
            &&& forall|x: RenderNodeId|
                #[trigger] m.dom().contains(x) && x != p && x != c && !on_dirty_path(w, p, d, x)
                    ==> m2[x] == m[x]
        }),
{
    let m2 = dirty_marked(w, p, d, rev);
    let ups = swap_updates(None, Some(c), p);
    assert(ups.dom().contains(c) && ups[c] == Some(p));
    assert(w[p].spec_children() == seq![c]);
    match (m[p].kind, w[p].kind) {
        (RenderNodeKind::Transform(x), RenderNodeKind::Transform(y)) => {
            assert(opt_seq(y.child).len() == 1);
            assert(opt_seq(y.child)[0] == c);
            assert(y.child == Some(c));
            assert(y == TransformNode { child: Some(c), ..x });
        },
        (RenderNodeKind::Clip(x), RenderNodeKind::Clip(y)) => {
            assert(opt_seq(y.child).len() == 1);
            assert(opt_seq(y.child)[0] == c);
            assert(y.child == Some(c));
            assert(y == ClipNode { child: Some(c), ..x });
        },
        (RenderNodeKind::Layer(x), RenderNodeKind::Layer(y)) => {
            assert(opt_seq(y.child).len() == 1);
            assert(opt_seq(y.child)[0] == c);
            assert(y.child == Some(c));
            assert(y == LayerNode { child: Some(c), ..x });
        },
        _ => {},
    }
    assert forall|x: RenderNodeId| #[trigger] m.dom().contains(x) && x != p && x != c implies m2[x].kind
        == m[x].kind && m2[x].parent == m[x].parent by {
        assert(!ups.dom().contains(x));
    }
}

/// A parentless node has nothing on its dirty path.
pub(crate) proof fn lemma_parentless_path(m: NodeMap, p: RenderNodeId, d: RenderDirty)
    requires
        m[p].parent is None,
    ensures
        forall|x: RenderNodeId| !#[trigger] on_dirty_path(m, p, d, x),
{
    assert forall|x: RenderNodeId| !#[trigger] on_dirty_path(m, p, d, x) by {
        if on_dirty_path(m, p, d, x) {
            let k = choose|k: nat|
                #![trigger ancestor_at(m, p, k)]
                k >= 1 && ancestor_at(m, p, k) == Some(x) && forall|j: nat|
                    1 <= j <= k ==> !#[trigger] crate::scene_spec::propagation_blocked(m, p, j, d);
            lemma_ancestor_step(m, p, (k - 1) as nat);
        }
    }
}

/// The only node on the dirty path of a child of a parentless node is that parent.
proof fn lemma_one_up_path(m: NodeMap, p: RenderNodeId, q: RenderNodeId, d: RenderDirty)
    requires
        m[p].parent == Some(q),
        m[q].parent is None,
    ensures
        forall|x: RenderNodeId| #[trigger] on_dirty_path(m, p, d, x) ==> x == q,
{
    assert forall|x: RenderNodeId| #[trigger] on_dirty_path(m, p, d, x) implies x == q by {
        let k = choose|k: nat|
            #![trigger ancestor_at(m, p, k)]
            k >= 1 && ancestor_at(m, p, k) == Some(x) && forall|j: nat|
                1 <= j <= k ==> !#[trigger] crate::scene_spec::propagation_blocked(m, p, j, d);
        lemma_ancestor_step(m, p, (k - 1) as nat);
        if k >= 2 {
            lemma_ancestor_step(m, q, (k - 2) as nat);
        }
    }
}

/// Builds the nodes of a scroll view: a clip to `viewport` holding an
/// identity scroll transform holding an empty content group. Nothing else in
/// the scene changes but the dirty marks of the new nodes.
pub fn create_scroll_scene(scene: &mut RenderScene, viewport: u64) -> (r: Result<
    ScrollRenderNodes,
    SceneError,
>)
    requires
        old(scene).wf(),
        old(scene).spec_len() < 0xffff_fffb,
    ensures
        final(scene).wf(),
        final(scene).spec_root() == old(scene).spec_root(),
        r is Ok,
        ({
            let n = r.unwrap();
            let m = final(scene)@;
            &&& n.root == n.clip
            &&& !old(scene)@.dom().contains(n.clip)
            &&& !old(scene)@.dom().contains(n.transform)
            &&& !old(scene)@.dom().contains(n.content)
            &&& n.clip != n.transform && n.clip != n.content && n.transform != n.content
            &&& m.dom() == old(scene)@.dom().insert(n.clip).insert(n.transform).insert(n.content)
            &&& m[n.clip].parent is None
            &&& m[n.clip].kind == RenderNodeKind::Clip(
                ClipNode { clip: viewport, child: Some(n.transform) },
            )
            &&& m[n.transform].parent == Some(n.clip)
            &&& m[n.transform].kind == RenderNodeKind::Transform(
                TransformNode { transform: identity_transform(), child: Some(n.content) },
            )
            &&& m[n.content].parent == Some(n.transform)
            &&& m[n.content].kind is Group
            &&& m[n.content].spec_children().len() == 0
            &&& forall|x: RenderNodeId| #[trigger] old(scene)@.dom().contains(x) ==> m[x] == old(scene)@[x]
        }),
{
    let ghost m0 = scene@;
    proof {
        scene.lemma_wf_forest();
    }
    let clip = scene.insert_clip(viewport);
    proof {
        scene.lemma_wf_forest();
    }
    let transform = scene.insert_transform(0);
    proof {
        scene.lemma_wf_forest();
    }
    let content = scene.insert_group();
    let ghost m3 = scene@;
    proof {
        if in_subtree(m3, clip, transform) {
            lemma_subtree_parent(m3, clip, transform);
        }
    }
    scene.set_child(clip, Some(transform))?;
    let ghost m4 = scene@;
    let ghost rev4 = scene.spec_revision();
    proof {
        let ups = swap_updates(None, Some(transform), clip);
        let w = choose|w: NodeMap|
            relinked(m3, w, clip, opt_seq(Some(transform)), ups) && m4 == dirty_marked(
                w,
                clip,
                RenderDirty { bits: 1 },
                rev4,
            );
        lemma_single_link(m3, w, clip, transform, RenderDirty { bits: 1 }, rev4);
        assert(w[clip].parent is None);
        lemma_parentless_path(w, clip, RenderDirty { bits: 1 });
        if in_subtree(m4, transform, content) {
            lemma_subtree_parent(m4, transform, content);
            lemma_subtree_parent(m4, clip, content);
        }
    }
    scene.set_child(transform, Some(content))?;
    proof {
        let m5 = scene@;
        let rev5 = scene.spec_revision();
        let ups = swap_updates(None, Some(content), transform);
        let w = choose|w: NodeMap|
            relinked(m4, w, transform, opt_seq(Some(content)), ups) && m5 == dirty_marked(
                w,
                transform,
                RenderDirty { bits: 1 },
                rev5,
            );
        lemma_single_link(m4, w, transform, content, RenderDirty { bits: 1 }, rev5);
        assert(w[transform].parent == Some(clip));
        assert(w[clip].parent is None);
        lemma_one_up_path(w, transform, clip, RenderDirty { bits: 1 });
        assert(m5.dom() =~= m0.dom().insert(clip).insert(transform).insert(content));
        assert(m5[clip].parent is None);
        assert(m5[clip].kind == RenderNodeKind::Clip(ClipNode { clip: viewport, child: Some(transform) }));
        assert(m5[transform].parent == Some(clip));
        assert(m5[transform].kind == RenderNodeKind::Transform(
                TransformNode { transform: identity_transform(), child: Some(content) }));
        assert(m5[content].parent == Some(transform));
        assert(m5[content].kind is Group);
        assert(m5[content].spec_children().len() == 0);
        assert forall|x: RenderNodeId| #[trigger] m0.dom().contains(x) implies m5[x] == m0[x] by {
            assert(m4[x] == m3[x]);
            assert(m5[x] == m4[x]);
        }
    }
    Ok(ScrollRenderNodes { root: clip, clip, transform, content })
}

/// Builds the nodes of a page: a layer cached under `cache_key`, clipped to
/// `bounds` and drawn offscreen, holding an empty content group. Nothing else
/// in the scene changes but the dirty marks of the new nodes.
pub fn create_page_layer(scene: &mut RenderScene, cache_key: u64, bounds: u64) -> (r: Result<
    PageRenderNodes,
    SceneError,
>)
    requires
        old(scene).wf(),
        old(scene).spec_len() < 0xffff_fffc,
    ensures
        final(scene).wf(),
        final(scene).spec_root() == old(scene).spec_root(),
        r is Ok,
        ({
            let n = r.unwrap();
            let m = final(scene)@;
            &&& !old(scene)@.dom().contains(n.layer)
            &&& !old(scene)@.dom().contains(n.content)
            &&& n.layer != n.content
            &&& m.dom() == old(scene)@.dom().insert(n.layer).insert(n.content)
            &&& m[n.layer].parent is None
            &&& m[n.layer].kind == RenderNodeKind::Layer(
                LayerNode { descriptor: page_descriptor(cache_key, bounds), child: Some(n.content) },
            )
            &&& m[n.content].parent == Some(n.layer)
            &&& m[n.content].kind is Group
            &&& m[n.content].spec_children().len() == 0
            &&& forall|x: RenderNodeId| #[trigger] old(scene)@.dom().contains(x) ==> m[x] == old(scene)@[x]
        }),
{
    let ghost m0 = scene@;
    let defaults = LayerDescriptor::default();
    let descriptor = LayerDescriptor {
        bounds: Some(bounds),
        cache_key: Some(cache_key),
        cache_policy: CachePolicy::Always,
        force_offscreen: true,
        ..defaults
    };
    proof {
        scene.lemma_wf_forest();
    }
    let layer = scene.insert_layer(descriptor);
    proof {
        scene.lemma_wf_forest();
    }
    let content = scene.insert_group();
    let ghost m2 = scene@;
    proof {
        if in_subtree(m2, layer, content) {
            lemma_subtree_parent(m2, layer, content);
        }
    }
    scene.set_child(layer, Some(content))?;
    proof {
        let m3 = scene@;
        let rev3 = scene.spec_revision();
        let ups = swap_updates(None, Some(content), layer);
        let w = choose|w: NodeMap|
            relinked(m2, w, layer, opt_seq(Some(content)), ups) && m3 == dirty_marked(
                w,
                layer,
                RenderDirty { bits: 1 },
                rev3,
            );
        lemma_single_link(m2, w, layer, content, RenderDirty { bits: 1 }, rev3);
        assert(w[layer].parent is None);
        lemma_parentless_path(w, layer, RenderDirty { bits: 1 });
        assert(m3.dom() =~= m0.dom().insert(layer).insert(content));
    }
    Ok(PageRenderNodes { layer, content })
}

} // verus!
