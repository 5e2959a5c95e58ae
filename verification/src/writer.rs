//! Reconciling a widget's declarative render output into a retained scene
//! group. Compatible nodes are updated in place and keep their stable ids;
//! incompatible nodes are replaced and stale ones removed.

use vstd::prelude::*;

use crate::dirty::RenderDirty;
use crate::node_store::RenderNodeId;
use crate::scaffold::{lemma_parentless_path, lemma_single_link};
use crate::scene::{
    ClipNode, Primitive, PrimitiveNode, RenderNodeKind, RenderScene, SceneError, TransformNode,
};
use crate::scene_spec::{
    ancestor_at, dirty_marked, forest_wf, in_subtree, lemma_ancestor_depth, lemma_ancestor_step,
    lemma_index_of_unique, lemma_subtree_parent, child_links_ok, group_error, parent_link_ok,
    relinked, single_child_of, subtree_of, swap_updates, NodeMap,
};

verus! {

/// Two maps that give the same parent to each of the first `k` nodes on
/// `x`'s parent chain in `m` agree on `x`'s ancestor `k` levels up.
pub proof fn lemma_chain_agree(m: NodeMap, m2: NodeMap, x: RenderNodeId, k: nat)
    requires
        forall|j: nat|
            #![trigger ancestor_at(m, x, j)]
            j < k && ancestor_at(m, x, j) is Some ==> m2[ancestor_at(m, x, j).unwrap()].parent
                == m[ancestor_at(m, x, j).unwrap()].parent,
    ensures
        ancestor_at(m2, x, k) == ancestor_at(m, x, k),
    decreases k,
{
    if k > 0 {
        assert(ancestor_at(m, x, 0) == Some(x));
        match m[x].parent {
            Some(p) => {
                assert forall|j: nat|
                    #![trigger ancestor_at(m, p, j)]
                    j < (k - 1) as nat && ancestor_at(m, p, j) is Some implies m2[ancestor_at(
                        m,
                        p,
                        j,
                    ).unwrap()].parent == m[ancestor_at(m, p, j).unwrap()].parent by {
                    lemma_ancestor_step(m, x, j);
                    assert(ancestor_at(m, x, j + 1) == ancestor_at(m, p, j));
                }
                lemma_chain_agree(m, m2, p, (k - 1) as nat);
            },
            None => {},
        }
    }
}

/// In a forest a node is never below its own child.
pub proof fn lemma_not_under_child(m: NodeMap, d: Map<RenderNodeId, nat>, c: RenderNodeId, p: RenderNodeId)
    requires
        forest_wf(m, d),
        m.dom().contains(c),
        m[c].parent == Some(p),
    ensures
        !in_subtree(m, p, c),
{
    assert(parent_link_ok(m, d, c));
    if in_subtree(m, p, c) {
        let k = choose|k: nat| ancestor_at(m, p, k) == Some(c);
        lemma_ancestor_depth(m, d, p, k, c);
    }
}

/// In a forest a node meets a given ancestor at one distance only.
pub proof fn lemma_ancestor_once(
    m: NodeMap,
    d: Map<RenderNodeId, nat>,
    x: RenderNodeId,
    j: nat,
    k: nat,
    a: RenderNodeId,
)
    requires
        forest_wf(m, d),
        m.dom().contains(x),
        ancestor_at(m, x, j) == Some(a),
        ancestor_at(m, x, k) == Some(a),
    ensures
        j == k,
{
    lemma_ancestor_depth(m, d, x, j, a);
    lemma_ancestor_depth(m, d, x, k, a);
}

/// The ancestor `j + l` levels up is the ancestor `l` levels above the one `j` levels up.
pub proof fn lemma_ancestor_compose(m: NodeMap, x: RenderNodeId, j: nat, l: nat)
    ensures
        ancestor_at(m, x, j + l) == match ancestor_at(m, x, j) {
            Some(y) => ancestor_at(m, y, l),
            None => None,
        },
    decreases j,
{
    if j > 0 {
        match m[x].parent {
            Some(p) => {
                lemma_ancestor_compose(m, p, (j - 1) as nat, l);
                assert(ancestor_at(m, x, j + l) == ancestor_at(m, p, (j - 1 + l) as nat));
            },
            None => {
                crate::scene_spec::lemma_ancestor_none(m, x, j, j + l);
            },
        }
    }
}

/// The links after swapping child `cur` of `p` for new nodes hanging below
/// `p`: `n` under `p`, and `g` under `n` unless it is `n`; `cur` is cut
/// loose and every other old node keeps its parent.
pub open spec fn swapped_links(
    m: NodeMap,
    m2: NodeMap,
    p: RenderNodeId,
    cur: RenderNodeId,
    n: RenderNodeId,
    g: RenderNodeId,
) -> bool {
    &&& m.dom().contains(cur)
    &&& m[cur].parent == Some(p)
    &&& !m.dom().contains(n)
    &&& !m.dom().contains(g)
    &&& m2.dom() == m.dom().insert(n).insert(g)
    &&& forall|y: RenderNodeId| #[trigger] m.dom().contains(y) && y != cur ==> m2[y].parent == m[y].parent
    &&& m2[cur].parent is None
    &&& m2[n].parent == Some(p)
    &&& g != n ==> m2[g].parent == Some(n)
}

/// After the swap `p` is not below `cur`.
pub proof fn lemma_swapped_parent(
    m: NodeMap,
    d: Map<RenderNodeId, nat>,
    m2: NodeMap,
    p: RenderNodeId,
    cur: RenderNodeId,
    n: RenderNodeId,
    g: RenderNodeId,
)
    requires
        forest_wf(m, d),
        swapped_links(m, m2, p, cur, n, g),
    ensures
        !in_subtree(m2, p, cur),
{
    assert(parent_link_ok(m, d, cur));
    lemma_not_under_child(m, d, cur, p);
    assert forall|k: nat| ancestor_at(m2, p, k) == ancestor_at(m, p, k) by {
        assert forall|j: nat|
            #![trigger ancestor_at(m, p, j)]
            j < k && ancestor_at(m, p, j) is Some implies m2[ancestor_at(m, p, j).unwrap()].parent
                == m[ancestor_at(m, p, j).unwrap()].parent by {
            let y = ancestor_at(m, p, j).unwrap();
            lemma_ancestor_depth(m, d, p, j, y);
        }
        lemma_chain_agree(m, m2, p, k);
    }
}

/// An old node below `cur` before the swap is below it after.
pub proof fn lemma_swapped_keeps(
    m: NodeMap,
    d: Map<RenderNodeId, nat>,
    m2: NodeMap,
    p: RenderNodeId,
    cur: RenderNodeId,
    n: RenderNodeId,
    g: RenderNodeId,
    x: RenderNodeId,
)
    requires
        forest_wf(m, d),
        swapped_links(m, m2, p, cur, n, g),
        m.dom().contains(x),
        in_subtree(m, x, cur),
    ensures
        in_subtree(m2, x, cur),
{
    let k = choose|k: nat| ancestor_at(m, x, k) == Some(cur);
    assert forall|j: nat|
        #![trigger ancestor_at(m, x, j)]
        j < k && ancestor_at(m, x, j) is Some implies m2[ancestor_at(m, x, j).unwrap()].parent
            == m[ancestor_at(m, x, j).unwrap()].parent by {
        let y = ancestor_at(m, x, j).unwrap();
        lemma_ancestor_depth(m, d, x, j, y);
        if y == cur {
            lemma_ancestor_once(m, d, x, j, k, cur);
        }
    }
    lemma_chain_agree(m, m2, x, k);
}

/// Each node passed on the way up from below `cur` to `cur` after the swap
/// is an old node other than `cur`.
proof fn lemma_swapped_step(
    m: NodeMap,
    m2: NodeMap,
    d2: Map<RenderNodeId, nat>,
    p: RenderNodeId,
    cur: RenderNodeId,
    n: RenderNodeId,
    g: RenderNodeId,
    x: RenderNodeId,
    j: nat,
    k: nat,
)
    requires
        forest_wf(m2, d2),
        swapped_links(m, m2, p, cur, n, g),
        !in_subtree(m2, p, cur),
        m2.dom().contains(x),
        ancestor_at(m2, x, k) == Some(cur),
        j < k,
        ancestor_at(m2, x, j) is Some,
    ensures
        m.dom().contains(ancestor_at(m2, x, j).unwrap()),
        ancestor_at(m2, x, j).unwrap() != cur,
{
    let y = ancestor_at(m2, x, j).unwrap();
    let l = (k - j) as nat;
    lemma_ancestor_depth(m2, d2, x, j, y);
    lemma_ancestor_compose(m2, x, j, l);
    assert(ancestor_at(m2, y, l) == Some(cur));
    if y == cur {
        assert(ancestor_at(m2, cur, l) is None);
    }
    if y == n {
        assert(ancestor_at(m2, n, 1) == Some(p));
        lemma_ancestor_compose(m2, n, 1, (l - 1) as nat);
        assert(ancestor_at(m2, p, (l - 1) as nat) == Some(cur));
    }
    if y == g && g != n {
        assert(ancestor_at(m2, g, 1) == Some(n));
        lemma_ancestor_compose(m2, g, 1, (l - 1) as nat);
        assert(ancestor_at(m2, n, (l - 1) as nat) == Some(cur));
        assert(ancestor_at(m2, n, 1) == Some(p));
        lemma_ancestor_compose(m2, n, 1, (l - 2) as nat);
        assert(ancestor_at(m2, p, (l - 2) as nat) == Some(cur));
    }
}

/// A node below `cur` after the swap is an old node that was below it before.
pub proof fn lemma_swapped_origin(
    m: NodeMap,
    d: Map<RenderNodeId, nat>,
    m2: NodeMap,
    d2: Map<RenderNodeId, nat>,
    p: RenderNodeId,
    cur: RenderNodeId,
    n: RenderNodeId,
    g: RenderNodeId,
    x: RenderNodeId,
)
    requires
        forest_wf(m, d),
        forest_wf(m2, d2),
        swapped_links(m, m2, p, cur, n, g),
        m2.dom().contains(x),
        in_subtree(m2, x, cur),
    ensures
        m.dom().contains(x),
        in_subtree(m, x, cur),
{
    lemma_swapped_parent(m, d, m2, p, cur, n, g);
    let k = choose|k: nat| ancestor_at(m2, x, k) == Some(cur);
    assert forall|j: nat|
        #![trigger ancestor_at(m2, x, j)]
        j < k && ancestor_at(m2, x, j) is Some implies m[ancestor_at(m2, x, j).unwrap()].parent
            == m2[ancestor_at(m2, x, j).unwrap()].parent by {
        lemma_swapped_step(m, m2, d2, p, cur, n, g, x, j, k);
    }
    lemma_chain_agree(m2, m, x, k);
    if k > 0 {
        lemma_swapped_step(m, m2, d2, p, cur, n, g, x, 0, k);
    }
}

/// Two node kinds of the same variant with the same payload, children aside.
pub open spec fn same_payload(a: RenderNodeKind, b: RenderNodeKind) -> bool {
    match (a, b) {
        (RenderNodeKind::Group(_), RenderNodeKind::Group(_)) => true,
        (RenderNodeKind::Primitive(x), RenderNodeKind::Primitive(y)) => x == y,
        (RenderNodeKind::Transform(x), RenderNodeKind::Transform(y)) => x.transform == y.transform,
        (RenderNodeKind::Clip(x), RenderNodeKind::Clip(y)) => x.clip == y.clip,
        (RenderNodeKind::Layer(x), RenderNodeKind::Layer(y)) => x.descriptor == y.descriptor,
        _ => false,
    }
}

/// What an edit of `p`'s children leaves of the scene's shape: the same
/// nodes, `p` with its new children, and every other node with its kind, and
/// with its parent as the parent-link updates say.
pub proof fn lemma_edit_shape(
    old: &RenderScene,
    new: &RenderScene,
    p: RenderNodeId,
    s: Seq<RenderNodeId>,
    ups: Map<RenderNodeId, Option<RenderNodeId>>,
)
    requires
        RenderScene::topology_edited(old, new, p, s, ups),
        old@.dom().contains(p),
    ensures
        new@.dom() == old@.dom(),
        new@[p].spec_children() == s,
        new@[p].parent == old@[p].parent,
        same_payload(old@[p].kind, new@[p].kind),
        forall|x: RenderNodeId|
            #[trigger] new@.dom().contains(x) && x != p ==> new@[x].kind == old@[x].kind
                && new@[x].parent == if ups.dom().contains(x) {
                ups[x]
            } else {
                old@[x].parent
            },
{
    let m1 = choose|m1: NodeMap|
        relinked(old@, m1, p, s, ups) && new@ == dirty_marked(
            m1,
            p,
            RenderDirty { bits: 1 },
            new.spec_revision(),
        );
    let m2 = dirty_marked(m1, p, RenderDirty { bits: 1 }, new.spec_revision());
    assert(m2.dom() =~= old@.dom());
    assert(m2[p].kind == m1[p].kind && m2[p].parent == m1[p].parent);
    assert forall|x: RenderNodeId| #[trigger] m2.dom().contains(x) && x != p implies m2[x].kind
        == old@[x].kind && m2[x].parent == if ups.dom().contains(x) {
        ups[x]
    } else {
        old@[x].parent
    } by {
        assert(m2[x].kind == m1[x].kind && m2[x].parent == m1[x].parent);
    }
}

/// What a writer asks for at its position: a primitive, or a transform or a
/// clip that holds a group of further nodes. A node of the scene fits the
/// request when it is of the same variant.
#[derive(Clone, Copy)]
pub enum NodeKind {
    Primitive(Primitive),
    Transform(u64),
    Clip(u64),
}

impl NodeKind {
    pub open spec fn spec_matches(self, kind: RenderNodeKind) -> bool {
        match (self, kind) {
            (NodeKind::Primitive(_), RenderNodeKind::Primitive(_)) => true,
            (NodeKind::Transform(_), RenderNodeKind::Transform(_)) => true,
            (NodeKind::Clip(_), RenderNodeKind::Clip(_)) => true,
            _ => false,
        }
    }

    fn matches(&self, kind: &RenderNodeKind) -> (r: bool)
        ensures
            r == self.spec_matches(*kind),
    {
        match (self, kind) {
            (NodeKind::Primitive(_), RenderNodeKind::Primitive(_)) => true,
            (NodeKind::Transform(_), RenderNodeKind::Transform(_)) => true,
            (NodeKind::Clip(_), RenderNodeKind::Clip(_)) => true,
            _ => false,
        }
    }
}

/// The group held by a new transform or clip `n`.
pub open spec fn held_group(m: NodeMap, n: RenderNodeId) -> RenderNodeId {
    match m[n].kind {
        RenderNodeKind::Transform(t) => t.child.unwrap(),
        RenderNodeKind::Clip(c) => c.child.unwrap(),
        _ => n,
    }
}

/// The nodes that answering request `k` with the new node `n` creates.
pub open spec fn made_nodes(m: NodeMap, n: RenderNodeId, k: NodeKind) -> Set<RenderNodeId> {
    match k {
        NodeKind::Primitive(_) => set![n],
        _ => set![n, held_group(m, n)],
    }
}

/// `n` answers request `k` as a new node: a primitive as asked, or a
/// transform or clip as asked holding an empty group of its own.
pub open spec fn made(m: NodeMap, n: RenderNodeId, k: NodeKind) -> bool {
    match k {
        NodeKind::Primitive(p) => m[n].kind == RenderNodeKind::Primitive(PrimitiveNode { primitive: p }),
        NodeKind::Transform(t) => {
            let g = held_group(m, n);
            &&& m[n].kind == RenderNodeKind::Transform(TransformNode { transform: t, child: Some(g) })
            &&& g != n
            &&& m.dom().contains(g)
            &&& m[g].parent == Some(n)
            &&& m[g].kind is Group
            &&& m[g].spec_children().len() == 0
        },
        NodeKind::Clip(c) => {
            let g = held_group(m, n);
            &&& m[n].kind == RenderNodeKind::Clip(ClipNode { clip: c, child: Some(g) })
            &&& g != n
            &&& m.dom().contains(g)
            &&& m[g].parent == Some(n)
            &&& m[g].kind is Group
            &&& m[g].spec_children().len() == 0
        },
    }
}

/// `m2` is `m` with the nodes answering request `k` added, `n` detached at
/// their top, and every node of `m` untouched.
pub open spec fn created(m: NodeMap, m2: NodeMap, n: RenderNodeId, k: NodeKind) -> bool {
    &&& made(m2, n, k)
    &&& m2[n].parent is None
    &&& m.dom().disjoint(made_nodes(m2, n, k))
    &&& m2.dom() == m.dom() + made_nodes(m2, n, k)
    &&& forall|x: RenderNodeId| #[trigger] m.dom().contains(x) ==> m2[x] == m[x]
}

/// Creates the detached nodes that answer request `k`.
fn create(scene: &mut RenderScene, k: NodeKind) -> (n: RenderNodeId)
    requires
        old(scene).wf(),
        old(scene).spec_len() < 0xffff_fffb,
    ensures
        final(scene).wf(),
        final(scene).spec_root() == old(scene).spec_root(),
        created(old(scene)@, final(scene)@, n, k),
{
    let ghost m0 = scene@;
    match k {
        NodeKind::Primitive(p) => {
            let n = scene.insert_primitive(p);
            proof {
                assert(scene@.dom() =~= m0.dom() + made_nodes(scene@, n, k));
            }
            n
        },
        NodeKind::Transform(t) => {
            proof {
                scene.lemma_wf_forest();
            }
            let n = scene.insert_transform(t);
            let ghost m1 = scene@;
            proof {
                scene.lemma_wf_forest();
            }
            let g = scene.insert_group();
            let ghost m2 = scene@;
            proof {
                if in_subtree(m2, n, g) {
                    lemma_subtree_parent(m2, n, g);
                }
            }
            let linked = scene.set_child(n, Some(g));
            proof {
                assert(linked is Ok);
                let m3 = scene@;
                let rev = scene.spec_revision();
                let ups = swap_updates(None, Some(g), n);
                let w = choose|w: NodeMap|
                    relinked(m2, w, n, crate::scene::opt_seq(Some(g)), ups) && m3 == dirty_marked(
                        w,
                        n,
                        RenderDirty { bits: 1 },
                        rev,
                    );
                lemma_single_link(m2, w, n, g, RenderDirty { bits: 1 }, rev);
                lemma_parentless_path(w, n, RenderDirty { bits: 1 });
                assert(held_group(m3, n) == g);
                assert(m3.dom() =~= m0.dom() + made_nodes(m3, n, k));
                assert forall|x: RenderNodeId| #[trigger] m0.dom().contains(x) implies m3[x] == m0[x] by {
                    assert(m1[x] == m0[x]);
                    assert(m1.dom().contains(x));
                    assert(m2[x] == m1[x]);
                    assert(m2.dom().contains(x) && x != n && x != g);
                    assert(!crate::scene_spec::on_dirty_path(w, n, RenderDirty { bits: 1 }, x));
                }
            }
            n
        },
        NodeKind::Clip(c) => {
            proof {
                scene.lemma_wf_forest();
            }
            let n = scene.insert_clip(c);
            let ghost m1 = scene@;
            proof {
                scene.lemma_wf_forest();
            }
            let g = scene.insert_group();
            let ghost m2 = scene@;
            proof {
                if in_subtree(m2, n, g) {
                    lemma_subtree_parent(m2, n, g);
                }
            }
            let linked = scene.set_child(n, Some(g));
            proof {
                assert(linked is Ok);
                let m3 = scene@;
                let rev = scene.spec_revision();
                let ups = swap_updates(None, Some(g), n);
                let w = choose|w: NodeMap|
                    relinked(m2, w, n, crate::scene::opt_seq(Some(g)), ups) && m3 == dirty_marked(
                        w,
                        n,
                        RenderDirty { bits: 1 },
                        rev,
                    );
                lemma_single_link(m2, w, n, g, RenderDirty { bits: 1 }, rev);
                lemma_parentless_path(w, n, RenderDirty { bits: 1 });
                assert(held_group(m3, n) == g);
                assert(m3.dom() =~= m0.dom() + made_nodes(m3, n, k));
                assert forall|x: RenderNodeId| #[trigger] m0.dom().contains(x) implies m3[x] == m0[x] by {
                    assert(m1[x] == m0[x]);
                    assert(m1.dom().contains(x));
                    assert(m2[x] == m1[x]);
                    assert(m2.dom().contains(x) && x != n && x != g);
                    assert(!crate::scene_spec::on_dirty_path(w, n, RenderDirty { bits: 1 }, x));
                }
            }
            n
        },
    }
}

/// A node map that agrees with `m` on all of `m`'s nodes gives every node
/// of `m` the same ancestors, so none of its new nodes lies above one.
pub proof fn lemma_old_chain(m: NodeMap, d: Map<RenderNodeId, nat>, m1: NodeMap, x: RenderNodeId)
    requires
        forest_wf(m, d),
        m.dom().contains(x),
        forall|y: RenderNodeId| #[trigger] m.dom().contains(y) ==> m1[y] == m[y],
    ensures
        forall|z: RenderNodeId| !m.dom().contains(z) ==> !in_subtree(m1, x, z),
{
    assert forall|z: RenderNodeId| !m.dom().contains(z) implies !in_subtree(m1, x, z) by {
        if in_subtree(m1, x, z) {
            let k = choose|k: nat| ancestor_at(m1, x, k) == Some(z);
            assert forall|j: nat|
                #![trigger ancestor_at(m, x, j)]
                j < k && ancestor_at(m, x, j) is Some implies m1[ancestor_at(m, x, j).unwrap()].parent
                    == m[ancestor_at(m, x, j).unwrap()].parent by {
                lemma_ancestor_depth(m, d, x, j, ancestor_at(m, x, j).unwrap());
            }
            lemma_chain_agree(m, m1, x, k);
            lemma_ancestor_depth(m, d, x, k, z);
        }
    }
}

/// A node has no more children than the scene has nodes.
pub proof fn lemma_children_bound(m: NodeMap, d: Map<RenderNodeId, nat>, p: RenderNodeId)
    requires
        forest_wf(m, d),
        m.dom().contains(p),
    ensures
        m[p].spec_children().len() <= m.dom().len(),
{
    let c = m[p].spec_children();
    assert(child_links_ok(m, p));
    c.unique_seq_to_set();
    assert(c.to_set().subset_of(m.dom())) by {
        assert forall|x: RenderNodeId| c.to_set().contains(x) implies m.dom().contains(x) by {
            let i = c.index_of(x);
            assert(c.contains(x));
            assert(c[i] == x);
        }
    }
    vstd::set_lib::lemma_len_subset(c.to_set(), m.dom());
}

/// The shape after position `i` of `p`'s children was given the new node
/// `n` answering request `k`, and the node that stood there was removed with
/// its subtree. Every other node keeps its kind and its parent.
pub open spec fn replaced_shape(
    m: NodeMap,
    m2: NodeMap,
    p: RenderNodeId,
    i: int,
    n: RenderNodeId,
    k: NodeKind,
) -> bool {
    let c = m[p].spec_children();
    &&& made(m2, n, k)
    &&& m.dom().disjoint(made_nodes(m2, n, k))
    &&& m2.dom() == m.dom().filter(|x: RenderNodeId| !in_subtree(m, x, c[i])) + made_nodes(m2, n, k)
    &&& m2[p].spec_children() == c.update(i, n)
    &&& m2[p].parent == m[p].parent
    &&& same_payload(m[p].kind, m2[p].kind)
    &&& m2[n].parent == Some(p)
    &&& forall|x: RenderNodeId|
        #[trigger] m2.dom().contains(x) && m.dom().contains(x) && x != p ==> m2[x].kind == m[x].kind
            && m2[x].parent == m[x].parent
}

/// The shape left when the node at position `i` of `p`'s children is the
/// scene's root: the new node `n` answering `k` took its place, and the root
/// is cut loose but kept. Every other node keeps its kind and its parent.
pub open spec fn root_kept_shape(
    m: NodeMap,
    m2: NodeMap,
    p: RenderNodeId,
    i: int,
    n: RenderNodeId,
    k: NodeKind,
) -> bool {
    let c = m[p].spec_children();
    &&& made(m2, n, k)
    &&& m.dom().disjoint(made_nodes(m2, n, k))
    &&& m2.dom() == m.dom() + made_nodes(m2, n, k)
    &&& m2[p].spec_children() == c.update(i, n)
    &&& m2[n].parent == Some(p)
    &&& m2[c[i]].parent is None
    &&& forall|x: RenderNodeId|
        #[trigger] m.dom().contains(x) && x != p && x != c[i] ==> m2[x].kind == m[x].kind
            && m2[x].parent == m[x].parent
}

/// The shape after the new node `n` answering request `k` was added as the
/// last child of `p`. Every other node keeps its kind and its parent.
pub open spec fn appended_shape(m: NodeMap, m2: NodeMap, p: RenderNodeId, n: RenderNodeId, k: NodeKind) -> bool {
    &&& made(m2, n, k)
    &&& m.dom().disjoint(made_nodes(m2, n, k))
    &&& m2.dom() == m.dom() + made_nodes(m2, n, k)
    &&& m2[p].spec_children() == m[p].spec_children().push(n)
    &&& m2[p].parent == m[p].parent
    &&& same_payload(m[p].kind, m2[p].kind)
    &&& m2[n].parent == Some(p)
    &&& forall|x: RenderNodeId|
        #[trigger] m.dom().contains(x) && x != p ==> m2[x].kind == m[x].kind && m2[x].parent
            == m[x].parent
}

/// Replacing child `i` of `p` by the new node `n` answering `k` and then
/// removing the old child's subtree leaves the shape `replaced_shape` says.
proof fn lemma_replaced(
    m: NodeMap,
    d: Map<RenderNodeId, nat>,
    s1: RenderScene,
    s2: RenderScene,
    s3: RenderScene,
    p: RenderNodeId,
    i: int,
    n: RenderNodeId,
    k: NodeKind,
)
    requires
        forest_wf(m, d),
        m.dom().contains(p),
        0 <= i < m[p].spec_children().len(),
        m[m[p].spec_children()[i]].parent == Some(p),
        s2.wf(),
        created(m, s1@, n, k),
        RenderScene::topology_edited(
            &s1,
            &s2,
            p,
            m[p].spec_children().update(i, n),
            swap_updates(Some(m[p].spec_children()[i]), Some(n), p),
        ),
        RenderScene::removal_outcome(&s2, &s3, m[p].spec_children()[i], Ok(())),
    ensures
        replaced_shape(m, s3@, p, i, n, k),
{
    let c = m[p].spec_children();
    let cur = c[i];
    let m1 = s1@;
    let m2 = s2@;
    let m3 = s3@;
    let g = held_group(m1, n);
    let ups = swap_updates(Some(cur), Some(n), p);
    assert(m1[p] == m[p]);
    lemma_edit_shape(&s1, &s2, p, c.update(i, n), ups);
    assert(ups.dom().contains(cur) && ups[cur] is None);
    assert(ups.dom().contains(n) && ups[n] == Some(p));
    assert(m2[cur].parent is None);
    let sub = subtree_of(m2, cur);
    let mid = choose|mid: RenderScene|
        RenderScene::detached(&s2, &mid, cur) && m3 == mid@.remove_keys(sub) && s3.spec_revision()
            == mid.spec_revision() && s3.spec_dirty_nodes() == mid.spec_dirty_nodes();
    assert(m3 == m2.remove_keys(sub));
    assert(m1.dom() =~= m.dom().insert(n).insert(g));
    assert(swapped_links(m, m2, p, cur, n, g)) by {
        assert forall|y: RenderNodeId| #[trigger] m.dom().contains(y) && y != cur implies m2[y].parent
            == m[y].parent by {
            assert(m1[y] == m[y]);
            if y != p {
                assert(m2.dom().contains(y));
            }
        }
        if g != n {
            assert(m2.dom().contains(g));
            assert(!ups.dom().contains(g));
        }
    }
    s2.lemma_depth_forest();
    let d2 = s2.spec_depth();
    lemma_swapped_parent(m, d, m2, p, cur, n, g);
    assert(!sub.contains(p));
    assert(!sub.contains(n)) by {
        if in_subtree(m2, n, cur) {
            lemma_swapped_origin(m, d, m2, d2, p, cur, n, g, n);
        }
    }
    assert(!sub.contains(g)) by {
        if in_subtree(m2, g, cur) {
            lemma_swapped_origin(m, d, m2, d2, p, cur, n, g, g);
        }
    }
    assert(made_nodes(m3, n, k) == made_nodes(m1, n, k)) by {
        assert(m3[n].kind == m1[n].kind);
    }
    assert(made(m3, n, k)) by {
        assert(m3[n].kind == m1[n].kind);
        if g != n {
            assert(m3[g] == m2[g]);
            assert(m2[g].kind == m1[g].kind);
        }
    }
    let kept = m.dom().filter(|x: RenderNodeId| !in_subtree(m, x, cur));
    assert(m3.dom() =~= kept + made_nodes(m3, n, k)) by {
        assert forall|x: RenderNodeId| m3.dom().contains(x) implies (kept + made_nodes(m3, n, k)).contains(x) by {
            if m.dom().contains(x) && in_subtree(m, x, cur) {
                lemma_swapped_keeps(m, d, m2, p, cur, n, g, x);
            }
        }
        assert forall|x: RenderNodeId| (kept + made_nodes(m3, n, k)).contains(x) implies m3.dom().contains(x) by {
            if in_subtree(m2, x, cur) {
                lemma_swapped_origin(m, d, m2, d2, p, cur, n, g, x);
            }
        }
    }
    assert forall|x: RenderNodeId|
        #[trigger] m3.dom().contains(x) && m.dom().contains(x) && x != p implies m3[x].kind == m[x].kind
            && m3[x].parent == m[x].parent by {
        assert(in_subtree(m2, cur, cur)) by {
            assert(ancestor_at(m2, cur, 0) == Some(cur));
        }
        assert(x != cur);
        assert(m1[x] == m[x]);
        assert(m2.dom().contains(x));
    }
}

/// Replacing child `i` of `p` by the new node `n` answering `k` leaves the
/// shape `root_kept_shape` says.
proof fn lemma_root_kept(
    m: NodeMap,
    s1: RenderScene,
    s2: RenderScene,
    p: RenderNodeId,
    i: int,
    n: RenderNodeId,
    k: NodeKind,
)
    requires
        m.dom().contains(p),
        0 <= i < m[p].spec_children().len(),
        m.dom().contains(m[p].spec_children()[i]),
        created(m, s1@, n, k),
        RenderScene::topology_edited(
            &s1,
            &s2,
            p,
            m[p].spec_children().update(i, n),
            swap_updates(Some(m[p].spec_children()[i]), Some(n), p),
        ),
    ensures
        root_kept_shape(m, s2@, p, i, n, k),
{
    let c = m[p].spec_children();
    let cur = c[i];
    let m1 = s1@;
    let m2 = s2@;
    let g = held_group(m1, n);
    let ups = swap_updates(Some(cur), Some(n), p);
    assert(m1[p] == m[p]);
    lemma_edit_shape(&s1, &s2, p, c.update(i, n), ups);
    assert(made_nodes(m1, n, k).contains(n));
    assert(m1.dom().contains(n) && n != p && n != cur);
    assert(ups.dom().contains(cur) && ups[cur] is None);
    assert(ups.dom().contains(n) && ups[n] == Some(p));
    assert(m2[n].kind == m1[n].kind);
    if g != n {
        assert(made_nodes(m1, n, k).contains(g));
        assert(m1.dom().contains(g) && g != p);
        assert(!ups.dom().contains(g));
        assert(m2[g].kind == m1[g].kind && m2[g].parent == m1[g].parent);
    }
    assert(made_nodes(m2, n, k) == made_nodes(m1, n, k));
    assert forall|x: RenderNodeId| #[trigger] m.dom().contains(x) && x != p && x != cur implies m2[x].kind
        == m[x].kind && m2[x].parent == m[x].parent by {
        assert(m1[x] == m[x]);
        assert(m1.dom().contains(x));
    }
}

/// Appending the new node `n` answering `k` to `p`'s children leaves the
/// shape `appended_shape` says.
proof fn lemma_appended(m: NodeMap, s1: RenderScene, s2: RenderScene, p: RenderNodeId, n: RenderNodeId, k: NodeKind)
    requires
        m.dom().contains(p),
        created(m, s1@, n, k),
        RenderScene::topology_edited(&s1, &s2, p, m[p].spec_children().push(n), map![n => Some(p)]),
    ensures
        appended_shape(m, s2@, p, n, k),
{
    let m1 = s1@;
    let m2 = s2@;
    let g = held_group(m1, n);
    assert(m1[p] == m[p]);
    lemma_edit_shape(&s1, &s2, p, m[p].spec_children().push(n), map![n => Some(p)]);
    assert(made_nodes(m1, n, k).contains(n));
    assert(m1.dom().contains(n) && n != p);
    assert(m2[n].kind == m1[n].kind);
    if g != n {
        assert(made_nodes(m1, n, k).contains(g));
        assert(m1.dom().contains(g) && g != p);
        assert(m2[g].kind == m1[g].kind && m2[g].parent == m1[g].parent);
    }
    assert(made_nodes(m2, n, k) == made_nodes(m1, n, k));
    assert forall|x: RenderNodeId| #[trigger] m.dom().contains(x) && x != p implies m2[x].kind == m[x].kind
        && m2[x].parent == m[x].parent by {
        assert(m1[x] == m[x]);
        assert(m1.dom().contains(x));
    }
}

/// The node of a writer call's result.
pub open spec fn node_of(r: Result<(RenderNodeId, RenderTreeWriter), SceneError>) -> Result<RenderNodeId, SceneError> {
    match r {
        Ok((n, _)) => Ok(n),
        Err(e) => Err(e),
    }
}

/// Some node of `s` has `x` in its subtree.
pub open spec fn under_any(m: NodeMap, s: Seq<RenderNodeId>, x: RenderNodeId) -> bool {
    exists|j: int| 0 <= j < s.len() && #[trigger] in_subtree(m, x, s[j])
}

/// The shape after the children of `p` from position `i` on were removed with
/// their subtrees. Every other node keeps its kind and its parent.
pub open spec fn finished_shape(m: NodeMap, m2: NodeMap, p: RenderNodeId, i: int) -> bool {
    let c = m[p].spec_children();
    &&& m2.dom() == m.dom().filter(|x: RenderNodeId| !under_any(m, c.subrange(i, c.len() as int), x))
    &&& m2[p].spec_children() == c.take(i)
    &&& m2[p].parent == m[p].parent
    &&& same_payload(m[p].kind, m2[p].kind)
    &&& forall|x: RenderNodeId|
        #[trigger] m2.dom().contains(x) && x != p ==> m2[x].kind == m[x].kind && m2[x].parent
            == m[x].parent
}

pub proof fn lemma_same_payload_trans(a: RenderNodeKind, b: RenderNodeKind, c: RenderNodeKind)
    requires
        same_payload(a, b),
        same_payload(b, c),
    ensures
        same_payload(a, c),
{
}

/// A map whose nodes all are nodes of `m` with their parents in `m` gives
/// them the ancestors they have in `m`.
pub proof fn lemma_kept_chain(m: NodeMap, m2: NodeMap, d2: Map<RenderNodeId, nat>, x: RenderNodeId, k: nat)
    requires
        forest_wf(m2, d2),
        m2.dom().contains(x),
        forall|y: RenderNodeId| #[trigger] m2.dom().contains(y) ==> m2[y].parent == m[y].parent,
    ensures
        ancestor_at(m2, x, k) == ancestor_at(m, x, k),
{
    assert forall|j: nat|
        #![trigger ancestor_at(m2, x, j)]
        j < k && ancestor_at(m2, x, j) is Some implies m[ancestor_at(m2, x, j).unwrap()].parent
            == m2[ancestor_at(m2, x, j).unwrap()].parent by {
        lemma_ancestor_depth(m2, d2, x, j, ancestor_at(m2, x, j).unwrap());
    }
    lemma_chain_agree(m2, m, x, k);
}

/// One step of removing stale children: removing the last of the first
/// `i + j` children takes one more stale subtree away.
proof fn lemma_finish_step(
    m: NodeMap,
    s: RenderScene,
    s2: RenderScene,
    p: RenderNodeId,
    i: int,
    j: int,
)
    requires
        s.wf(),
        s2.wf(),
        0 <= i,
        1 <= j,
        i + j <= m[p].spec_children().len(),
        s@.dom().contains(p),
        s@[p].spec_children() == m[p].spec_children().take(i + j),
        s@.dom() == m.dom().filter(
            |x: RenderNodeId| !under_any(m, m[p].spec_children().subrange(i + j, m[p].spec_children().len() as int), x),
        ),
        s@[p].parent == m[p].parent,
        same_payload(m[p].kind, s@[p].kind),
        forall|x: RenderNodeId|
            #[trigger] s@.dom().contains(x) && x != p ==> s@[x].kind == m[x].kind && s@[x].parent
                == m[x].parent,
        RenderScene::removal_outcome(&s, &s2, m[p].spec_children()[i + j - 1], Ok(())),
    ensures
        s2@.dom().contains(p),
        s2@[p].spec_children() == m[p].spec_children().take(i + j - 1),
        s2@.dom() == m.dom().filter(
            |x: RenderNodeId| !under_any(m, m[p].spec_children().subrange(i + j - 1, m[p].spec_children().len() as int), x),
        ),
        s2@[p].parent == m[p].parent,
        same_payload(m[p].kind, s2@[p].kind),
        forall|x: RenderNodeId|
            #[trigger] s2@.dom().contains(x) && x != p ==> s2@[x].kind == m[x].kind && s2@[x].parent
                == m[x].parent,
{
    let c = m[p].spec_children();
    let len = c.len() as int;
    let node = c[i + j - 1];
    let cs = s@[p].spec_children();
    s.lemma_depth_forest();
    let ds = s.spec_depth();
    assert(child_links_ok(s@, p));
    assert(cs[i + j - 1] == node);
    assert(s@.dom().contains(node) && s@[node].parent == Some(p));
    lemma_index_of_unique(cs, i + j - 1);
    lemma_not_under_child(s@, ds, node, p);
    let sub = subtree_of(s@, node);
    let mid = choose|mid: RenderScene|
        RenderScene::detached(&s, &mid, node) && s2@ == mid@.remove_keys(sub) && s2.spec_revision()
            == mid.spec_revision() && s2.spec_dirty_nodes() == mid.spec_dirty_nodes();
    assert(cs.remove(i + j - 1) =~= c.take(i + j - 1));
    lemma_edit_shape(&s, &mid, p, cs.remove(i + j - 1), map![node => None]);
    assert(!sub.contains(p));
    assert(in_subtree(s@, node, node)) by {
        assert(ancestor_at(s@, node, 0) == Some(node));
    }
    lemma_same_payload_trans(m[p].kind, s@[p].kind, s2@[p].kind);
    assert forall|y: RenderNodeId| #[trigger] s@.dom().contains(y) implies s@[y].parent == m[y].parent by {
    }
    let after = c.subrange(i + j, len);
    let before = c.subrange(i + j - 1, len);
    assert forall|x: RenderNodeId| s2@.dom().contains(x) <==> (m.dom().contains(x) && !under_any(m, before, x)) by {
        if m.dom().contains(x) {
            if under_any(m, before, x) {
                let t = choose|t: int| 0 <= t < before.len() && #[trigger] in_subtree(m, x, before[t]);
                if t > 0 {
                    assert(after[t - 1] == before[t]);
                    assert(under_any(m, after, x));
                } else if s@.dom().contains(x) {
                    let k = choose|k: nat| ancestor_at(m, x, k) == Some(node);
                    lemma_kept_chain(m, s@, ds, x, k);
                    assert(sub.contains(x));
                }
            } else {
                assert(!under_any(m, after, x)) by {
                    if under_any(m, after, x) {
                        let t = choose|t: int| 0 <= t < after.len() && #[trigger] in_subtree(m, x, after[t]);
                        assert(before[t + 1] == after[t]);
                    }
                }
                assert(s@.dom().contains(x));
                assert(!in_subtree(m, x, node)) by {
                    assert(before[0] == node);
                }
                if in_subtree(s@, x, node) {
                    let k = choose|k: nat| ancestor_at(s@, x, k) == Some(node);
                    lemma_kept_chain(m, s@, ds, x, k);
                }
            }
        }
    }
    assert(s2@.dom() =~= m.dom().filter(|x: RenderNodeId| !under_any(m, before, x)));
    assert forall|x: RenderNodeId| #[trigger] s2@.dom().contains(x) && x != p implies s2@[x].kind == m[x].kind
        && s2@[x].parent == m[x].parent by {
        assert(x != node);
        assert(mid@.dom().contains(x));
    }
}

/// Writes declarative render output into the children of one scene node,
/// position by position: a node that fits the request at its position is
/// kept, one that does not is replaced, and a missing one is appended.
#[derive(Debug)]
pub struct RenderTreeWriter {
    parent: RenderNodeId,
    cursor: usize,
}

impl RenderTreeWriter {
    pub closed spec fn spec_parent(&self) -> RenderNodeId {
        self.parent
    }

    /// How many of the parent's children have been written.
    pub closed spec fn spec_cursor(&self) -> nat {
        self.cursor as nat
    }

    /// The position lies within the parent's children, as it does while the
    /// writer alone edits them.
    pub open spec fn fits(&self, scene: &RenderScene) -> bool {
        scene@.dom().contains(self.spec_parent()) ==> self.spec_cursor()
            <= scene@[self.spec_parent()].spec_children().len()
    }

    /// What answering request `k` at the writer's position does: `r` and the
    /// scene and writer after it.
    pub open spec fn placed(
        w: RenderTreeWriter,
        w2: RenderTreeWriter,
        s: &RenderScene,
        s2: &RenderScene,
        k: NodeKind,
        r: Result<RenderNodeId, SceneError>,
    ) -> bool {
        let p = w.spec_parent();
        let i = w.spec_cursor();
        let m = s@;
        let c = m[p].spec_children();
        &&& w2.spec_parent() == p
        &&& s2.spec_root() == s.spec_root()
        &&& !m.dom().contains(p) ==> r == Err::<RenderNodeId, SceneError>(SceneError::MissingNode(p))
            && *s2 == *s && w2.spec_cursor() == i
        &&& m.dom().contains(p) && i < c.len() && k.spec_matches(m[c[i as int]].kind) ==> r == Ok::<
            RenderNodeId,
            SceneError,
        >(c[i as int]) && *s2 == *s && w2.spec_cursor() == i + 1
        &&& m.dom().contains(p) && i < c.len() && !k.spec_matches(m[c[i as int]].kind) && c[i as int]
            == s.spec_root() ==> r == Err::<RenderNodeId, SceneError>(SceneError::CannotRemoveRoot)
            && w2.spec_cursor() == i && (exists|n: RenderNodeId| root_kept_shape(m, s2@, p, i as int, n, k))
        &&& m.dom().contains(p) && i < c.len() && !k.spec_matches(m[c[i as int]].kind) && c[i as int]
            != s.spec_root() ==> (r matches Ok(n) && w2.spec_cursor() == i + 1 && replaced_shape(
            m,
            s2@,
            p,
            i as int,
            n,
            k,
        ))
        &&& m.dom().contains(p) && i >= c.len() && group_error(m, p) is Some ==> r == Err::<
            RenderNodeId,
            SceneError,
        >(group_error(m, p).unwrap()) && w2.spec_cursor() == i && (exists|n: RenderNodeId|
            created(m, s2@, n, k))
        &&& m.dom().contains(p) && i >= c.len() && group_error(m, p) is None ==> (r matches Ok(n)
            && w2.spec_cursor() == i + 1 && appended_shape(m, s2@, p, n, k))
    }

    pub fn new(parent: RenderNodeId) -> (r: RenderTreeWriter)
        ensures
            r.spec_parent() == parent,
            r.spec_cursor() == 0,
    {
        RenderTreeWriter { parent, cursor: 0 }
    }

    /// Answers request `k` at the writer's position and moves past it.
    fn ensure_node(&mut self, scene: &mut RenderScene, k: NodeKind) -> (r: Result<RenderNodeId, SceneError>)
        requires
            old(scene).wf(),
            old(scene).spec_len() < 0xffff_fffb,
            old(self).fits(old(scene)),
        ensures
            final(scene).wf(),
            final(self).fits(final(scene)),
            Self::placed(*old(self), *final(self), old(scene), final(scene), k, r),
    {
        let ghost m = scene@;
        let ghost d = scene.spec_depth();
        proof {
            scene.lemma_depth_forest();
        }
        let children = scene.children(self.parent)?;
        let ghost c = children@;
        proof {
            lemma_children_bound(m, d, self.parent);
        }
        let current = if self.cursor < children.len() {
            Some(children[self.cursor])
        } else {
            None
        };
        let parent = self.parent;
        proof {
            assert(child_links_ok(m, parent));
        }
        match current {
            Some(cur) => {
                let fits_now = match scene.node(cur) {
                    Some(node) => k.matches(&node.kind),
                    None => false,
                };
                if fits_now {
                    self.cursor = self.cursor + 1;
                    return Ok(cur);
                }
                let n = create(scene, k);
                let ghost s1 = *scene;
                let ghost m1 = scene@;
                proof {
                    lemma_old_chain(m, d, m1, parent);
                    lemma_index_of_unique(c, self.cursor as int);
                }
                let replaced = scene.replace_child(parent, cur, n);
                proof {
                    assert(replaced is Ok);
                }
                let ghost s2 = *scene;
                proof {
                    lemma_edit_shape(&s1, &s2, parent, c.update(self.cursor as int, n), swap_updates(Some(cur), Some(n), parent));
                }
                let removed = scene.remove_subtree(cur);
                if let Err(e) = removed {
                    proof {
                        lemma_root_kept(m, s1, s2, parent, self.cursor as int, n, k);
                        assert(root_kept_shape(m, scene@, parent, self.cursor as int, n, k));
                    }
                    return Err(e);
                }
                proof {
                    lemma_replaced(m, d, s1, s2, *scene, parent, self.cursor as int, n, k);
                }
                self.cursor = self.cursor + 1;
                Ok(n)
            },
            None => {
                let n = create(scene, k);
                let ghost m1 = scene@;
                proof {
                    lemma_old_chain(m, d, m1, parent);
                }
                let ghost s1 = *scene;
                scene.append_child(parent, n)?;
                proof {
                    lemma_appended(m, s1, *scene, parent, n, k);
                }
                self.cursor = self.cursor + 1;
                Ok(n)
            },
        }
    }

    /// Writes a primitive at the writer's position: a primitive already
    /// there is kept under its id and updated; any other node is replaced;
    /// past the end a new primitive is appended.
    pub fn primitive(&mut self, scene: &mut RenderScene, primitive: Primitive) -> (r: Result<
        RenderNodeId,
        SceneError,
    >)
        requires
            old(scene).wf(),
            old(scene).spec_len() < 0xffff_fffb,
            old(self).fits(old(scene)),
        ensures
            final(scene).wf(),
            final(self).fits(final(scene)),
            Self::reused(*old(self), old(scene), NodeKind::Primitive(primitive)) ==> ({
                let cur = Self::current(*old(self), old(scene));
                &&& r == Ok::<RenderNodeId, SceneError>(cur)
                &&& final(self).spec_parent() == old(self).spec_parent()
                &&& final(self).spec_cursor() == old(self).spec_cursor() + 1
                &&& exists|b: bool| RenderScene::primitive_outcome(old(scene), final(scene), cur, primitive, Ok(b))
            }),
            !Self::reused(*old(self), old(scene), NodeKind::Primitive(primitive)) ==> Self::placed(
                *old(self),
                *final(self),
                old(scene),
                final(scene),
                NodeKind::Primitive(primitive),
                r,
            ),
    {
        proof {
            Self::lemma_current_live(*self, scene);
        }
        let node = self.ensure_node(scene, NodeKind::Primitive(primitive))?;
        let ghost mid = *scene;
        let updated = scene.update_primitive(node, primitive);
        proof {
            if !Self::reused(*old(self), old(scene), NodeKind::Primitive(primitive)) {
                assert(mid@[node].kind == RenderNodeKind::Primitive(PrimitiveNode { primitive }));
                assert((0u16 | 0u16) == 0u16) by (bit_vector);
                assert(*scene == mid);
            }
        }
        match updated {
            Ok(_) => Ok(node),
            Err(e) => Err(e),
        }
    }

    /// The node at the writer's position, if the parent is live and has one.
    pub open spec fn current(w: RenderTreeWriter, s: &RenderScene) -> RenderNodeId {
        s@[w.spec_parent()].spec_children()[w.spec_cursor() as int]
    }

    /// The node at a live parent's position is a live child of it.
    pub proof fn lemma_current_live(w: RenderTreeWriter, s: &RenderScene)
        requires
            s.wf(),
        ensures
            s@.dom().contains(w.spec_parent()) && w.spec_cursor() < s@[w.spec_parent()].spec_children().len()
                ==> s@.dom().contains(Self::current(w, s)) && s@[Self::current(w, s)].parent == Some(w.spec_parent()),
    {
        s.lemma_depth_forest();
        if s@.dom().contains(w.spec_parent()) {
            assert(child_links_ok(s@, w.spec_parent()));
        }
    }

    /// The node at the writer's position fits request `k` and is kept.
    pub open spec fn reused(w: RenderTreeWriter, s: &RenderScene, k: NodeKind) -> bool {
        &&& s@.dom().contains(w.spec_parent())
        &&& w.spec_cursor() < s@[w.spec_parent()].spec_children().len()
        &&& k.spec_matches(s@[Self::current(w, s)].kind)
    }


    /// Writes a transform at the writer's position, like `primitive`, and
    /// hands back a writer for the group it holds; a new transform holds a
    /// new empty group. The caller writes that group and finishes it.
    pub fn transform(&mut self, scene: &mut RenderScene, transform: u64) -> (r: Result<
        (RenderNodeId, RenderTreeWriter),
        SceneError,
    >)
        requires
            old(scene).wf(),
            old(scene).spec_len() < 0xffff_fffb,
            old(self).fits(old(scene)),
        ensures
            final(scene).wf(),
            final(self).fits(final(scene)),
            Self::reused(*old(self), old(scene), NodeKind::Transform(transform)) ==> ({
                let cur = Self::current(*old(self), old(scene));
                &&& final(self).spec_parent() == old(self).spec_parent()
                &&& final(self).spec_cursor() == old(self).spec_cursor() + 1
                &&& exists|b: bool| RenderScene::transform_outcome(old(scene), final(scene), cur, transform, Ok(b))
                &&& match single_child_of(old(scene)@[cur]) {
                    Some(g) => r matches Ok((n, w)) && n == cur && w.spec_parent() == g && w.spec_cursor() == 0,
                    None => r == Err::<(RenderNodeId, RenderTreeWriter), SceneError>(
                        SceneError::ChildNotFound { parent: cur, child: cur },
                    ),
                }
            }),
            !Self::reused(*old(self), old(scene), NodeKind::Transform(transform)) ==> Self::placed(
                *old(self),
                *final(self),
                old(scene),
                final(scene),
                NodeKind::Transform(transform),
                node_of(r),
            ) && (r matches Ok((n, w)) ==> w.spec_parent() == held_group(final(scene)@, n) && w.spec_cursor() == 0),
    {
        proof {
            Self::lemma_current_live(*self, scene);
        }
        let node = self.ensure_node(scene, NodeKind::Transform(transform))?;
        let ghost mid = *scene;
        let updated = scene.update_transform(node, transform);
        proof {
            if !Self::reused(*old(self), old(scene), NodeKind::Transform(transform)) {
                assert(made_nodes(mid@, node, NodeKind::Transform(transform)).contains(node));
                assert(*scene == mid);
            }
        }
        if let Err(e) = updated {
            return Err(e);
        }
        let kids = scene.children(node)?;
        if kids.len() == 0 {
            return Err(SceneError::ChildNotFound { parent: node, child: node });
        }
        let group = kids[0];
        Ok((node, RenderTreeWriter::new(group)))
    }


    /// Writes a clip at the writer's position, like `transform`.
    pub fn clip(&mut self, scene: &mut RenderScene, clip: u64) -> (r: Result<
        (RenderNodeId, RenderTreeWriter),
        SceneError,
    >)
        requires
            old(scene).wf(),
            old(scene).spec_len() < 0xffff_fffb,
            old(self).fits(old(scene)),
        ensures
            final(scene).wf(),
            final(self).fits(final(scene)),
            Self::reused(*old(self), old(scene), NodeKind::Clip(clip)) ==> ({
                let cur = Self::current(*old(self), old(scene));
                &&& final(self).spec_parent() == old(self).spec_parent()
                &&& final(self).spec_cursor() == old(self).spec_cursor() + 1
                &&& exists|b: bool| RenderScene::clip_outcome(old(scene), final(scene), cur, clip, Ok(b))
                &&& match single_child_of(old(scene)@[cur]) {
                    Some(g) => r matches Ok((n, w)) && n == cur && w.spec_parent() == g && w.spec_cursor() == 0,
                    None => r == Err::<(RenderNodeId, RenderTreeWriter), SceneError>(
                        SceneError::ChildNotFound { parent: cur, child: cur },
                    ),
                }
            }),
            !Self::reused(*old(self), old(scene), NodeKind::Clip(clip)) ==> Self::placed(
                *old(self),
                *final(self),
                old(scene),
                final(scene),
                NodeKind::Clip(clip),
                node_of(r),
            ) && (r matches Ok((n, w)) ==> w.spec_parent() == held_group(final(scene)@, n) && w.spec_cursor() == 0),
    {
        proof {
            Self::lemma_current_live(*self, scene);
        }
        let node = self.ensure_node(scene, NodeKind::Clip(clip))?;
        let ghost mid = *scene;
        let updated = scene.update_clip(node, clip);
        proof {
            if !Self::reused(*old(self), old(scene), NodeKind::Clip(clip)) {
                assert(made_nodes(mid@, node, NodeKind::Clip(clip)).contains(node));
                assert(*scene == mid);
            }
        }
        if let Err(e) = updated {
            return Err(e);
        }
        let kids = scene.children(node)?;
        if kids.len() == 0 {
            return Err(SceneError::ChildNotFound { parent: node, child: node });
        }
        let group = kids[0];
        Ok((node, RenderTreeWriter::new(group)))
    }


    /// Ends the writing: the children past the writer's position are stale
    /// and are removed with their subtrees, last first.
    pub fn finish(self, scene: &mut RenderScene) -> (r: Result<(), SceneError>)
        requires
            old(scene).wf(),
            self.fits(old(scene)),
        ensures
            final(scene).wf(),
            final(scene).spec_root() == old(scene).spec_root(),
            !old(scene)@.dom().contains(self.spec_parent()) ==> r == Err::<(), SceneError>(
                SceneError::MissingNode(self.spec_parent()),
            ) && *final(scene) == *old(scene),
            old(scene)@.dom().contains(self.spec_parent()) ==> ({
                let c = old(scene)@[self.spec_parent()].spec_children();
                let stale = c.subrange(self.spec_cursor() as int, c.len() as int);
                &&& stale.contains(old(scene).spec_root()) ==> r == Err::<(), SceneError>(
                    SceneError::CannotRemoveRoot,
                ) && finished_shape(
                    old(scene)@,
                    final(scene)@,
                    self.spec_parent(),
                    self.spec_cursor() + stale.index_of(old(scene).spec_root()) + 1,
                )
                &&& !stale.contains(old(scene).spec_root()) ==> r == Ok::<(), SceneError>(())
                    && finished_shape(old(scene)@, final(scene)@, self.spec_parent(), self.spec_cursor() as int)
            }),
    {
        let ghost m = scene@;
        let parent = self.parent;
        let children = scene.children(parent)?;
        let ghost c = children@;
        let i = self.cursor;
        let mut stale: Vec<RenderNodeId> = Vec::new();
        let mut j = i;
        while j < children.len()
            invariant
                i <= j <= children.len(),
                children@ == c,
                stale@ == c.subrange(i as int, j as int),
            decreases children.len() - j,
        {
            stale.push(children[j]);
            j = j + 1;
        }
        let ghost root = scene.spec_root();
        let mut left = stale.len();
        proof {
            scene.lemma_depth_forest();
            assert(child_links_ok(m, parent));
            assert(m.dom().filter(|x: RenderNodeId| !under_any(m, c.subrange(i + left, c.len() as int), x)) =~= m.dom()) by {
                assert forall|x: RenderNodeId| !#[trigger] under_any(m, c.subrange(i + left, c.len() as int), x) by {
                }
            }
            assert(c.take(i + left) =~= c);
        }
        while left > 0
            invariant
                scene.wf(),
                scene.spec_root() == root,
                root == old(scene).spec_root(),
                m == old(scene)@,
                c.no_duplicates(),
                parent == self.spec_parent(),
                i == self.spec_cursor(),
                m.dom().contains(parent),
                i <= c.len(),
                stale@ == c.subrange(i as int, c.len() as int),
                c == m[parent].spec_children(),
                left <= stale.len(),
                forall|t: int| left <= t < stale.len() ==> stale@[t] != root,
                scene@.dom().contains(parent),
                scene@[parent].spec_children() == c.take(i + left),
                scene@.dom() == m.dom().filter(
                    |x: RenderNodeId| !under_any(m, c.subrange(i + left, c.len() as int), x),
                ),
                scene@[parent].parent == m[parent].parent,
                same_payload(m[parent].kind, scene@[parent].kind),
                forall|x: RenderNodeId|
                    #[trigger] scene@.dom().contains(x) && x != parent ==> scene@[x].kind == m[x].kind
                        && scene@[x].parent == m[x].parent,
            ensures
                forall|t: int| 0 <= t < stale.len() ==> stale@[t] != root,
                finished_shape(m, scene@, parent, i as int),
            decreases left,
        {
            left = left - 1;
            let node = stale[left];
            let ghost s = *scene;
            proof {
                scene.lemma_depth_forest();
                assert(child_links_ok(scene@, parent));
                assert(scene@[parent].spec_children()[i + left] == node);
            }
            let removed = scene.remove_subtree(node);
            if let Err(e) = removed {
                proof {
                    assert(stale@.contains(root)) by {
                        assert(stale@[left as int] == root);
                    }
                    assert(stale@.no_duplicates()) by {
                        assert forall|a: int, b: int| 0 <= a < b < stale@.len() implies stale@[a] != stale@[b] by {
                            assert(stale@[a] == c[i + a] && stale@[b] == c[i + b]);
                        }
                    }
                    lemma_index_of_unique(stale@, left as int);
                }
                return Err(e);
            }
            proof {
                lemma_finish_step(m, s, *scene, parent, i as int, left + 1);
            }
        }
        proof {
            if stale@.contains(root) {
                let t = choose|t: int| 0 <= t < stale@.len() && stale@[t] == root;
            }
        }
        Ok(())
    }

}

} // verus!
