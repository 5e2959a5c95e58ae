//! The mathematical model of the render scene: node maps, ancestry, the
//! structural well-formedness of parent and child links, and what marking a
//! node dirty does to it and to its ancestors.

use vstd::prelude::*;

use crate::dirty::{RenderDirty, RenderEpochs};
use crate::node_store::RenderNodeId;
use crate::scene::{LayerDescriptor, Primitive, RenderNode, RenderNodeKind, SceneError};

verus! {

pub type NodeMap = Map<RenderNodeId, RenderNode>;

/// The node `k` parent links above `x`, if the chain is that long.
pub open spec fn ancestor_at(m: NodeMap, x: RenderNodeId, k: nat) -> Option<RenderNodeId>
    decreases k,
{
    if k == 0 {
        Some(x)
    } else {
        match m[x].parent {
            Some(p) => ancestor_at(m, p, (k - 1) as nat),
            None => None,
        }
    }
}

/// `x` lies in the subtree rooted at `a` (possibly `x == a`).
pub open spec fn in_subtree(m: NodeMap, x: RenderNodeId, a: RenderNodeId) -> bool {
    exists|k: nat| ancestor_at(m, x, k) == Some(a)
}

/// Parent link of `x` agrees with its parent's children and with the depth map.
pub open spec fn parent_link_ok(m: NodeMap, d: Map<RenderNodeId, nat>, x: RenderNodeId) -> bool {
    match m[x].parent {
        Some(p) => m.dom().contains(p) && m[p].spec_children().contains(x) && d[x] == d[p] + 1,
        None => d[x] == 0,
    }
}

/// Every child of `x` is a live node whose parent is `x`, listed once.
pub open spec fn child_links_ok(m: NodeMap, x: RenderNodeId) -> bool {
    &&& m[x].spec_children().no_duplicates()
    &&& forall|i: int|
        #![trigger m[x].spec_children()[i]]
        0 <= i < m[x].spec_children().len() ==> m.dom().contains(m[x].spec_children()[i])
            && m[m[x].spec_children()[i]].parent == Some(x)
}

/// The node map is a forest: parent and child links agree, and the depth map
/// (distance to the top of each tree) witnesses that parent chains end.
pub open spec fn forest_wf(m: NodeMap, d: Map<RenderNodeId, nat>) -> bool {
    &&& m.dom().finite()
    &&& forall|x: RenderNodeId| #[trigger] m.dom().contains(x) ==> d.dom().contains(x)
    &&& forall|x: RenderNodeId| #[trigger] m.dom().contains(x) ==> parent_link_ok(m, d, x)
    &&& forall|x: RenderNodeId| #[trigger] m.dom().contains(x) ==> child_links_ok(m, x)
}

/// Two node maps with the same nodes and the same parent and child links.
pub open spec fn same_shape(m: NodeMap, m2: NodeMap) -> bool {
    &&& m2.dom() == m.dom()
    &&& forall|x: RenderNodeId|
        #[trigger] m2.dom().contains(x) ==> m2[x].parent == m[x].parent
            && m2[x].spec_children() == m[x].spec_children()
}

pub proof fn lemma_same_shape_ancestors(m: NodeMap, m2: NodeMap, x: RenderNodeId, k: nat)
    requires
        same_shape(m, m2),
        m.dom().contains(x),
        forall|y: RenderNodeId| #[trigger] m.dom().contains(y) ==> match m[y].parent {
            Some(p) => m.dom().contains(p),
            None => true,
        },
    ensures
        ancestor_at(m2, x, k) == ancestor_at(m, x, k),
    decreases k,
{
    if k > 0 {
        match m[x].parent {
            Some(p) => lemma_same_shape_ancestors(m, m2, p, (k - 1) as nat),
            None => {},
        }
    }
}

pub proof fn lemma_same_shape_wf(m: NodeMap, d: Map<RenderNodeId, nat>, m2: NodeMap)
    requires
        forest_wf(m, d),
        same_shape(m, m2),
    ensures
        forest_wf(m2, d),
{
    assert forall|x: RenderNodeId| #[trigger] m2.dom().contains(x) implies parent_link_ok(m2, d, x) by {
        assert(parent_link_ok(m, d, x));
        match m[x].parent {
            Some(p) => {
                assert(m2.dom().contains(p));
            },
            None => {},
        }
    }
    assert forall|x: RenderNodeId| #[trigger] m2.dom().contains(x) implies child_links_ok(m2, x) by {
        assert(child_links_ok(m, x));
        assert forall|i: int|
            0 <= i < m2[x].spec_children().len() implies m2.dom().contains(
            #[trigger] m2[x].spec_children()[i],
        ) && m2[m2[x].spec_children()[i]].parent == Some(x) by {
            assert(m.dom().contains(m[x].spec_children()[i]));
        }
    }
}

/// In a forest, every ancestor of a live node is live, `k` levels shallower.
pub proof fn lemma_ancestor_depth(
    m: NodeMap,
    d: Map<RenderNodeId, nat>,
    x: RenderNodeId,
    k: nat,
    a: RenderNodeId,
)
    requires
        forest_wf(m, d),
        m.dom().contains(x),
        ancestor_at(m, x, k) == Some(a),
    ensures
        m.dom().contains(a),
        d[a] + k == d[x],
    decreases k,
{
    if k > 0 {
        assert(parent_link_ok(m, d, x));
        match m[x].parent {
            Some(p) => lemma_ancestor_depth(m, d, p, (k - 1) as nat, a),
            None => {},
        }
    }
}

/// Once the parent chain has ended it stays ended.
pub proof fn lemma_ancestor_none(m: NodeMap, x: RenderNodeId, k: nat, j: nat)
    requires
        ancestor_at(m, x, k) is None,
        k <= j,
    ensures
        ancestor_at(m, x, j) is None,
    decreases k,
{
    if k > 0 {
        match m[x].parent {
            Some(p) => lemma_ancestor_none(m, p, (k - 1) as nat, (j - 1) as nat),
            None => {},
        }
    }
}

/// Going one level up: the chain above `x` at `k + 1` is the chain above its parent at `k`.
pub proof fn lemma_ancestor_step(m: NodeMap, x: RenderNodeId, k: nat)
    ensures
        ancestor_at(m, x, k + 1) == (match m[x].parent {
            Some(p) => ancestor_at(m, p, k),
            None => None,
        }),
{
}

/// A strict member of a subtree has its parent in the same subtree.
pub proof fn lemma_subtree_parent(m: NodeMap, x: RenderNodeId, a: RenderNodeId)
    requires
        in_subtree(m, x, a),
        x != a,
    ensures
        m[x].parent is Some,
        in_subtree(m, m[x].parent.unwrap(), a),
{
    let k = choose|k: nat| ancestor_at(m, x, k) == Some(a);
    assert(k > 0);
    assert(ancestor_at(m, m[x].parent.unwrap(), (k - 1) as nat) == Some(a));
}

/// A child of a subtree member is a subtree member.
pub proof fn lemma_subtree_child(m: NodeMap, x: RenderNodeId, p: RenderNodeId, a: RenderNodeId)
    requires
        m[x].parent == Some(p),
        in_subtree(m, p, a),
    ensures
        in_subtree(m, x, a),
{
    let k = choose|k: nat| ancestor_at(m, p, k) == Some(a);
    assert(ancestor_at(m, x, k + 1) == Some(a));
}

/// The depths after cutting `c` loose from its parent: its subtree moves up.
pub open spec fn depths_after_detach(m: NodeMap, d: Map<RenderNodeId, nat>, c: RenderNodeId) -> Map<
    RenderNodeId,
    nat,
> {
    Map::new(
        |x: RenderNodeId| d.dom().contains(x),
        |x: RenderNodeId|
            if in_subtree(m, x, c) {
                (d[x] - d[c]) as nat
            } else {
                d[x]
            },
    )
}

/// The depths after hanging parentless `c` under `p`: its subtree moves down.
pub open spec fn depths_after_attach(
    m: NodeMap,
    d: Map<RenderNodeId, nat>,
    c: RenderNodeId,
    p: RenderNodeId,
) -> Map<RenderNodeId, nat> {
    Map::new(
        |x: RenderNodeId| d.dom().contains(x),
        |x: RenderNodeId|
            if in_subtree(m, x, c) {
                d[x] + d[p] + 1
            } else {
                d[x]
            },
    )
}

/// Same node apart from its parent link.
pub open spec fn same_but_parent(a: RenderNode, b: RenderNode) -> bool {
    &&& a.kind == b.kind
    &&& a.visible == b.visible
    &&& a.dirty == b.dirty
    &&& a.subtree_dirty == b.subtree_dirty
    &&& a.epochs == b.epochs
    &&& a.dirty_enqueued == b.dirty_enqueued
}

/// Cutting `c` loose from its parent `p` keeps the forest well formed.
pub proof fn lemma_detach_wf(
    m: NodeMap,
    d: Map<RenderNodeId, nat>,
    p: RenderNodeId,
    c: RenderNodeId,
    m2: NodeMap,
)
    requires
        forest_wf(m, d),
        m.dom().contains(c),
        m[c].parent == Some(p),
        m2.dom() == m.dom(),
        m2[c].parent is None,
        m2[c].spec_children() == m[c].spec_children(),
        m2[p].parent == m[p].parent,
        m2[p].spec_children().no_duplicates(),
        m2[p].spec_children().to_set() == m[p].spec_children().to_set().remove(c),
        forall|x: RenderNodeId|
            #[trigger] m2.dom().contains(x) && x != p && x != c ==> m2[x].parent == m[x].parent
                && m2[x].spec_children() == m[x].spec_children(),
    ensures
        forest_wf(m2, depths_after_detach(m, d, c)),
        forall|x: RenderNodeId|
            m.dom().contains(x) ==> (#[trigger] in_subtree(m2, x, c) <==> in_subtree(m, x, c)),
{
    let d2 = depths_after_detach(m, d, c);
    assert(p != c) by {
        assert(parent_link_ok(m, d, c));
    }
    assert(in_subtree(m, c, c)) by {
        assert(ancestor_at(m, c, 0) == Some(c));
    }
    assert forall|x: RenderNodeId| #[trigger] m2.dom().contains(x) implies parent_link_ok(m2, d2, x) by {
        assert(parent_link_ok(m, d, x));
        if x == c {
        } else {
            match m[x].parent {
                Some(q) => {
                    assert(m[q].spec_children().contains(x));
                    if q == p {
                        assert(m[p].spec_children().to_set().contains(x));
                        assert(m2[p].spec_children().to_set().contains(x));
                    }
                    if in_subtree(m, x, c) {
                        lemma_subtree_parent(m, x, c);
                        let k = choose|k: nat| ancestor_at(m, x, k) == Some(c);
                        lemma_ancestor_depth(m, d, x, k, c);
                    } else {
                        if in_subtree(m, q, c) {
                            lemma_subtree_child(m, x, q, c);
                        }
                    }
                },
                None => {
                    if in_subtree(m, x, c) {
                        lemma_subtree_parent(m, x, c);
                    }
                },
            }
        }
    }
    assert forall|x: RenderNodeId| #[trigger] m2.dom().contains(x) implies child_links_ok(m2, x) by {
        assert(child_links_ok(m, x));
        if x == p {
            assert forall|i: int|
                0 <= i < m2[x].spec_children().len() implies m2.dom().contains(
                #[trigger] m2[x].spec_children()[i],
            ) && m2[m2[x].spec_children()[i]].parent == Some(x) by {
                let y = m2[x].spec_children()[i];
                assert(m2[p].spec_children().to_set().contains(y));
                assert(m[p].spec_children().contains(y));
                let j = choose|j: int|
                    0 <= j < m[p].spec_children().len() && m[p].spec_children()[j] == y;
                assert(m.dom().contains(m[p].spec_children()[j]));
            }
        } else {
            assert forall|i: int|
                0 <= i < m2[x].spec_children().len() implies m2.dom().contains(
                #[trigger] m2[x].spec_children()[i],
            ) && m2[m2[x].spec_children()[i]].parent == Some(x) by {
                let y = m[x].spec_children()[i];
                assert(m.dom().contains(y));
                if y == c {
                    assert(m[c].parent == Some(x));
                }
            }
        }
    }
    assert forall|x: RenderNodeId|
        m.dom().contains(x) implies (#[trigger] in_subtree(m2, x, c) <==> in_subtree(m, x, c)) by {
        if in_subtree(m, x, c) {
            let k = choose|k: nat| ancestor_at(m, x, k) == Some(c);
            lemma_detach_chain_below(m, d, m2, p, c, x, k);
        }
        if in_subtree(m2, x, c) {
            let k = choose|k: nat| ancestor_at(m2, x, k) == Some(c);
            lemma_detach_chain_back(m, d, m2, p, c, x, k);
        }
    }
}

/// Below `c`, parent chains are untouched by cutting `c` loose.
proof fn lemma_detach_chain_below(
    m: NodeMap,
    d: Map<RenderNodeId, nat>,
    m2: NodeMap,
    p: RenderNodeId,
    c: RenderNodeId,
    x: RenderNodeId,
    k: nat,
)
    requires
        forest_wf(m, d),
        m.dom().contains(x),
        ancestor_at(m, x, k) == Some(c),
        m2[c].parent is None,
        forall|y: RenderNodeId|
            #[trigger] m2.dom().contains(y) && y != p && y != c ==> m2[y].parent == m[y].parent,
        m2.dom() == m.dom(),
        m[c].parent == Some(p),
    ensures
        ancestor_at(m2, x, k) == Some(c),
    decreases k,
{
    if k > 0 {
        assert(parent_link_ok(m, d, x));
        let q = m[x].parent.unwrap();
        if x == p {
            // p sits above c, so c cannot be above p
            lemma_ancestor_depth(m, d, x, k, c);
            assert(parent_link_ok(m, d, c));
            assert(false);
        }
        if x == c {
            lemma_ancestor_depth(m, d, x, k, c);
            assert(false);
        }
        lemma_detach_chain_below(m, d, m2, p, c, q, (k - 1) as nat);
    }
}

/// A chain reaching `c` after the cut reached it before the cut.
proof fn lemma_detach_chain_back(
    m: NodeMap,
    d: Map<RenderNodeId, nat>,
    m2: NodeMap,
    p: RenderNodeId,
    c: RenderNodeId,
    x: RenderNodeId,
    k: nat,
)
    requires
        forest_wf(m, d),
        m.dom().contains(x),
        ancestor_at(m2, x, k) == Some(c),
        m2[c].parent is None,
        forall|y: RenderNodeId|
            #[trigger] m2.dom().contains(y) && y != p && y != c ==> m2[y].parent == m[y].parent,
        m2.dom() == m.dom(),
        m2[p].parent == m[p].parent,
    ensures
        ancestor_at(m, x, k) == Some(c),
    decreases k,
{
    if k > 0 {
        if x == c {
            assert(ancestor_at(m2, x, k) is None);
        } else {
            assert(m2[x].parent == m[x].parent);
            assert(parent_link_ok(m, d, x));
            match m[x].parent {
                Some(q) => lemma_detach_chain_back(m, d, m2, p, c, q, (k - 1) as nat),
                None => {},
            }
        }
    }
}

/// Hanging parentless `c` under `p`, where `p` is not inside `c`'s subtree,
/// keeps the forest well formed.
pub proof fn lemma_attach_wf(
    m: NodeMap,
    d: Map<RenderNodeId, nat>,
    p: RenderNodeId,
    c: RenderNodeId,
    m2: NodeMap,
)
    requires
        forest_wf(m, d),
        m.dom().contains(c),
        m.dom().contains(p),
        m[c].parent is None,
        !in_subtree(m, p, c),
        m2.dom() == m.dom(),
        m2[c].parent == Some(p),
        m2[c].spec_children() == m[c].spec_children(),
        m2[p].parent == m[p].parent,
        m2[p].spec_children().no_duplicates(),
        m2[p].spec_children().to_set() == m[p].spec_children().to_set().insert(c),
        forall|x: RenderNodeId|
            #[trigger] m2.dom().contains(x) && x != p && x != c ==> m2[x].parent == m[x].parent
                && m2[x].spec_children() == m[x].spec_children(),
    ensures
        forest_wf(m2, depths_after_attach(m, d, c, p)),
{
    let d2 = depths_after_attach(m, d, c, p);
    assert(in_subtree(m, c, c)) by {
        assert(ancestor_at(m, c, 0) == Some(c));
    }
    assert(p != c);
    assert forall|x: RenderNodeId| #[trigger] m2.dom().contains(x) implies parent_link_ok(m2, d2, x) by {
        assert(parent_link_ok(m, d, x));
        if x == c {
            assert(m2[p].spec_children().to_set().contains(c));
        } else {
            match m[x].parent {
                Some(q) => {
                    assert(m[q].spec_children().contains(x));
                    if q == p {
                        assert(m[p].spec_children().to_set().contains(x));
                        assert(m2[p].spec_children().to_set().contains(x));
                    }
                    if in_subtree(m, x, c) {
                        lemma_subtree_parent(m, x, c);
                    } else {
                        if in_subtree(m, q, c) {
                            lemma_subtree_child(m, x, q, c);
                        }
                    }
                },
                None => {
                    if in_subtree(m, x, c) {
                        lemma_subtree_parent(m, x, c);
                    }
                },
            }
        }
    }
    assert forall|x: RenderNodeId| #[trigger] m2.dom().contains(x) implies child_links_ok(m2, x) by {
        assert(child_links_ok(m, x));
        if x == p {
            assert forall|i: int|
                0 <= i < m2[x].spec_children().len() implies m2.dom().contains(
                #[trigger] m2[x].spec_children()[i],
            ) && m2[m2[x].spec_children()[i]].parent == Some(x) by {
                let y = m2[x].spec_children()[i];
                assert(m2[p].spec_children().to_set().contains(y));
                if y != c {
                    assert(m[p].spec_children().to_set().contains(y));
                    assert(m[p].spec_children().contains(y));
                    let j = choose|j: int|
                        0 <= j < m[p].spec_children().len() && m[p].spec_children()[j] == y;
                    assert(m.dom().contains(m[p].spec_children()[j]));
                }
            }
        } else {
            assert forall|i: int|
                0 <= i < m2[x].spec_children().len() implies m2.dom().contains(
                #[trigger] m2[x].spec_children()[i],
            ) && m2[m2[x].spec_children()[i]].parent == Some(x) by {
                let y = m[x].spec_children()[i];
                assert(m.dom().contains(y));
            }
        }
    }
}

/// The ancestors of `x` at distances `0..n`.
pub open spec fn ancestor_set(m: NodeMap, x: RenderNodeId, n: nat) -> Set<RenderNodeId>
    decreases n,
{
    if n == 0 {
        Set::empty()
    } else {
        ancestor_set(m, x, (n - 1) as nat).insert(ancestor_at(m, x, (n - 1) as nat).unwrap())
    }
}

proof fn lemma_ancestor_set(m: NodeMap, d: Map<RenderNodeId, nat>, x: RenderNodeId, n: nat)
    requires
        forest_wf(m, d),
        m.dom().contains(x),
        n <= d[x] + 1,
    ensures
        ancestor_set(m, x, n).finite(),
        ancestor_set(m, x, n).len() == n,
        ancestor_set(m, x, n).subset_of(m.dom()),
        forall|y: RenderNodeId| #[trigger] ancestor_set(m, x, n).contains(y) ==> d[y] + n > d[x],
    decreases n,
{
    if n > 0 {
        let k = (n - 1) as nat;
        lemma_ancestor_set(m, d, x, k);
        lemma_ancestor_exists(m, d, x, k);
        let a = ancestor_at(m, x, k).unwrap();
        lemma_ancestor_depth(m, d, x, k, a);
        assert(!ancestor_set(m, x, k).contains(a));
    }
}

/// Above a live node there are live ancestors at every distance up to its depth.
pub proof fn lemma_ancestor_exists(m: NodeMap, d: Map<RenderNodeId, nat>, x: RenderNodeId, k: nat)
    requires
        forest_wf(m, d),
        m.dom().contains(x),
        k <= d[x],
    ensures
        ancestor_at(m, x, k) is Some,
    decreases k,
{
    if k > 0 {
        assert(parent_link_ok(m, d, x));
        let p = m[x].parent.unwrap();
        lemma_ancestor_exists(m, d, p, (k - 1) as nat);
    }
}

/// A node's depth is smaller than the number of live nodes.
pub proof fn lemma_depth_bound(m: NodeMap, d: Map<RenderNodeId, nat>, x: RenderNodeId)
    requires
        forest_wf(m, d),
        m.dom().contains(x),
    ensures
        d[x] < m.dom().len(),
{
    lemma_ancestor_set(m, d, x, d[x] + 1);
    vstd::set_lib::lemma_len_subset(ancestor_set(m, x, d[x] + 1), m.dom());
}

/// The revision that follows `r`; zero is skipped when the counter wraps.
pub open spec fn next_revision(r: u64) -> u64 {
    if r == u64::MAX {
        1
    } else {
        (r + 1) as u64
    }
}

pub open spec fn dirty_union(a: RenderDirty, b: RenderDirty) -> RenderDirty {
    RenderDirty { bits: a.bits | b.bits }
}

/// The ancestor `j` levels above `id` already summarizes `d` (or there is none).
pub open spec fn propagation_blocked(m: NodeMap, id: RenderNodeId, j: nat, d: RenderDirty) -> bool {
    match ancestor_at(m, id, j) {
        Some(a) => m[a].subtree_dirty.spec_contains(d),
        None => true,
    }
}

/// `x` is a strict ancestor of `id` below the first ancestor that already
/// summarizes `d`: marking `id` adds `d` to its subtree summary.
pub open spec fn on_dirty_path(m: NodeMap, id: RenderNodeId, d: RenderDirty, x: RenderNodeId) -> bool {
    exists|k: nat|
        #![trigger ancestor_at(m, id, k)]
        k >= 1 && ancestor_at(m, id, k) == Some(x) && forall|j: nat|
            1 <= j <= k ==> !#[trigger] propagation_blocked(m, id, j, d)
}

/// A node after being marked dirty with `d` at revision `rev`.
pub open spec fn marked_node(n: RenderNode, d: RenderDirty, rev: u64) -> RenderNode {
    RenderNode {
        dirty: dirty_union(n.dirty, d),
        subtree_dirty: dirty_union(n.subtree_dirty, d),
        epochs: n.epochs.spec_mark(d, rev),
        dirty_enqueued: true,
        ..n
    }
}

/// A node whose subtree summary gains `d`.
pub open spec fn summary_marked(n: RenderNode, d: RenderDirty) -> RenderNode {
    RenderNode { subtree_dirty: dirty_union(n.subtree_dirty, d), ..n }
}

/// The nodes after marking `id` dirty with `d` at revision `rev`: `id` gains
/// the flags, the epoch stamps and its queue mark; its ancestors gain `d` in
/// their subtree summaries up to the first that already had it.
pub open spec fn dirty_marked(m: NodeMap, id: RenderNodeId, d: RenderDirty, rev: u64) -> NodeMap {
    Map::new(
        |x: RenderNodeId| m.dom().contains(x),
        |x: RenderNodeId|
            if x == id {
                marked_node(m[x], d, rev)
            } else if on_dirty_path(m, id, d, x) {
                summary_marked(m[x], d)
            } else {
                m[x]
            },
    )
}

/// `x` is one of the ancestors of `id` at distances `1..k`.
pub open spec fn below_k(m: NodeMap, id: RenderNodeId, x: RenderNodeId, k: nat) -> bool {
    exists|j: nat| #![trigger ancestor_at(m, id, j)] 1 <= j < k && ancestor_at(m, id, j) == Some(x)
}

/// The nodes while marking is under way: `id` is marked and the ancestors at
/// distances `1..k` have their summaries widened.
pub open spec fn partial_marked(m: NodeMap, id: RenderNodeId, d: RenderDirty, rev: u64, k: nat) -> NodeMap {
    Map::new(
        |x: RenderNodeId| m.dom().contains(x),
        |x: RenderNodeId|
            if x == id {
                marked_node(m[x], d, rev)
            } else if below_k(m, id, x, k) {
                summary_marked(m[x], d)
            } else {
                m[x]
            },
    )
}

pub proof fn lemma_missing_empty(d: RenderDirty, s: RenderDirty)
    ensures
        (d.bits & !s.bits == 0) == s.spec_contains(d),
{
    let a = d.bits;
    let b = s.bits;
    assert((a & !b == 0) == (b & a == a)) by (bit_vector);
}

/// The ancestor at distance `k` has not been touched yet.
pub proof fn lemma_partial_untouched(
    m: NodeMap,
    dm: Map<RenderNodeId, nat>,
    id: RenderNodeId,
    d: RenderDirty,
    rev: u64,
    k: nat,
    p: RenderNodeId,
)
    requires
        forest_wf(m, dm),
        m.dom().contains(id),
        k >= 1,
        ancestor_at(m, id, k) == Some(p),
    ensures
        m.dom().contains(p),
        p != id,
        !below_k(m, id, p, k),
        partial_marked(m, id, d, rev, k)[p] == m[p],
{
    lemma_ancestor_depth(m, dm, id, k, p);
    if below_k(m, id, p, k) {
        let j = choose|j: nat| 1 <= j < k && ancestor_at(m, id, j) == Some(p);
        lemma_ancestor_depth(m, dm, id, j, p);
    }
}

pub proof fn lemma_ancestor_hop(m: NodeMap, id: RenderNodeId, k: nat, p: RenderNodeId)
    requires
        ancestor_at(m, id, k) == Some(p),
    ensures
        ancestor_at(m, id, k + 1) == ancestor_at(m, p, 1),
    decreases k,
{
    if k > 0 {
        match m[id].parent {
            Some(q) => {
                lemma_ancestor_hop(m, q, (k - 1) as nat, p);
            },
            None => {},
        }
    }
}

/// Widening the summary of the ancestor at distance `k` extends the partial marking to `k + 1`.
pub proof fn lemma_partial_advance(
    m: NodeMap,
    dm: Map<RenderNodeId, nat>,
    id: RenderNodeId,
    d: RenderDirty,
    rev: u64,
    k: nat,
    p: RenderNodeId,
)
    requires
        forest_wf(m, dm),
        m.dom().contains(id),
        k >= 1,
        ancestor_at(m, id, k) == Some(p),
    ensures
        partial_marked(m, id, d, rev, k).insert(p, summary_marked(m[p], d)) == partial_marked(
            m,
            id,
            d,
            rev,
            k + 1,
        ),
{
    lemma_partial_untouched(m, dm, id, d, rev, k, p);
    let a = partial_marked(m, id, d, rev, k).insert(p, summary_marked(m[p], d));
    let b = partial_marked(m, id, d, rev, k + 1);
    assert forall|x: RenderNodeId| #[trigger] a.dom().contains(x) implies a[x] == b[x] by {
        if x == p {
            assert(below_k(m, id, x, k + 1));
        } else {
            if below_k(m, id, x, k + 1) {
                let j = choose|j: nat| 1 <= j < k + 1 && ancestor_at(m, id, j) == Some(x);
                assert(j != k);
                assert(below_k(m, id, x, k));
            }
            if below_k(m, id, x, k) {
                let j = choose|j: nat| 1 <= j < k && ancestor_at(m, id, j) == Some(x);
                assert(below_k(m, id, x, k + 1));
            }
        }
    }
    assert(a =~= b);
}

/// When the walk stops at distance `k` (no ancestor there, or it already has
/// the flags), the partial marking is the full marking.
pub proof fn lemma_partial_final(
    m: NodeMap,
    dm: Map<RenderNodeId, nat>,
    id: RenderNodeId,
    d: RenderDirty,
    rev: u64,
    k: nat,
)
    requires
        forest_wf(m, dm),
        m.dom().contains(id),
        k >= 1,
        propagation_blocked(m, id, k, d),
        forall|j: nat| 1 <= j < k ==> !#[trigger] propagation_blocked(m, id, j, d),
    ensures
        partial_marked(m, id, d, rev, k) == dirty_marked(m, id, d, rev),
{
    let a = partial_marked(m, id, d, rev, k);
    let b = dirty_marked(m, id, d, rev);
    assert forall|x: RenderNodeId| #[trigger] a.dom().contains(x) implies a[x] == b[x] by {
        if x != id {
            if below_k(m, id, x, k) {
                let j = choose|j: nat| 1 <= j < k && ancestor_at(m, id, j) == Some(x);
                assert forall|i: nat| 1 <= i <= j implies !#[trigger] propagation_blocked(m, id, i, d) by {}
                assert(on_dirty_path(m, id, d, x));
            }
            if on_dirty_path(m, id, d, x) {
                let j = choose|j: nat|
                    #![trigger ancestor_at(m, id, j)]
                    j >= 1 && ancestor_at(m, id, j) == Some(x) && forall|i: nat|
                        1 <= i <= j ==> !#[trigger] propagation_blocked(m, id, i, d);
                if j >= k {
                    assert(!propagation_blocked(m, id, k, d));
                }
                assert(below_k(m, id, x, k));
            }
        }
    }
    assert(a =~= b);
}

/// Marking changes no parent or child link.
pub proof fn lemma_marked_shape(m: NodeMap, id: RenderNodeId, d: RenderDirty, rev: u64)
    requires
        m.dom().contains(id),
    ensures
        same_shape(m, dirty_marked(m, id, d, rev)),
{
    assert(dirty_marked(m, id, d, rev).dom() =~= m.dom());
}

/// Why hanging `child` under `parent` is refused, if it is.
pub open spec fn attach_error(m: NodeMap, parent: RenderNodeId, child: RenderNodeId) -> Option<SceneError> {
    if !m.dom().contains(parent) {
        Some(SceneError::MissingNode(parent))
    } else if !m.dom().contains(child) {
        Some(SceneError::MissingNode(child))
    } else if m[child].parent == Some(parent) {
        Some(SceneError::DuplicateChild { parent, child })
    } else if m[child].parent is Some {
        Some(SceneError::AlreadyHasParent(child))
    } else if in_subtree(m, parent, child) {
        Some(SceneError::CycleDetected { parent, child })
    } else {
        None
    }
}

/// The error of using the child-list API on a node that is not a group.
pub open spec fn group_error(m: NodeMap, id: RenderNodeId) -> Option<SceneError> {
    if !m.dom().contains(id) {
        Some(SceneError::MissingNode(id))
    } else {
        match m[id].kind {
            RenderNodeKind::Group(_) => None,
            RenderNodeKind::Primitive(_) => Some(SceneError::NodeCannotHaveChildren(id)),
            _ => Some(SceneError::UseSingleChildApi(id)),
        }
    }
}

/// The node with its parent link replaced.
pub open spec fn with_parent(n: RenderNode, p: Option<RenderNodeId>) -> RenderNode {
    RenderNode { parent: p, ..n }
}

/// `b` is `a` with its children (and nothing else) replaced by `s`.
pub open spec fn same_but_children(a: RenderNode, b: RenderNode, s: Seq<RenderNodeId>) -> bool {
    &&& b.parent == a.parent
    &&& b.visible == a.visible
    &&& b.dirty == a.dirty
    &&& b.subtree_dirty == a.subtree_dirty
    &&& b.epochs == a.epochs
    &&& b.dirty_enqueued == a.dirty_enqueued
    &&& b.spec_children() == s
    &&& match (a.kind, b.kind) {
        (RenderNodeKind::Group(_), RenderNodeKind::Group(_)) => true,
        (RenderNodeKind::Transform(x), RenderNodeKind::Transform(y)) => x.transform == y.transform,
        (RenderNodeKind::Clip(x), RenderNodeKind::Clip(y)) => x.clip == y.clip,
        (RenderNodeKind::Layer(x), RenderNodeKind::Layer(y)) => x.descriptor == y.descriptor,
        _ => false,
    }
}

/// `m1` is `m` with `p`'s children replaced by `s` and the parent links of
/// the nodes in `ups` set as it says.
pub open spec fn relinked(
    m: NodeMap,
    m1: NodeMap,
    p: RenderNodeId,
    s: Seq<RenderNodeId>,
    ups: Map<RenderNodeId, Option<RenderNodeId>>,
) -> bool {
    &&& m1.dom() == m.dom()
    &&& !ups.dom().contains(p)
    &&& same_but_children(m[p], m1[p], s)
    &&& forall|x: RenderNodeId|
        #[trigger] m1.dom().contains(x) && x != p ==> m1[x] == if ups.dom().contains(x) {
            with_parent(m[x], ups[x])
        } else {
            m[x]
        }
}

/// Permuting `p`'s children keeps the forest well formed.
pub proof fn lemma_reorder_wf(m: NodeMap, d: Map<RenderNodeId, nat>, p: RenderNodeId, m2: NodeMap)
    requires
        forest_wf(m, d),
        m.dom().contains(p),
        m2.dom() == m.dom(),
        m2[p].parent == m[p].parent,
        m2[p].spec_children().no_duplicates(),
        m2[p].spec_children().to_set() == m[p].spec_children().to_set(),
        forall|x: RenderNodeId|
            #[trigger] m2.dom().contains(x) && x != p ==> m2[x].parent == m[x].parent
                && m2[x].spec_children() == m[x].spec_children(),
    ensures
        forest_wf(m2, d),
{
    assert forall|x: RenderNodeId| #[trigger] m2.dom().contains(x) implies parent_link_ok(m2, d, x) by {
        assert(parent_link_ok(m, d, x));
        match m[x].parent {
            Some(q) => {
                if q == p {
                    assert(m[p].spec_children().to_set().contains(x));
                    assert(m2[p].spec_children().to_set().contains(x));
                }
            },
            None => {},
        }
    }
    assert forall|x: RenderNodeId| #[trigger] m2.dom().contains(x) implies child_links_ok(m2, x) by {
        assert(child_links_ok(m, x));
        assert forall|i: int|
            0 <= i < m2[x].spec_children().len() implies m2.dom().contains(
            #[trigger] m2[x].spec_children()[i],
        ) && m2[m2[x].spec_children()[i]].parent == Some(x) by {
            let y = m2[x].spec_children()[i];
            if x == p {
                assert(m2[p].spec_children().to_set().contains(y));
                assert(m[p].spec_children().contains(y));
                let j = choose|j: int| 0 <= j < m[p].spec_children().len() && m[p].spec_children()[j] == y;
                assert(m.dom().contains(m[p].spec_children()[j]));
            } else {
                assert(m.dom().contains(m[x].spec_children()[i]));
            }
        }
    }
}

/// The depths after `c` takes the place of `p`'s child `o`.
pub open spec fn depths_after_replace(
    m: NodeMap,
    d: Map<RenderNodeId, nat>,
    p: RenderNodeId,
    o: RenderNodeId,
    c: RenderNodeId,
) -> Map<RenderNodeId, nat> {
    Map::new(
        |x: RenderNodeId| d.dom().contains(x),
        |x: RenderNodeId|
            if in_subtree(m, x, o) {
                (d[x] - d[o]) as nat
            } else if in_subtree(m, x, c) {
                d[x] + d[p] + 1
            } else {
                d[x]
            },
    )
}

/// Putting parentless `c` in the place of `p`'s child `o` (with `p` not
/// inside `c`'s subtree) keeps the forest well formed.
pub proof fn lemma_replace_wf(
    m: NodeMap,
    d: Map<RenderNodeId, nat>,
    p: RenderNodeId,
    o: RenderNodeId,
    c: RenderNodeId,
    m2: NodeMap,
)
    requires
        forest_wf(m, d),
        m.dom().contains(o),
        m.dom().contains(c),
        m.dom().contains(p),
        m[o].parent == Some(p),
        m[c].parent is None,
        !in_subtree(m, p, c),
        o != c,
        m2.dom() == m.dom(),
        m2[o].parent is None,
        m2[o].spec_children() == m[o].spec_children(),
        m2[c].parent == Some(p),
        m2[c].spec_children() == m[c].spec_children(),
        m2[p].parent == m[p].parent,
        m2[p].spec_children().no_duplicates(),
        m2[p].spec_children().to_set() == m[p].spec_children().to_set().remove(o).insert(c),
        forall|x: RenderNodeId|
            #[trigger] m2.dom().contains(x) && x != p && x != c && x != o ==> m2[x].parent
                == m[x].parent && m2[x].spec_children() == m[x].spec_children(),
    ensures
        forest_wf(m2, depths_after_replace(m, d, p, o, c)),
{
    let d2 = depths_after_replace(m, d, p, o, c);
    assert(in_subtree(m, c, c)) by {
        assert(ancestor_at(m, c, 0) == Some(c));
    }
    assert(in_subtree(m, o, o)) by {
        assert(ancestor_at(m, o, 0) == Some(o));
    }
    assert(p != c);
    assert(parent_link_ok(m, d, o));
    assert(p != o);
    assert(!in_subtree(m, c, o)) by {
        if in_subtree(m, c, o) {
            lemma_subtree_parent(m, c, o);
        }
    }
    assert(!in_subtree(m, p, o)) by {
        if in_subtree(m, p, o) {
            let k = choose|k: nat| ancestor_at(m, p, k) == Some(o);
            lemma_ancestor_depth(m, d, p, k, o);
        }
    }
    assert forall|x: RenderNodeId| #[trigger] m2.dom().contains(x) implies parent_link_ok(m2, d2, x) by {
        assert(parent_link_ok(m, d, x));
        if x == c {
            assert(m2[p].spec_children().to_set().contains(c));
        } else if x == o {
        } else {
            match m[x].parent {
                Some(q) => {
                    assert(m[q].spec_children().contains(x));
                    if q == p {
                        assert(m[p].spec_children().to_set().contains(x));
                        assert(m2[p].spec_children().to_set().contains(x));
                    }
                    if in_subtree(m, x, o) {
                        lemma_subtree_parent(m, x, o);
                        let k = choose|k: nat| ancestor_at(m, x, k) == Some(o);
                        lemma_ancestor_depth(m, d, x, k, o);
                    } else {
                        if in_subtree(m, q, o) {
                            lemma_subtree_child(m, x, q, o);
                        }
                        if in_subtree(m, x, c) {
                            lemma_subtree_parent(m, x, c);
                        } else if in_subtree(m, q, c) {
                            lemma_subtree_child(m, x, q, c);
                        }
                    }
                },
                None => {
                    if in_subtree(m, x, o) {
                        lemma_subtree_parent(m, x, o);
                    }
                    if in_subtree(m, x, c) {
                        lemma_subtree_parent(m, x, c);
                    }
                },
            }
        }
    }
    assert forall|x: RenderNodeId| #[trigger] m2.dom().contains(x) implies child_links_ok(m2, x) by {
        assert(child_links_ok(m, x));
        if x == p {
            assert forall|i: int|
                0 <= i < m2[x].spec_children().len() implies m2.dom().contains(
                #[trigger] m2[x].spec_children()[i],
            ) && m2[m2[x].spec_children()[i]].parent == Some(x) by {
                let y = m2[x].spec_children()[i];
                assert(m2[p].spec_children().to_set().contains(y));
                if y != c {
                    assert(m[p].spec_children().to_set().contains(y));
                    assert(m[p].spec_children().contains(y));
                    let j = choose|j: int|
                        0 <= j < m[p].spec_children().len() && m[p].spec_children()[j] == y;
                    assert(m.dom().contains(m[p].spec_children()[j]));
                }
            }
        } else {
            assert forall|i: int|
                0 <= i < m2[x].spec_children().len() implies m2.dom().contains(
                #[trigger] m2[x].spec_children()[i],
            ) && m2[m2[x].spec_children()[i]].parent == Some(x) by {
                let y = m[x].spec_children()[i];
                assert(m.dom().contains(y));
            }
        }
    }
}

/// The single child slot of a transform, clip or layer node.
pub open spec fn single_child_of(n: RenderNode) -> Option<RenderNodeId> {
    match n.kind {
        RenderNodeKind::Transform(t) => t.child,
        RenderNodeKind::Clip(c) => c.child,
        RenderNodeKind::Layer(l) => l.child,
        _ => None,
    }
}

/// The error of using the single-child API on a node without a child slot.
pub open spec fn single_child_error(m: NodeMap, id: RenderNodeId) -> Option<SceneError> {
    if !m.dom().contains(id) {
        Some(SceneError::MissingNode(id))
    } else {
        match m[id].kind {
            RenderNodeKind::Primitive(_) => Some(SceneError::NodeCannotHaveChildren(id)),
            RenderNodeKind::Group(_) => Some(SceneError::UseGroupChildrenApi(id)),
            _ => None,
        }
    }
}

/// Parent-link changes of swapping child `old` for child `new` under `p`.
pub open spec fn swap_updates(
    old: Option<RenderNodeId>,
    new: Option<RenderNodeId>,
    p: RenderNodeId,
) -> Map<RenderNodeId, Option<RenderNodeId>> {
    let a = match old {
        Some(o) => map![o => None],
        None => Map::empty(),
    };
    match new {
        Some(c) => a.insert(c, Some(p)),
        None => a,
    }
}

/// Why removing the link from `parent` to `child` is refused, if it is.
pub open spec fn unlink_error(m: NodeMap, parent: RenderNodeId, child: RenderNodeId) -> Option<SceneError> {
    if !m.dom().contains(parent) {
        Some(SceneError::MissingNode(parent))
    } else {
        match m[parent].kind {
            RenderNodeKind::Primitive(_) => Some(SceneError::NodeCannotHaveChildren(parent)),
            _ => if m[parent].spec_children().contains(child) {
                None
            } else {
                Some(SceneError::ChildNotFound { parent, child })
            },
        }
    }
}

/// Inserting a new element into a duplicate-free sequence keeps it
/// duplicate-free and adds it to its set.
pub proof fn lemma_insert_to_set<A>(s: Seq<A>, i: int, x: A)
    requires
        0 <= i <= s.len(),
        s.no_duplicates(),
        !s.contains(x),
    ensures
        s.insert(i, x).no_duplicates(),
        s.insert(i, x).to_set() == s.to_set().insert(x),
{
    let t = s.insert(i, x);
    assert forall|a: int, b: int| 0 <= a < t.len() && 0 <= b < t.len() && a != b implies t[a] != t[b] by {
        if a < i && b < i {
        } else if a == i || b == i {
            if a != i {
                assert(s.contains(t[a])) by {
                    if a < i {
                        assert(s[a] == t[a]);
                    } else {
                        assert(s[a - 1] == t[a]);
                    }
                }
            }
            if b != i {
                assert(s.contains(t[b])) by {
                    if b < i {
                        assert(s[b] == t[b]);
                    } else {
                        assert(s[b - 1] == t[b]);
                    }
                }
            }
        } else {
            let a2 = if a < i { a } else { a - 1 };
            let b2 = if b < i { b } else { b - 1 };
            assert(t[a] == s[a2] && t[b] == s[b2]);
        }
    }
    assert forall|y: A| t.to_set().contains(y) <==> s.to_set().insert(x).contains(y) by {
        if t.contains(y) {
            let a = choose|a: int| 0 <= a < t.len() && t[a] == y;
            if a < i {
                assert(s[a] == y);
            } else if a > i {
                assert(s[a - 1] == y);
            }
        }
        if s.contains(y) {
            let a = choose|a: int| 0 <= a < s.len() && s[a] == y;
            if a < i {
                assert(t[a] == y);
            } else {
                assert(t[a + 1] == y);
            }
        }
        if y == x {
            assert(t[i] == x);
        }
    }
    assert(t.to_set() =~= s.to_set().insert(x));
}

/// Removing an element from a duplicate-free sequence keeps it duplicate-free
/// and takes exactly that element out of its set.
pub proof fn lemma_remove_to_set<A>(s: Seq<A>, i: int)
    requires
        0 <= i < s.len(),
        s.no_duplicates(),
    ensures
        s.remove(i).no_duplicates(),
        s.remove(i).to_set() == s.to_set().remove(s[i]),
        !s.remove(i).contains(s[i]),
{
    let t = s.remove(i);
    assert forall|a: int, b: int| 0 <= a < t.len() && 0 <= b < t.len() && a != b implies t[a] != t[b] by {
        let a2 = if a < i { a } else { a + 1 };
        let b2 = if b < i { b } else { b + 1 };
        assert(t[a] == s[a2] && t[b] == s[b2]);
    }
    assert forall|y: A| t.to_set().contains(y) <==> s.to_set().remove(s[i]).contains(y) by {
        if t.contains(y) {
            let a = choose|a: int| 0 <= a < t.len() && t[a] == y;
            let a2 = if a < i { a } else { a + 1 };
            assert(s[a2] == y);
        }
        if s.contains(y) && y != s[i] {
            let a = choose|a: int| 0 <= a < s.len() && s[a] == y;
            if a < i {
                assert(t[a] == y);
            } else {
                assert(t[a - 1] == y);
            }
        }
    }
    assert(t.to_set() =~= s.to_set().remove(s[i]));
    if t.contains(s[i]) {
        let a = choose|a: int| 0 <= a < t.len() && t[a] == s[i];
        let a2 = if a < i { a } else { a + 1 };
        assert(s[a2] == s[i]);
    }
}

/// Replacing an element of a duplicate-free sequence by a new one.
pub proof fn lemma_update_to_set(s: Seq<RenderNodeId>, i: int, x: RenderNodeId)
    requires
        0 <= i < s.len(),
        s.no_duplicates(),
        !s.contains(x),
    ensures
        s.update(i, x).no_duplicates(),
        s.update(i, x).to_set() == s.to_set().remove(s[i]).insert(x),
{
    let t = s.update(i, x);
    assert forall|a: int, b: int| 0 <= a < t.len() && 0 <= b < t.len() && a != b implies t[a] != t[b] by {
        if a != i && b != i {
        } else if a == i {
            assert(s.contains(s[b]));
        } else {
            assert(s.contains(s[a]));
        }
    }
    assert forall|y: RenderNodeId| t.to_set().contains(y) <==> s.to_set().remove(s[i]).insert(x).contains(y) by {
        if t.contains(y) {
            let a = choose|a: int| 0 <= a < t.len() && t[a] == y;
            if a != i {
                assert(s[a] == y);
            }
        }
        if s.contains(y) && y != s[i] {
            let a = choose|a: int| 0 <= a < s.len() && s[a] == y;
            assert(t[a] == y);
        }
        if y == x {
            assert(t[i] == x);
        }
    }
    assert(t.to_set() =~= s.to_set().remove(s[i]).insert(x));
}

/// The index of an element of a duplicate-free sequence is the one found.
pub proof fn lemma_index_of_unique(s: Seq<RenderNodeId>, i: int)
    requires
        0 <= i < s.len(),
        s.no_duplicates(),
    ensures
        s.index_of(s[i]) == i,
{
    assert(s.contains(s[i]));
}

/// The set of a sequence of at most one element.
pub proof fn lemma_singleton_to_set(s: Seq<RenderNodeId>)
    requires
        s.len() <= 1,
    ensures
        s.len() == 0 ==> s.to_set() == Set::<RenderNodeId>::empty(),
        s.len() == 1 ==> s.to_set() == set![s[0]],
{
    if s.len() == 0 {
        assert(s.to_set() =~= Set::<RenderNodeId>::empty());
    } else {
        assert forall|y: RenderNodeId| s.to_set().contains(y) <==> y == s[0] by {
            if s.contains(y) {
                let i = choose|i: int| 0 <= i < s.len() && s[i] == y;
                assert(i == 0);
            }
            if y == s[0] {
                assert(s.contains(y));
            }
        }
        assert(s.to_set() =~= set![s[0]]);
    }
}

/// A node as it enters the scene: parentless, clean and not queued.
pub open spec fn detached_clean(n: RenderNode) -> RenderNode {
    RenderNode {
        parent: None,
        dirty: RenderDirty { bits: 0 },
        subtree_dirty: RenderDirty { bits: 0 },
        dirty_enqueued: false,
        ..n
    }
}

/// The dirty flags of replacing layer descriptor `a` by `b`.
pub open spec fn layer_change_bits(a: LayerDescriptor, b: LayerDescriptor) -> u16 {
    (if a.bounds != b.bounds { 2u16 } else { 0u16 }) | (if a.composite != b.composite
        || a.backdrop_style != b.backdrop_style {
        16u16
    } else {
        0u16
    }) | (if a.effects != b.effects || a.force_offscreen != b.force_offscreen || a.cache_policy
        != b.cache_policy || a.cache_key != b.cache_key || a.backdrop_isolation
        != b.backdrop_isolation {
        32u16
    } else {
        0u16
    })
}

/// The dirty flags of replacing primitive `a` by `b`.
pub open spec fn primitive_change_bits(a: Primitive, b: Primitive) -> u16 {
    (if a.spec_diff(b).geometry { 2u16 } else { 0u16 }) | (if a.spec_diff(b).paint {
        4u16
    } else {
        0u16
    })
}

/// The flags of replacing one primitive by another, for any two: of the same
/// variant, geometry (2) is flagged exactly when the geometry inputs differ
/// and paint (4) exactly when the paint inputs differ; across variants both
/// are; nothing else is ever flagged.
pub proof fn law_primitive_change_bits(a: Primitive, b: Primitive)
    ensures
        a.kind == b.kind ==> (primitive_change_bits(a, b) & 2 != 0) == (a.geometry != b.geometry),
        a.kind == b.kind ==> (primitive_change_bits(a, b) & 4 != 0) == (a.paint != b.paint),
        a.kind != b.kind ==> primitive_change_bits(a, b) == 6,
        primitive_change_bits(a, b) & 0xfff9 == 0,
{
    let g = a.spec_diff(b).geometry;
    let p = a.spec_diff(b).paint;
    let r = primitive_change_bits(a, b);
    assert(r == (if g { 2u16 } else { 0u16 }) | (if p { 4u16 } else { 0u16 }));
    assert((r & 2 != 0) == g && (r & 4 != 0) == p && r & 0xfff9 == 0 && (g && p ==> r == 6)) by (bit_vector)
        requires
            r == (if g { 2u16 } else { 0u16 }) | (if p { 4u16 } else { 0u16 }),
    ;
}

/// The flags of replacing one layer descriptor by another, for any two: a
/// change of bounds is geometry (2); of composite or backdrop style is
/// composite (16); of effects, forced offscreen rendering, cache policy,
/// cache key or backdrop isolation is effect (32); each is flagged exactly
/// when such a part changed, and nothing else is ever flagged.
pub proof fn law_layer_change_bits(a: LayerDescriptor, b: LayerDescriptor)
    ensures
        (layer_change_bits(a, b) & 2 != 0) == (a.bounds != b.bounds),
        (layer_change_bits(a, b) & 16 != 0) == (a.composite != b.composite || a.backdrop_style != b.backdrop_style),
        (layer_change_bits(a, b) & 32 != 0) == (a.effects != b.effects || a.force_offscreen != b.force_offscreen
            || a.cache_policy != b.cache_policy || a.cache_key != b.cache_key || a.backdrop_isolation
            != b.backdrop_isolation),
        layer_change_bits(a, b) & 0xffcd == 0,
{
    let g = a.bounds != b.bounds;
    let c = a.composite != b.composite || a.backdrop_style != b.backdrop_style;
    let e = a.effects != b.effects || a.force_offscreen != b.force_offscreen || a.cache_policy != b.cache_policy
        || a.cache_key != b.cache_key || a.backdrop_isolation != b.backdrop_isolation;
    let r = layer_change_bits(a, b);
    assert(r == (if g { 2u16 } else { 0u16 }) | (if c { 16u16 } else { 0u16 }) | (if e { 32u16 } else { 0u16 }));
    assert((r & 2 != 0) == g && (r & 16 != 0) == c && (r & 32 != 0) == e && r & 0xffcd == 0) by (bit_vector)
        requires
            r == (if g { 2u16 } else { 0u16 }) | (if c { 16u16 } else { 0u16 }) | (if e { 32u16 } else { 0u16 }),
    ;
}

/// The live nodes of the subtree rooted at `r`.
pub open spec fn subtree_of(m: NodeMap, r: RenderNodeId) -> Set<RenderNodeId> {
    m.dom().filter(|x: RenderNodeId| in_subtree(m, x, r))
}

/// Below a distance-`k` ancestor sits a distance-`k - 1` ancestor whose parent it is.
pub proof fn lemma_ancestor_pred(m: NodeMap, x: RenderNodeId, k: nat, a: RenderNodeId)
    requires
        k >= 1,
        ancestor_at(m, x, k) == Some(a),
    ensures
        ancestor_at(m, x, (k - 1) as nat) is Some,
        m[ancestor_at(m, x, (k - 1) as nat).unwrap()].parent == Some(a),
{
    let j = (k - 1) as nat;
    if ancestor_at(m, x, j) is None {
        lemma_ancestor_none(m, x, j, k);
    }
    let y = ancestor_at(m, x, j).unwrap();
    lemma_ancestor_hop(m, x, j, y);
    lemma_ancestor_step(m, y, 0);
}

/// Removing the whole subtree of a parentless node leaves a forest.
pub proof fn lemma_remove_subtree_wf(m: NodeMap, d: Map<RenderNodeId, nat>, r: RenderNodeId)
    requires
        forest_wf(m, d),
        m.dom().contains(r),
        m[r].parent is None,
    ensures
        forest_wf(m.remove_keys(subtree_of(m, r)), d),
{
    let s = subtree_of(m, r);
    let m2 = m.remove_keys(s);
    vstd::set_lib::lemma_len_subset(m2.dom(), m.dom());
    assert forall|x: RenderNodeId| #[trigger] m2.dom().contains(x) implies parent_link_ok(m2, d, x) by {
        assert(parent_link_ok(m, d, x));
        if let Some(p) = m[x].parent {
            if s.contains(p) {
                lemma_subtree_child(m, x, p, r);
                assert(s.contains(x));
            }
        }
    }
    assert forall|x: RenderNodeId| #[trigger] m2.dom().contains(x) implies child_links_ok(m2, x) by {
        assert(child_links_ok(m, x));
        assert forall|i: int|
            0 <= i < m2[x].spec_children().len() implies m2.dom().contains(
            #[trigger] m2[x].spec_children()[i],
        ) && m2[m2[x].spec_children()[i]].parent == Some(x) by {
            let c = m[x].spec_children()[i];
            assert(m.dom().contains(c));
            if s.contains(c) {
                assert(c != r);
                lemma_subtree_parent(m, c, r);
                assert(s.contains(x));
            }
        }
    }
}

/// Maps with the same links have the same subtrees.
pub proof fn lemma_same_shape_subtree(
    m: NodeMap,
    d: Map<RenderNodeId, nat>,
    m2: NodeMap,
    x: RenderNodeId,
    a: RenderNodeId,
)
    requires
        forest_wf(m, d),
        same_shape(m, m2),
        m.dom().contains(x),
    ensures
        in_subtree(m2, x, a) == in_subtree(m, x, a),
{
    assert forall|y: RenderNodeId| #[trigger] m.dom().contains(y) implies match m[y].parent {
        Some(p) => m.dom().contains(p),
        None => true,
    } by {
        assert(parent_link_ok(m, d, y));
    }
    if in_subtree(m, x, a) {
        let k = choose|k: nat| ancestor_at(m, x, k) == Some(a);
        lemma_same_shape_ancestors(m, m2, x, k);
    }
    if in_subtree(m2, x, a) {
        let k = choose|k: nat| ancestor_at(m2, x, k) == Some(a);
        lemma_same_shape_ancestors(m, m2, x, k);
    }
}

/// The predicate "is a live node of `m`".
pub open spec fn is_live(m: NodeMap) -> spec_fn(RenderNodeId) -> bool {
    |id: RenderNodeId| m.dom().contains(id)
}

/// `acc` widened by the subtree summaries of the live nodes of `s`, in order.
pub open spec fn summary_from(m: NodeMap, acc: u16, s: Seq<RenderNodeId>) -> u16
    decreases s.len(),
{
    if s.len() == 0 {
        acc
    } else {
        summary_from(m, acc, s.drop_last()) | (if m.dom().contains(s.last()) {
            m[s.last()].subtree_dirty.bits
        } else {
            0u16
        })
    }
}

/// A node's own flags widened by its children's subtree summaries.
pub open spec fn node_summary(m: NodeMap, id: RenderNodeId) -> u16 {
    summary_from(m, m[id].dirty.bits, m[id].spec_children())
}

/// The nodes after recomputing subtree summaries from `cur` upwards, stopping
/// at the first node whose summary does not change (`fuel` bounds the walk).
pub open spec fn refreshed(m: NodeMap, cur: Option<RenderNodeId>, fuel: nat) -> NodeMap
    decreases fuel,
{
    if fuel == 0 {
        m
    } else {
        match cur {
            None => m,
            Some(id) => if !m.dom().contains(id) || m[id].subtree_dirty.bits == node_summary(m, id) {
                m
            } else {
                refreshed(
                    m.insert(
                        id,
                        RenderNode { subtree_dirty: RenderDirty { bits: node_summary(m, id) }, ..m[id] },
                    ),
                    m[id].parent,
                    (fuel - 1) as nat,
                )
            },
        }
    }
}

/// Refreshing from each node of `s` in turn.
pub open spec fn refreshed_all(m: NodeMap, s: Seq<RenderNodeId>, fuel: nat) -> NodeMap
    decreases s.len(),
{
    if s.len() == 0 {
        m
    } else {
        refreshed(refreshed_all(m, s.drop_last(), fuel), Some(s.last()), fuel)
    }
}

/// The nodes after acknowledging a snapshot: each live node named in it whose
/// newest epoch is not after the snapshot revision loses its flags and its
/// queue mark.
pub open spec fn acknowledged(m: NodeMap, s: Seq<RenderNodeId>, rev: u64) -> NodeMap {
    Map::new(
        |x: RenderNodeId| m.dom().contains(x),
        |x: RenderNodeId|
            if s.contains(x) && m[x].epochs.spec_newest() <= rev {
                RenderNode { dirty: RenderDirty { bits: 0 }, dirty_enqueued: false, ..m[x] }
            } else {
                m[x]
            },
    )
}

/// The predicate "live, still queued and still dirty in `m`".
pub open spec fn still_pending(m: NodeMap) -> spec_fn(RenderNodeId) -> bool {
    |id: RenderNodeId| m.dom().contains(id) && m[id].dirty_enqueued && m[id].dirty.bits != 0
}

/// Refreshing never changes which nodes are live.
pub proof fn lemma_refresh_one_dom(m: NodeMap, cur: Option<RenderNodeId>, fuel: nat)
    ensures
        refreshed(m, cur, fuel).dom() == m.dom(),
    decreases fuel,
{
    if fuel > 0 {
        if let Some(id) = cur {
            if m.dom().contains(id) && m[id].subtree_dirty.bits != node_summary(m, id) {
                let m2 = m.insert(
                    id,
                    RenderNode { subtree_dirty: RenderDirty { bits: node_summary(m, id) }, ..m[id] },
                );
                lemma_refresh_one_dom(m2, m[id].parent, (fuel - 1) as nat);
                assert(m2.dom() =~= m.dom());
            }
        }
    }
}

pub proof fn lemma_refreshed_dom(m: NodeMap, s: Seq<RenderNodeId>, fuel: nat)
    ensures
        refreshed_all(m, s, fuel).dom() == m.dom(),
    decreases s.len(),
{
    if s.len() > 0 {
        lemma_refreshed_dom(m, s.drop_last(), fuel);
        lemma_refresh_one_dom(refreshed_all(m, s.drop_last(), fuel), Some(s.last()), fuel);
    }
}


/// `b` differs from `a` at most in the subtree summaries of its nodes.
pub open spec fn same_but_summaries(a: NodeMap, b: NodeMap) -> bool {
    &&& b.dom() == a.dom()
    &&& forall|x: RenderNodeId|
        #[trigger] b.dom().contains(x) ==> b[x] == (RenderNode { subtree_dirty: b[x].subtree_dirty, ..a[x] })
}

proof fn lemma_refresh_one_summaries(m: NodeMap, cur: Option<RenderNodeId>, fuel: nat)
    ensures
        same_but_summaries(m, refreshed(m, cur, fuel)),
    decreases fuel,
{
    if fuel > 0 {
        if let Some(id) = cur {
            if m.dom().contains(id) && m[id].subtree_dirty.bits != node_summary(m, id) {
                let m2 = m.insert(
                    id,
                    RenderNode { subtree_dirty: RenderDirty { bits: node_summary(m, id) }, ..m[id] },
                );
                lemma_refresh_one_summaries(m2, m[id].parent, (fuel - 1) as nat);
                assert(m2.dom() =~= m.dom());
            }
        }
    }
}

proof fn lemma_refresh_all_summaries(m: NodeMap, s: Seq<RenderNodeId>, fuel: nat)
    ensures
        same_but_summaries(m, refreshed_all(m, s, fuel)),
    decreases s.len(),
{
    if s.len() > 0 {
        lemma_refresh_all_summaries(m, s.drop_last(), fuel);
        lemma_refresh_one_summaries(refreshed_all(m, s.drop_last(), fuel), Some(s.last()), fuel);
    }
}

/// Acknowledging a snapshot is precise: the live nodes stay the same, a node
/// named in the snapshot and not edited after it loses its own flags and its
/// queue mark, and every other node keeps them; kinds, links, visibility and
/// epochs are untouched (only subtree summaries are recomputed).
pub proof fn law_acknowledge_is_precise(m: NodeMap, s: Seq<RenderNodeId>, rev: u64, fuel: nat, x: RenderNodeId)
    ensures
        ({
            let r = refreshed_all(acknowledged(m, s, rev), s, fuel);
            &&& r.dom() == m.dom()
            &&& m.dom().contains(x) ==> {
                &&& r[x].dirty == if s.contains(x) && m[x].epochs.spec_newest() <= rev {
                    RenderDirty { bits: 0 }
                } else {
                    m[x].dirty
                }
                &&& r[x].dirty_enqueued == (m[x].dirty_enqueued && !(s.contains(x) && m[x].epochs.spec_newest()
                    <= rev))
                &&& r[x].epochs == m[x].epochs
                &&& r[x].parent == m[x].parent
                &&& r[x].kind == m[x].kind
                &&& r[x].visible == m[x].visible
            }
        }),
{
    let a = acknowledged(m, s, rev);
    lemma_refresh_all_summaries(a, s, fuel);
    assert(a.dom() =~= m.dom());
}

/// The nodes of the subtree under `x` in depth-first preorder, children in
/// their listed order; `fuel` bounds the depth that is walked.
pub open spec fn preorder(m: NodeMap, x: RenderNodeId, fuel: nat) -> Seq<RenderNodeId>
    decreases fuel, 0nat,
{
    if fuel == 0 {
        Seq::empty()
    } else {
        seq![x] + preorder_all(m, m[x].spec_children(), (fuel - 1) as nat)
    }
}

/// The preorders of the nodes of `s`, one after the other.
pub open spec fn preorder_all(m: NodeMap, s: Seq<RenderNodeId>, fuel: nat) -> Seq<RenderNodeId>
    decreases fuel, s.len() + 1,
{
    if s.len() == 0 {
        Seq::empty()
    } else {
        preorder(m, s[0], fuel) + preorder_all(m, s.drop_first(), fuel)
    }
}

/// The preorders of a stack of pending nodes, top (last) first, each with its own fuel.
pub open spec fn stack_preorder(m: NodeMap, s: Seq<RenderNodeId>, f: Seq<nat>) -> Seq<RenderNodeId>
    decreases s.len(),
{
    if s.len() == 0 || f.len() == 0 {
        Seq::empty()
    } else {
        preorder(m, s.last(), f.last()) + stack_preorder(m, s.drop_last(), f.drop_last())
    }
}


/// Flag `j` is set in `x`.
pub open spec fn has_flag(x: u16, j: u16) -> bool {
    (x >> j) & 1u16 == 1u16
}

/// Some node of the subtree under `y` has flag `j` among its own flags.
pub open spec fn subtree_flag(m: NodeMap, y: RenderNodeId, j: u16) -> bool {
    exists|z: RenderNodeId|
        #![trigger in_subtree(m, z, y), m[z]]
        m.dom().contains(z) && in_subtree(m, z, y) && has_flag(m[z].dirty.bits, j)
}

/// Some child of the first `i` of `cs` has flag `j` in its subtree.
pub open spec fn children_flag(m: NodeMap, cs: Seq<RenderNodeId>, i: int, j: u16) -> bool {
    exists|t: int| 0 <= t < i && #[trigger] subtree_flag(m, cs[t], j)
}

/// `y` lies under one of the first `i` of `cs`.
pub open spec fn under_children(m: NodeMap, cs: Seq<RenderNodeId>, i: int, y: RenderNodeId) -> bool {
    exists|t: int| 0 <= t < i && #[trigger] in_subtree(m, y, cs[t])
}

pub proof fn lemma_or_flag(a: u16, b: u16, j: u16)
    requires
        j < 16,
    ensures
        has_flag(a | b, j) == (has_flag(a, j) || has_flag(b, j)),
{
    assert(has_flag(a | b, j) == (has_flag(a, j) || has_flag(b, j))) by (bit_vector)
        requires
            j < 16,
    ;
}

/// A node under a child of `x` is under `x`.
pub proof fn lemma_under_child(m: NodeMap, d: Map<RenderNodeId, nat>, x: RenderNodeId, c: RenderNodeId, y: RenderNodeId)
    requires
        forest_wf(m, d),
        m.dom().contains(x),
        m[x].spec_children().contains(c),
        in_subtree(m, y, c),
    ensures
        in_subtree(m, y, x),
{
    assert(child_links_ok(m, x));
    let t = choose|t: int| 0 <= t < m[x].spec_children().len() && m[x].spec_children()[t] == c;
    assert(m[c].parent == Some(x));
    let k = choose|k: nat| ancestor_at(m, y, k) == Some(c);
    lemma_ancestor_hop(m, y, k, c);
    lemma_ancestor_step(m, c, 0);
    assert(ancestor_at(m, y, k + 1) == Some(x));
}

/// A node strictly under `x` is under one of its children.
pub proof fn lemma_child_on_path(m: NodeMap, d: Map<RenderNodeId, nat>, x: RenderNodeId, y: RenderNodeId)
    requires
        forest_wf(m, d),
        m.dom().contains(y),
        in_subtree(m, y, x),
        y != x,
    ensures
        exists|t: int|
            0 <= t < m[x].spec_children().len() && in_subtree(m, y, #[trigger] m[x].spec_children()[t]),
{
    let k = choose|k: nat| ancestor_at(m, y, k) == Some(x);
    assert(k >= 1);
    lemma_ancestor_pred(m, y, k, x);
    let c = ancestor_at(m, y, (k - 1) as nat).unwrap();
    lemma_ancestor_depth(m, d, y, (k - 1) as nat, c);
    assert(parent_link_ok(m, d, c));
    assert(m[x].spec_children().contains(c));
    let t = choose|t: int| 0 <= t < m[x].spec_children().len() && m[x].spec_children()[t] == c;
    assert(in_subtree(m, y, m[x].spec_children()[t]));
}

/// Distinct children of one node have disjoint subtrees, and the node is in
/// neither.
pub proof fn lemma_children_disjoint(
    m: NodeMap,
    d: Map<RenderNodeId, nat>,
    x: RenderNodeId,
    c1: RenderNodeId,
    c2: RenderNodeId,
    y: RenderNodeId,
)
    requires
        forest_wf(m, d),
        m.dom().contains(x),
        m.dom().contains(y),
        m[c1].parent == Some(x),
        m[c2].parent == Some(x),
        m.dom().contains(c1),
        m.dom().contains(c2),
    ensures
        in_subtree(m, y, c1) && in_subtree(m, y, c2) ==> c1 == c2,
        !in_subtree(m, x, c1),
{
    assert(parent_link_ok(m, d, c1));
    assert(parent_link_ok(m, d, c2));
    if in_subtree(m, y, c1) && in_subtree(m, y, c2) {
        let k1 = choose|k: nat| ancestor_at(m, y, k) == Some(c1);
        let k2 = choose|k: nat| ancestor_at(m, y, k) == Some(c2);
        lemma_ancestor_depth(m, d, y, k1, c1);
        lemma_ancestor_depth(m, d, y, k2, c2);
    }
    if in_subtree(m, x, c1) {
        let k = choose|k: nat| ancestor_at(m, x, k) == Some(c1);
        lemma_ancestor_depth(m, d, x, k, c1);
    }
}

/// The flags of a subtree are the node's own and those of its children's
/// subtrees.
pub proof fn lemma_subtree_flag_split(m: NodeMap, d: Map<RenderNodeId, nat>, x: RenderNodeId, j: u16)
    requires
        forest_wf(m, d),
        m.dom().contains(x),
    ensures
        subtree_flag(m, x, j) == (has_flag(m[x].dirty.bits, j) || children_flag(
            m,
            m[x].spec_children(),
            m[x].spec_children().len() as int,
            j,
        )),
{
    let cs = m[x].spec_children();
    assert(ancestor_at(m, x, 0) == Some(x));
    assert(in_subtree(m, x, x));
    if subtree_flag(m, x, j) {
        let z = choose|z: RenderNodeId|
            #![trigger in_subtree(m, z, x), m[z]]
            m.dom().contains(z) && in_subtree(m, z, x) && has_flag(m[z].dirty.bits, j);
        if z != x {
            lemma_child_on_path(m, d, x, z);
            let t = choose|t: int| 0 <= t < cs.len() && in_subtree(m, z, #[trigger] cs[t]);
            assert(subtree_flag(m, cs[t], j));
        }
    }
    if children_flag(m, cs, cs.len() as int, j) {
        let t = choose|t: int| 0 <= t < cs.len() && #[trigger] subtree_flag(m, cs[t], j);
        let z = choose|z: RenderNodeId|
            #![trigger in_subtree(m, z, cs[t]), m[z]]
            m.dom().contains(z) && in_subtree(m, z, cs[t]) && has_flag(m[z].dirty.bits, j);
        assert(cs.contains(cs[t]));
        lemma_under_child(m, d, x, cs[t], z);
    }
}

/// Subtree flags only read the shape and the nodes' own flags.
pub proof fn lemma_subtree_flag_same(m: NodeMap, d: Map<RenderNodeId, nat>, m2: NodeMap, y: RenderNodeId, j: u16)
    requires
        forest_wf(m, d),
        same_shape(m, m2),
        forall|z: RenderNodeId| #[trigger] m.dom().contains(z) ==> m2[z].dirty == m[z].dirty,
    ensures
        subtree_flag(m2, y, j) == subtree_flag(m, y, j),
{
    if subtree_flag(m, y, j) {
        let z = choose|z: RenderNodeId|
            #![trigger in_subtree(m, z, y), m[z]]
            m.dom().contains(z) && in_subtree(m, z, y) && has_flag(m[z].dirty.bits, j);
        lemma_same_shape_subtree(m, d, m2, z, y);
        assert(m2.dom().contains(z) && in_subtree(m2, z, y) && has_flag(m2[z].dirty.bits, j));
    }
    if subtree_flag(m2, y, j) {
        let z = choose|z: RenderNodeId|
            #![trigger in_subtree(m2, z, y), m2[z]]
            m2.dom().contains(z) && in_subtree(m2, z, y) && has_flag(m2[z].dirty.bits, j);
        lemma_same_shape_subtree(m, d, m2, z, y);
        assert(m.dom().contains(z) && in_subtree(m, z, y) && has_flag(m[z].dirty.bits, j));
    }
}


/// `m2` is `m` with the subtree summary of every node under `x` recomputed
/// from its subtree's own flags, and nothing else changed.
pub open spec fn summaries_rebuilt(m: NodeMap, m2: NodeMap, x: RenderNodeId) -> bool {
    &&& m2.dom() == m.dom()
    &&& forall|y: RenderNodeId|
        #[trigger] m2.dom().contains(y) ==> m2[y] == RenderNode { subtree_dirty: m2[y].subtree_dirty, ..m[y] }
    &&& forall|y: RenderNodeId| #[trigger] m2.dom().contains(y) && !in_subtree(m, y, x) ==> m2[y] == m[y]
    &&& forall|y: RenderNodeId, j: u16|
        m2.dom().contains(y) && in_subtree(m, y, x) && j < 16 ==> #[trigger] has_flag(
            m2[y].subtree_dirty.bits,
            j,
        ) == subtree_flag(m, y, j)
}

/// The state of a rebuild after the first `i` children of `x`.
pub open spec fn children_rebuilt(m0: NodeMap, s: NodeMap, cs: Seq<RenderNodeId>, i: int) -> bool {
    &&& s.dom() == m0.dom()
    &&& forall|y: RenderNodeId|
        #[trigger] s.dom().contains(y) ==> s[y] == RenderNode { subtree_dirty: s[y].subtree_dirty, ..m0[y] }
    &&& forall|y: RenderNodeId| #[trigger] s.dom().contains(y) && !under_children(m0, cs, i, y) ==> s[y] == m0[y]
    &&& forall|y: RenderNodeId, j: u16|
        s.dom().contains(y) && under_children(m0, cs, i, y) && j < 16 ==> #[trigger] has_flag(
            s[y].subtree_dirty.bits,
            j,
        ) == subtree_flag(m0, y, j)
}

/// Rebuilding child `i` of `x` extends the rebuild to the first `i + 1` children.
pub proof fn lemma_rebuild_step(
    m0: NodeMap,
    d0: Map<RenderNodeId, nat>,
    si: NodeMap,
    s2: NodeMap,
    x: RenderNodeId,
    i: int,
)
    requires
        forest_wf(m0, d0),
        m0.dom().contains(x),
        0 <= i < m0[x].spec_children().len(),
        children_rebuilt(m0, si, m0[x].spec_children(), i),
        summaries_rebuilt(si, s2, m0[x].spec_children()[i]),
    ensures
        children_rebuilt(m0, s2, m0[x].spec_children(), i + 1),
        forall|j: u16|
            j < 16 ==> #[trigger] has_flag(s2[m0[x].spec_children()[i]].subtree_dirty.bits, j)
                == subtree_flag(m0, m0[x].spec_children()[i], j),
{
    let cs = m0[x].spec_children();
    let c = cs[i];
    assert(child_links_ok(m0, x));
    assert(m0.dom().contains(c));
    assert(same_shape(m0, si)) by {
        assert forall|y: RenderNodeId| #[trigger] si.dom().contains(y) implies si[y].parent == m0[y].parent
            && si[y].spec_children() == m0[y].spec_children() by {
            assert(si[y] == RenderNode { subtree_dirty: si[y].subtree_dirty, ..m0[y] });
        }
    }
    assert forall|z: RenderNodeId| #[trigger] m0.dom().contains(z) implies si[z].dirty == m0[z].dirty by {
        assert(si[z] == RenderNode { subtree_dirty: si[z].subtree_dirty, ..m0[z] });
    }
    assert forall|y: RenderNodeId| #[trigger] m0.dom().contains(y) implies in_subtree(si, y, c) == in_subtree(
        m0,
        y,
        c,
    ) by {
        lemma_same_shape_subtree(m0, d0, si, y, c);
    }
    assert(ancestor_at(m0, c, 0) == Some(c));
    assert forall|y: RenderNodeId|
        #[trigger] s2.dom().contains(y) implies s2[y] == RenderNode { subtree_dirty: s2[y].subtree_dirty, ..m0[y] } by {
        assert(s2[y] == RenderNode { subtree_dirty: s2[y].subtree_dirty, ..si[y] });
        assert(si[y] == RenderNode { subtree_dirty: si[y].subtree_dirty, ..m0[y] });
    }
    assert forall|y: RenderNodeId| #[trigger] s2.dom().contains(y) && !under_children(m0, cs, i + 1, y) implies s2[y]
        == m0[y] by {
        assert(!in_subtree(m0, y, c)) by {
            if in_subtree(m0, y, c) {
                assert(under_children(m0, cs, i + 1, y));
            }
        }
        assert(!under_children(m0, cs, i, y)) by {
            if under_children(m0, cs, i, y) {
                let t = choose|t: int| 0 <= t < i && #[trigger] in_subtree(m0, y, cs[t]);
                assert(under_children(m0, cs, i + 1, y));
            }
        }
    }
    assert forall|y: RenderNodeId, j: u16|
        s2.dom().contains(y) && under_children(m0, cs, i + 1, y) && j < 16 implies #[trigger] has_flag(
        s2[y].subtree_dirty.bits,
        j,
    ) == subtree_flag(m0, y, j) by {
        if in_subtree(m0, y, c) {
            lemma_subtree_flag_same(m0, d0, si, y, j);
        } else {
            let t = choose|t: int| 0 <= t < i + 1 && #[trigger] in_subtree(m0, y, cs[t]);
            assert(t != i);
            assert(under_children(m0, cs, i, y));
        }
    }
    assert forall|j: u16| j < 16 implies #[trigger] has_flag(s2[c].subtree_dirty.bits, j) == subtree_flag(
        m0,
        c,
        j,
    ) by {
        lemma_subtree_flag_same(m0, d0, si, c, j);
    }
}


/// Setting the summary of `x` from its own flags and its children's
/// summaries completes the rebuild of its subtree.
pub proof fn lemma_rebuild_finish(
    m0: NodeMap,
    d0: Map<RenderNodeId, nat>,
    s: NodeMap,
    x: RenderNodeId,
    acc: u16,
    s2: NodeMap,
)
    requires
        forest_wf(m0, d0),
        m0.dom().contains(x),
        children_rebuilt(m0, s, m0[x].spec_children(), m0[x].spec_children().len() as int),
        s2 == s.insert(x, RenderNode { subtree_dirty: RenderDirty { bits: acc }, ..s[x] }),
        forall|j: u16|
            j < 16 ==> #[trigger] has_flag(acc, j) == (has_flag(m0[x].dirty.bits, j) || children_flag(
                m0,
                m0[x].spec_children(),
                m0[x].spec_children().len() as int,
                j,
            )),
    ensures
        summaries_rebuilt(m0, s2, x),
{
    let cs = m0[x].spec_children();
    let n = cs.len() as int;
    assert(child_links_ok(m0, x));
    assert(!under_children(m0, cs, n, x)) by {
        if under_children(m0, cs, n, x) {
            let t = choose|t: int| 0 <= t < n && #[trigger] in_subtree(m0, x, cs[t]);
            lemma_children_disjoint(m0, d0, x, cs[t], cs[t], x);
        }
    }
    assert(s[x] == m0[x]);
    assert(ancestor_at(m0, x, 0) == Some(x));
    assert(s2.dom() =~= m0.dom());
    assert forall|y: RenderNodeId| #[trigger] s2.dom().contains(y) && !in_subtree(m0, y, x) implies s2[y]
        == m0[y] by {
        assert(y != x);
        assert(!under_children(m0, cs, n, y)) by {
            if under_children(m0, cs, n, y) {
                let t = choose|t: int| 0 <= t < n && #[trigger] in_subtree(m0, y, cs[t]);
                assert(cs.contains(cs[t]));
                lemma_under_child(m0, d0, x, cs[t], y);
            }
        }
    }
    assert forall|y: RenderNodeId, j: u16|
        s2.dom().contains(y) && in_subtree(m0, y, x) && j < 16 implies #[trigger] has_flag(
        s2[y].subtree_dirty.bits,
        j,
    ) == subtree_flag(m0, y, j) by {
        if y == x {
            lemma_subtree_flag_split(m0, d0, x, j);
        } else {
            lemma_child_on_path(m0, d0, x, y);
            let t = choose|t: int| 0 <= t < n && in_subtree(m0, y, #[trigger] cs[t]);
            assert(under_children(m0, cs, n, y));
        }
    }
}


/// Adding the summary of child `i` to the union of the own flags and the
/// summaries of the first `i` children gives the union up to child `i + 1`.
pub proof fn lemma_flags_step(m0: NodeMap, cs: Seq<RenderNodeId>, i: int, own: u16, acc: u16, sub: u16)
    requires
        0 <= i < cs.len(),
        forall|j: u16| j < 16 ==> #[trigger] has_flag(acc, j) == (has_flag(own, j) || children_flag(m0, cs, i, j)),
        forall|j: u16| j < 16 ==> #[trigger] has_flag(sub, j) == subtree_flag(m0, cs[i], j),
    ensures
        forall|j: u16|
            j < 16 ==> #[trigger] has_flag(acc | sub, j) == (has_flag(own, j) || children_flag(m0, cs, i + 1, j)),
{
    assert forall|j: u16| j < 16 implies #[trigger] has_flag(acc | sub, j) == (has_flag(own, j) || children_flag(
        m0,
        cs,
        i + 1,
        j,
    )) by {
        lemma_or_flag(acc, sub, j);
        assert(has_flag(acc, j) == (has_flag(own, j) || children_flag(m0, cs, i, j)));
        assert(has_flag(sub, j) == subtree_flag(m0, cs[i], j));
        if children_flag(m0, cs, i + 1, j) {
            let t = choose|t: int| 0 <= t < i + 1 && #[trigger] subtree_flag(m0, cs[t], j);
            if t < i {
                assert(children_flag(m0, cs, i, j));
            }
        }
        if children_flag(m0, cs, i, j) {
            let t = choose|t: int| 0 <= t < i && #[trigger] subtree_flag(m0, cs[t], j);
            assert(children_flag(m0, cs, i + 1, j));
        }
        if subtree_flag(m0, cs[i], j) {
            assert(children_flag(m0, cs, i + 1, j));
        }
    }
}

} // verus!
