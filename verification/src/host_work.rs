//! The work a host node of the UI tree still needs before the next frame,
//! and how it is summarized in the node's ancestors so that passes can skip
//! clean branches.

use std::collections::HashMap;
use vstd::prelude::*;

verus! {

broadcast use vstd::std_specs::hash::group_hash_axioms;

/// Kinds of pending host work, as an 8-bit mask.
#[derive(Debug, Clone, Copy, PartialEq, Eq, Structural)]
pub struct HostWorkFlags {
    pub bits: u8,
}

/// What changed in a widget between two renders, as the runtime reads it.
#[derive(Debug, Clone, Copy, PartialEq, Eq, Structural)]
pub struct WidgetUpdateFlags {
    pub bits: u8,
}

impl WidgetUpdateFlags {
    pub fn style_target() -> (r: WidgetUpdateFlags)
        ensures
            r.bits == 1,
    {
        WidgetUpdateFlags { bits: 1 }
    }

    pub fn layout_input() -> (r: WidgetUpdateFlags)
        ensures
            r.bits == 2,
    {
        WidgetUpdateFlags { bits: 2 }
    }

    pub fn paint_output() -> (r: WidgetUpdateFlags)
        ensures
            r.bits == 4,
    {
        WidgetUpdateFlags { bits: 4 }
    }

    pub fn tree() -> (r: WidgetUpdateFlags)
        ensures
            r.bits == 8,
    {
        WidgetUpdateFlags { bits: 8 }
    }

    pub fn text_shape() -> (r: WidgetUpdateFlags)
        ensures
            r.bits == 16,
    {
        WidgetUpdateFlags { bits: 16 }
    }

    pub fn state_change() -> (r: WidgetUpdateFlags)
        ensures
            r.bits == 32,
    {
        WidgetUpdateFlags { bits: 32 }
    }
}

/// What changed between two computed styles, as the runtime reads it.
#[derive(Debug, Clone, Copy, PartialEq, Eq, Structural)]
pub struct StyleDiffFlags {
    pub bits: u8,
}

impl StyleDiffFlags {
    pub fn text() -> (r: StyleDiffFlags)
        ensures
            r.bits == 1,
    {
        StyleDiffFlags { bits: 1 }
    }

    pub fn layout() -> (r: StyleDiffFlags)
        ensures
            r.bits == 2,
    {
        StyleDiffFlags { bits: 2 }
    }

    pub fn paint() -> (r: StyleDiffFlags)
        ensures
            r.bits == 4,
    {
        StyleDiffFlags { bits: 4 }
    }

    pub fn scroll() -> (r: StyleDiffFlags)
        ensures
            r.bits == 8,
    {
        StyleDiffFlags { bits: 8 }
    }

    pub fn effect() -> (r: StyleDiffFlags)
        ensures
            r.bits == 16,
    {
        StyleDiffFlags { bits: 16 }
    }
}

/// `w` if bit `b` is set in `f`, else nothing.
pub open spec fn when_set(f: u8, b: u8, w: u8) -> u8 {
    if f & b != 0 {
        w
    } else {
        0
    }
}

/// The work that a widget update asks for: a style target change restyles,
/// a layout input change relayouts, a paint output change repaints, a tree
/// change does all three and syncs the tree, a text shape change reshapes,
/// and a state change syncs the widget state.
pub open spec fn widget_update_work(f: u8) -> u8 {
    when_set(f, 1, 1u8) | when_set(f, 2, 4u8) | when_set(f, 4, 8u8) | when_set(f, 8, 32u8 | 1u8 | 4u8 | 8u8)
        | when_set(f, 16, 16u8) | when_set(f, 32, 64u8)
}

/// The work that a style difference asks for: text restyles the subtree and
/// repaints, layout and scroll relayout and repaint, paint repaints, and an
/// effect change syncs the render node.
pub open spec fn style_diff_work(f: u8) -> u8 {
    when_set(f, 1, 8u8 | 2u8) | when_set(f, 2, 4u8 | 8u8) | when_set(f, 4, 8u8) | when_set(f, 8, 4u8 | 8u8)
        | when_set(f, 16, 128u8)
}

/// The work a widget update asks for, flag by flag, for any update: a
/// style target change restyles (1), a layout input change relayouts (4), a
/// paint output change repaints (8), a tree change syncs the tree (32) and
/// restyles, relayouts and repaints, a text shape change reshapes (16), a
/// state change syncs the widget state (64); and each kind of work is asked
/// for only by an update that calls for it (so no update restyles a subtree
/// or syncs the render node, and no update asks for nothing but work).
pub proof fn law_widget_update_work(f: u8)
    ensures
        f & 1 != 0 ==> widget_update_work(f) & 1 != 0,
        f & 2 != 0 ==> widget_update_work(f) & 4 != 0,
        f & 4 != 0 ==> widget_update_work(f) & 8 != 0,
        f & 8 != 0 ==> widget_update_work(f) & 45 == 45,
        f & 16 != 0 ==> widget_update_work(f) & 16 != 0,
        f & 32 != 0 ==> widget_update_work(f) & 64 != 0,
        widget_update_work(f) & 1 != 0 ==> f & 9 != 0,
        widget_update_work(f) & 4 != 0 ==> f & 10 != 0,
        widget_update_work(f) & 8 != 0 ==> f & 12 != 0,
        widget_update_work(f) & 16 != 0 ==> f & 16 != 0,
        widget_update_work(f) & 32 != 0 ==> f & 8 != 0,
        widget_update_work(f) & 64 != 0 ==> f & 32 != 0,
        widget_update_work(f) & 130 == 0,
{
    let w: u8 = (if f & 1 != 0 { 1u8 } else { 0u8 }) | (if f & 2 != 0 { 4u8 } else { 0u8 }) | (if f & 4 != 0 {
        8u8
    } else {
        0u8
    }) | (if f & 8 != 0 { 32u8 | 1u8 | 4u8 | 8u8 } else { 0u8 }) | (if f & 16 != 0 { 16u8 } else { 0u8 }) | (if f
        & 32 != 0 {
        64u8
    } else {
        0u8
    });
    assert(w == widget_update_work(f));
    assert({
        &&& f & 1 != 0 ==> w & 1 != 0
        &&& f & 2 != 0 ==> w & 4 != 0
        &&& f & 4 != 0 ==> w & 8 != 0
        &&& f & 8 != 0 ==> w & 45 == 45
        &&& f & 16 != 0 ==> w & 16 != 0
        &&& f & 32 != 0 ==> w & 64 != 0
        &&& w & 1 != 0 ==> f & 9 != 0
        &&& w & 4 != 0 ==> f & 10 != 0
        &&& w & 8 != 0 ==> f & 12 != 0
        &&& w & 16 != 0 ==> f & 16 != 0
        &&& w & 32 != 0 ==> f & 8 != 0
        &&& w & 64 != 0 ==> f & 32 != 0
        &&& w & 130 == 0
    }) by (bit_vector)
        requires
            w == (if f & 1 != 0 { 1u8 } else { 0u8 }) | (if f & 2 != 0 { 4u8 } else { 0u8 }) | (if f & 4 != 0 {
                8u8
            } else {
                0u8
            }) | (if f & 8 != 0 { 32u8 | 1u8 | 4u8 | 8u8 } else { 0u8 }) | (if f & 16 != 0 { 16u8 } else { 0u8 })
                | (if f & 32 != 0 { 64u8 } else { 0u8 }),
    ;
}

/// The work a style difference asks for, flag by flag, for any difference:
/// text restyles the subtree (2) and repaints (8), layout and scroll each
/// relayout (4) and repaint, paint repaints, an effect change syncs the
/// render node (128); and each kind of work comes only from a difference
/// that calls for it (none restyles the host alone, reshapes, or syncs the
/// tree or the widget state).
pub proof fn law_style_diff_work(f: u8)
    ensures
        f & 1 != 0 ==> style_diff_work(f) & 10 == 10,
        f & 2 != 0 ==> style_diff_work(f) & 12 == 12,
        f & 4 != 0 ==> style_diff_work(f) & 8 != 0,
        f & 8 != 0 ==> style_diff_work(f) & 12 == 12,
        f & 16 != 0 ==> style_diff_work(f) & 128 != 0,
        style_diff_work(f) & 2 != 0 ==> f & 1 != 0,
        style_diff_work(f) & 4 != 0 ==> f & 10 != 0,
        style_diff_work(f) & 8 != 0 ==> f & 15 != 0,
        style_diff_work(f) & 128 != 0 ==> f & 16 != 0,
        style_diff_work(f) & 113 == 0,
{
    let w: u8 = (if f & 1 != 0 { 8u8 | 2u8 } else { 0u8 }) | (if f & 2 != 0 { 4u8 | 8u8 } else { 0u8 }) | (if f
        & 4 != 0 {
        8u8
    } else {
        0u8
    }) | (if f & 8 != 0 { 4u8 | 8u8 } else { 0u8 }) | (if f & 16 != 0 { 128u8 } else { 0u8 });
    assert(w == style_diff_work(f));
    assert({
        &&& f & 1 != 0 ==> w & 10 == 10
        &&& f & 2 != 0 ==> w & 12 == 12
        &&& f & 4 != 0 ==> w & 8 != 0
        &&& f & 8 != 0 ==> w & 12 == 12
        &&& f & 16 != 0 ==> w & 128 != 0
        &&& w & 2 != 0 ==> f & 1 != 0
        &&& w & 4 != 0 ==> f & 10 != 0
        &&& w & 8 != 0 ==> f & 15 != 0
        &&& w & 128 != 0 ==> f & 16 != 0
        &&& w & 113 == 0
    }) by (bit_vector)
        requires
            w == (if f & 1 != 0 { 8u8 | 2u8 } else { 0u8 }) | (if f & 2 != 0 { 4u8 | 8u8 } else { 0u8 }) | (if f
                & 4 != 0 {
                8u8
            } else {
                0u8
            }) | (if f & 8 != 0 { 4u8 | 8u8 } else { 0u8 }) | (if f & 16 != 0 { 128u8 } else { 0u8 }),
    ;
}

impl HostWorkFlags {
    pub fn recalc_style() -> (r: HostWorkFlags)
        ensures
            r.bits == 1,
    {
        HostWorkFlags { bits: 1 }
    }

    pub fn recalc_style_subtree() -> (r: HostWorkFlags)
        ensures
            r.bits == 2,
    {
        HostWorkFlags { bits: 2 }
    }

    pub fn recalc_layout() -> (r: HostWorkFlags)
        ensures
            r.bits == 4,
    {
        HostWorkFlags { bits: 4 }
    }

    pub fn rebuild_paint() -> (r: HostWorkFlags)
        ensures
            r.bits == 8,
    {
        HostWorkFlags { bits: 8 }
    }

    pub fn shape_change() -> (r: HostWorkFlags)
        ensures
            r.bits == 16,
    {
        HostWorkFlags { bits: 16 }
    }

    pub fn sync_tree() -> (r: HostWorkFlags)
        ensures
            r.bits == 32,
    {
        HostWorkFlags { bits: 32 }
    }

    pub fn sync_state_change() -> (r: HostWorkFlags)
        ensures
            r.bits == 64,
    {
        HostWorkFlags { bits: 64 }
    }

    pub fn sync_render() -> (r: HostWorkFlags)
        ensures
            r.bits == 128,
    {
        HostWorkFlags { bits: 128 }
    }

    pub fn empty() -> (r: HostWorkFlags)
        ensures
            r.bits == 0,
    {
        HostWorkFlags { bits: 0 }
    }

    pub fn is_empty(self) -> (r: bool)
        ensures
            r == (self.bits == 0),
    {
        self.bits == 0
    }

    pub fn intersects(self, other: HostWorkFlags) -> (r: bool)
        ensures
            r == (self.bits & other.bits != 0),
    {
        self.bits & other.bits != 0
    }

    pub fn union(self, other: HostWorkFlags) -> (r: HostWorkFlags)
        ensures
            r.bits == self.bits | other.bits,
    {
        HostWorkFlags { bits: self.bits | other.bits }
    }

    /// The host work a widget update asks for.
    pub fn from_widget_update(flags: WidgetUpdateFlags) -> (r: HostWorkFlags)
        ensures
            r.bits == widget_update_work(flags.bits),
    {
        let f = flags.bits;
        let style: u8 = if f & 1 != 0 { 1 } else { 0 };
        let layout: u8 = if f & 2 != 0 { 4 } else { 0 };
        let paint: u8 = if f & 4 != 0 { 8 } else { 0 };
        let tree: u8 = if f & 8 != 0 { 32u8 | 1u8 | 4u8 | 8u8 } else { 0 };
        let shape: u8 = if f & 16 != 0 { 16 } else { 0 };
        let state: u8 = if f & 32 != 0 { 64 } else { 0 };
        HostWorkFlags { bits: style | layout | paint | tree | shape | state }
    }

    /// The host work a style difference asks for.
    pub fn from_style_diff(flags: StyleDiffFlags) -> (r: HostWorkFlags)
        ensures
            r.bits == style_diff_work(flags.bits),
    {
        let f = flags.bits;
        let text: u8 = if f & 1 != 0 { 8u8 | 2u8 } else { 0 };
        let layout: u8 = if f & 2 != 0 { 4u8 | 8u8 } else { 0 };
        let paint: u8 = if f & 4 != 0 { 8 } else { 0 };
        let scroll: u8 = if f & 8 != 0 { 4u8 | 8u8 } else { 0 };
        let effect: u8 = if f & 16 != 0 { 128 } else { 0 };
        HostWorkFlags { bits: text | layout | paint | scroll | effect }
    }
}

/// The per-frame lists of hosts waiting for layout, for a widget state sync
/// and for text reshaping.
pub struct UiState {
    layout_dirty_list: Vec<u64>,
    shape_dirty_list: Vec<u64>,
    state_change_dirty_list: Vec<u64>,
}

impl UiState {
    pub closed spec fn spec_layout(&self) -> Seq<u64> {
        self.layout_dirty_list@
    }

    pub closed spec fn spec_shape(&self) -> Seq<u64> {
        self.shape_dirty_list@
    }

    pub closed spec fn spec_state_change(&self) -> Seq<u64> {
        self.state_change_dirty_list@
    }

    pub fn new() -> (r: UiState)
        ensures
            r.spec_layout() == Seq::<u64>::empty(),
            r.spec_shape() == Seq::<u64>::empty(),
            r.spec_state_change() == Seq::<u64>::empty(),
    {
        UiState {
            layout_dirty_list: Vec::new(),
            shape_dirty_list: Vec::new(),
            state_change_dirty_list: Vec::new(),
        }
    }

    pub fn mark_layout_dirty(&mut self, id: u64)
        ensures
            final(self).spec_layout() == old(self).spec_layout().push(id),
            final(self).spec_shape() == old(self).spec_shape(),
            final(self).spec_state_change() == old(self).spec_state_change(),
    {
        self.layout_dirty_list.push(id);
    }

    pub fn mark_state_change_dirty(&mut self, id: u64)
        ensures
            final(self).spec_state_change() == old(self).spec_state_change().push(id),
            final(self).spec_layout() == old(self).spec_layout(),
            final(self).spec_shape() == old(self).spec_shape(),
    {
        self.state_change_dirty_list.push(id);
    }

    pub fn mark_shape_dirty(&mut self, id: u64)
        ensures
            final(self).spec_shape() == old(self).spec_shape().push(id),
            final(self).spec_layout() == old(self).spec_layout(),
            final(self).spec_state_change() == old(self).spec_state_change(),
    {
        self.shape_dirty_list.push(id);
    }

    /// Whether any host waits for layout.
    pub fn has_layout_dirty(&self) -> (r: bool)
        ensures
            r == (self.spec_layout().len() > 0),
    {
        self.layout_dirty_list.len() > 0
    }

    /// Forgets the hosts waiting for layout, once layout has run.
    pub fn clear_layout_dirty(&mut self)
        ensures
            final(self).spec_layout() == Seq::<u64>::empty(),
            final(self).spec_shape() == old(self).spec_shape(),
            final(self).spec_state_change() == old(self).spec_state_change(),
    {
        self.layout_dirty_list.clear();
    }

    /// Hands out the hosts waiting for a state sync and empties the list.
    pub fn drain_state_change_dirty_list(&mut self) -> (r: Vec<u64>)
        ensures
            r@ == old(self).spec_state_change(),
            final(self).spec_state_change() == Seq::<u64>::empty(),
            final(self).spec_layout() == old(self).spec_layout(),
            final(self).spec_shape() == old(self).spec_shape(),
    {
        let mut drained = Vec::new();
        std::mem::swap(&mut drained, &mut self.state_change_dirty_list);
        drained
    }

    /// Hands out the hosts waiting for reshaping and empties the list.
    pub fn drain_shape_dirty_list(&mut self) -> (r: Vec<u64>)
        ensures
            r@ == old(self).spec_shape(),
            final(self).spec_shape() == Seq::<u64>::empty(),
            final(self).spec_layout() == old(self).spec_layout(),
            final(self).spec_state_change() == old(self).spec_state_change(),
    {
        let mut drained = Vec::new();
        std::mem::swap(&mut drained, &mut self.shape_dirty_list);
        drained
    }
}

/// A host of the UI tree as work tracking sees it: its parent, the work it
/// needs itself, the work that some host below it needs, and the hash of its
/// widget props when its work was last cleared and now.
#[derive(Debug, Clone, Copy, PartialEq, Eq, Structural)]
pub struct HostWork {
    pub parent: Option<u64>,
    pub work: u8,
    pub subtree_work: u8,
    pub old_props_hash: u64,
    pub new_props_hash: u64,
}

pub type HostMap = Map<u64, HostWork>;

/// The host `k` parent links above `x`, if the chain is that long.
pub open spec fn host_up(m: HostMap, x: u64, k: nat) -> Option<u64>
    decreases k,
{
    if k == 0 {
        Some(x)
    } else {
        match m[x].parent {
            Some(p) => host_up(m, p, (k - 1) as nat),
            None => None,
        }
    }
}

/// Every parent is a live host, and the depth map witnesses that parent
/// chains end.
pub open spec fn chains_wf(m: HostMap, d: Map<u64, nat>) -> bool {
    &&& forall|x: u64| #[trigger] m.dom().contains(x) ==> d.dom().contains(x)
    &&& forall|x: u64|
        #[trigger] m.dom().contains(x) ==> match m[x].parent {
            Some(p) => m.dom().contains(p) && d[x] == d[p] + 1,
            None => d[x] == 0,
        }
}

/// The subtree summaries of the ancestors of `id` at distances `1..k`,
/// joined: what marking `id` finds already summarized below distance `k`.
pub open spec fn covered_below(m: HostMap, id: u64, k: nat) -> u8
    decreases k,
{
    if k <= 1 {
        0
    } else {
        covered_below(m, id, (k - 1) as nat) | m[host_up(m, id, (k - 1) as nat).unwrap()].subtree_work
    }
}

/// The distance from `id` up to its ancestor `x`.
pub open spec fn distance_up(m: HostMap, id: u64, x: u64) -> nat {
    choose|k: nat| k >= 1 && host_up(m, id, k) == Some(x)
}

/// `x` is a strict ancestor of `id`.
pub open spec fn strictly_above(m: HostMap, id: u64, x: u64) -> bool {
    exists|k: nat| k >= 1 && #[trigger] host_up(m, id, k) == Some(x)
}

/// The hosts after marking `id` with `flags`: `id` needs the flags, and
/// each ancestor's summary gains the newly needed flags that no ancestor
/// between them summarized yet.
pub open spec fn work_marked(m: HostMap, id: u64, flags: u8) -> HostMap {
    let newly = flags & !m[id].work;
    Map::new(
        |x: u64| m.dom().contains(x),
        |x: u64|
            if x == id {
                HostWork { work: m[id].work | flags, ..m[id] }
            } else if strictly_above(m, id, x) {
                HostWork {
                    subtree_work: m[x].subtree_work | (newly & !covered_below(
                        m,
                        id,
                        distance_up(m, id, x),
                    )),
                    ..m[x]
                }
            } else {
                m[x]
            },
    )
}

/// The hosts while marking is under way: `id` is marked and the ancestors
/// at distances `1..=k` have their summaries widened.
pub open spec fn work_marked_upto(m: HostMap, id: u64, flags: u8, k: nat) -> HostMap {
    let newly = flags & !m[id].work;
    Map::new(
        |x: u64| m.dom().contains(x),
        |x: u64|
            if x == id {
                HostWork { work: m[id].work | flags, ..m[id] }
            } else if strictly_above(m, id, x) && distance_up(m, id, x) <= k {
                HostWork {
                    subtree_work: m[x].subtree_work | (newly & !covered_below(
                        m,
                        id,
                        distance_up(m, id, x),
                    )),
                    ..m[x]
                }
            } else {
                m[x]
            },
    )
}

/// Every ancestor of a live host is live, `k` levels shallower.
pub proof fn lemma_host_up_depth(m: HostMap, d: Map<u64, nat>, x: u64, k: nat, a: u64)
    requires
        chains_wf(m, d),
        m.dom().contains(x),
        host_up(m, x, k) == Some(a),
    ensures
        m.dom().contains(a),
        d[a] + k == d[x],
    decreases k,
{
    if k > 0 {
        match m[x].parent {
            Some(p) => lemma_host_up_depth(m, d, p, (k - 1) as nat, a),
            None => {},
        }
    }
}

/// One more link up: the ancestor at `k + 1` is the parent of the one at `k`.
pub proof fn lemma_host_up_next(m: HostMap, x: u64, k: nat)
    ensures
        host_up(m, x, k + 1) == match host_up(m, x, k) {
            Some(y) => match m[y].parent {
                Some(p) => Some(p),
                None => None::<u64>,
            },
            None => None::<u64>,
        },
    decreases k,
{
    assert(host_up(m, x, 0) == Some(x));
    match m[x].parent {
        Some(p) => {
            assert(host_up(m, p, 0) == Some(p));
            if k > 0 {
                lemma_host_up_next(m, p, (k - 1) as nat);
            }
        },
        None => {},
    }
}

/// An ended chain stays ended.
pub proof fn lemma_host_up_none(m: HostMap, x: u64, k: nat, j: nat)
    requires
        host_up(m, x, k) is None,
        k <= j,
    ensures
        host_up(m, x, j) is None,
    decreases k,
{
    if k > 0 {
        match m[x].parent {
            Some(p) => lemma_host_up_none(m, p, (k - 1) as nat, (j - 1) as nat),
            None => {},
        }
    }
}

/// In a well-formed tree an ancestor sits at one distance only, and that is
/// the distance the marking uses for it.
pub proof fn lemma_distance_unique(m: HostMap, d: Map<u64, nat>, id: u64, x: u64, k: nat)
    requires
        chains_wf(m, d),
        m.dom().contains(id),
        k >= 1,
        host_up(m, id, k) == Some(x),
    ensures
        strictly_above(m, id, x),
        distance_up(m, id, x) == k,
        x != id,
{
    assert(strictly_above(m, id, x));
    let j = distance_up(m, id, x);
    lemma_host_up_depth(m, d, id, k, x);
    lemma_host_up_depth(m, d, id, j, x);
}

/// Facts of 8-bit masks that the marking proofs use.
pub proof fn lemma_masks(a: u8, b: u8, c: u8, s: u8)
    by (bit_vector)
    ensures
        s == 0 ==> a | s == a,
        a == 0 ==> a & b == 0,
        a & !c == 0 ==> a & !(c | s) == 0,
        (a & !c) & !s == a & !(c | s),
        a & !0u8 == a,
        (a | b) & !c == 0 ==> a & !c == 0 && b & !c == 0,
        a & !b == 0 && b & !c == 0 ==> a & !c == 0,
        b & !(a | b) == 0,
        (a | b) | b == a | b,
{
}

/// Once every newly needed flag is summarized below distance `j`, none is
/// left for any farther ancestor.
pub proof fn lemma_covered_grows(m: HostMap, id: u64, newly: u8, j: nat, l: nat)
    requires
        newly & !covered_below(m, id, j) == 0,
        1 <= j <= l,
    ensures
        newly & !covered_below(m, id, l) == 0,
    decreases l - j,
{
    if l > j {
        lemma_covered_grows(m, id, newly, j, (l - 1) as nat);
        let c = covered_below(m, id, (l - 1) as nat);
        let s = m[host_up(m, id, (l - 1) as nat).unwrap()].subtree_work;
        lemma_masks(newly, 0, c, s);
    }
}

/// Marking with no flags changes nothing.
pub proof fn lemma_zero_mark(m: HostMap, id: u64, flags: u8)
    requires
        m.dom().contains(id),
        flags == 0,
    ensures
        work_marked(m, id, flags) == m,
{
    let w = work_marked(m, id, flags);
    assert forall|x: u64| #[trigger] m.dom().contains(x) implies w[x] == m[x] by {
        let work = m[x].work;
        let sw = m[x].subtree_work;
        let w0 = m[id].work;
        let newly = flags & !w0;
        lemma_masks(work, 0, 0, flags);
        lemma_masks(flags, !w0, 0, 0);
        if x != id && strictly_above(m, id, x) {
            let c = covered_below(m, id, distance_up(m, id, x));
            lemma_masks(newly, !c, 0, 0);
            lemma_masks(sw, 0, 0, newly & !c);
        }
    }
    assert(w =~= m);
}

/// No flags ask for no queue.
pub proof fn lemma_empty_queues_nothing()
    ensures
        0u8 & (4u8 | 32u8) == 0,
        0u8 & 64u8 == 0,
        0u8 & 16u8 == 0,
{
    lemma_masks(0, 4u8 | 32u8, 0, 0);
    lemma_masks(0, 64, 0, 0);
    lemma_masks(0, 16, 0, 0);
}

/// Changing only work flags keeps the parent chains well formed.
pub proof fn lemma_same_parents_wf(m: HostMap, m2: HostMap, d: Map<u64, nat>)
    requires
        chains_wf(m, d),
        m2.dom() == m.dom(),
        forall|x: u64| #[trigger] m2.dom().contains(x) ==> m2[x].parent == m[x].parent,
    ensures
        chains_wf(m2, d),
{
}

/// Marking stops at a host without a parent: every ancestor was reached.
pub proof fn lemma_marking_ends(m: HostMap, d: Map<u64, nat>, id: u64, flags: u8, k: nat, current: u64)
    requires
        chains_wf(m, d),
        m.dom().contains(id),
        host_up(m, id, k) == Some(current),
        m[current].parent is None,
    ensures
        work_marked_upto(m, id, flags, k) == work_marked(m, id, flags),
{
    let a = work_marked_upto(m, id, flags, k);
    let b = work_marked(m, id, flags);
    assert forall|x: u64| #[trigger] m.dom().contains(x) implies a[x] == b[x] by {
        if x != id && strictly_above(m, id, x) {
            let j = distance_up(m, id, x);
            if j > k {
                lemma_host_up_next(m, id, k);
                lemma_host_up_none(m, id, k + 1, j);
            }
        }
    }
    assert(a =~= b);
}

/// Widening the summary of the ancestor at distance `k + 1` extends the
/// marking to `k + 1`.
pub proof fn lemma_marking_step(
    m: HostMap,
    d: Map<u64, nat>,
    id: u64,
    flags: u8,
    k: nat,
    p: u64,
    before: HostMap,
    after: HostMap,
)
    requires
        chains_wf(m, d),
        m.dom().contains(id),
        host_up(m, id, k + 1) == Some(p),
        before == work_marked_upto(m, id, flags, k),
        after == before.insert(
            p,
            HostWork {
                subtree_work: m[p].subtree_work | ((flags & !m[id].work) & !covered_below(m, id, k + 1)),
                ..m[p]
            },
        ),
    ensures
        after == work_marked_upto(m, id, flags, k + 1),
{
    lemma_distance_unique(m, d, id, p, k + 1);
    lemma_host_up_depth(m, d, id, k + 1, p);
    let b = work_marked_upto(m, id, flags, k + 1);
    assert forall|x: u64| #[trigger] m.dom().contains(x) implies after[x] == b[x] by {
        if x != p && x != id && strictly_above(m, id, x) && distance_up(m, id, x) == k + 1 {
            let j = distance_up(m, id, x);
            assert(host_up(m, id, j) == Some(x));
        }
    }
    assert(after =~= b);
}

/// Once an ancestor gains nothing new, no farther ancestor would either.
pub proof fn lemma_marking_saturated(m: HostMap, d: Map<u64, nat>, id: u64, flags: u8, k: nat)
    requires
        chains_wf(m, d),
        m.dom().contains(id),
        k >= 1,
        (flags & !m[id].work) & !covered_below(m, id, k + 1) == 0,
    ensures
        work_marked_upto(m, id, flags, k) == work_marked(m, id, flags),
{
    let newly = flags & !m[id].work;
    let a = work_marked_upto(m, id, flags, k);
    let b = work_marked(m, id, flags);
    assert forall|x: u64| #[trigger] m.dom().contains(x) implies a[x] == b[x] by {
        if x != id && strictly_above(m, id, x) {
            let j = distance_up(m, id, x);
            if j > k {
                lemma_covered_grows(m, id, newly, k + 1, j);
                let sw = m[x].subtree_work;
                let c = covered_below(m, id, j);
                lemma_masks(sw, 0, 0, newly & !c);
            }
        }
    }
    assert(a =~= b);
}

/// Each host's summary covers the work of each child and the child's own
/// summary.
pub open spec fn summaries_cover(m: HostMap) -> bool {
    forall|x: u64|
        #[trigger] m.dom().contains(x) && m[x].parent is Some ==> (m[x].work | m[x].subtree_work)
            & !m[m[x].parent.unwrap()].subtree_work == 0
}

/// Under covering summaries, every ancestor's summary holds a host's work.
pub proof fn lemma_cover_chain(m: HostMap, d: Map<u64, nat>, x: u64, k: nat)
    requires
        chains_wf(m, d),
        summaries_cover(m),
        m.dom().contains(x),
        k >= 1,
        host_up(m, x, k) is Some,
    ensures
        m[x].work & !m[host_up(m, x, k).unwrap()].subtree_work == 0,
    decreases k,
{
    lemma_host_up_next(m, x, (k - 1) as nat);
    let a = host_up(m, x, (k - 1) as nat).unwrap();
    let b = host_up(m, x, k).unwrap();
    lemma_host_up_depth(m, d, x, (k - 1) as nat, a);
    assert(m[a].parent == Some(b));
    let (wx, wa, sa, sb) = (m[x].work, m[a].work, m[a].subtree_work, m[b].subtree_work);
    if k == 1 {
        assert(host_up(m, x, 0) == Some(x));
        lemma_masks(wx, sa, sb, 0);
    } else {
        lemma_cover_chain(m, d, x, (k - 1) as nat);
        lemma_masks(wa, sa, sb, 0);
        lemma_masks(wx, sa, sb, 0);
    }
}

/// Marking work keeps every summary covering the work below it, so that a
/// pass that skips hosts whose summary lacks a flag skips no host needing it;
/// afterwards every ancestor of the marked host summarizes the marked flags.
pub proof fn law_marking_keeps_summaries(m: HostMap, d: Map<u64, nat>, id: u64, flags: u8)
    requires
        chains_wf(m, d),
        summaries_cover(m),
        m.dom().contains(id),
    ensures
        summaries_cover(work_marked(m, id, flags)),
        forall|k: nat|
            k >= 1 && #[trigger] host_up(m, id, k) is Some ==> flags & !work_marked(m, id, flags)[host_up(
                m,
                id,
                k,
            ).unwrap()].subtree_work == 0,
{
    let w = work_marked(m, id, flags);
    let w0 = m[id].work;
    let newly = flags & !w0;
    assert forall|x: u64| #[trigger] w.dom().contains(x) && w[x].parent is Some implies (w[x].work
        | w[x].subtree_work) & !w[w[x].parent.unwrap()].subtree_work == 0 by {
        let p = m[x].parent.unwrap();
        assert(w[x].parent == m[x].parent);
        let (wx, sx, sp) = (m[x].work, m[x].subtree_work, m[p].subtree_work);
        if x == id {
            assert(host_up(m, id, 0) == Some(id));
            lemma_host_up_next(m, id, 0);
            lemma_distance_unique(m, d, id, p, 1);
            assert(covered_below(m, id, 1) == 0);
            assert((wx | sx) & !sp == 0 && newly == flags & !wx ==> ((wx | flags) | sx) & !(sp | (newly
                & !0u8)) == 0) by (bit_vector);
        } else if strictly_above(m, id, x) {
            let k = distance_up(m, id, x);
            lemma_distance_unique(m, d, id, x, k);
            lemma_host_up_next(m, id, k);
            lemma_distance_unique(m, d, id, p, k + 1);
            let cb = covered_below(m, id, k);
            assert(covered_below(m, id, k + 1) == cb | sx);
            assert((wx | sx) & !sp == 0 ==> (wx | (sx | (newly & !cb))) & !(sp | (newly & !(cb | sx)))
                == 0) by (bit_vector);
        } else {
            assert(w[x] == m[x]);
            let sp2 = w[p].subtree_work;
            assert(exists|e: u8| sp2 == sp | e) by {
                if p != id && strictly_above(m, id, p) {
                    let e = newly & !covered_below(m, id, distance_up(m, id, p));
                    assert(sp2 == sp | e);
                } else {
                    lemma_masks(sp, 0, 0, 0);
                    assert(sp2 == sp | 0u8);
                }
            }
            let e = choose|e: u8| sp2 == sp | e;
            lemma_masks(wx | sx, 0, sp, e);
        }
    }
    assert(w.dom() =~= m.dom());
    assert forall|x: u64| #[trigger] w.dom().contains(x) implies match w[x].parent {
        Some(p) => w.dom().contains(p) && d[x] == d[p] + 1,
        None => d[x] == 0,
    } by {
        assert(w[x].parent == m[x].parent);
    }
    assert forall|k: nat| k >= 1 && #[trigger] host_up(m, id, k) is Some implies flags & !w[host_up(
        m,
        id,
        k,
    ).unwrap()].subtree_work == 0 by {
        let a = host_up(m, id, k).unwrap();
        lemma_same_shape_host_up(m, w, id, k);
        lemma_cover_chain(w, d, id, k);
        let wi = w[id].work;
        assert(wi == w0 | flags);
        let sa = w[a].subtree_work;
        lemma_masks(w0, flags, sa, 0);
    }
}

/// Marking a host again with the same flags finds nothing new to add and
/// leaves every host as it was.
pub proof fn law_marking_twice(m: HostMap, id: u64, flags: u8)
    requires
        m.dom().contains(id),
    ensures
        flags & !work_marked(m, id, flags)[id].work == 0,
        work_marked(work_marked(m, id, flags), id, flags) == work_marked(m, id, flags),
{
    let w = work_marked(m, id, flags);
    let w0 = m[id].work;
    assert(w[id].work == w0 | flags);
    lemma_masks(w0, flags, 0, 0);
    let ww = work_marked(w, id, flags);
    assert forall|x: u64| #[trigger] w.dom().contains(x) implies ww[x] == w[x] by {
        let newly = flags & !(w0 | flags);
        if x == id {
            lemma_masks(w0, flags, 0, 0);
        } else if strictly_above(w, id, x) {
            let sw = w[x].subtree_work;
            let c = covered_below(w, id, distance_up(w, id, x));
            lemma_masks(newly, !c, 0, 0);
            lemma_masks(sw, 0, 0, newly & !c);
        }
    }
    assert(ww =~= w);
}

/// Maps with the same parent links have the same chains.
pub proof fn lemma_same_shape_host_up(m: HostMap, m2: HostMap, x: u64, k: nat)
    requires
        m2.dom() == m.dom(),
        forall|y: u64| #[trigger] m2.dom().contains(y) ==> m2[y].parent == m[y].parent,
        m.dom().contains(x),
        forall|y: u64| #[trigger] m.dom().contains(y) && m[y].parent is Some ==> m.dom().contains(m[y].parent.unwrap()),
    ensures
        host_up(m2, x, k) == host_up(m, x, k),
    decreases k,
{
    if k > 0 {
        assert(m2[x].parent == m[x].parent);
        match m[x].parent {
            Some(p) => lemma_same_shape_host_up(m, m2, p, (k - 1) as nat),
            None => {},
        }
    }
}

/// The hosts of the UI tree with their pending work.
pub struct HostWorkTree {
    hosts: HashMap<u64, HostWork>,
    depth: Ghost<Map<u64, nat>>,
}

impl View for HostWorkTree {
    type V = HostMap;

    closed spec fn view(&self) -> HostMap {
        self.hosts@
    }
}

impl HostWorkTree {
    pub closed spec fn wf(&self) -> bool {
        chains_wf(self.hosts@, self.depth@)
    }

    pub fn new() -> (r: HostWorkTree)
        ensures
            r.wf(),
            r@ == Map::<u64, HostWork>::empty(),
    {
        HostWorkTree { hosts: HashMap::new(), depth: Ghost(Map::empty()) }
    }

    /// Adds host `id` below `parent` (or as a top host) with no pending
    /// work; refused when `id` is already a host or `parent` is not one.
    pub fn insert_host(&mut self, id: u64, parent: Option<u64>, props_hash: u64) -> (r: bool)
        requires
            old(self).wf(),
        ensures
            final(self).wf(),
            r == (!old(self)@.dom().contains(id) && match parent {
                Some(p) => old(self)@.dom().contains(p),
                None => true,
            }),
            r ==> final(self)@ == old(self)@.insert(
                id,
                HostWork { parent, work: 0, subtree_work: 0, old_props_hash: props_hash, new_props_hash: props_hash },
            ),
            !r ==> final(self)@ == old(self)@,
    {
        if self.hosts.contains_key(&id) {
            return false;
        }
        let depth: Ghost<nat> = match parent {
            Some(p) => {
                if !self.hosts.contains_key(&p) {
                    return false;
                }
                Ghost(self.depth@[p] + 1)
            },
            None => Ghost(0),
        };
        let ghost m = self.hosts@;
        self.hosts.insert(
            id,
            HostWork { parent, work: 0, subtree_work: 0, old_props_hash: props_hash, new_props_hash: props_hash },
        );
        self.depth = Ghost(self.depth@.insert(id, depth@));
        proof {
            assert forall|x: u64| #[trigger] self.hosts@.dom().contains(x) implies match self.hosts@[x].parent {
                Some(p) => self.hosts@.dom().contains(p) && self.depth@[x] == self.depth@[p] + 1,
                None => self.depth@[x] == 0,
            } by {
                if x != id {
                    assert(m.dom().contains(x));
                    if let Some(p) = m[x].parent {
                        assert(p != id);
                    }
                }
            }
        }
        true
    }

    /// Marks host `id` as needing `flags` and returns the flags it did not
    /// need yet. Hosts waiting for layout, for a state sync or for
    /// reshaping are queued in `ui`; the newly needed flags are summarized
    /// in the ancestors, walking up only while an ancestor gains something.
    pub fn mark_work(&mut self, id: u64, flags: HostWorkFlags, ui: &mut UiState) -> (r: HostWorkFlags)
        requires
            old(self).wf(),
        ensures
            final(self).wf(),
            !old(self)@.dom().contains(id) ==> r.bits == 0 && final(self)@ == old(self)@,
            old(self)@.dom().contains(id) ==> r.bits == flags.bits & !old(self)@[id].work
                && final(self)@ == work_marked(old(self)@, id, flags.bits),
            final(ui).spec_layout() == if r.bits & (4u8 | 32u8) != 0 {
                old(ui).spec_layout().push(id)
            } else {
                old(ui).spec_layout()
            },
            final(ui).spec_state_change() == if r.bits & 64 != 0 {
                old(ui).spec_state_change().push(id)
            } else {
                old(ui).spec_state_change()
            },
            final(ui).spec_shape() == if r.bits & 16 != 0 {
                old(ui).spec_shape().push(id)
            } else {
                old(ui).spec_shape()
            },
    {
        let ghost m = self.hosts@;
        let ghost d = self.depth@;
        let node = match self.hosts.get(&id) {
            Some(h) => *h,
            None => {
                proof {
                    lemma_empty_queues_nothing();
                }
                return HostWorkFlags::empty();
            },
        };
        let fb = flags.bits;
        let nw = node.work;
        let newly = fb & !nw;
        if fb == 0 {
            proof {
                lemma_masks(fb, !nw, 0, 0);
                lemma_zero_mark(m, id, flags.bits);
                lemma_empty_queues_nothing();
            }
            return HostWorkFlags::empty();
        }
        self.hosts.insert(id, HostWork { work: node.work | flags.bits, ..node });
        proof {
            assert(self.hosts@.dom() =~= m.dom());
            lemma_same_parents_wf(m, self.hosts@, d);
        }
        if newly == 0 {
            proof {
                assert forall|x: u64| #[trigger] m.dom().contains(x) implies self.hosts@[x] == work_marked(m, id, flags.bits)[x] by {
                    if x != id && strictly_above(m, id, x) {
                        let sw = m[x].subtree_work;
                        let c = covered_below(m, id, distance_up(m, id, x));
                        lemma_masks(newly, !c, 0, 0);
                        lemma_masks(sw, 0, 0, newly & !c);
                    }
                }
                assert(self.hosts@ =~= work_marked(m, id, flags.bits));
                lemma_empty_queues_nothing();
            }
            return HostWorkFlags::empty();
        }
        if newly & (4u8 | 32u8) != 0 {
            ui.mark_layout_dirty(id);
        }
        if newly & 64 != 0 {
            ui.mark_state_change_dirty(id);
        }
        if newly & 16 != 0 {
            ui.mark_shape_dirty(id);
        }
        let mut current = id;
        let mut remaining = newly;
        let ghost mut k: nat = 0;
        proof {
            assert(remaining == newly & !covered_below(m, id, 1)) by {
                lemma_masks(newly, 0, 0, 0);
            }
            assert forall|x: u64| #[trigger] m.dom().contains(x) implies self.hosts@[x] == work_marked_upto(m, id, flags.bits, 0)[x] by {
                if x != id && strictly_above(m, id, x) {
                    let j = distance_up(m, id, x);
                    assert(j >= 1 && host_up(m, id, j) == Some(x));
                }
            }
            assert(self.hosts@ =~= work_marked_upto(m, id, flags.bits, 0));
        }
        loop
            invariant_except_break
                self.hosts@ == work_marked_upto(m, id, flags.bits, k),
                chains_wf(self.hosts@, d),
                host_up(m, id, k) == Some(current),
                m.dom().contains(current),
                remaining == newly & !covered_below(m, id, k + 1),
                remaining != 0,
            invariant
                chains_wf(m, d),
                m.dom().contains(id),
                newly == flags.bits & !m[id].work,
                self.depth@ == d,
            ensures
                self.hosts@ == work_marked(m, id, flags.bits),
                chains_wf(self.hosts@, d),
            decreases d[current],
        {
            proof {
                lemma_host_up_depth(m, d, id, k, current);
                assert(self.hosts@[current].parent == m[current].parent) by {
                    if current != id && strictly_above(m, id, current) {
                    }
                }
            }
            let parent = match self.hosts.get(&current) {
                Some(h) => h.parent,
                None => None,
            };
            match parent {
                None => {
                    proof {
                        lemma_marking_ends(m, d, id, flags.bits, k, current);
                    }
                    break;
                },
                Some(p) => {
                    proof {
                        lemma_host_up_next(m, id, k);
                        lemma_distance_unique(m, d, id, p, k + 1);
                        assert(self.hosts@[p] == m[p]);
                    }
                    let pn = *self.hosts.get(&p).unwrap();
                    let new_for_parent = remaining & !pn.subtree_work;
                    let ghost before = self.hosts@;
                    self.hosts.insert(p, HostWork { subtree_work: pn.subtree_work | remaining, ..pn });
                    proof {
                        let c = covered_below(m, id, k + 1);
                        assert(new_for_parent == newly & !covered_below(m, id, k + 2)) by {
                            let sw = pn.subtree_work;
                            lemma_masks(newly, 0, c, sw);
                        }
                        lemma_marking_step(m, d, id, flags.bits, k, p, before, self.hosts@);
                        assert(self.hosts@.dom() =~= m.dom());
                        lemma_same_parents_wf(m, self.hosts@, d);
                    }
                    if new_for_parent == 0 {
                        proof {
                            lemma_marking_saturated(m, d, id, flags.bits, k + 1);
                        }
                        break;
                    }
                    remaining = new_for_parent;
                    current = p;
                    proof {
                        k = k + 1;
                    }
                },
            }
        }
        HostWorkFlags { bits: newly }
    }

    /// Forgets the work of host `id` and of its subtree summary, and takes
    /// its current props hash as the one its work was cleared at.
    pub fn clear_work(&mut self, id: u64)
        requires
            old(self).wf(),
        ensures
            final(self).wf(),
            final(self)@ == if old(self)@.dom().contains(id) {
                old(self)@.insert(
                    id,
                    HostWork {
                        old_props_hash: old(self)@[id].new_props_hash,
                        work: 0,
                        subtree_work: 0,
                        ..old(self)@[id]
                    },
                )
            } else {
                old(self)@
            },
    {
        let ghost m = self.hosts@;
        if let Some(node) = self.hosts.get(&id) {
            let node = *node;
            self.hosts.insert(
                id,
                HostWork { old_props_hash: node.new_props_hash, work: 0, subtree_work: 0, ..node },
            );
            proof {
                assert(self.hosts@.dom() =~= m.dom());
                lemma_same_parents_wf(m, self.hosts@, self.depth@);
            }
        }
    }

    /// The hosts an event for `target` travels through: its topmost ancestor
    /// first, down to `target` itself; just `target` when it is no host.
    pub fn event_path(&self, target: u64) -> (r: Vec<u64>)
        requires
            self.wf(),
        ensures
            r@.len() >= 1,
            r@.last() == target,
            forall|i: int|
                0 <= i < r@.len() ==> host_up(self@, target, (r@.len() - 1 - i) as nat) == Some(#[trigger] r@[i]),
            !self@.dom().contains(r@[0]) || self@[r@[0]].parent is None,
            !self@.dom().contains(target) ==> r@ == seq![target],
    {
        let ghost m = self.hosts@;
        let ghost d = self.depth@;
        let parent0 = match self.hosts.get(&target) {
            Some(h) => h.parent,
            None => {
                return vec![target];
            },
        };
        let mut up: Vec<u64> = vec![target];
        let mut cursor: u64 = target;
        let mut parent: Option<u64> = parent0;
        proof {
            assert(host_up(m, target, 0) == Some(target));
        }
        while parent.is_some()
            invariant
                chains_wf(m, d),
                m == self.hosts@,
                m.dom().contains(target),
                m.dom().contains(cursor),
                parent == m[cursor].parent,
                up@.len() >= 1,
                host_up(m, target, (up@.len() - 1) as nat) == Some(cursor),
                forall|i: int| 0 <= i < up@.len() ==> host_up(m, target, i as nat) == Some(#[trigger] up@[i]),
                d[cursor] + up@.len() - 1 == d[target],
            decreases d[cursor],
        {
            let p = parent.unwrap();
            proof {
                lemma_host_up_next(m, target, (up@.len() - 1) as nat);
            }
            up.push(p);
            cursor = p;
            parent = match self.hosts.get(&p) {
                Some(h) => h.parent,
                None => None,
            };
        }
        let mut r: Vec<u64> = Vec::new();
        let mut i: usize = up.len();
        while i > 0
            invariant
                i <= up@.len(),
                r@.len() + i == up@.len(),
                forall|j: int| 0 <= j < r@.len() ==> r@[j] == up@[up@.len() - 1 - j],
            decreases i,
        {
            i = i - 1;
            r.push(up[i]);
        }
        proof {
            assert(r@.last() == up@[0]);
            assert forall|j: int| 0 <= j < r@.len() implies host_up(m, target, (r@.len() - 1 - j) as nat) == Some(
                #[trigger] r@[j],
            ) by {
                assert(r@[j] == up@[up@.len() - 1 - j]);
            }
        }
        r
    }

    /// The host's entry, if it is a host.
    pub fn get(&self, id: u64) -> (r: Option<HostWork>)
        ensures
            r == if self@.dom().contains(id) { Some(self@[id]) } else { None::<HostWork> },
    {
        match self.hosts.get(&id) {
            Some(h) => Some(*h),
            None => None,
        }
    }
}

/// A host that changed place in the tree, as its lifecycle reports it.
#[derive(Debug, Clone, Copy, PartialEq, Eq, Structural)]
pub struct NodeMoved {
    pub id: u64,
    pub old_parent: Option<u64>,
    pub new_parent: Option<u64>,
    pub old_position: usize,
    pub new_position: usize,
}

/// Whether a change of place is reported: not when the host stays where it
/// was, and not when it is attached for the first time.
pub open spec fn move_reported(
    old_parent: Option<u64>,
    new_parent: Option<u64>,
    old_position: usize,
    new_position: usize,
) -> bool {
    !(old_parent == new_parent && old_position == new_position) && !(old_parent is None
        && new_parent is Some)
}

/// Which moves are reported, for any places: a move between two different
/// parents is, wherever it goes; so is a move within one parent to another
/// position, and a detach from a parent; staying at the same place is not,
/// and neither is a first attach of a host that had no parent.
pub proof fn law_moves_reported(
    old_parent: Option<u64>,
    new_parent: Option<u64>,
    old_position: usize,
    new_position: usize,
)
    ensures
        old_parent is Some && new_parent is Some && old_parent != new_parent ==> move_reported(
            old_parent,
            new_parent,
            old_position,
            new_position,
        ),
        old_parent is Some && old_parent == new_parent && old_position != new_position ==> move_reported(
            old_parent,
            new_parent,
            old_position,
            new_position,
        ),
        old_parent is Some && new_parent is None ==> move_reported(old_parent, new_parent, old_position, new_position),
        old_parent == new_parent && old_position == new_position ==> !move_reported(
            old_parent,
            new_parent,
            old_position,
            new_position,
        ),
        old_parent is None && new_parent is Some ==> !move_reported(old_parent, new_parent, old_position, new_position),
{
}

/// Records that host `id` moved, unless the move is not reported.
pub fn record_node_move(
    events: &mut Vec<NodeMoved>,
    id: u64,
    old_parent: Option<u64>,
    new_parent: Option<u64>,
    old_position: usize,
    new_position: usize,
)
    ensures
        final(events)@ == if move_reported(old_parent, new_parent, old_position, new_position) {
            old(events)@.push(NodeMoved { id, old_parent, new_parent, old_position, new_position })
        } else {
            old(events)@
        },
{
    if old_parent == new_parent && old_position == new_position {
        return;
    }
    if old_parent.is_none() && new_parent.is_some() {
        return;
    }
    events.push(NodeMoved { id, old_parent, new_parent, old_position, new_position });
}

/// The children kept from a requested list, for any list: each once, each a
/// live host other than the parent and the overlayer, each one requested;
/// and every such host that was requested is kept.
pub proof fn law_kept_children(s: Seq<u64>, m: HostMap, parent: u64, overlayer: u64)
    ensures
        first_kept(s, m, parent, overlayer).no_duplicates(),
        forall|c: u64|
            #[trigger] first_kept(s, m, parent, overlayer).contains(c) ==> kept_child(m, parent, overlayer, c)
                && s.contains(c),
        forall|c: u64| s.contains(c) && kept_child(m, parent, overlayer, c) ==> #[trigger] first_kept(
            s,
            m,
            parent,
            overlayer,
        ).contains(c),
    decreases s.len(),
{
    if s.len() > 0 {
        let t = s.drop_last();
        law_kept_children(t, m, parent, overlayer);
        let before = first_kept(t, m, parent, overlayer);
        let r = first_kept(s, m, parent, overlayer);
        assert forall|c: u64| #[trigger] r.contains(c) implies kept_child(m, parent, overlayer, c) && s.contains(c) by {
            if before.contains(c) {
                let i = choose|i: int| 0 <= i < t.len() && t[i] == c;
                assert(s[i] == c);
            } else {
                assert(c == s.last());
                assert(s[s.len() - 1] == c);
            }
        }
        assert forall|c: u64| s.contains(c) && kept_child(m, parent, overlayer, c) implies #[trigger] r.contains(c) by {
            let i = choose|i: int| 0 <= i < s.len() && s[i] == c;
            if i < s.len() - 1 {
                assert(t[i] == c);
                assert(before.contains(c));
                if r != before {
                    assert(r == before.push(s.last()));
                    let j = choose|j: int| 0 <= j < before.len() && before[j] == c;
                    assert(r[j] == c);
                }
            } else {
                if !before.contains(c) {
                    assert(r == before.push(c));
                    assert(r[r.len() - 1] == c);
                }
            }
        }
    }
}

/// Whether `set_children_order` keeps child `c`: a live host other than
/// the parent and the overlayer.
pub open spec fn kept_child(m: HostMap, parent: u64, overlayer: u64, c: u64) -> bool {
    c != parent && c != overlayer && m.dom().contains(c)
}

/// The elements of `s` that are kept, each at its first place.
pub open spec fn first_kept(s: Seq<u64>, m: HostMap, parent: u64, overlayer: u64) -> Seq<u64>
    decreases s.len(),
{
    if s.len() == 0 {
        Seq::empty()
    } else {
        let before = first_kept(s.drop_last(), m, parent, overlayer);
        if kept_child(m, parent, overlayer, s.last()) && !before.contains(s.last()) {
            before.push(s.last())
        } else {
            before
        }
    }
}

fn holds(v: &Vec<u64>, x: u64) -> (r: bool)
    ensures
        r == v@.contains(x),
{
    let mut i: usize = 0;
    while i < v.len()
        invariant
            i <= v.len(),
            forall|j: int| 0 <= j < i ==> v@[j] != x,
        decreases v.len() - i,
    {
        if v[i] == x {
            return true;
        }
        i = i + 1;
    }
    false
}

impl HostWorkTree {
    /// The children that setting `parent`'s children to `children` keeps:
    /// live hosts other than `parent` and the overlayer, each once, in the
    /// order given; under the root the overlayer always comes last.
    pub fn set_children_order(&self, parent: u64, children: &Vec<u64>, root: u64, overlayer: u64) -> (r:
        Vec<u64>)
        ensures
            r@ == first_kept(children@, self@, parent, overlayer) + if parent == root {
                seq![overlayer]
            } else {
                Seq::<u64>::empty()
            },
    {
        let mut unique: Vec<u64> = Vec::new();
        let mut i: usize = 0;
        while i < children.len()
            invariant
                i <= children.len(),
                unique@ == first_kept(children@.take(i as int), self@, parent, overlayer),
            decreases children.len() - i,
        {
            let child = children[i];
            proof {
                assert(children@.take(i + 1).drop_last() =~= children@.take(i as int));
                assert(children@.take(i + 1).last() == child);
            }
            let ghost before = unique@;
            let live = self.hosts.contains_key(&child);
            if child != parent && child != overlayer && live && !holds(&unique, child) {
                unique.push(child);
            }
            proof {
                let t = children@.take(i + 1);
                assert(t.len() != 0);
                assert(live == self@.dom().contains(child));
            }
            i = i + 1;
        }
        proof {
            assert(children@.take(children@.len() as int) =~= children@);
        }
        if parent == root {
            unique.push(overlayer);
        }
        unique
    }
}

} // verus!
