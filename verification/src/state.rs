//! The hook scheduler: which components are mounted, which are dirty in which
//! lanes, the queue of pending hook updates, the generation of each async
//! hook scope, and the lanes of the root.
//!
//! Hook updates are closures owned by the caller; the scheduler queues them
//! by an opaque update identity and hands the identities back when a render
//! applies them.

use vstd::prelude::*;

use crate::assoc::{
    lemma_filter_sub,
    assoc_map, keys_unique, lemma_assoc_absent, lemma_assoc_at, lemma_assoc_map_ext,
    lemma_assoc_present,
};
use crate::lanes::{
    has_lane, spec_includes_some_lane, spec_is_subset, spec_next_lanes, LaneRoot, DEFAULT_LANE,
    NO_LANES, NO_TIMESTAMP, TOTAL_LANES,
};
use crate::scene_spec::{lemma_insert_to_set, lemma_remove_to_set};

verus! {

/// The identity of a component instance.
#[derive(Debug, Clone, Copy, PartialEq, Eq, Hash, Structural)]
pub struct FiberId(pub u64);

/// One async hook's current run: updates carrying an older generation of the
/// same hook are stale.
#[derive(Debug, Clone, Copy, PartialEq, Eq, Structural)]
pub struct AsyncScope {
    pub owner: FiberId,
    pub hook_index: usize,
    pub generation: u64,
}

/// An update sent from async work to a hook.
#[derive(Debug, Clone, Copy, PartialEq, Eq, Structural)]
pub struct AsyncMessage {
    pub owner: FiberId,
    pub hook_index: usize,
    pub lane: u32,
    pub scope: Option<AsyncScope>,
    /// The identity of the update closure.
    pub update: u64,
}

/// A queued update of one hook.
#[derive(Debug, Clone, Copy, PartialEq, Eq, Structural)]
pub struct HookUpdate {
    pub owner: FiberId,
    pub hook_index: usize,
    pub lane: u32,
    /// The identity of the update closure.
    pub update: u64,
}

/// The lanes of a sequence of component entries, together.
pub open spec fn entry_lanes(s: Seq<(FiberId, u32)>) -> u32
    decreases s.len(),
{
    if s.len() == 0 {
        0
    } else {
        entry_lanes(s.drop_last()) | s.last().1
    }
}

/// The lanes of a sequence of queued updates, together.
pub open spec fn update_lanes(s: Seq<HookUpdate>) -> u32
    decreases s.len(),
{
    if s.len() == 0 {
        0
    } else {
        update_lanes(s.drop_last()) | s.last().lane
    }
}

/// The update belongs to a hook of another component than `id`.
pub open spec fn not_owned_by(id: FiberId) -> spec_fn(HookUpdate) -> bool {
    |u: HookUpdate| u.owner != id
}

/// The update is of hook `hook_index` of `owner` and shares a lane with `lanes`.
pub open spec fn applies_in(owner: FiberId, hook_index: usize, lanes: u32) -> spec_fn(
    HookUpdate,
) -> bool {
    |u: HookUpdate| u.owner == owner && u.hook_index == hook_index && u.lane & lanes != 0
}

/// The update stays queued after the updates of `applies_in` are taken.
pub open spec fn stays_after(owner: FiberId, hook_index: usize, lanes: u32) -> spec_fn(
    HookUpdate,
) -> bool {
    |u: HookUpdate| !(u.owner == owner && u.hook_index == hook_index && u.lane & lanes != 0)
}

/// Rendering hook `hook_index` of `owner` in `lanes` splits the queue, for
/// any queue: an update is applied exactly when it is of that hook of that
/// owner and shares a lane with the render, and otherwise it stays queued;
/// so every queued update is either applied or kept, never both, and none
/// is lost.
pub proof fn law_hook_updates_split(q: Seq<HookUpdate>, owner: FiberId, hook_index: usize, lanes: u32)
    ensures
        forall|u: HookUpdate|
            #[trigger] applies_in(owner, hook_index, lanes)(u) == (u.owner == owner && u.hook_index == hook_index
                && u.lane & lanes != 0),
        forall|u: HookUpdate|
            #[trigger] stays_after(owner, hook_index, lanes)(u) == !applies_in(owner, hook_index, lanes)(u),
        q.filter(applies_in(owner, hook_index, lanes)).len() + q.filter(stays_after(owner, hook_index, lanes)).len()
            == q.len(),
    decreases q.len(),
{
    reveal(Seq::filter);
    if q.len() > 0 {
        law_hook_updates_split(q.drop_last(), owner, hook_index, lanes);
    }
}

/// The lanes recorded for `id`; none if it has no entry.
pub open spec fn lanes_of(m: Map<FiberId, u32>, id: FiberId) -> u32 {
    if m.dom().contains(id) {
        m[id]
    } else {
        0
    }
}

/// Widening the pending lanes by `l` keeps what was covered covered, and
/// covers `l` and anything widened by `l`.
proof fn lemma_widen(a: u32, p: u32, l: u32)
    ensures
        spec_is_subset(a, p) ==> spec_is_subset(a, p | l),
        spec_is_subset(a, p) ==> spec_is_subset(a | l, p | l),
        spec_is_subset(l, p | l),
        spec_is_subset(0, p | l),
{
    assert((a & !p == 0 ==> a & !(p | l) == 0) && (a & !p == 0 ==> (a | l) & !(p | l) == 0) && (l & !(p | l)
        == 0) && (0u32 & !(p | l) == 0)) by (bit_vector);
}

/// The scopes of a map that belong to components other than `id`.
pub open spec fn scopes_without(m: Map<(FiberId, usize), u64>, id: FiberId) -> Map<(FiberId, usize), u64> {
    Map::new(|k: (FiberId, usize)| m.dom().contains(k) && k.0 != id, |k: (FiberId, usize)| m[k])
}



/// The queued updates that belong to other components than `id`, in order.
fn updates_without_owner(v: &Vec<HookUpdate>, id: FiberId) -> (r: Vec<HookUpdate>)
    ensures
        r@ == v@.filter(not_owned_by(id)),
{
    let ghost u0 = v@;
    let mut kept: Vec<HookUpdate> = Vec::new();
    let mut j: usize = 0;
    while j < v.len()
        invariant
            j <= u0.len(),
            u0 == v@,
            kept@ == u0.subrange(0, j as int).filter(not_owned_by(id)),
        decreases u0.len() - j,
    {
        let u = v[j];
        proof {
            reveal(Seq::filter);
            assert(u0.subrange(0, j + 1).drop_last() =~= u0.subrange(0, j as int));
            assert(u0.subrange(0, j + 1).last() == u);
        }
        if u.owner != id {
            kept.push(u);
        }
        j = j + 1;
    }
    proof {
        assert(u0.subrange(0, u0.len() as int) =~= u0);
    }
    kept
}

/// The scope entry belongs to another component than `id`.
pub open spec fn scope_not_owned_by(id: FiberId) -> spec_fn(((FiberId, usize), u64)) -> bool {
    |e: ((FiberId, usize), u64)| e.0.0 != id
}

/// Filtering keeps keys unique.
proof fn lemma_filter_keys_unique<K, V>(s: Seq<(K, V)>, pred: spec_fn((K, V)) -> bool)
    requires
        keys_unique(s),
    ensures
        keys_unique(s.filter(pred)),
    decreases s.len(),
{
    reveal(Seq::filter);
    if s.len() > 0 {
        let t = s.drop_last();
        assert(keys_unique(t)) by {
            assert forall|i: int, j: int| 0 <= i < j < t.len() implies #[trigger] t[i].0
                != #[trigger] t[j].0 by {
                assert(s[i].0 != s[j].0);
            }
        }
        lemma_filter_keys_unique(t, pred);
        lemma_filter_sub(t, pred);
        let g = t.filter(pred);
        let f = s.filter(pred);
        if pred(s.last()) {
            assert forall|i: int, j: int| 0 <= i < j < f.len() implies #[trigger] f[i].0
                != #[trigger] f[j].0 by {
                if j == f.len() - 1 {
                    assert(f[i] == g[i]);
                    let a = choose|a: int| 0 <= a < t.len() && t[a] == g[i];
                    assert(s[a].0 != s[s.len() - 1].0);
                } else {
                    assert(f[i] == g[i] && f[j] == g[j]);
                }
            }
        }
    }
}

/// The async scopes that belong to other components than `id`.
fn scopes_without_owner(v: &Vec<((FiberId, usize), u64)>, id: FiberId) -> (r: Vec<((FiberId, usize), u64)>)
    requires
        keys_unique(v@),
    ensures
        keys_unique(r@),
        assoc_map(r@) == scopes_without(assoc_map(v@), id),
{
    let ghost c0 = v@;
    let mut kept: Vec<((FiberId, usize), u64)> = Vec::new();
    let mut k: usize = 0;
    while k < v.len()
        invariant
            k <= c0.len(),
            c0 == v@,
            kept@ == c0.subrange(0, k as int).filter(scope_not_owned_by(id)),
        decreases c0.len() - k,
    {
        let entry = v[k];
        proof {
            reveal(Seq::filter);
            assert(c0.subrange(0, k + 1).drop_last() =~= c0.subrange(0, k as int));
            assert(c0.subrange(0, k + 1).last() == entry);
        }
        if (entry.0).0 != id {
            kept.push(entry);
        }
        k = k + 1;
    }
    proof {
        assert(c0.subrange(0, c0.len() as int) =~= c0);
        let pred = scope_not_owned_by(id);
        lemma_filter_keys_unique(c0, pred);
        lemma_filter_sub(c0, pred);
        let f = c0.filter(pred);
        let target = scopes_without(assoc_map(c0), id);
        assert forall|t: int| 0 <= t < f.len() implies target.dom().contains(#[trigger] f[t].0)
            && target[f[t].0] == f[t].1 by {
            let a = choose|a: int| 0 <= a < c0.len() && c0[a] == f[t];
            c0.lemma_filter_pred(pred, t);
            lemma_assoc_at(c0, a);
        }
        assert forall|key: (FiberId, usize)| #[trigger] target.dom().contains(key) implies exists|
            t: int,
        | 0 <= t < f.len() && f[t].0 == key by {
            lemma_assoc_present(c0, key);
            let a = choose|a: int| 0 <= a < c0.len() && c0[a].0 == key;
            c0.lemma_filter_contains(pred, a);
            let t = choose|t: int| 0 <= t < f.len() && f[t] == c0[a];
            assert(f[t].0 == key);
        }
        lemma_assoc_map_ext(f, target);
    }
    kept
}

/// A dirty map after the lanes `f` finished: those lanes leave every entry,
/// and entries left with no lane go.
pub open spec fn finished_map(m: Map<FiberId, u32>, f: u32) -> Map<FiberId, u32> {
    Map::new(|k: FiberId| m.dom().contains(k) && m[k] & !f != 0, |k: FiberId| m[k] & !f)
}

/// An entry with the lanes `f` taken out.
pub open spec fn masked(f: u32) -> spec_fn((FiberId, u32)) -> (FiberId, u32) {
    |e: (FiberId, u32)| (e.0, e.1 & !f)
}

/// The entry still holds a lane.
pub open spec fn holds_lane() -> spec_fn((FiberId, u32)) -> bool {
    |e: (FiberId, u32)| e.1 != 0
}

proof fn lemma_or_bit(a: u32, b: u32, j: u32)
    requires
        j < 32,
    ensures
        has_lane(a | b, j) == (has_lane(a, j) || has_lane(b, j)),
{
    assert(has_lane(a | b, j) == (has_lane(a, j) || has_lane(b, j))) by (bit_vector)
        requires
            j < 32,
    ;
}

proof fn lemma_bit_subset_of_or(a: u32, b: u32, c: u32)
    ensures
        spec_is_subset(a, b) ==> spec_is_subset(a, b | c),
{
    assert(a & !b == 0 ==> a & !(b | c) == 0) by (bit_vector);
}

/// The lanes of entries together: each entry's lanes are among them, and
/// each of their lanes is some entry's.
proof fn lemma_entry_lanes_bits(s: Seq<(FiberId, u32)>)
    ensures
        forall|t: int| 0 <= t < s.len() ==> spec_is_subset(#[trigger] s[t].1, entry_lanes(s)),
        forall|j: u32|
            j < 32 ==> #[trigger] has_lane(entry_lanes(s), j) == exists|t: int|
                0 <= t < s.len() && has_lane(#[trigger] s[t].1, j),
    decreases s.len(),
{
    if s.len() == 0 {
        assert forall|j: u32| j < 32 implies !#[trigger] has_lane(0u32, j) by {
            assert(!has_lane(0u32, j)) by (bit_vector);
        }
    }
    if s.len() > 0 {
        let p = s.drop_last();
        lemma_entry_lanes_bits(p);
        let a = entry_lanes(p);
        let l = s.last().1;
        assert forall|t: int| 0 <= t < s.len() implies spec_is_subset(#[trigger] s[t].1, entry_lanes(s)) by {
            assert(l & !(a | l) == 0) by (bit_vector);
            if t < p.len() {
                assert(s[t] == p[t]);
                lemma_bit_subset_of_or(p[t].1, a, l);
            }
        }
        assert forall|j: u32| j < 32 implies #[trigger] has_lane(entry_lanes(s), j) == exists|t: int|
            0 <= t < s.len() && has_lane(#[trigger] s[t].1, j) by {
            lemma_or_bit(a, l, j);
            if has_lane(a, j) {
                let t = choose|t: int| 0 <= t < p.len() && has_lane(#[trigger] p[t].1, j);
                assert(s[t] == p[t]);
            }
            if has_lane(l, j) {
                assert(has_lane(s[s.len() - 1].1, j));
            }
            if exists|t: int| 0 <= t < s.len() && has_lane(#[trigger] s[t].1, j) {
                let t = choose|t: int| 0 <= t < s.len() && has_lane(#[trigger] s[t].1, j);
                if t < p.len() {
                    assert(s[t] == p[t]);
                }
            }
        }
    }
}

/// The lanes of queued updates together, as for entries.
proof fn lemma_update_lanes_bits(s: Seq<HookUpdate>)
    ensures
        forall|t: int| 0 <= t < s.len() ==> spec_is_subset(#[trigger] s[t].lane, update_lanes(s)),
        forall|j: u32|
            j < 32 ==> #[trigger] has_lane(update_lanes(s), j) == exists|t: int|
                0 <= t < s.len() && has_lane(#[trigger] s[t].lane, j),
    decreases s.len(),
{
    if s.len() == 0 {
        assert forall|j: u32| j < 32 implies !#[trigger] has_lane(0u32, j) by {
            assert(!has_lane(0u32, j)) by (bit_vector);
        }
    }
    if s.len() > 0 {
        let p = s.drop_last();
        lemma_update_lanes_bits(p);
        let a = update_lanes(p);
        let l = s.last().lane;
        assert forall|t: int| 0 <= t < s.len() implies spec_is_subset(#[trigger] s[t].lane, update_lanes(s)) by {
            assert(l & !(a | l) == 0) by (bit_vector);
            if t < p.len() {
                assert(s[t] == p[t]);
                lemma_bit_subset_of_or(p[t].lane, a, l);
            }
        }
        assert forall|j: u32| j < 32 implies #[trigger] has_lane(update_lanes(s), j) == exists|t: int|
            0 <= t < s.len() && has_lane(#[trigger] s[t].lane, j) by {
            lemma_or_bit(a, l, j);
            if has_lane(a, j) {
                let t = choose|t: int| 0 <= t < p.len() && has_lane(#[trigger] p[t].lane, j);
                assert(s[t] == p[t]);
            }
            if has_lane(l, j) {
                assert(has_lane(s[s.len() - 1].lane, j));
            }
            if exists|t: int| 0 <= t < s.len() && has_lane(#[trigger] s[t].lane, j) {
                let t = choose|t: int| 0 <= t < s.len() && has_lane(#[trigger] s[t].lane, j);
                if t < p.len() {
                    assert(s[t] == p[t]);
                }
            }
        }
    }
}

/// The dirty entries after the lanes `f` finished, in their order.
fn finish_entries(v: &Vec<(FiberId, u32)>, f: u32) -> (r: Vec<(FiberId, u32)>)
    requires
        keys_unique(v@),
    ensures
        keys_unique(r@),
        assoc_map(r@) == finished_map(assoc_map(v@), f),
        forall|t: int| 0 <= t < r@.len() ==> #[trigger] r@[t].1 != 0,
{
    let ghost s0 = v@;
    let ghost ms = s0.map_values(masked(f));
    let mut kept: Vec<(FiberId, u32)> = Vec::new();
    let mut k: usize = 0;
    while k < v.len()
        invariant
            k <= s0.len(),
            s0 == v@,
            ms == s0.map_values(masked(f)),
            kept@ == ms.subrange(0, k as int).filter(holds_lane()),
        decreases s0.len() - k,
    {
        let e = v[k];
        let lanes = e.1 & !f;
        proof {
            reveal(Seq::filter);
            assert(ms.subrange(0, k + 1).drop_last() =~= ms.subrange(0, k as int));
            assert(ms.subrange(0, k + 1).last() == (e.0, lanes));
        }
        if lanes != 0 {
            kept.push((e.0, lanes));
        }
        k = k + 1;
    }
    proof {
        assert(ms.subrange(0, ms.len() as int) =~= ms);
        assert(keys_unique(ms)) by {
            assert forall|a: int, b: int| 0 <= a < b < ms.len() implies #[trigger] ms[a].0
                != #[trigger] ms[b].0 by {
                assert(s0[a].0 != s0[b].0);
            }
        }
        let pred = holds_lane();
        lemma_filter_keys_unique(ms, pred);
        lemma_filter_sub(ms, pred);
        let fl = ms.filter(pred);
        let target = finished_map(assoc_map(s0), f);
        assert forall|t: int| 0 <= t < fl.len() implies target.dom().contains(#[trigger] fl[t].0)
            && target[fl[t].0] == fl[t].1 by {
            let a = choose|a: int| 0 <= a < ms.len() && ms[a] == fl[t];
            ms.lemma_filter_pred(pred, t);
            lemma_assoc_at(s0, a);
        }
        assert forall|key: FiberId| #[trigger] target.dom().contains(key) implies exists|t: int|
            0 <= t < fl.len() && fl[t].0 == key by {
            lemma_assoc_present(s0, key);
            let a = choose|a: int| 0 <= a < s0.len() && s0[a].0 == key;
            lemma_assoc_at(s0, a);
            ms.lemma_filter_contains(pred, a);
            let t = choose|t: int| 0 <= t < fl.len() && fl[t] == ms[a];
            assert(fl[t].0 == key);
        }
        lemma_assoc_map_ext(fl, target);
        assert forall|t: int| 0 <= t < fl.len() implies #[trigger] fl[t].1 != 0 by {
            ms.lemma_filter_pred(pred, t);
        }
    }
    kept
}

/// The scheduler's state.
pub struct Scheduler {
    lane_root: LaneRoot,
    dirty_components: Vec<(FiberId, u32)>,
    hook_updates: Vec<HookUpdate>,
    async_scopes: Vec<((FiberId, usize), u64)>,
    mounted_components: Vec<FiberId>,
    root: Option<FiberId>,
}

impl Scheduler {
    /// Lanes of each dirty component.
    pub closed spec fn spec_dirty(&self) -> Map<FiberId, u32> {
        assoc_map(self.dirty_components@)
    }

    /// Mounted components.
    pub closed spec fn spec_mounted(&self) -> Set<FiberId> {
        self.mounted_components@.to_set()
    }

    /// Queued hook updates, oldest first.
    pub closed spec fn spec_updates(&self) -> Seq<HookUpdate> {
        self.hook_updates@
    }

    /// The current generation of each async hook scope.
    pub closed spec fn spec_scopes(&self) -> Map<(FiberId, usize), u64> {
        assoc_map(self.async_scopes@)
    }

    pub closed spec fn spec_root(&self) -> Option<FiberId> {
        self.root
    }

    /// Lanes with pending work.
    pub closed spec fn spec_pending(&self) -> u32 {
        self.lane_root.pending_lanes
    }

    /// Pending lanes that waited past their deadline.
    pub closed spec fn spec_expired(&self) -> u32 {
        self.lane_root.expired_lanes
    }

    /// The deadline of each lane.
    pub closed spec fn spec_deadlines(&self) -> Seq<u64> {
        self.lane_root.expiration_times@
    }

    /// The component may receive work: it is mounted or it is the root.
    pub open spec fn accepts(&self, id: FiberId) -> bool {
        self.spec_mounted().contains(id) || self.spec_root() == Some(id)
    }

    /// The maps hold no key twice, and every lane of queued work is pending.
    pub closed spec fn wf(&self) -> bool {
        &&& keys_unique(self.dirty_components@)
        &&& keys_unique(self.async_scopes@)
        &&& self.mounted_components@.no_duplicates()
        &&& self.lane_root.wf()
        &&& forall|i: int|
            0 <= i < self.dirty_components@.len() ==> spec_is_subset(
                #[trigger] self.dirty_components@[i].1,
                self.lane_root.pending_lanes,
            )
        &&& forall|i: int|
            0 <= i < self.hook_updates@.len() ==> spec_is_subset(
                #[trigger] self.hook_updates@[i].lane,
                self.lane_root.pending_lanes,
            )
    }

    /// Every lane with work queued, for a dirty component or a hook update,
    /// is a pending lane.
    pub proof fn law_queued_work_is_pending(&self)
        requires
            self.wf(),
        ensures
            forall|id: FiberId| #[trigger]
                self.spec_dirty().dom().contains(id) ==> spec_is_subset(
                    self.spec_dirty()[id],
                    self.spec_pending(),
                ),
            forall|i: int|
                0 <= i < self.spec_updates().len() ==> spec_is_subset(
                    #[trigger] self.spec_updates()[i].lane,
                    self.spec_pending(),
                ),
    {
        assert forall|id: FiberId| #[trigger] self.spec_dirty().dom().contains(id) implies spec_is_subset(
            self.spec_dirty()[id],
            self.spec_pending(),
        ) by {
            lemma_assoc_present(self.dirty_components@, id);
            let i = choose|i: int|
                0 <= i < self.dirty_components@.len() && self.dirty_components@[i].0 == id;
            lemma_assoc_at(self.dirty_components@, i);
        }
    }

    /// No component, no root, nothing queued, nothing pending.
    pub fn new() -> (r: Scheduler)
        ensures
            r.wf(),
            r.spec_dirty() == Map::<FiberId, u32>::empty(),
            r.spec_mounted() == Set::<FiberId>::empty(),
            r.spec_updates() == Seq::<HookUpdate>::empty(),
            r.spec_scopes() == Map::<(FiberId, usize), u64>::empty(),
            r.spec_root() is None,
            r.spec_pending() == 0,
            r.spec_expired() == 0,
            forall|i: int| 0 <= i < TOTAL_LANES ==> r.spec_deadlines()[i] == NO_TIMESTAMP,
    {
        let r = Scheduler {
            lane_root: LaneRoot::new(),
            dirty_components: Vec::new(),
            hook_updates: Vec::new(),
            async_scopes: Vec::new(),
            mounted_components: Vec::new(),
            root: None,
        };
        proof {
            assert(assoc_map(r.dirty_components@) =~= Map::<FiberId, u32>::empty());
            assert(assoc_map(r.async_scopes@) =~= Map::<(FiberId, usize), u64>::empty());
            assert(r.mounted_components@.to_set() =~= Set::<FiberId>::empty());
        }
        r
    }

    /// The position of `id` in the mounted list.
    fn mounted_index(&self, id: FiberId) -> (r: Option<usize>)
        ensures
            r matches Some(i) ==> i < self.mounted_components@.len()
                && self.mounted_components@[i as int] == id,
            r is None ==> !self.mounted_components@.contains(id),
    {
        let mut i: usize = 0;
        while i < self.mounted_components.len()
            invariant
                i <= self.mounted_components@.len(),
                forall|j: int| 0 <= j < i ==> self.mounted_components@[j] != id,
            decreases self.mounted_components@.len() - i,
        {
            if self.mounted_components[i] == id {
                return Some(i);
            }
            i = i + 1;
        }
        None
    }

    /// The position of `id` in the dirty list.
    fn dirty_index(&self, id: FiberId) -> (r: Option<usize>)
        ensures
            r matches Some(i) ==> i < self.dirty_components@.len()
                && self.dirty_components@[i as int].0 == id,
            r is None ==> forall|j: int|
                0 <= j < self.dirty_components@.len() ==> self.dirty_components@[j].0 != id,
    {
        let mut i: usize = 0;
        while i < self.dirty_components.len()
            invariant
                i <= self.dirty_components@.len(),
                forall|j: int| 0 <= j < i ==> self.dirty_components@[j].0 != id,
            decreases self.dirty_components@.len() - i,
        {
            if self.dirty_components[i].0 == id {
                return Some(i);
            }
            i = i + 1;
        }
        None
    }

    /// The position of the scope of hook `hook_index` of `owner`.
    fn scope_index(&self, owner: FiberId, hook_index: usize) -> (r: Option<usize>)
        ensures
            r matches Some(i) ==> i < self.async_scopes@.len() && self.async_scopes@[i as int].0
                == (owner, hook_index),
            r is None ==> forall|j: int|
                0 <= j < self.async_scopes@.len() ==> self.async_scopes@[j].0 != (owner, hook_index),
    {
        let mut i: usize = 0;
        while i < self.async_scopes.len()
            invariant
                i <= self.async_scopes@.len(),
                forall|j: int| 0 <= j < i ==> self.async_scopes@[j].0 != (owner, hook_index),
            decreases self.async_scopes@.len() - i,
        {
            let key = self.async_scopes[i].0;
            if key.0 == owner && key.1 == hook_index {
                return Some(i);
            }
            i = i + 1;
        }
        None
    }

    /// Whether `id` is mounted or is the root.
    fn accepts_work(&self, id: FiberId) -> (r: bool)
        ensures
            r == self.accepts(id),
    {
        if self.mounted_index(id).is_some() {
            return true;
        }
        match self.root {
            Some(root) => root == id,
            None => false,
        }
    }

    /// Adds `id` to the mounted set.
    fn insert_mounted(&mut self, id: FiberId)
        requires
            old(self).wf(),
        ensures
            final(self).wf(),
            final(self).spec_mounted() == old(self).spec_mounted().insert(id),
            final(self).dirty_components == old(self).dirty_components,
            final(self).hook_updates == old(self).hook_updates,
            final(self).async_scopes == old(self).async_scopes,
            final(self).lane_root == old(self).lane_root,
            final(self).root == old(self).root,
    {
        match self.mounted_index(id) {
            Some(_) => {
                proof {
                    assert(self.mounted_components@.to_set().contains(id));
                    assert(self.mounted_components@.to_set().insert(id) =~= self.mounted_components@.to_set());
                }
            },
            None => {
                let ghost s = self.mounted_components@;
                self.mounted_components.push(id);
                proof {
                    lemma_insert_to_set(s, s.len() as int, id);
                    assert(s.insert(s.len() as int, id) =~= self.mounted_components@);
                }
            },
        }
    }

    /// Makes `id` the root; the root counts as mounted.
    pub fn set_root(&mut self, id: FiberId)
        requires
            old(self).wf(),
        ensures
            final(self).wf(),
            final(self).spec_root() == Some(id),
            final(self).spec_mounted() == old(self).spec_mounted().insert(id),
            final(self).spec_dirty() == old(self).spec_dirty(),
            final(self).spec_updates() == old(self).spec_updates(),
            final(self).spec_scopes() == old(self).spec_scopes(),
            final(self).spec_pending() == old(self).spec_pending(),
            final(self).spec_expired() == old(self).spec_expired(),
            final(self).spec_deadlines() == old(self).spec_deadlines(),
    {
        self.root = Some(id);
        self.insert_mounted(id);
    }

    /// Records that `id` is mounted.
    pub fn mark_mounted(&mut self, id: FiberId)
        requires
            old(self).wf(),
        ensures
            final(self).wf(),
            final(self).spec_mounted() == old(self).spec_mounted().insert(id),
            final(self).spec_root() == old(self).spec_root(),
            final(self).spec_dirty() == old(self).spec_dirty(),
            final(self).spec_updates() == old(self).spec_updates(),
            final(self).spec_scopes() == old(self).spec_scopes(),
            final(self).spec_pending() == old(self).spec_pending(),
            final(self).spec_expired() == old(self).spec_expired(),
            final(self).spec_deadlines() == old(self).spec_deadlines(),
    {
        self.insert_mounted(id);
    }

    /// The lanes in which `id` is dirty; none if it is not dirty.
    pub fn component_lanes(&self, id: FiberId) -> (r: u32)
        requires
            self.wf(),
        ensures
            r == if self.spec_dirty().dom().contains(id) {
                self.spec_dirty()[id]
            } else {
                NO_LANES
            },
    {
        match self.dirty_index(id) {
            Some(i) => {
                proof {
                    lemma_assoc_at(self.dirty_components@, i as int);
                }
                self.dirty_components[i].1
            },
            None => {
                proof {
                    lemma_assoc_absent(self.dirty_components@, id);
                }
                NO_LANES
            },
        }
    }

    /// Lanes with pending work.
    pub fn pending_lanes(&self) -> (r: u32)
        ensures
            r == self.spec_pending(),
    {
        self.lane_root.pending_lanes
    }

    /// The lanes to render next, given the lanes of a render in progress.
    pub fn get_next_lanes(&self, wip_lanes: u32) -> (r: u32)
        ensures
            r == spec_next_lanes(self.spec_pending(), self.spec_expired(), wip_lanes),
    {
        self.lane_root.get_next_lanes(wip_lanes)
    }

    /// Whether any lane has pending work.
    pub fn is_dirty(&self) -> (r: bool)
        ensures
            r == (self.spec_pending() != NO_LANES),
    {
        self.lane_root.pending_lanes != NO_LANES
    }

    /// Gives deadlines to pending lanes without one and marks expired the
    /// pending lanes whose deadline has passed at `now_ms`.
    pub fn mark_starved_lanes_as_expired(&mut self, now_ms: u64)
        requires
            old(self).wf(),
        ensures
            final(self).wf(),
            final(self).spec_pending() == old(self).spec_pending(),
            final(self).spec_root() == old(self).spec_root(),
            final(self).spec_mounted() == old(self).spec_mounted(),
            final(self).spec_dirty() == old(self).spec_dirty(),
            final(self).spec_updates() == old(self).spec_updates(),
            final(self).spec_scopes() == old(self).spec_scopes(),
            forall|i: int|
                #![trigger final(self).spec_deadlines()[i]]
                0 <= i < TOTAL_LANES ==> final(self).spec_deadlines()[i] == if has_lane(
                    old(self).spec_pending(),
                    i as u32,
                ) && old(self).spec_deadlines()[i] == NO_TIMESTAMP {
                    crate::lanes::spec_expiration_time(1u32 << (i as u32), now_ms)
                } else {
                    old(self).spec_deadlines()[i]
                },
            forall|j: u32|
                #![trigger has_lane(final(self).spec_expired(), j)]
                j < 32 ==> has_lane(final(self).spec_expired(), j) == (has_lane(
                    old(self).spec_expired(),
                    j,
                ) || (j < TOTAL_LANES && has_lane(old(self).spec_pending(), j)
                    && old(self).spec_deadlines()[j as int] != NO_TIMESTAMP
                    && old(self).spec_deadlines()[j as int] <= now_ms)),
    {
        self.lane_root.mark_starved_lanes_as_expired(now_ms);
    }

    /// Adds `lane` to the lanes of `id` and to the pending lanes.
    fn add_dirty(&mut self, id: FiberId, lane: u32)
        requires
            old(self).wf(),
        ensures
            final(self).wf(),
            final(self).spec_dirty() == old(self).spec_dirty().insert(
                id,
                lanes_of(old(self).spec_dirty(), id) | lane,
            ),
            final(self).spec_pending() == old(self).spec_pending() | lane,
            final(self).spec_expired() == old(self).spec_expired(),
            final(self).spec_deadlines() == old(self).spec_deadlines(),
            final(self).mounted_components == old(self).mounted_components,
            final(self).hook_updates == old(self).hook_updates,
            final(self).async_scopes == old(self).async_scopes,
            final(self).root == old(self).root,
    {
        let ghost s0 = self.dirty_components@;
        let ghost p0 = self.lane_root.pending_lanes;
        match self.dirty_index(id) {
            Some(i) => {
                let v = self.dirty_components[i].1;
                proof {
                    lemma_assoc_at(s0, i as int);
                }
                self.dirty_components.set(i, (id, v | lane));
            },
            None => {
                proof {
                    lemma_assoc_absent(s0, id);
                }
                self.dirty_components.push((id, lane));
            },
        }
        self.lane_root.mark_root_updated(lane);
        proof {
            let s1 = self.dirty_components@;
            let target = assoc_map(s0).insert(id, lanes_of(assoc_map(s0), id) | lane);
            assert(keys_unique(s1)) by {
                assert forall|a: int, b: int| 0 <= a < b < s1.len() implies #[trigger] s1[a].0
                    != #[trigger] s1[b].0 by {
                    if b < s0.len() && a != b {
                        if s1[a].0 == id || s1[b].0 == id {
                            assert(s0[a].0 != s0[b].0);
                        } else {
                            assert(s0[a].0 != s0[b].0);
                        }
                    }
                }
            }
            assert forall|i: int| 0 <= i < s1.len() implies target.dom().contains(#[trigger] s1[i].0)
                && target[s1[i].0] == s1[i].1 by {
                if s1[i].0 != id {
                    assert(s1[i] == s0[i]);
                    lemma_assoc_at(s0, i);
                } else {
                    if i < s0.len() && s0[i].0 == id {
                        lemma_assoc_at(s0, i);
                    } else {
                        lemma_assoc_absent(s0, id);
                        assert(0u32 | lane == lane) by (bit_vector);
                    }
                }
            }
            assert forall|k: FiberId| #[trigger] target.dom().contains(k) implies exists|i: int|
                0 <= i < s1.len() && s1[i].0 == k by {
                if k != id {
                    lemma_assoc_present(s0, k);
                    let i = choose|i: int| 0 <= i < s0.len() && s0[i].0 == k;
                    assert(s1[i].0 == k);
                } else {
                    if exists|i: int| 0 <= i < s0.len() && s0[i].0 == id {
                        let i = choose|i: int| 0 <= i < s0.len() && s0[i].0 == id;
                        assert(s1[i].0 == k);
                    } else {
                        assert(s1[s1.len() - 1].0 == k);
                    }
                }
            }
            lemma_assoc_map_ext(s1, target);
            assert forall|i: int| 0 <= i < s1.len() implies spec_is_subset(
                #[trigger] s1[i].1,
                self.lane_root.pending_lanes,
            ) by {
                if s1[i].0 != id {
                    assert(s1[i] == s0[i]);
                    lemma_widen(s0[i].1, p0, lane);
                } else if i < s0.len() && s0[i].0 == id {
                    lemma_widen(s0[i].1, p0, lane);
                } else {
                    lemma_widen(0, p0, lane);
                }
            }
            assert forall|i: int| 0 <= i < self.hook_updates@.len() implies spec_is_subset(
                #[trigger] self.hook_updates@[i].lane,
                self.lane_root.pending_lanes,
            ) by {
                lemma_widen(self.hook_updates@[i].lane, p0, lane);
            }
        }
    }

    /// Adds `lane` to the lanes of `id` and to the pending lanes, if `id` is
    /// mounted or is the root; otherwise nothing changes.
    pub fn mark_component_dirty(&mut self, id: FiberId, lane: u32)
        requires
            old(self).wf(),
        ensures
            final(self).wf(),
            !old(self).accepts(id) ==> *final(self) == *old(self),
            old(self).accepts(id) ==> {
                &&& final(self).spec_dirty() == old(self).spec_dirty().insert(
                    id,
                    lanes_of(old(self).spec_dirty(), id) | lane,
                )
                &&& final(self).spec_pending() == old(self).spec_pending() | lane
            },
            final(self).spec_expired() == old(self).spec_expired(),
            final(self).spec_deadlines() == old(self).spec_deadlines(),
            final(self).spec_root() == old(self).spec_root(),
            final(self).spec_mounted() == old(self).spec_mounted(),
            final(self).spec_updates() == old(self).spec_updates(),
            final(self).spec_scopes() == old(self).spec_scopes(),
    {
        if !self.accepts_work(id) {
            return;
        }
        self.add_dirty(id, lane);
    }

    /// Marks the root dirty in `lane`; nothing changes without a root.
    pub fn mark_root_dirty(&mut self, lane: u32)
        requires
            old(self).wf(),
        ensures
            final(self).wf(),
            old(self).spec_root() is None ==> *final(self) == *old(self),
            old(self).spec_root() matches Some(r) ==> {
                &&& final(self).spec_dirty() == old(self).spec_dirty().insert(
                    r,
                    lanes_of(old(self).spec_dirty(), r) | lane,
                )
                &&& final(self).spec_pending() == old(self).spec_pending() | lane
            },
            final(self).spec_expired() == old(self).spec_expired(),
            final(self).spec_deadlines() == old(self).spec_deadlines(),
            final(self).spec_root() == old(self).spec_root(),
            final(self).spec_mounted() == old(self).spec_mounted(),
            final(self).spec_updates() == old(self).spec_updates(),
            final(self).spec_scopes() == old(self).spec_scopes(),
    {
        if let Some(root) = self.root {
            self.mark_component_dirty(root, lane);
        }
    }

    /// Records `generation` as the current run of hook `hook_index` of
    /// `owner`, if `owner` is mounted or is the root; otherwise nothing changes.
    pub fn set_async_scope(&mut self, owner: FiberId, hook_index: usize, generation: u64)
        requires
            old(self).wf(),
        ensures
            final(self).wf(),
            !old(self).accepts(owner) ==> *final(self) == *old(self),
            old(self).accepts(owner) ==> final(self).spec_scopes() == old(self).spec_scopes().insert(
                (owner, hook_index),
                generation,
            ),
            final(self).spec_root() == old(self).spec_root(),
            final(self).spec_mounted() == old(self).spec_mounted(),
            final(self).spec_dirty() == old(self).spec_dirty(),
            final(self).spec_updates() == old(self).spec_updates(),
            final(self).spec_pending() == old(self).spec_pending(),
            final(self).spec_expired() == old(self).spec_expired(),
            final(self).spec_deadlines() == old(self).spec_deadlines(),
    {
        if !self.accepts_work(owner) {
            return;
        }
        let key = (owner, hook_index);
        let ghost s0 = self.async_scopes@;
        match self.scope_index(owner, hook_index) {
            Some(i) => {
                self.async_scopes.set(i, (key, generation));
            },
            None => {
                self.async_scopes.push((key, generation));
            },
        }
        proof {
            let s1 = self.async_scopes@;
            let target = assoc_map(s0).insert(key, generation);
            assert(keys_unique(s1)) by {
                assert forall|a: int, b: int| 0 <= a < b < s1.len() implies #[trigger] s1[a].0
                    != #[trigger] s1[b].0 by {
                    if b < s0.len() {
                        assert(s0[a].0 != s0[b].0);
                    }
                }
            }
            assert forall|i: int| 0 <= i < s1.len() implies target.dom().contains(#[trigger] s1[i].0)
                && target[s1[i].0] == s1[i].1 by {
                if s1[i].0 != key {
                    assert(s1[i] == s0[i]);
                    lemma_assoc_at(s0, i);
                }
            }
            assert forall|k: (FiberId, usize)| #[trigger] target.dom().contains(k) implies exists|
                i: int,
            | 0 <= i < s1.len() && s1[i].0 == k by {
                if k != key {
                    lemma_assoc_present(s0, k);
                    let i = choose|i: int| 0 <= i < s0.len() && s0[i].0 == k;
                    assert(s1[i].0 == k);
                } else {
                    if exists|i: int| 0 <= i < s0.len() && s0[i].0 == key {
                        let i = choose|i: int| 0 <= i < s0.len() && s0[i].0 == key;
                        assert(s1[i].0 == k);
                    } else {
                        assert(s1[s1.len() - 1].0 == k);
                    }
                }
            }
            lemma_assoc_map_ext(s1, target);
        }
    }

    /// Queues an update after adding its lane to its component and to the
    /// pending lanes.
    fn push_update(&mut self, u: HookUpdate)
        requires
            old(self).wf(),
        ensures
            final(self).wf(),
            final(self).spec_updates() == old(self).spec_updates().push(u),
            final(self).spec_dirty() == old(self).spec_dirty().insert(
                u.owner,
                lanes_of(old(self).spec_dirty(), u.owner) | u.lane,
            ),
            final(self).spec_pending() == old(self).spec_pending() | u.lane,
            final(self).spec_expired() == old(self).spec_expired(),
            final(self).spec_deadlines() == old(self).spec_deadlines(),
            final(self).spec_root() == old(self).spec_root(),
            final(self).spec_mounted() == old(self).spec_mounted(),
            final(self).spec_scopes() == old(self).spec_scopes(),
    {
        self.add_dirty(u.owner, u.lane);
        proof {
            lemma_widen(u.lane, old(self).lane_root.pending_lanes, u.lane);
        }
        self.hook_updates.push(u);
    }

    /// Queues `update` for hook `hook_index` of `owner` in `lane` and marks
    /// `owner` dirty in it, if `owner` is mounted; otherwise nothing changes.
    pub fn enqueue_hook_update(&mut self, owner: FiberId, hook_index: usize, lane: u32, update: u64)
        requires
            old(self).wf(),
        ensures
            final(self).wf(),
            !old(self).spec_mounted().contains(owner) ==> *final(self) == *old(self),
            old(self).spec_mounted().contains(owner) ==> {
                &&& final(self).spec_updates() == old(self).spec_updates().push(
                    HookUpdate { owner, hook_index, lane, update },
                )
                &&& final(self).spec_dirty() == old(self).spec_dirty().insert(
                    owner,
                    lanes_of(old(self).spec_dirty(), owner) | lane,
                )
                &&& final(self).spec_pending() == old(self).spec_pending() | lane
            },
            final(self).spec_expired() == old(self).spec_expired(),
            final(self).spec_deadlines() == old(self).spec_deadlines(),
            final(self).spec_root() == old(self).spec_root(),
            final(self).spec_mounted() == old(self).spec_mounted(),
            final(self).spec_scopes() == old(self).spec_scopes(),
    {
        if self.mounted_index(owner).is_none() {
            return;
        }
        self.push_update(HookUpdate { owner, hook_index, lane, update });
    }

    /// Queues an update sent by async work. It is refused (and nothing
    /// changes) when its component is not mounted, or when it carries a scope
    /// that is not the current run of its hook.
    pub fn enqueue_async_message(&mut self, message: AsyncMessage) -> (r: bool)
        requires
            old(self).wf(),
        ensures
            final(self).wf(),
            r == (old(self).spec_mounted().contains(message.owner) && (message.scope matches Some(
                sc,
            ) ==> old(self).spec_scopes().dom().contains((sc.owner, sc.hook_index))
                && old(self).spec_scopes()[(sc.owner, sc.hook_index)] == sc.generation)),
            !r ==> *final(self) == *old(self),
            r ==> {
                &&& final(self).spec_updates() == old(self).spec_updates().push(
                    HookUpdate {
                        owner: message.owner,
                        hook_index: message.hook_index,
                        lane: message.lane,
                        update: message.update,
                    },
                )
                &&& final(self).spec_dirty() == old(self).spec_dirty().insert(
                    message.owner,
                    lanes_of(old(self).spec_dirty(), message.owner) | message.lane,
                )
                &&& final(self).spec_pending() == old(self).spec_pending() | message.lane
            },
            final(self).spec_expired() == old(self).spec_expired(),
            final(self).spec_deadlines() == old(self).spec_deadlines(),
            final(self).spec_root() == old(self).spec_root(),
            final(self).spec_mounted() == old(self).spec_mounted(),
            final(self).spec_scopes() == old(self).spec_scopes(),
    {
        if self.mounted_index(message.owner).is_none() {
            return false;
        }
        if let Some(scope) = message.scope {
            match self.scope_index(scope.owner, scope.hook_index) {
                Some(i) => {
                    proof {
                        lemma_assoc_at(self.async_scopes@, i as int);
                    }
                    if self.async_scopes[i].1 != scope.generation {
                        return false;
                    }
                },
                None => {
                    proof {
                        lemma_assoc_absent(self.async_scopes@, (scope.owner, scope.hook_index));
                    }
                    return false;
                },
            }
        }
        self.push_update(
            HookUpdate {
                owner: message.owner,
                hook_index: message.hook_index,
                lane: message.lane,
                update: message.update,
            },
        );
        true
    }

    /// Forgets `id`: it is no longer mounted, dirty, or the owner of queued
    /// updates or async scopes.
    pub fn mark_unmounted(&mut self, id: FiberId)
        requires
            old(self).wf(),
        ensures
            final(self).wf(),
            final(self).spec_mounted() == old(self).spec_mounted().remove(id),
            final(self).spec_dirty() == old(self).spec_dirty().remove(id),
            final(self).spec_updates() == old(self).spec_updates().filter(not_owned_by(id)),
            final(self).spec_scopes() == scopes_without(old(self).spec_scopes(), id),
            final(self).spec_root() == old(self).spec_root(),
            final(self).spec_pending() == old(self).spec_pending(),
            final(self).spec_expired() == old(self).spec_expired(),
            final(self).spec_deadlines() == old(self).spec_deadlines(),
    {
        match self.mounted_index(id) {
            Some(i) => {
                let ghost s = self.mounted_components@;
                self.mounted_components.remove(i);
                proof {
                    lemma_remove_to_set(s, i as int);
                }
            },
            None => {
                proof {
                    assert(!self.mounted_components@.to_set().contains(id));
                    assert(self.mounted_components@.to_set().remove(id)
                        =~= self.mounted_components@.to_set());
                }
            },
        }
        let ghost d0 = self.dirty_components@;
        match self.dirty_index(id) {
            Some(i) => {
                self.dirty_components.remove(i);
                proof {
                    let d1 = self.dirty_components@;
                    let target = assoc_map(d0).remove(id);
                    assert forall|a: int, b: int| 0 <= a < b < d1.len() implies #[trigger] d1[a].0
                        != #[trigger] d1[b].0 by {
                        let a2 = if a < i { a } else { a + 1 };
                        let b2 = if b < i { b } else { b + 1 };
                        assert(d1[a] == d0[a2] && d1[b] == d0[b2]);
                    }
                    assert forall|k: int| 0 <= k < d1.len() implies target.dom().contains(
                        #[trigger] d1[k].0,
                    ) && target[d1[k].0] == d1[k].1 by {
                        let k2 = if k < i { k } else { k + 1 };
                        assert(d1[k] == d0[k2]);
                        lemma_assoc_at(d0, k2);
                        assert(d0[k2].0 != d0[i as int].0);
                    }
                    assert forall|key: FiberId| #[trigger] target.dom().contains(key) implies exists|
                        k: int,
                    | 0 <= k < d1.len() && d1[k].0 == key by {
                        lemma_assoc_present(d0, key);
                        let k = choose|k: int| 0 <= k < d0.len() && d0[k].0 == key;
                        if k < i {
                            assert(d1[k] == d0[k]);
                        } else {
                            assert(k != i);
                            assert(d1[k - 1] == d0[k]);
                        }
                    }
                    lemma_assoc_map_ext(d1, target);
                }
            },
            None => {
                proof {
                    lemma_assoc_absent(d0, id);
                    assert(assoc_map(d0).remove(id) =~= assoc_map(d0));
                }
            },
        }
        let ghost u0 = self.hook_updates@;
        let kept = updates_without_owner(&self.hook_updates, id);
        proof {
            lemma_filter_sub(u0, not_owned_by(id));
            assert forall|k: int| 0 <= k < kept@.len() implies spec_is_subset(
                #[trigger] kept@[k].lane,
                self.lane_root.pending_lanes,
            ) by {
                let t = choose|t: int| 0 <= t < u0.len() && u0[t] == kept@[k];
                assert(spec_is_subset(u0[t].lane, self.lane_root.pending_lanes));
            }
        }
        self.hook_updates = kept;
        let scopes = scopes_without_owner(&self.async_scopes, id);
        self.async_scopes = scopes;
    }

    /// Takes the queued updates of hook `hook_index` of `owner` that share a
    /// lane with `render_lanes`, in queue order; the others stay queued in
    /// their order.
    pub fn apply_hook_updates(&mut self, owner: FiberId, hook_index: usize, render_lanes: u32) -> (r:
        Vec<u64>)
        requires
            old(self).wf(),
        ensures
            final(self).wf(),
            r@ == old(self).spec_updates().filter(applies_in(owner, hook_index, render_lanes)).map_values(
                |u: HookUpdate| u.update,
            ),
            final(self).spec_updates() == old(self).spec_updates().filter(
                stays_after(owner, hook_index, render_lanes),
            ),
            final(self).spec_dirty() == old(self).spec_dirty(),
            final(self).spec_root() == old(self).spec_root(),
            final(self).spec_mounted() == old(self).spec_mounted(),
            final(self).spec_scopes() == old(self).spec_scopes(),
            final(self).spec_pending() == old(self).spec_pending(),
            final(self).spec_expired() == old(self).spec_expired(),
            final(self).spec_deadlines() == old(self).spec_deadlines(),
    {
        let ghost u0 = self.hook_updates@;
        let ghost take = applies_in(owner, hook_index, render_lanes);
        let ghost stay = stays_after(owner, hook_index, render_lanes);
        let mut applied: Vec<u64> = Vec::new();
        let mut remaining: Vec<HookUpdate> = Vec::new();
        let mut j: usize = 0;
        while j < self.hook_updates.len()
            invariant
                j <= u0.len(),
                u0 == self.hook_updates@,
                take == applies_in(owner, hook_index, render_lanes),
                stay == stays_after(owner, hook_index, render_lanes),
                applied@ == u0.subrange(0, j as int).filter(take).map_values(|u: HookUpdate| u.update),
                remaining@ == u0.subrange(0, j as int).filter(stay),
            decreases u0.len() - j,
        {
            let u = self.hook_updates[j];
            proof {
                reveal(Seq::filter);
                assert(u0.subrange(0, j + 1).drop_last() =~= u0.subrange(0, j as int));
                assert(u0.subrange(0, j + 1).last() == u);
            }
            if u.owner == owner && u.hook_index == hook_index && u.lane & render_lanes != 0 {
                let ghost before = applied@;
                applied.push(u.update);
                proof {
                    let f0 = u0.subrange(0, j as int).filter(take);
                    assert(u0.subrange(0, j + 1).filter(take) == f0.push(u));
                    assert(f0.push(u).map_values(|x: HookUpdate| x.update) =~= f0.map_values(
                        |x: HookUpdate| x.update,
                    ).push(u.update));
                }
            } else {
                remaining.push(u);
            }
            j = j + 1;
        }
        proof {
            assert(u0.subrange(0, u0.len() as int) =~= u0);
            lemma_filter_sub(u0, stay);
            assert forall|k: int| 0 <= k < remaining@.len() implies spec_is_subset(
                #[trigger] remaining@[k].lane,
                self.lane_root.pending_lanes,
            ) by {
                let t = choose|t: int| 0 <= t < u0.len() && u0[t] == remaining@[k];
                assert(spec_is_subset(u0[t].lane, self.lane_root.pending_lanes));
            }
        }
        self.hook_updates = remaining;
        applied
    }

    /// A render of `finished_lanes` completed: those lanes leave every dirty
    /// component (components left with no lane stop being dirty), and the
    /// pending lanes become exactly the lanes still held by a dirty component
    /// or a queued update. Expiry is kept only for pending lanes, and lanes no
    /// longer pending lose their deadlines.
    pub fn mark_render_finished(&mut self, finished_lanes: u32)
        requires
            old(self).wf(),
        ensures
            final(self).wf(),
            final(self).spec_dirty() == finished_map(old(self).spec_dirty(), finished_lanes),
            forall|j: u32|
                #![trigger has_lane(final(self).spec_pending(), j)]
                j < 32 ==> has_lane(final(self).spec_pending(), j) == ((exists|id: FiberId|
                    #[trigger] final(self).spec_dirty().dom().contains(id) && has_lane(
                        final(self).spec_dirty()[id],
                        j,
                    )) || (exists|i: int|
                    0 <= i < old(self).spec_updates().len() && has_lane(
                        #[trigger] old(self).spec_updates()[i].lane,
                        j,
                    ))),
            final(self).spec_expired() == old(self).spec_expired() & final(self).spec_pending(),
            forall|i: int|
                #![trigger final(self).spec_deadlines()[i]]
                0 <= i < TOTAL_LANES ==> final(self).spec_deadlines()[i] == if has_lane(
                    old(self).spec_pending(),
                    i as u32,
                ) && !has_lane(final(self).spec_pending(), i as u32) {
                    NO_TIMESTAMP
                } else {
                    old(self).spec_deadlines()[i]
                },
            final(self).spec_updates() == old(self).spec_updates(),
            final(self).spec_root() == old(self).spec_root(),
            final(self).spec_mounted() == old(self).spec_mounted(),
            final(self).spec_scopes() == old(self).spec_scopes(),
    {
        let ghost d0 = self.dirty_components@;
        let dirty = finish_entries(&self.dirty_components, finished_lanes);
        let ghost d1 = dirty@;
        let mut remaining: u32 = 0;
        let mut i: usize = 0;
        while i < dirty.len()
            invariant
                i <= d1.len(),
                d1 == dirty@,
                remaining == entry_lanes(d1.subrange(0, i as int)),
            decreases d1.len() - i,
        {
            proof {
                assert(d1.subrange(0, i + 1).drop_last() =~= d1.subrange(0, i as int));
            }
            remaining = remaining | dirty[i].1;
            i = i + 1;
        }
        let ghost u0 = self.hook_updates@;
        let ghost from_dirty = remaining;
        let mut k: usize = 0;
        let mut from_updates: u32 = 0;
        while k < self.hook_updates.len()
            invariant
                k <= u0.len(),
                u0 == self.hook_updates@,
                from_updates == update_lanes(u0.subrange(0, k as int)),
            decreases u0.len() - k,
        {
            proof {
                assert(u0.subrange(0, k + 1).drop_last() =~= u0.subrange(0, k as int));
            }
            from_updates = from_updates | self.hook_updates[k].lane;
            k = k + 1;
        }
        proof {
            assert(d1.subrange(0, d1.len() as int) =~= d1);
            assert(u0.subrange(0, u0.len() as int) =~= u0);
        }
        let all = remaining | from_updates;
        self.dirty_components = dirty;
        self.lane_root.mark_root_finished(finished_lanes, all);
        proof {
            lemma_entry_lanes_bits(d1);
            lemma_update_lanes_bits(u0);
            assert forall|t: int| 0 <= t < d1.len() implies spec_is_subset(
                #[trigger] d1[t].1,
                all,
            ) by {
                lemma_bit_subset_of_or(d1[t].1, from_dirty, from_updates);
            }
            assert forall|t: int| 0 <= t < u0.len() implies spec_is_subset(
                #[trigger] u0[t].lane,
                all,
            ) by {
                lemma_bit_subset_of_or(u0[t].lane, from_updates, from_dirty);
                assert(from_updates | from_dirty == all) by (bit_vector)
                    requires
                        all == from_dirty | from_updates,
                ;
            }
            assert forall|j: u32| j < 32 implies #[trigger] has_lane(all, j) == ((exists|id: FiberId|
                #[trigger] assoc_map(d1).dom().contains(id) && has_lane(assoc_map(d1)[id], j)) || (
            exists|t: int| 0 <= t < u0.len() && has_lane(#[trigger] u0[t].lane, j))) by {
                lemma_or_bit(from_dirty, from_updates, j);
                if has_lane(from_dirty, j) {
                    let t = choose|t: int| 0 <= t < d1.len() && has_lane(#[trigger] d1[t].1, j);
                    lemma_assoc_at(d1, t);
                    assert(assoc_map(d1).dom().contains(d1[t].0) && has_lane(assoc_map(d1)[d1[t].0], j));
                }
                if exists|id: FiberId|
                    #[trigger] assoc_map(d1).dom().contains(id) && has_lane(assoc_map(d1)[id], j) {
                    let id = choose|id: FiberId|
                        #[trigger] assoc_map(d1).dom().contains(id) && has_lane(assoc_map(d1)[id], j);
                    lemma_assoc_present(d1, id);
                    let t = choose|t: int| 0 <= t < d1.len() && d1[t].0 == id;
                    lemma_assoc_at(d1, t);
                    assert(has_lane(d1[t].1, j));
                }
            }
            assert(self.spec_dirty() == assoc_map(d1));
            assert(old(self).spec_updates() == u0);
            assert(self.spec_pending() == all);
            assert forall|j: u32|
                #![trigger has_lane(self.spec_pending(), j)]
                j < 32 implies has_lane(self.spec_pending(), j) == ((exists|id: FiberId|
                    #[trigger] self.spec_dirty().dom().contains(id) && has_lane(
                        self.spec_dirty()[id],
                        j,
                    )) || (exists|i: int|
                    0 <= i < old(self).spec_updates().len() && has_lane(
                        #[trigger] old(self).spec_updates()[i].lane,
                        j,
                    ))) by {
                assert(has_lane(all, j) == ((exists|id: FiberId|
                    #[trigger] assoc_map(d1).dom().contains(id) && has_lane(assoc_map(d1)[id], j)) || (
                exists|t: int| 0 <= t < u0.len() && has_lane(#[trigger] u0[t].lane, j))));
            }
        }
    }
}

/// The update belongs to component `id`.
pub open spec fn owned_by(id: FiberId) -> spec_fn(HookUpdate) -> bool {
    |u: HookUpdate| u.owner == id
}

/// Dropping the updates of `id` keeps those of another owner, in order.
proof fn lemma_filter_other_owner(s: Seq<HookUpdate>, id: FiberId, o: FiberId)
    requires
        o != id,
    ensures
        s.filter(not_owned_by(id)).filter(owned_by(o)) == s.filter(owned_by(o)),
    decreases s.len(),
{
    reveal(Seq::filter);
    if s.len() > 0 {
        lemma_filter_other_owner(s.drop_last(), id, o);
        let t = s.filter(not_owned_by(id));
        let t0 = s.drop_last().filter(not_owned_by(id));
        if s.last().owner != id {
            assert(t == t0.push(s.last()));
            assert(t.drop_last() =~= t0);
            assert(t.last() == s.last());
        } else {
            assert(t == t0);
        }
    }
}

/// Unmounting forgets the component and nothing else: afterwards it has no
/// lanes, is not mounted (so later hook updates and async messages for it
/// are dropped, and its dirty marks ignored unless it is the root), no
/// queued update is its own; another component keeps its lanes, its
/// mounting, its queued updates in order and its async scopes.
pub proof fn law_unmount_forgets_only_the_component(
    before: Scheduler,
    after: Scheduler,
    id: FiberId,
    o: FiberId,
)
    requires
        after.spec_mounted() == before.spec_mounted().remove(id),
        after.spec_dirty() == before.spec_dirty().remove(id),
        after.spec_updates() == before.spec_updates().filter(not_owned_by(id)),
        after.spec_scopes() == scopes_without(before.spec_scopes(), id),
        after.spec_root() == before.spec_root(),
        o != id,
    ensures
        lanes_of(after.spec_dirty(), id) == NO_LANES,
        !after.spec_mounted().contains(id),
        after.accepts(id) <==> after.spec_root() == Some(id),
        forall|i: int| 0 <= i < after.spec_updates().len() ==> (#[trigger] after.spec_updates()[i]).owner != id,
        lanes_of(after.spec_dirty(), o) == lanes_of(before.spec_dirty(), o),
        after.spec_mounted().contains(o) == before.spec_mounted().contains(o),
        after.spec_updates().filter(owned_by(o)) == before.spec_updates().filter(owned_by(o)),
        forall|h: usize|
            #![trigger after.spec_scopes().dom().contains((o, h))]
            after.spec_scopes().dom().contains((o, h)) == before.spec_scopes().dom().contains((o, h))
                && (after.spec_scopes().dom().contains((o, h)) ==> after.spec_scopes()[(o, h)]
                == before.spec_scopes()[(o, h)]),
{
    assert forall|i: int| 0 <= i < after.spec_updates().len() implies (#[trigger] after.spec_updates()[i]).owner
        != id by {
        before.spec_updates().lemma_filter_pred(not_owned_by(id), i);
    }
    lemma_filter_other_owner(before.spec_updates(), id, o);
}

/// After unmounting, the component's later work is refused: from any later
/// state that has not mounted it again (every call but `mark_mounted` keeps
/// the mounted set), a hook update for it changes nothing, an async message
/// from it is refused and changes nothing, and marking it dirty changes
/// nothing unless it is the root. The hypotheses on `queued`, `sent` and
/// `marked` are what `enqueue_hook_update`, `enqueue_async_message` and
/// `mark_component_dirty` state of their outcome.
pub proof fn law_unmounted_owner_refuses_later_work(
    before: Scheduler,
    after: Scheduler,
    later: Scheduler,
    id: FiberId,
    queued: Scheduler,
    message: AsyncMessage,
    sent: Scheduler,
    accepted: bool,
    marked: Scheduler,
)
    requires
        after.spec_mounted() == before.spec_mounted().remove(id),
        later.spec_mounted() == after.spec_mounted(),
        !later.spec_mounted().contains(id) ==> queued == later,
        message.owner == id,
        accepted == (later.spec_mounted().contains(message.owner) && (message.scope matches Some(sc) ==> later.spec_scopes().dom().contains((sc.owner, sc.hook_index))
            && later.spec_scopes()[(sc.owner, sc.hook_index)] == sc.generation)),
        !accepted ==> sent == later,
        !later.accepts(id) ==> marked == later,
    ensures
        queued == later,
        !accepted,
        sent == later,
        later.spec_root() != Some(id) ==> marked == later,
{
}

} // verus!
