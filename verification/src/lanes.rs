//! Update lanes: a bitmask of priorities, lower bits first, and the root
//! bookkeeping of which lanes have work pending, which have waited too long,
//! and when each pending lane runs out of patience.

use vstd::prelude::*;

verus! {

pub type Lane = u32;

pub type Lanes = u32;

pub const NO_LANES: u32 = 0u32;

pub const SYNC_LANE: u32 = 0x2u32;

pub const INPUT_CONTINUOUS_LANE: u32 = 0x8u32;

pub const DEFAULT_LANE: u32 = 0x20u32;

pub const TRANSITION_LANE: u32 = 0x80u32;

pub const RETRY_LANE: u32 = 0x40_0000u32;

pub const IDLE_LANE: u32 = 0x2000_0000u32;

/// The number of lanes; the top bit of a lane set is never a lane.
pub const TOTAL_LANES: usize = 31usize;

/// The expiration time of a lane that has none.
pub const NO_TIMESTAMP: u64 = 0xffff_ffff_ffff_ffffu64;

/// How long urgent lanes may wait before they are treated as expired.
pub const SYNC_TIMEOUT_MS: u64 = 250u64;

/// How long default and transition lanes may wait.
pub const DEFAULT_TIMEOUT_MS: u64 = 5000u64;

/// Lane `i` is in the set `l`.
pub open spec fn has_lane(l: u32, i: u32) -> bool {
    (l >> i) & 1u32 == 1u32
}

/// Two lane sets share a lane.
pub open spec fn spec_includes_some_lane(a: u32, b: u32) -> bool {
    a & b != 0
}

/// Every lane of `a` is in `b`.
pub open spec fn spec_is_subset(a: u32, b: u32) -> bool {
    a & !b == 0
}

/// The highest-priority (lowest) lane of a set; nothing for the empty set.
pub open spec fn spec_highest_priority_lane(l: u32) -> u32 {
    if l == 0 {
        0
    } else {
        l & !((l - 1) as u32)
    }
}

/// The lanes of a render: every expired pending lane at once if there is
/// one, otherwise the highest-priority pending lane; a render already in
/// progress keeps its lanes unless the new choice outranks it.
pub open spec fn spec_next_lanes(pending: u32, expired: u32, wip: u32) -> u32 {
    if pending == 0 {
        0
    } else {
        let next = if pending & expired != 0 {
            pending & expired
        } else {
            spec_highest_priority_lane(pending)
        };
        if wip != 0 && wip != next && spec_highest_priority_lane(next)
            >= spec_highest_priority_lane(wip) {
            wip
        } else {
            next
        }
    }
}

/// The deadline given to a lane that starts waiting at `now`: urgent lanes
/// get a short timeout, default and transition lanes a longer one, retry and
/// idle lanes (and deadlines past the clock's range) none.
pub open spec fn spec_expiration_time(lane: u32, now: u64) -> u64 {
    if lane & 0xfu32 != 0 {
        if now + SYNC_TIMEOUT_MS < NO_TIMESTAMP {
            (now + SYNC_TIMEOUT_MS) as u64
        } else {
            NO_TIMESTAMP
        }
    } else if lane < RETRY_LANE {
        if now + DEFAULT_TIMEOUT_MS < NO_TIMESTAMP {
            (now + DEFAULT_TIMEOUT_MS) as u64
        } else {
            NO_TIMESTAMP
        }
    } else {
        NO_TIMESTAMP
    }
}

/// Whether two lane sets share a lane.
pub fn includes_some_lane(a: u32, b: u32) -> (r: bool)
    ensures
        r == spec_includes_some_lane(a, b),
{
    a & b != 0
}

/// The highest-priority lane of a set.
pub fn highest_priority_lane(l: u32) -> (r: u32)
    ensures
        r == spec_highest_priority_lane(l),
{
    if l == 0 {
        0
    } else {
        l & !(l - 1)
    }
}

/// The highest-priority lane of a non-empty set is one lane of that set.
pub proof fn law_highest_priority_lane(l: u32)
    requires
        l != 0,
    ensures
        spec_highest_priority_lane(l) != 0,
        spec_is_subset(spec_highest_priority_lane(l), l),
        spec_highest_priority_lane(l) & ((spec_highest_priority_lane(l) - 1) as u32) == 0,
{
    assert((l != 0 ==> (l & !((l - 1) as u32)) != 0) && (l != 0 ==> (l & !((l - 1) as u32)) & !l == 0) && (l != 0
        ==> (l & !((l - 1) as u32)) & (((l & !((l - 1) as u32)) - 1) as u32) == 0)) by (bit_vector);
}

/// The highest-priority lane is the lowest set bit: no lane of the set lies
/// below it; and a set's expired lanes, when it has some, are all taken
/// together before any other choice.
pub proof fn law_priority_is_lowest_lane(l: u32, expired: u32)
    ensures
        l != 0 ==> (((spec_highest_priority_lane(l) - 1) as u32) & l) == 0,
        l & expired != 0 ==> spec_next_lanes(l, expired, 0) == l & expired,
        l != 0 && l & expired == 0 ==> spec_next_lanes(l, expired, 0) == spec_highest_priority_lane(l),
{
    assert((l != 0 ==> ((((l & !((l - 1) as u32)) - 1) as u32) & l) == 0) && (l & expired != 0 ==> l != 0))
        by (bit_vector);
}

/// With no render in progress, the next lanes are empty exactly when nothing
/// is pending, and otherwise are pending lanes.
pub proof fn law_next_lanes_are_pending(pending: u32, expired: u32)
    ensures
        (spec_next_lanes(pending, expired, 0) == 0) == (pending == 0),
        spec_is_subset(spec_next_lanes(pending, expired, 0), pending),
{
    if pending != 0 {
        law_highest_priority_lane(pending);
        assert(pending & expired != 0 ==> (pending & expired) & !pending == 0) by (bit_vector);
    } else {
        assert(0u32 & !pending == 0) by (bit_vector);
    }
}

fn expiration_time(lane: u32, now: u64) -> (r: u64)
    ensures
        r == spec_expiration_time(lane, now),
{
    if lane & 0xf != 0 {
        if now < NO_TIMESTAMP - SYNC_TIMEOUT_MS {
            now + SYNC_TIMEOUT_MS
        } else {
            NO_TIMESTAMP
        }
    } else if lane < RETRY_LANE {
        if now < NO_TIMESTAMP - DEFAULT_TIMEOUT_MS {
            now + DEFAULT_TIMEOUT_MS
        } else {
            NO_TIMESTAMP
        }
    } else {
        NO_TIMESTAMP
    }
}

proof fn lemma_bit_set(e: u32, i: u32, j: u32)
    requires
        i < 32,
        j < 32,
    ensures
        has_lane(e | (1u32 << i), j) == (j == i || has_lane(e, j)),
{
    assert(has_lane(e | (1u32 << i), j) == (j == i || has_lane(e, j))) by (bit_vector)
        requires
            i < 32,
            j < 32,
    ;
}

proof fn lemma_bit_and(a: u32, b: u32, j: u32)
    requires
        j < 32,
    ensures
        has_lane(a & b, j) == (has_lane(a, j) && has_lane(b, j)),
        has_lane(a & !b, j) == (has_lane(a, j) && !has_lane(b, j)),
{
    assert(has_lane(a & b, j) == (has_lane(a, j) && has_lane(b, j))) by (bit_vector)
        requires
            j < 32,
    ;
    assert(has_lane(a & !b, j) == (has_lane(a, j) && !has_lane(b, j))) by (bit_vector)
        requires
            j < 32,
    ;
}

/// The lanes of the root: pending work, expired lanes, and a deadline for
/// each lane (`NO_TIMESTAMP` where there is none).
#[derive(Debug)]
pub struct LaneRoot {
    pub pending_lanes: u32,
    pub expired_lanes: u32,
    pub expiration_times: Vec<u64>,
}

impl LaneRoot {
    /// One deadline slot per lane.
    pub open spec fn wf(&self) -> bool {
        self.expiration_times@.len() == TOTAL_LANES
    }

    /// Nothing pending, nothing expired, no deadlines.
    pub fn new() -> (r: LaneRoot)
        ensures
            r.wf(),
            r.pending_lanes == 0,
            r.expired_lanes == 0,
            forall|i: int| 0 <= i < TOTAL_LANES ==> r.expiration_times@[i] == NO_TIMESTAMP,
    {
        let mut times: Vec<u64> = Vec::new();
        let mut i: usize = 0;
        while i < TOTAL_LANES
            invariant
                i <= TOTAL_LANES,
                times@.len() == i,
                forall|k: int| 0 <= k < i ==> times@[k] == NO_TIMESTAMP,
            decreases TOTAL_LANES - i,
        {
            times.push(NO_TIMESTAMP);
            i = i + 1;
        }
        LaneRoot { pending_lanes: 0, expired_lanes: 0, expiration_times: times }
    }

    /// Work arrived on `lane`.
    pub fn mark_root_updated(&mut self, lane: u32)
        ensures
            final(self).pending_lanes == old(self).pending_lanes | lane,
            final(self).expired_lanes == old(self).expired_lanes,
            final(self).expiration_times == old(self).expiration_times,
    {
        self.pending_lanes = self.pending_lanes | lane;
    }

    /// The lanes to render next, given the lanes of a render in progress.
    pub fn get_next_lanes(&self, wip_lanes: u32) -> (r: u32)
        ensures
            r == spec_next_lanes(self.pending_lanes, self.expired_lanes, wip_lanes),
    {
        let pending = self.pending_lanes;
        if pending == 0 {
            return 0;
        }
        let next = if pending & self.expired_lanes != 0 {
            pending & self.expired_lanes
        } else {
            highest_priority_lane(pending)
        };
        if wip_lanes != 0 && wip_lanes != next && highest_priority_lane(next)
            >= highest_priority_lane(wip_lanes) {
            wip_lanes
        } else {
            next
        }
    }

    /// A render of `finished_lanes` completed and `remaining_lanes` still have
    /// work: they become the pending lanes, expiry is kept only for them, and
    /// the deadlines of lanes no longer pending are cleared.
    pub fn mark_root_finished(&mut self, finished_lanes: u32, remaining_lanes: u32)
        requires
            old(self).wf(),
        ensures
            final(self).wf(),
            final(self).pending_lanes == remaining_lanes,
            final(self).expired_lanes == old(self).expired_lanes & remaining_lanes,
            forall|i: int|
                #![trigger final(self).expiration_times@[i]]
                0 <= i < TOTAL_LANES ==> final(self).expiration_times@[i] == if has_lane(
                    old(self).pending_lanes,
                    i as u32,
                ) && !has_lane(remaining_lanes, i as u32) {
                    NO_TIMESTAMP
                } else {
                    old(self).expiration_times@[i]
                },
    {
        let no_longer_pending = self.pending_lanes & !remaining_lanes;
        self.pending_lanes = remaining_lanes;
        self.expired_lanes = self.expired_lanes & remaining_lanes;
        let ghost old_times = self.expiration_times@;
        let ghost old_pending = old(self).pending_lanes;
        let mut i: usize = 0;
        while i < TOTAL_LANES
            invariant
                i <= TOTAL_LANES,
                self.expiration_times@.len() == TOTAL_LANES,
                old_times.len() == TOTAL_LANES,
                no_longer_pending == old_pending & !remaining_lanes,
                self.pending_lanes == remaining_lanes,
                self.expired_lanes == old(self).expired_lanes & remaining_lanes,
                forall|k: int|
                    #![trigger self.expiration_times@[k]]
                    0 <= k < TOTAL_LANES ==> self.expiration_times@[k] == if k < i && has_lane(
                        old_pending,
                        k as u32,
                    ) && !has_lane(remaining_lanes, k as u32) {
                        NO_TIMESTAMP
                    } else {
                        old_times[k]
                    },
            decreases TOTAL_LANES - i,
        {
            let bit = i as u32;
            proof {
                lemma_bit_and(old_pending, remaining_lanes, bit);
            }
            if (no_longer_pending >> bit) & 1 == 1 {
                self.expiration_times.set(i, NO_TIMESTAMP);
            }
            i = i + 1;
        }
    }

    /// Gives each pending lane without a deadline one counted from `now`, and
    /// marks expired each pending lane whose deadline has passed.
    pub fn mark_starved_lanes_as_expired(&mut self, now_ms: u64)
        requires
            old(self).wf(),
        ensures
            final(self).wf(),
            final(self).pending_lanes == old(self).pending_lanes,
            forall|i: int|
                #![trigger final(self).expiration_times@[i]]
                0 <= i < TOTAL_LANES ==> final(self).expiration_times@[i] == if has_lane(
                    old(self).pending_lanes,
                    i as u32,
                ) && old(self).expiration_times@[i] == NO_TIMESTAMP {
                    spec_expiration_time(1u32 << (i as u32), now_ms)
                } else {
                    old(self).expiration_times@[i]
                },
            forall|j: u32|
                #![trigger has_lane(final(self).expired_lanes, j)]
                j < 32 ==> has_lane(final(self).expired_lanes, j) == (has_lane(
                    old(self).expired_lanes,
                    j,
                ) || (j < TOTAL_LANES && has_lane(old(self).pending_lanes, j)
                    && old(self).expiration_times@[j as int] != NO_TIMESTAMP
                    && old(self).expiration_times@[j as int] <= now_ms)),
    {
        let pending = self.pending_lanes;
        let ghost old_times = self.expiration_times@;
        let ghost old_expired = self.expired_lanes;
        let mut i: usize = 0;
        while i < TOTAL_LANES
            invariant
                i <= TOTAL_LANES,
                self.expiration_times@.len() == TOTAL_LANES,
                old_times.len() == TOTAL_LANES,
                self.pending_lanes == pending,
                forall|k: int|
                    #![trigger self.expiration_times@[k]]
                    0 <= k < TOTAL_LANES ==> self.expiration_times@[k] == if k < i && has_lane(
                        pending,
                        k as u32,
                    ) && old_times[k] == NO_TIMESTAMP {
                        spec_expiration_time(1u32 << (k as u32), now_ms)
                    } else {
                        old_times[k]
                    },
                forall|j: u32|
                    #![trigger has_lane(self.expired_lanes, j)]
                    j < 32 ==> has_lane(self.expired_lanes, j) == (has_lane(old_expired, j) || (j
                        < i && has_lane(pending, j) && old_times[j as int] != NO_TIMESTAMP
                        && old_times[j as int] <= now_ms)),
            decreases TOTAL_LANES - i,
        {
            let bit = i as u32;
            let lane: u32 = 1u32 << bit;
            let ghost before = self.expired_lanes;
            if (pending >> bit) & 1 == 1 {
                let t = self.expiration_times[i];
                if t == NO_TIMESTAMP {
                    let deadline = expiration_time(lane, now_ms);
                    self.expiration_times.set(i, deadline);
                } else if t <= now_ms {
                    self.expired_lanes = self.expired_lanes | lane;
                    proof {
                        assert forall|j: u32| j < 32 implies #[trigger] has_lane(
                            self.expired_lanes,
                            j,
                        ) == (has_lane(before, j) || j == bit) by {
                            lemma_bit_set(before, bit, j);
                        }
                    }
                }
            }
            i = i + 1;
        }
    }
}

} // verus!
