//! Dirty flags and the per-node change epochs of the retained render scene.

use vstd::prelude::*;

verus! {

/// A set of render invalidation reasons, kept as a 16-bit mask.
#[derive(Debug, Clone, Copy, PartialEq, Eq, Hash, Structural)]
pub struct RenderDirty {
    pub bits: u16,
}

impl RenderDirty {
    pub fn topology() -> (r: RenderDirty)
        ensures
            r.mask() == 1,
    {
        RenderDirty { bits: 1 }
    }

    pub fn geometry() -> (r: RenderDirty)
        ensures
            r.mask() == 2,
    {
        RenderDirty { bits: 2 }
    }

    pub fn paint() -> (r: RenderDirty)
        ensures
            r.mask() == 4,
    {
        RenderDirty { bits: 4 }
    }

    pub fn clip() -> (r: RenderDirty)
        ensures
            r.mask() == 8,
    {
        RenderDirty { bits: 8 }
    }

    pub fn composite() -> (r: RenderDirty)
        ensures
            r.mask() == 16,
    {
        RenderDirty { bits: 16 }
    }

    pub fn effect() -> (r: RenderDirty)
        ensures
            r.mask() == 32,
    {
        RenderDirty { bits: 32 }
    }

    pub fn visibility() -> (r: RenderDirty)
        ensures
            r.mask() == 64,
    {
        RenderDirty { bits: 64 }
    }

    /// Everything that invalidates cached layer content (all but `composite`).
    pub fn content() -> (r: RenderDirty)
        ensures
            r.mask() == 0x6f,
    {
        RenderDirty { bits: 0x6f }
    }

    pub fn all() -> (r: RenderDirty)
        ensures
            r.mask() == 0x7f,
    {
        RenderDirty { bits: 0x7f }
    }

    /// The raw mask.
    pub open spec fn mask(self) -> u16 {
        self.bits
    }

    pub open spec fn spec_contains(self, other: RenderDirty) -> bool {
        self.mask() & other.mask() == other.mask()
    }

    pub open spec fn spec_intersects(self, other: RenderDirty) -> bool {
        self.mask() & other.mask() != 0
    }

    pub open spec fn spec_is_empty(self) -> bool {
        self.mask() == 0
    }

    pub fn empty() -> (r: RenderDirty)
        ensures
            r.mask() == 0,
    {
        RenderDirty { bits: 0 }
    }

    pub fn bits(self) -> (r: u16)
        ensures
            r == self.mask(),
    {
        self.bits
    }

    pub fn is_empty(self) -> (r: bool)
        ensures
            r == self.spec_is_empty(),
    {
        self.bits == 0
    }

    pub fn contains(self, other: RenderDirty) -> (r: bool)
        ensures
            r == self.spec_contains(other),
    {
        self.bits & other.bits == other.bits
    }

    pub fn intersects(self, other: RenderDirty) -> (r: bool)
        ensures
            r == self.spec_intersects(other),
    {
        self.bits & other.bits != 0
    }

    pub fn union(self, other: RenderDirty) -> (r: RenderDirty)
        ensures
            r.mask() == self.mask() | other.mask(),
    {
        RenderDirty { bits: self.bits | other.bits }
    }

    pub fn intersection(self, other: RenderDirty) -> (r: RenderDirty)
        ensures
            r.mask() == self.mask() & other.mask(),
    {
        RenderDirty { bits: self.bits & other.bits }
    }

    pub fn difference(self, other: RenderDirty) -> (r: RenderDirty)
        ensures
            r.mask() == self.mask() & !other.mask(),
    {
        RenderDirty { bits: self.bits & !other.bits }
    }

    pub fn insert(&mut self, other: RenderDirty)
        ensures
            final(self).mask() == old(self).mask() | other.mask(),
    {
        self.bits = self.bits | other.bits;
    }

    pub fn remove(&mut self, other: RenderDirty)
        ensures
            final(self).mask() == old(self).mask() & !other.mask(),
    {
        self.bits = self.bits & !other.bits;
    }
}

/// The revision at which each class of change last touched a render node.
#[derive(Debug, Clone, Copy, Default, PartialEq, Eq, Structural)]
pub struct RenderEpochs {
    pub topology: u64,
    pub geometry: u64,
    pub paint: u64,
    pub composite: u64,
}

impl RenderEpochs {
    /// The epochs after recording `dirty` at `revision`: topology changes move
    /// the topology epoch; geometry, clip and visibility changes move the
    /// geometry epoch; paint and effect changes move the paint epoch;
    /// composite changes move the composite epoch.
    pub open spec fn spec_mark(self, dirty: RenderDirty, revision: u64) -> RenderEpochs {
        RenderEpochs {
            topology: if dirty.mask() & 1 == 1 { revision } else { self.topology },
            geometry: if dirty.mask() & 0x4au16 != 0 { revision } else { self.geometry },
            paint: if dirty.mask() & 0x24u16 != 0 { revision } else { self.paint },
            composite: if dirty.mask() & 16 == 16 { revision } else { self.composite },
        }
    }

    pub fn mark(&mut self, dirty: RenderDirty, revision: u64)
        ensures
            *final(self) == old(self).spec_mark(dirty, revision),
    {
        proof {
            assert((2u16 | 8u16) | 64u16 == 0x4au16 && 4u16 | 32u16 == 0x24u16) by (bit_vector);
        }
        if dirty.contains(RenderDirty::topology()) {
            self.topology = revision;
        }
        if dirty.intersects(
            RenderDirty::geometry().union(RenderDirty::clip()).union(RenderDirty::visibility()),
        ) {
            self.geometry = revision;
        }
        if dirty.intersects(RenderDirty::paint().union(RenderDirty::effect())) {
            self.paint = revision;
        }
        if dirty.contains(RenderDirty::composite()) {
            self.composite = revision;
        }
    }

    /// The version of the cached content: every epoch except composite.
    pub fn content_version(self) -> (r: ContentVersion)
        ensures
            r == (ContentVersion {
                topology: self.topology,
                geometry: self.geometry,
                paint: self.paint,
                dynamic: 0,
            }),
    {
        ContentVersion {
            topology: self.topology,
            geometry: self.geometry,
            paint: self.paint,
            dynamic: 0,
        }
    }

    pub open spec fn spec_newest(self) -> u64 {
        max_u64(max_u64(max_u64(self.topology, self.geometry), self.paint), self.composite)
    }

    /// The latest of the four epochs.
    pub fn newest(self) -> (r: u64)
        ensures
            r == self.spec_newest(),
            r >= self.topology && r >= self.geometry && r >= self.paint && r >= self.composite,
            r == self.topology || r == self.geometry || r == self.paint || r == self.composite,
    {
        let a = if self.topology >= self.geometry { self.topology } else { self.geometry };
        let b = if a >= self.paint { a } else { self.paint };
        if b >= self.composite { b } else { self.composite }
    }
}

pub open spec fn max_u64(a: u64, b: u64) -> u64 {
    if a >= b { a } else { b }
}

/// A version stamp of cached layer content; merging keeps the newest of each part.
#[derive(Debug, Clone, Copy, Default, PartialEq, Eq, Hash, Structural)]
pub struct ContentVersion {
    pub topology: u64,
    pub geometry: u64,
    pub paint: u64,
    pub dynamic: u64,
}

impl ContentVersion {
    pub open spec fn spec_merge(self, other: ContentVersion) -> ContentVersion {
        ContentVersion {
            topology: max_u64(self.topology, other.topology),
            geometry: max_u64(self.geometry, other.geometry),
            paint: max_u64(self.paint, other.paint),
            dynamic: max_u64(self.dynamic, other.dynamic),
        }
    }

    /// Component-wise maximum of two versions.
    pub fn merge(self, other: ContentVersion) -> (r: ContentVersion)
        ensures
            r == self.spec_merge(other),
    {
        ContentVersion {
            topology: if self.topology >= other.topology { self.topology } else { other.topology },
            geometry: if self.geometry >= other.geometry { self.geometry } else { other.geometry },
            paint: if self.paint >= other.paint { self.paint } else { other.paint },
            dynamic: if self.dynamic >= other.dynamic { self.dynamic } else { other.dynamic },
        }
    }
}

/// Merging is commutative, associative and idempotent, and never makes a
/// version older in any component.
pub proof fn law_content_version_merge(a: ContentVersion, b: ContentVersion, c: ContentVersion)
    ensures
        a.spec_merge(b) == b.spec_merge(a),
        a.spec_merge(b).spec_merge(c) == a.spec_merge(b.spec_merge(c)),
        a.spec_merge(a) == a,
        a.spec_merge(b).topology >= a.topology && a.spec_merge(b).geometry >= a.geometry
            && a.spec_merge(b).paint >= a.paint && a.spec_merge(b).dynamic >= a.dynamic,
        a.spec_merge(b).topology == a.topology || a.spec_merge(b).topology == b.topology,
        a.spec_merge(b).geometry == a.geometry || a.spec_merge(b).geometry == b.geometry,
        a.spec_merge(b).paint == a.paint || a.spec_merge(b).paint == b.paint,
        a.spec_merge(b).dynamic == a.dynamic || a.spec_merge(b).dynamic == b.dynamic,
{
}

/// Recording a change moves exactly the epochs of its kinds, for any epochs,
/// change and revision: the topology epoch by topology (1); the geometry
/// epoch by geometry (2), clip (8) or visibility (64); the paint epoch by
/// paint (4) or effect (32); the composite epoch by composite (16). An epoch
/// of a kind the change does not carry keeps its value.
pub proof fn law_mark_moves_its_epochs(e: RenderEpochs, d: RenderDirty, rev: u64)
    ensures
        ({
            let r = e.spec_mark(d, rev);
            let b = d.mask();
            &&& (b & 1 != 0 ==> r.topology == rev) && (b & 1 == 0 ==> r.topology == e.topology)
            &&& (b & 2 != 0 || b & 8 != 0 || b & 64 != 0 ==> r.geometry == rev)
            &&& (b & 2 == 0 && b & 8 == 0 && b & 64 == 0 ==> r.geometry == e.geometry)
            &&& (b & 4 != 0 || b & 32 != 0 ==> r.paint == rev)
            &&& (b & 4 == 0 && b & 32 == 0 ==> r.paint == e.paint)
            &&& (b & 16 != 0 ==> r.composite == rev) && (b & 16 == 0 ==> r.composite == e.composite)
        }),
{
    let b = d.mask();
    assert({
        &&& (b & 1 != 0) == (b & 1 == 1)
        &&& (b & 2 != 0 || b & 8 != 0 || b & 64 != 0) == (b & 0x4au16 != 0)
        &&& (b & 4 != 0 || b & 32 != 0) == (b & 0x24u16 != 0)
        &&& (b & 16 != 0) == (b & 16 == 16)
    }) by (bit_vector);
}

/// Recording a composite-only change never alters the content version, and
/// recording any change makes it the newest epoch when revisions only grow.
pub proof fn law_composite_keeps_content_version(e: RenderEpochs, d: RenderDirty, rev: u64)
    requires
        d.mask() == 16,
    ensures
        e.spec_mark(d, rev).topology == e.topology,
        e.spec_mark(d, rev).geometry == e.geometry,
        e.spec_mark(d, rev).paint == e.paint,
        e.spec_mark(d, rev).composite == rev,
{
    assert(16u16 & 1 == 0 && 16u16 & 0x4au16 == 0 && 16u16 & 0x24u16 == 0 && 16u16 & 16
        == 16) by (bit_vector);
}

} // verus!
