//! Frame properties: transforms and composites that change from frame to
//! frame without recompiling the scene. Each change bumps a revision; a
//! consumer acknowledges the revision it has drawn.
//!
//! Property values are floating-point data elsewhere in the runtime; here
//! each is held by its interned identity, so equal identities mean equal
//! values.

use vstd::prelude::*;

use crate::assoc::{
    assoc_map, keys_unique, lemma_assoc_absent, lemma_assoc_at, lemma_assoc_push,
    lemma_assoc_remove, lemma_assoc_update,
};
use crate::node_store::RenderNodeId;
use crate::scene_spec::next_revision;

verus! {

/// The revision of the frame properties at one moment.
#[derive(Debug, Clone, Copy, PartialEq, Eq, Structural)]
pub struct FramePropertiesSnapshot {
    pub revision: u64,
}

impl Default for FramePropertiesSnapshot {
    fn default() -> (r: FramePropertiesSnapshot)
        ensures
            r.revision == 0,
    {
        FramePropertiesSnapshot { revision: 0 }
    }
}

/// A property value and the revision that set it.
#[derive(Debug, Clone, Copy, PartialEq, Eq, Structural)]
pub struct Versioned {
    pub value: u64,
    pub revision: u64,
}

/// The acknowledged revision after acknowledging a snapshot taken at
/// `snap`, with the properties now at `rev`: it never goes back, and never
/// past the current revision.
pub open spec fn acknowledged_after(ack: u64, snap: u64, rev: u64) -> u64 {
    let seen = if snap < rev { snap } else { rev };
    if ack < seen {
        seen
    } else {
        ack
    }
}

/// Per-frame transforms and composites of scene nodes.
pub struct FrameProperties {
    transforms: Vec<(RenderNodeId, Versioned)>,
    composites: Vec<(RenderNodeId, Versioned)>,
    revision: u64,
    acknowledged_revision: u64,
}

/// The position of `k` in an association list.
fn find(v: &Vec<(RenderNodeId, Versioned)>, k: RenderNodeId) -> (r: Option<usize>)
    ensures
        r matches Some(i) ==> i < v@.len() && v@[i as int].0 == k,
        r is None ==> forall|j: int| 0 <= j < v@.len() ==> v@[j].0 != k,
{
    let mut i: usize = 0;
    while i < v.len()
        invariant
            i <= v@.len(),
            forall|j: int| 0 <= j < i ==> v@[j].0 != k,
        decreases v@.len() - i,
    {
        if v[i].0 == k {
            return Some(i);
        }
        i = i + 1;
    }
    None
}

/// The value stored under `k`.
fn lookup(v: &Vec<(RenderNodeId, Versioned)>, k: RenderNodeId) -> (r: Option<Versioned>)
    requires
        keys_unique(v@),
    ensures
        r == assoc_map(v@).get(k),
{
    match find(v, k) {
        Some(i) => {
            proof {
                lemma_assoc_at(v@, i as int);
            }
            Some(v[i].1)
        },
        None => {
            proof {
                lemma_assoc_absent(v@, k);
            }
            None
        },
    }
}

/// Stores `x` under `k`.
fn put(v: &mut Vec<(RenderNodeId, Versioned)>, k: RenderNodeId, x: Versioned)
    requires
        keys_unique(old(v)@),
    ensures
        keys_unique(final(v)@),
        assoc_map(final(v)@) == assoc_map(old(v)@).insert(k, x),
{
    match find(v, k) {
        Some(i) => {
            proof {
                lemma_assoc_update(v@, i as int, x);
            }
            v.set(i, (k, x));
        },
        None => {
            proof {
                lemma_assoc_push(v@, k, x);
            }
            v.push((k, x));
        },
    }
}

/// Removes `k`, returning whether it was there.
fn take(v: &mut Vec<(RenderNodeId, Versioned)>, k: RenderNodeId) -> (r: bool)
    requires
        keys_unique(old(v)@),
    ensures
        keys_unique(final(v)@),
        r == assoc_map(old(v)@).dom().contains(k),
        assoc_map(final(v)@) == assoc_map(old(v)@).remove(k),
{
    match find(v, k) {
        Some(i) => {
            proof {
                lemma_assoc_remove(v@, i as int);
                lemma_assoc_at(v@, i as int);
            }
            v.remove(i);
            true
        },
        None => {
            proof {
                lemma_assoc_absent(v@, k);
                assert(assoc_map(v@).remove(k) =~= assoc_map(v@));
            }
            false
        },
    }
}

impl FrameProperties {
    pub closed spec fn spec_transforms(&self) -> Map<RenderNodeId, Versioned> {
        assoc_map(self.transforms@)
    }

    pub closed spec fn spec_composites(&self) -> Map<RenderNodeId, Versioned> {
        assoc_map(self.composites@)
    }

    pub closed spec fn spec_revision(&self) -> u64 {
        self.revision
    }

    pub closed spec fn spec_acknowledged(&self) -> u64 {
        self.acknowledged_revision
    }

    pub closed spec fn wf(&self) -> bool {
        keys_unique(self.transforms@) && keys_unique(self.composites@)
    }

    /// No property, revision zero, nothing acknowledged.
    pub fn new() -> (r: FrameProperties)
        ensures
            r.wf(),
            r.spec_transforms() == Map::<RenderNodeId, Versioned>::empty(),
            r.spec_composites() == Map::<RenderNodeId, Versioned>::empty(),
            r.spec_revision() == 0,
            r.spec_acknowledged() == 0,
    {
        let r = FrameProperties {
            transforms: Vec::new(),
            composites: Vec::new(),
            revision: 0,
            acknowledged_revision: 0,
        };
        proof {
            assert(assoc_map(r.transforms@) =~= Map::<RenderNodeId, Versioned>::empty());
            assert(assoc_map(r.composites@) =~= Map::<RenderNodeId, Versioned>::empty());
        }
        r
    }

    pub fn revision(&self) -> (r: u64)
        ensures
            r == self.spec_revision(),
    {
        self.revision
    }

    /// Whether a change has not been acknowledged yet.
    pub fn is_dirty(&self) -> (r: bool)
        ensures
            r == (self.spec_revision() > self.spec_acknowledged()),
    {
        self.revision > self.acknowledged_revision
    }

    pub fn snapshot(&self) -> (r: FramePropertiesSnapshot)
        ensures
            r.revision == self.spec_revision(),
    {
        FramePropertiesSnapshot { revision: self.revision }
    }

    /// Records that everything up to the snapshot's revision was drawn.
    pub fn acknowledge(&mut self, snapshot: FramePropertiesSnapshot)
        ensures
            final(self).spec_acknowledged() == acknowledged_after(
                old(self).spec_acknowledged(),
                snapshot.revision,
                old(self).spec_revision(),
            ),
            final(self).spec_revision() == old(self).spec_revision(),
            final(self).spec_transforms() == old(self).spec_transforms(),
            final(self).spec_composites() == old(self).spec_composites(),
            final(self).wf() == old(self).wf(),
    {
        let seen = if snapshot.revision < self.revision { snapshot.revision } else { self.revision };
        if self.acknowledged_revision < seen {
            self.acknowledged_revision = seen;
        }
    }

    fn next_revision(&mut self) -> (r: u64)
        ensures
            r == next_revision(old(self).revision),
            final(self).revision == r,
            final(self).acknowledged_revision == old(self).acknowledged_revision,
            final(self).transforms == old(self).transforms,
            final(self).composites == old(self).composites,
    {
        self.revision = if self.revision == u64::MAX { 1 } else { self.revision + 1 };
        self.revision
    }

    /// The dynamic transform of `source`, with the revision that set it.
    pub fn transform(&self, source: RenderNodeId) -> (r: Option<Versioned>)
        requires
            self.wf(),
        ensures
            r == self.spec_transforms().get(source),
    {
        lookup(&self.transforms, source)
    }

    /// The dynamic composite of `source`, with the revision that set it.
    pub fn composite(&self, source: RenderNodeId) -> (r: Option<Versioned>)
        requires
            self.wf(),
        ensures
            r == self.spec_composites().get(source),
    {
        lookup(&self.composites, source)
    }

    /// Sets the transform of `source` under a new revision; setting the value
    /// it already has changes nothing and returns false.
    pub fn set_transform(&mut self, source: RenderNodeId, transform: u64) -> (r: bool)
        requires
            old(self).wf(),
        ensures
            final(self).wf(),
            r == !(old(self).spec_transforms().dom().contains(source)
                && old(self).spec_transforms()[source].value == transform),
            !r ==> *final(self) == *old(self),
            r ==> final(self).spec_revision() == next_revision(old(self).spec_revision())
                && final(self).spec_transforms() == old(self).spec_transforms().insert(
                source,
                Versioned { value: transform, revision: final(self).spec_revision() },
            ),
            final(self).spec_composites() == old(self).spec_composites(),
            final(self).spec_acknowledged() == old(self).spec_acknowledged(),
    {
        if let Some(current) = lookup(&self.transforms, source) {
            if current.value == transform {
                return false;
            }
        }
        let revision = self.next_revision();
        put(&mut self.transforms, source, Versioned { value: transform, revision });
        true
    }

    /// Sets the composite of `source` under a new revision; setting the value
    /// it already has changes nothing and returns false.
    pub fn set_composite(&mut self, source: RenderNodeId, composite: u64) -> (r: bool)
        requires
            old(self).wf(),
        ensures
            final(self).wf(),
            r == !(old(self).spec_composites().dom().contains(source)
                && old(self).spec_composites()[source].value == composite),
            !r ==> *final(self) == *old(self),
            r ==> final(self).spec_revision() == next_revision(old(self).spec_revision())
                && final(self).spec_composites() == old(self).spec_composites().insert(
                source,
                Versioned { value: composite, revision: final(self).spec_revision() },
            ),
            final(self).spec_transforms() == old(self).spec_transforms(),
            final(self).spec_acknowledged() == old(self).spec_acknowledged(),
    {
        if let Some(current) = lookup(&self.composites, source) {
            if current.value == composite {
                return false;
            }
        }
        let revision = self.next_revision();
        put(&mut self.composites, source, Versioned { value: composite, revision });
        true
    }

    /// Drops the transform of `source`, bumping the revision if there was one.
    pub fn clear_transform(&mut self, source: RenderNodeId) -> (r: bool)
        requires
            old(self).wf(),
        ensures
            final(self).wf(),
            r == old(self).spec_transforms().dom().contains(source),
            final(self).spec_transforms() == old(self).spec_transforms().remove(source),
            final(self).spec_revision() == if r {
                next_revision(old(self).spec_revision())
            } else {
                old(self).spec_revision()
            },
            final(self).spec_composites() == old(self).spec_composites(),
            final(self).spec_acknowledged() == old(self).spec_acknowledged(),
    {
        if !take(&mut self.transforms, source) {
            return false;
        }
        self.next_revision();
        true
    }

    /// Drops the composite of `source`, bumping the revision if there was one.
    pub fn clear_composite(&mut self, source: RenderNodeId) -> (r: bool)
        requires
            old(self).wf(),
        ensures
            final(self).wf(),
            r == old(self).spec_composites().dom().contains(source),
            final(self).spec_composites() == old(self).spec_composites().remove(source),
            final(self).spec_revision() == if r {
                next_revision(old(self).spec_revision())
            } else {
                old(self).spec_revision()
            },
            final(self).spec_transforms() == old(self).spec_transforms(),
            final(self).spec_acknowledged() == old(self).spec_acknowledged(),
    {
        if !take(&mut self.composites, source) {
            return false;
        }
        self.next_revision();
        true
    }

    /// Drops both properties of `source`, bumping the revision once if either
    /// was there.
    pub fn remove_source(&mut self, source: RenderNodeId) -> (r: bool)
        requires
            old(self).wf(),
        ensures
            final(self).wf(),
            r == (old(self).spec_transforms().dom().contains(source)
                || old(self).spec_composites().dom().contains(source)),
            final(self).spec_transforms() == old(self).spec_transforms().remove(source),
            final(self).spec_composites() == old(self).spec_composites().remove(source),
            final(self).spec_revision() == if r {
                next_revision(old(self).spec_revision())
            } else {
                old(self).spec_revision()
            },
            final(self).spec_acknowledged() == old(self).spec_acknowledged(),
    {
        let had_transform = take(&mut self.transforms, source);
        let had_composite = take(&mut self.composites, source);
        let removed = had_transform || had_composite;
        if removed {
            self.next_revision();
        }
        removed
    }
}

/// Acknowledging a snapshot of the current revision leaves nothing dirty;
/// acknowledging an older one, while the acknowledged revision is also
/// older, leaves the properties dirty. The acknowledged revision never goes
/// back.
pub proof fn law_acknowledge(ack: u64, snap: u64, rev: u64)
    ensures
        snap >= rev ==> !(rev > acknowledged_after(ack, snap, rev)) || ack > rev,
        snap < rev && ack < rev ==> rev > acknowledged_after(ack, snap, rev),
        acknowledged_after(ack, snap, rev) >= ack,
{
}

} // verus!
