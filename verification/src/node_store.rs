//! Storage of render nodes in a generational slot map, and the node handle.
//!
//! The slot map itself is the `slotmap` crate; the items here are the only
//! places that call it, and each states what it relies on.

use slotmap::{DefaultKey, Key, KeyData, SlotMap};
use vstd::prelude::*;

use crate::scene::RenderNode;

verus! {

/// A handle to a render node. Handles are only made by inserting a node, so
/// every handle is the 64-bit form of a key that the slot map handed out.
#[derive(Debug, Clone, Copy, PartialEq, Eq, Hash, Structural)]
pub struct RenderNodeId {
    raw: u64,
}

impl RenderNodeId {
    /// Keys handed out by a slot map always carry an odd version in their
    /// upper half.
    #[verifier::type_invariant]
    pub closed spec fn well_formed(self) -> bool {
        (self.raw / 0x1_0000_0000) % 2 == 1
    }

    /// The 64-bit form of the handle.
    pub fn as_ffi(self) -> (r: u64)
        ensures
            r == self.spec_raw(),
    {
        self.raw
    }

    pub closed spec fn spec_raw(self) -> u64 {
        self.raw
    }
}

/// The slot map of render nodes. The `slotmap` crate's map cannot be declared
/// to the verifier through its `Key`-bounded generics, so it is held here
/// behind a private field, and only the functions below touch it.
#[verifier::external_body]
pub struct NodeSlots {
    map: SlotMap<DefaultKey, RenderNode>,
}

/// What a node slot map holds: each live handle and its node.
pub uninterp spec fn node_slots(m: NodeSlots) -> Map<RenderNodeId, RenderNode>;

/// The handles that a node slot map handed out and that were removed since.
pub uninterp spec fn node_slots_retired(m: NodeSlots) -> Set<RenderNodeId>;

/// How many removals a node slot map has seen.
pub uninterp spec fn node_slots_removals(m: NodeSlots) -> nat;

/// `SlotMap::with_key`: a new slot map holds nothing and has retired
/// nothing.
#[verifier::external_body]
pub(crate) fn slots_new() -> (r: NodeSlots)
    ensures
        node_slots(r).dom().len() == 0,
        node_slots(r).dom().finite(),
        node_slots_retired(r) == Set::<RenderNodeId>::empty(),
        node_slots_removals(r) == 0,
{
    NodeSlots { map: SlotMap::with_key() }
}

/// `SlotMap::insert`: stores the node under a key that is not live, and
/// returns that key. It panics only when the map already holds
/// `u32::MAX - 1` values. A key is its slot and the slot's version, which
/// every insertion into a reused slot and every removal advances by one;
/// the version wraps around only after `2^31` removals from one slot, so
/// before the map has seen that many removals the key is none that was
/// handed out and removed. Insertion retires nothing.
#[verifier::external_body]
pub(crate) fn slots_insert(m: &mut NodeSlots, node: RenderNode) -> (id:
    RenderNodeId)
    requires
        node_slots(*old(m)).dom().finite(),
        node_slots(*old(m)).dom().len() < 0xffff_fffe,
    ensures
        !node_slots(*old(m)).dom().contains(id),
        node_slots(*final(m)) == node_slots(*old(m)).insert(id, node),
        node_slots_removals(*old(m)) < 0x8000_0000 ==> !node_slots_retired(*old(m)).contains(id),
        node_slots_retired(*final(m)) == node_slots_retired(*old(m)),
        node_slots_removals(*final(m)) == node_slots_removals(*old(m)),
{
    let key = m.map.insert(node);
    RenderNodeId { raw: key.data().as_ffi() }
}

/// `SlotMap::contains_key`: whether the key is live.
#[verifier::external_body]
pub(crate) fn slots_contains(m: &NodeSlots, id: RenderNodeId) -> (r: bool)
    requires
        id.well_formed(),
    ensures
        r == node_slots(*m).dom().contains(id),
{
    m.map.contains_key(KeyData::from_ffi(id.raw).into())
}

/// `SlotMap::get`: the node stored under a live key.
#[verifier::external_body]
pub(crate) fn slots_get(m: &NodeSlots, id: RenderNodeId) -> (r: Option<
    &RenderNode,
>)
    requires
        id.well_formed(),
    ensures
        r.is_some() == node_slots(*m).dom().contains(id),
        r matches Some(node) ==> *node == node_slots(*m)[id],
{
    m.map.get(KeyData::from_ffi(id.raw).into())
}

/// `SlotMap::index_mut`: a mutable borrow of the node under a live key; what
/// is written through it is what the map holds afterwards.
#[verifier::external_body]
pub(crate) fn slots_get_mut(m: &mut NodeSlots, id: RenderNodeId) -> (r:
    &mut RenderNode)
    requires
        id.well_formed(),
        node_slots(*old(m)).dom().contains(id),
    ensures
        *r == node_slots(*old(m))[id],
        node_slots(*final(m)) == node_slots(*old(m)).insert(id, *final(r)),
        node_slots_retired(*final(m)) == node_slots_retired(*old(m)),
        node_slots_removals(*final(m)) == node_slots_removals(*old(m)),
{
    &mut m.map[KeyData::from_ffi(id.raw).into()]
}

/// `SlotMap::remove`: removes a live key and hands back its node; the key
/// is retired, and the removal counted.
#[verifier::external_body]
pub(crate) fn slots_remove(m: &mut NodeSlots, id: RenderNodeId) -> (r:
    Option<RenderNode>)
    requires
        id.well_formed(),
    ensures
        r.is_some() == node_slots(*old(m)).dom().contains(id),
        r matches Some(node) ==> node == node_slots(*old(m))[id],
        node_slots(*final(m)) == node_slots(*old(m)).remove(id),
        node_slots_retired(*final(m)) == if r is Some {
            node_slots_retired(*old(m)).insert(id)
        } else {
            node_slots_retired(*old(m))
        },
        node_slots_removals(*final(m)) == node_slots_removals(*old(m)) + if r is Some {
            1nat
        } else {
            0nat
        },
{
    m.map.remove(KeyData::from_ffi(id.raw).into())
}

} // verus!
