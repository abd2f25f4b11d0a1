use vstd::prelude::*;

verus! {

/// A stable entity reference: a slot index together with the generation of
/// the slot, so that a recreated slot differs from the entity it replaced.
#[derive(Clone, Copy, Debug, PartialEq, Eq, Hash, Structural)]
pub struct EntityId {
    pub index: u32,
    pub generation: u32,
}

/// A set of capability tags, one bit per capability.
#[derive(Clone, Copy, Debug, PartialEq, Eq, Hash, Structural)]
pub struct CapabilitySet {
    pub bits: u64,
}

impl CapabilitySet {
    /// Every capability of `required` is in `self`.
    pub open spec fn covers(self, required: CapabilitySet) -> bool {
        self.bits & required.bits == required.bits
    }

    /// `self` holds every capability of `other` and at least one more.
    pub open spec fn refines(self, other: CapabilitySet) -> bool {
        self.covers(other) && self.bits != other.bits
    }

    pub fn empty() -> (r: CapabilitySet)
        ensures
            r.bits == 0,
    {
        CapabilitySet { bits: 0 }
    }

    pub fn from_bits(bits: u64) -> (r: CapabilitySet)
        ensures
            r.bits == bits,
    {
        CapabilitySet { bits }
    }

    pub fn union(&self, other: &CapabilitySet) -> (r: CapabilitySet)
        ensures
            r.bits == self.bits | other.bits,
    {
        CapabilitySet { bits: self.bits | other.bits }
    }

    pub fn contains_all(&self, required: &CapabilitySet) -> (r: bool)
        ensures
            r == self.covers(*required),
    {
        self.bits & required.bits == required.bits
    }

    pub fn strictly_contains(&self, other: &CapabilitySet) -> (r: bool)
        ensures
            r == self.refines(*other),
    {
        self.bits & other.bits == other.bits && self.bits != other.bits
    }
}

/// One entity of a population snapshot.
#[derive(Clone, Debug)]
pub struct EntityDecl {
    pub id: EntityId,
    pub predecessors: Vec<EntityId>,
    pub capabilities: CapabilitySet,
}

/// Some entity of the snapshot carries this identifier.
pub open spec fn present(snap: Seq<EntityDecl>, id: EntityId) -> bool {
    exists|j: int| 0 <= j < snap.len() && (#[trigger] snap[j]).id == id
}

/// Entity `i` names a predecessor that the snapshot does not hold.
pub open spec fn dangling(snap: Seq<EntityDecl>, i: int) -> bool {
    exists|k: int|
        0 <= k < snap[i].predecessors@.len() && !present(snap, #[trigger] snap[i].predecessors@[k])
}

/// Entity `i` takes part in the graph.
pub open spec fn scheduled(snap: Seq<EntityDecl>, i: int) -> bool {
    0 <= i < snap.len() && !dangling(snap, i)
}

/// Entity `i` declares entity `j` as a predecessor, and both take part.
pub open spec fn depends(snap: Seq<EntityDecl>, i: int, j: int) -> bool {
    scheduled(snap, i) && scheduled(snap, j) && snap[i].predecessors@.contains(snap[j].id)
}

/// `rank` puts every entity strictly above each of its predecessors.
pub open spec fn ranked(snap: Seq<EntityDecl>, rank: Seq<nat>) -> bool {
    rank.len() == snap.len() && forall|i: int, j: int|
        #[trigger] depends(snap, i, j) ==> rank[j] < rank[i]
}

/// No entity is, directly or through others, its own predecessor.
pub open spec fn acyclic(snap: Seq<EntityDecl>) -> bool {
    exists|rank: Seq<nat>| ranked(snap, rank)
}

/// `placed` and `rank` order a part of the snapshot: whatever a placed entity
/// depends on is placed too, at a lesser rank.
pub open spec fn placing(snap: Seq<EntityDecl>, placed: Seq<bool>, rank: Seq<nat>) -> bool {
    &&& placed.len() == snap.len()
    &&& rank.len() == snap.len()
    &&& forall|i: int, j: int|
        0 <= i < snap.len() && placed[i] && #[trigger] depends(snap, i, j) ==> placed[j] && rank[j] < rank[i]
}

/// Entity `i` can be ordered: no chain of predecessors leads from it into a
/// cycle.
pub open spec fn orderable(snap: Seq<EntityDecl>, i: int) -> bool {
    exists|placed: Seq<bool>, rank: Seq<nat>| #[trigger] placing(snap, placed, rank) && placed[i]
}

/// The identifiers of the scheduled entities before `n` that cannot be
/// ordered, in snapshot order.
pub open spec fn cyclic_ids(snap: Seq<EntityDecl>, n: int) -> Seq<EntityId>
    decreases n,
{
    if n <= 0 {
        Seq::empty()
    } else if scheduled(snap, n - 1) && !orderable(snap, n - 1) {
        cyclic_ids(snap, n - 1).push(snap[n - 1].id)
    } else {
        cyclic_ids(snap, n - 1)
    }
}

/// The identifiers of the entities before `n` that name a missing predecessor,
/// in snapshot order.
pub open spec fn dangling_ids(snap: Seq<EntityDecl>, n: int) -> Seq<EntityId>
    decreases n,
{
    if n <= 0 {
        Seq::empty()
    } else if dangling(snap, n - 1) {
        dangling_ids(snap, n - 1).push(snap[n - 1].id)
    } else {
        dangling_ids(snap, n - 1)
    }
}

/// A scheduling label, optionally scoped to one entity.
#[derive(Clone, Copy, Debug)]
pub struct Label {
    pub label: &'static str,
    pub entity: Option<EntityId>,
}

impl Label {
    pub fn new(label: &'static str) -> (r: Self)
        ensures
            r.label == label,
            r.entity is None,
    {
        Self { label, entity: None }
    }

    pub fn for_entity(&self, entity: EntityId) -> (r: Self)
        ensures
            r.label == self.label,
            r.entity == Some(entity),
    {
        Self { label: self.label, entity: Some(entity) }
    }
}

} // verus!
