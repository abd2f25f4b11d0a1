use vstd::prelude::*;
use crate::entity::EntityId;

verus! {

/// What a pipeline node does for its entity.
#[derive(Clone, Copy, Debug, PartialEq, Eq, Structural)]
pub enum StageKind {
    Prepare,
    RenderBase,
    /// A capability-gated stage; the index is that of its registration.
    Conditional(usize),
}

/// One schedulable unit of work.
#[derive(Clone, Debug)]
pub struct Node {
    pub entity: EntityId,
    /// Position of the owning entity in the snapshot the graph was built from.
    pub owner: usize,
    pub kind: StageKind,
    /// The nodes that must have completed before this one starts.
    pub after: Vec<usize>,
}

/// The base pipeline of one entity. The render node is the entity's
/// core-complete marker.
#[derive(Clone, Copy, Debug, PartialEq, Eq, Structural)]
pub struct Group {
    pub prepare: usize,
    pub render: usize,
}

/// The task graph of one tick. Nodes are stored so that every edge leads from
/// a lower position to a higher one.
#[derive(Clone, Debug)]
pub struct Graph {
    pub nodes: Vec<Node>,
    /// One slot per snapshot entity; `None` where the entity was left out.
    pub groups: Vec<Option<Group>>,
}

/// Node `p` is among the nodes of `after`.
pub open spec fn listed(after: Seq<usize>, p: int) -> bool {
    exists|k: int| 0 <= k < after.len() && #[trigger] after[k] == p
}

/// Every edge leads to a later node, every node belongs to a group, and every
/// group's marker is a node.
pub open spec fn shape(nodes: Seq<Node>, groups: Seq<Option<Group>>) -> bool {
    &&& forall|n: int, k: int|
        0 <= n < nodes.len() && 0 <= k < nodes[n].after@.len() ==> (#[trigger] nodes[n].after@[k]) < n
    &&& forall|n: int|
        0 <= n < nodes.len() ==> (#[trigger] nodes[n]).owner < groups.len() && groups[nodes[n].owner as int] is Some
    &&& forall|i: int| 0 <= i < groups.len() && #[trigger] groups[i] is Some ==> groups[i]->0.render < nodes.len()
}

impl Graph {
    /// Node `a` must complete before node `b` starts.
    pub open spec fn edge(self, a: int, b: int) -> bool {
        0 <= b < self.nodes@.len() && listed(self.nodes@[b].after@, a)
    }

    /// Every edge leads to a later node, and every node belongs to a group.
    pub open spec fn wf(self) -> bool {
        shape(self.nodes@, self.groups@)
    }

    /// `order` lists every node once and no node before one it must follow.
    pub open spec fn valid_order(self, order: Seq<int>) -> bool {
        &&& order.len() == self.nodes@.len()
        &&& forall|n: int| 0 <= n < self.nodes@.len() ==> order.contains(n)
        &&& forall|x: int, y: int|
            0 <= x < order.len() && 0 <= y < order.len() && self.edge(
                #[trigger] order[y],
                #[trigger] order[x],
            ) ==> y < x
    }

    pub fn new() -> (g: Graph)
        ensures
            g.wf(),
            g.nodes@.len() == 0,
            g.groups@.len() == 0,
    {
        Graph { nodes: Vec::new(), groups: Vec::new() }
    }

    /// Whether the graph is well formed, decided by looking at every node and
    /// group.
    pub fn is_well_formed(&self) -> (r: bool)
        ensures
            r == self.wf(),
    {
        let mut n: usize = 0;
        while n < self.nodes.len()
            invariant
                n <= self.nodes@.len(),
                forall|x: int, k: int|
                    0 <= x < n && 0 <= k < self.nodes@[x].after@.len() ==> (#[trigger] self.nodes@[x].after@[k]) < x,
                forall|x: int|
                    0 <= x < n ==> (#[trigger] self.nodes@[x]).owner < self.groups@.len()
                        && self.groups@[self.nodes@[x].owner as int] is Some,
            decreases self.nodes@.len() - n,
        {
            let node = &self.nodes[n];
            if node.owner >= self.groups.len() || self.groups[node.owner].is_none() {
                return false;
            }
            let mut k: usize = 0;
            while k < node.after.len()
                invariant
                    n < self.nodes@.len(),
                    *node == self.nodes@[n as int],
                    k <= node.after@.len(),
                    forall|y: int| 0 <= y < k ==> (#[trigger] node.after@[y]) < n,
                decreases node.after@.len() - k,
            {
                if node.after[k] >= n {
                    assert(!((#[trigger] self.nodes@[n as int].after@[k as int]) < n));
                    return false;
                }
                k += 1;
            }
            n += 1;
        }
        let mut i: usize = 0;
        while i < self.groups.len()
            invariant
                i <= self.groups@.len(),
                forall|x: int|
                    0 <= x < i && #[trigger] self.groups@[x] is Some ==> self.groups@[x]->0.render < self.nodes@.len(),
            decreases self.groups@.len() - i,
        {
            match self.groups[i] {
                Some(gr) => {
                    if gr.render >= self.nodes.len() {
                        assert(self.groups@[i as int] is Some);
                        return false;
                    }
                },
                None => {},
            }
            i += 1;
        }
        true
    }

    pub fn len(&self) -> (n: usize)
        ensures
            n == self.nodes@.len(),
    {
        self.nodes.len()
    }
}

/// The order in which the nodes are stored is a valid execution order, so a
/// well-formed graph has one and holds no cycle.
pub proof fn lemma_stored_order_valid(g: Graph)
    requires
        g.wf(),
    ensures
        g.valid_order(Seq::new(g.nodes@.len(), |n: int| n)),
{
    let order = Seq::new(g.nodes@.len(), |n: int| n);
    assert forall|n: int| 0 <= n < g.nodes@.len() implies order.contains(n) by {
        assert(order[n] == n);
    }
    assert forall|x: int, y: int|
        0 <= x < order.len() && 0 <= y < order.len() && g.edge(#[trigger] order[y], #[trigger] order[x]) implies y
        < x by {
        let k = choose|k: int| 0 <= k < g.nodes@[x].after@.len() && #[trigger] g.nodes@[x].after@[k] == y;
        assert(g.nodes@[x].after@[k] < x);
    }
}

} // verus!
