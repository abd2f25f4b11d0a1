use vstd::prelude::*;
use crate::entity::{CapabilitySet, EntityDecl};
use crate::graph::{Graph, Group, Node, StageKind, listed, shape};

verus! {

/// A registered conditional stage: it is added for every entity that carries
/// all of the required capabilities.
#[derive(Clone, Copy, Debug, PartialEq, Eq, Structural)]
pub struct Conditional {
    pub required: CapabilitySet,
    /// The caller's tag for the stage function.
    pub stage: u32,
}

/// The registered conditional stages, kept in priority order: a registration
/// that requires strictly more than another one stands before it.
#[derive(Clone, Debug)]
pub struct Registry {
    pub entries: Vec<Conditional>,
}

/// The registrations are in non-increasing order of their capability bits.
pub open spec fn prioritised(entries: Seq<Conditional>) -> bool {
    forall|a: int, b: int| 0 <= a < b < entries.len() ==> entries[a].required.bits >= entries[b].required.bits
}

/// A set that holds all of another one and more has the greater bit pattern.
pub proof fn lemma_refines_greater(a: CapabilitySet, b: CapabilitySet)
    requires
        a.refines(b),
    ensures
        a.bits > b.bits,
{
    let x = a.bits;
    let y = b.bits;
    assert(x & y == y && x != y ==> x > y) by (bit_vector);
}

impl Registry {
    pub open spec fn wf(self) -> bool {
        prioritised(self.entries@)
    }

    pub fn new() -> (r: Registry)
        ensures
            r.wf(),
            r.entries@.len() == 0,
    {
        Registry { entries: Vec::new() }
    }

    /// Adds a registration before the first one with a lesser bit pattern, and
    /// returns the position it took.
    pub fn register(&mut self, c: Conditional) -> (pos: usize)
        ensures
            old(self).wf() ==> final(self).wf(),
            pos <= old(self).entries@.len(),
            final(self).entries@ == old(self).entries@.insert(pos as int, c),
            forall|x: int| 0 <= x < pos ==> old(self).entries@[x].required.bits >= c.required.bits,
            pos < old(self).entries@.len() ==> old(self).entries@[pos as int].required.bits < c.required.bits,
    {
        let mut pos: usize = 0;
        while pos < self.entries.len() && self.entries[pos].required.bits >= c.required.bits
            invariant
                pos <= self.entries@.len(),
                self.entries@ == old(self).entries@,
                forall|x: int| 0 <= x < pos ==> self.entries@[x].required.bits >= c.required.bits,
            decreases self.entries@.len() - pos,
        {
            pos += 1;
        }
        self.entries.insert(pos, c);
        pos
    }
}

/// Node `p` is a conditional node of entity `owner` whose registration
/// requires strictly more than registration `r` does.
pub open spec fn refining(entries: Seq<Conditional>, nodes: Seq<Node>, owner: usize, r: int, p: int) -> bool {
    &&& nodes[p].owner == owner
    &&& nodes[p].kind matches StageKind::Conditional(r2)
    &&& r2 < entries.len()
    &&& entries[r2 as int].required.refines(entries[r].required)
}

/// Node `n` is a conditional node: its entity matches its registration, and
/// it follows the entity's marker and the entity's more specific conditional
/// nodes, and nothing else.
pub open spec fn conditional_node(
    snap: Seq<EntityDecl>,
    entries: Seq<Conditional>,
    nodes: Seq<Node>,
    groups: Seq<Option<Group>>,
    base: int,
    n: int,
) -> bool {
    let nd = nodes[n];
    &&& nd.kind matches StageKind::Conditional(r)
    &&& r < entries.len()
    &&& nd.owner < snap.len()
    &&& groups[nd.owner as int] is Some
    &&& nd.entity == snap[nd.owner as int].id
    &&& snap[nd.owner as int].capabilities.covers(entries[r as int].required)
    &&& nd.after@.len() >= 1
    &&& nd.after@[0] == groups[nd.owner as int]->0.render
    &&& forall|k: int|
        1 <= k < nd.after@.len() ==> base <= (#[trigger] nd.after@[k]) < n && refining(
            entries,
            nodes,
            nd.owner,
            r as int,
            nd.after@[k] as int,
        )
    &&& forall|p: int|
        base <= p < n && #[trigger] refining(entries, nodes, nd.owner, r as int, p) ==> listed(nd.after@, p)
}

/// The registration position and owner of a conditional node.
pub open spec fn key(nd: Node) -> (int, int) {
    match nd.kind {
        StageKind::Conditional(r) => (r as int, nd.owner as int),
        _ => (-1, nd.owner as int),
    }
}

/// Lexicographic order on keys.
pub open spec fn key_lt(a: (int, int), b: (int, int)) -> bool {
    a.0 < b.0 || (a.0 == b.0 && a.1 < b.1)
}

/// Entity `i` matches registration `r`.
pub open spec fn matches_at(snap: Seq<EntityDecl>, entries: Seq<Conditional>, groups: Seq<Option<Group>>, i: int, r: int) -> bool {
    0 <= i < snap.len() && 0 <= r < entries.len() && groups[i] is Some && snap[i].capabilities.covers(
        entries[r].required,
    )
}

/// Some node from `base` on is the conditional node of entity `i` for
/// registration `r`.
pub open spec fn has_conditional(nodes: Seq<Node>, base: int, i: int, r: int) -> bool {
    exists|n: int| base <= n < nodes.len() && key(#[trigger] nodes[n]) == (r, i)
}

/// The nodes from `base` on are the conditional nodes of the pairs of a
/// registration and a matching entity that come before `(r, i)`, one node per
/// pair, in the order of the pairs.
pub open spec fn extended_upto(
    snap: Seq<EntityDecl>,
    entries: Seq<Conditional>,
    nodes: Seq<Node>,
    groups: Seq<Option<Group>>,
    base: int,
    r: int,
    i: int,
) -> bool {
    &&& forall|n: int| base <= n < nodes.len() ==> #[trigger] conditional_node(snap, entries, nodes, groups, base, n)
    &&& forall|n: int| base <= n < nodes.len() ==> key_lt(key(#[trigger] nodes[n]), (r, i))
    &&& forall|a: int, b: int| base <= a < b < nodes.len() ==> key_lt(key(#[trigger] nodes[a]), key(#[trigger] nodes[b]))
    &&& forall|x: int, y: int| #[trigger]
        matches_at(snap, entries, groups, x, y) && key_lt((y, x), (r, i)) ==> has_conditional(nodes, base, x, y)
}

/// `g1` is `g0` with one conditional node for each registration and each
/// entity of the graph that matches it, and nothing else.
pub open spec fn extended(snap: Seq<EntityDecl>, entries: Seq<Conditional>, g0: Graph, g1: Graph) -> bool {
    &&& g1.wf()
    &&& g1.groups@ == g0.groups@
    &&& g0.nodes@.len() <= g1.nodes@.len()
    &&& forall|n: int| 0 <= n < g0.nodes@.len() ==> #[trigger] g1.nodes@[n] == g0.nodes@[n]
    &&& extended_upto(snap, entries, g1.nodes@, g1.groups@, g0.nodes@.len() as int, entries.len() as int, 0)
}

/// The nodes that the conditional node of `owner` for registration `r` must
/// follow: the marker, then the more specific conditional nodes of `owner`.
fn predecessors(entries: &Vec<Conditional>, nodes: &Vec<Node>, base: usize, render: usize, owner: usize, r: usize) -> (after: Vec<usize>)
    requires
        r < entries@.len(),
        base <= nodes@.len(),
    ensures
        after@.len() >= 1,
        after@[0] == render,
        forall|k: int|
            1 <= k < after@.len() ==> base <= (#[trigger] after@[k]) < nodes@.len() && refining(
                entries@,
                nodes@,
                owner,
                r as int,
                after@[k] as int,
            ),
        forall|p: int|
            base <= p < nodes@.len() && #[trigger] refining(entries@, nodes@, owner, r as int, p) ==> listed(after@, p),
{
    let mut after: Vec<usize> = Vec::new();
    after.push(render);
    let mut p: usize = base;
    while p < nodes.len()
        invariant
            r < entries@.len(),
            base <= p <= nodes@.len(),
            after@.len() >= 1,
            after@[0] == render,
            forall|k: int|
                1 <= k < after@.len() ==> base <= (#[trigger] after@[k]) < p && refining(
                    entries@,
                    nodes@,
                    owner,
                    r as int,
                    after@[k] as int,
                ),
            forall|q: int|
                base <= q < p && #[trigger] refining(entries@, nodes@, owner, r as int, q) ==> listed(after@, q),
        decreases nodes@.len() - p,
    {
        let hit = nodes[p].owner == owner && match nodes[p].kind {
            StageKind::Conditional(r2) => r2 < entries.len() && entries[r2].required.strictly_contains(&entries[r].required),
            _ => false,
        };
        let ghost prev = after@;
        if hit {
            after.push(p);
            assert(after@[prev.len() as int] == p);
        }
        proof {
            assert forall|q: int|
                base <= q < p + 1 && #[trigger] refining(entries@, nodes@, owner, r as int, q) implies listed(after@, q) by {
                if q < p {
                    let w = choose|w: int| 0 <= w < prev.len() && prev[w] == q;
                    assert(after@[w] == q);
                }
            }
        }
        p += 1;
    }
    after
}

/// Appending the conditional node of the next matching pair keeps the
/// extension in shape.
proof fn lemma_append(
    snap: Seq<EntityDecl>,
    entries: Seq<Conditional>,
    nodes: Seq<Node>,
    groups: Seq<Option<Group>>,
    base: int,
    r: int,
    i: int,
    nd: Node,
)
    requires
        extended_upto(snap, entries, nodes, groups, base, r, i),
        shape(nodes, groups),
        groups.len() == snap.len(),
        0 <= base <= nodes.len(),
        matches_at(snap, entries, groups, i, r),
        nd.kind == StageKind::Conditional(r as usize),
        r <= usize::MAX,
        nd.owner == i,
        nd.entity == snap[i].id,
        nd.after@.len() >= 1,
        nd.after@[0] == groups[i]->0.render,
        forall|k: int|
            1 <= k < nd.after@.len() ==> base <= (#[trigger] nd.after@[k]) < nodes.len() && refining(
                entries,
                nodes,
                nd.owner,
                r,
                nd.after@[k] as int,
            ),
        forall|p: int|
            base <= p < nodes.len() && #[trigger] refining(entries, nodes, nd.owner, r, p) ==> listed(nd.after@, p),
    ensures
        extended_upto(snap, entries, nodes.push(nd), groups, base, r, i + 1),
        shape(nodes.push(nd), groups),
{
    let nodes2 = nodes.push(nd);
    let m = nodes.len() as int;
    assert forall|p: int, o: usize, rr: int| 0 <= p < m implies #[trigger] refining(entries, nodes2, o, rr, p) == refining(
        entries,
        nodes,
        o,
        rr,
        p,
    ) by {
        assert(nodes2[p] == nodes[p]);
    }
    assert forall|n: int| base <= n < nodes2.len() implies #[trigger] conditional_node(snap, entries, nodes2, groups, base, n) by {
        if n < m {
            assert(conditional_node(snap, entries, nodes, groups, base, n));
            assert(nodes2[n] == nodes[n]);
            let x = nodes[n];
            let rr = x.kind->Conditional_0 as int;
            assert forall|p: int| base <= p < n && #[trigger] refining(entries, nodes2, x.owner, rr, p) implies listed(x.after@, p) by {
                assert(refining(entries, nodes, x.owner, rr, p));
            }
            assert forall|k: int| 1 <= k < x.after@.len() implies base <= (#[trigger] x.after@[k]) < n && refining(
                entries,
                nodes2,
                x.owner,
                rr,
                x.after@[k] as int,
            ) by {
                assert(refining(entries, nodes, x.owner, rr, x.after@[k] as int));
            }
        } else {
            assert(nodes2[m] == nd);
            assert forall|p: int| base <= p < m && #[trigger] refining(entries, nodes2, nd.owner, r, p) implies listed(nd.after@, p) by {
                assert(refining(entries, nodes, nd.owner, r, p));
            }
        }
    }
    assert forall|n: int| base <= n < nodes2.len() implies key_lt(key(#[trigger] nodes2[n]), (r, i + 1)) by {
        if n < m {
            assert(nodes2[n] == nodes[n]);
        }
    }
    assert forall|a: int, b: int| base <= a < b < nodes2.len() implies key_lt(key(#[trigger] nodes2[a]), key(#[trigger] nodes2[b])) by {
        assert(nodes2[a] == nodes[a]);
        if b < m {
            assert(nodes2[b] == nodes[b]);
        }
    }
    assert forall|x: int, y: int| #[trigger]
        matches_at(snap, entries, groups, x, y) && key_lt((y, x), (r, i + 1)) implies has_conditional(nodes2, base, x, y) by {
        if key_lt((y, x), (r, i)) {
            assert(has_conditional(nodes, base, x, y));
            let n = choose|n: int| base <= n < nodes.len() && key(#[trigger] nodes[n]) == (y, x);
            assert(key(nodes2[n]) == (y, x));
        } else {
            assert(key(nodes2[m]) == (y, x));
        }
    }
    assert forall|n: int, k: int|
        0 <= n < nodes2.len() && 0 <= k < nodes2[n].after@.len() implies (#[trigger] nodes2[n].after@[k]) < n by {
        if n < m {
            assert(nodes2[n] == nodes[n]);
        }
    }
    assert forall|n: int|
        0 <= n < nodes2.len() implies (#[trigger] nodes2[n]).owner < groups.len() && groups[nodes2[n].owner as int] is Some by {
        if n < m {
            assert(nodes2[n] == nodes[n]);
        }
    }
}

/// Adds, for each registration in priority order and each entity of the graph
/// that carries the required capabilities, one conditional node behind the
/// entity's marker and behind the entity's more specific conditional nodes.
pub fn extend(g: Graph, snap: &Vec<EntityDecl>, reg: &Registry) -> (out: Graph)
    requires
        g.wf(),
        g.groups@.len() == snap@.len(),
    ensures
        extended(snap@, reg.entries@, g, out),
{
    let ghost g0 = g;
    let Graph { nodes, groups } = g;
    let mut nodes = nodes;
    let base = nodes.len();
    let mut r: usize = 0;
    while r < reg.entries.len()
        invariant
            r <= reg.entries@.len(),
            groups@ == g0.groups@,
            groups@.len() == snap@.len(),
            base == g0.nodes@.len(),
            base <= nodes@.len(),
            forall|n: int| 0 <= n < base ==> #[trigger] nodes@[n] == g0.nodes@[n],
            shape(nodes@, groups@),
            extended_upto(snap@, reg.entries@, nodes@, groups@, base as int, r as int, 0),
        decreases reg.entries@.len() - r,
    {
        let mut i: usize = 0;
        while i < snap.len()
            invariant
                r < reg.entries@.len(),
                i <= snap@.len(),
                groups@ == g0.groups@,
                groups@.len() == snap@.len(),
                base == g0.nodes@.len(),
                base <= nodes@.len(),
                forall|n: int| 0 <= n < base ==> #[trigger] nodes@[n] == g0.nodes@[n],
                shape(nodes@, groups@),
                extended_upto(snap@, reg.entries@, nodes@, groups@, base as int, r as int, i as int),
            decreases snap@.len() - i,
        {
            let mut added = false;
            match groups[i] {
                Some(gr) => {
                    if snap[i].capabilities.contains_all(&reg.entries[r].required) {
                        let after = predecessors(&reg.entries, &nodes, base, gr.render, i, r);
                        let nd = Node { entity: snap[i].id, owner: i, kind: StageKind::Conditional(r), after };
                        proof {
                            lemma_append(snap@, reg.entries@, nodes@, groups@, base as int, r as int, i as int, nd);
                        }
                        nodes.push(nd);
                        added = true;
                    }
                },
                None => {},
            }
            proof {
                if !added {
                    assert(!matches_at(snap@, reg.entries@, groups@, i as int, r as int));
                    assert forall|x: int, y: int| #[trigger]
                        matches_at(snap@, reg.entries@, groups@, x, y) && key_lt((y, x), (r as int, i + 1)) implies has_conditional(
                        nodes@,
                        base as int,
                        x,
                        y,
                    ) by {
                        assert(key_lt((y, x), (r as int, i as int)));
                    }
                }
            }
            i += 1;
        }
        proof {
            assert forall|x: int, y: int| #[trigger]
                matches_at(snap@, reg.entries@, groups@, x, y) && key_lt((y, x), (r + 1, 0)) implies has_conditional(
                nodes@,
                base as int,
                x,
                y,
            ) by {
                assert(key_lt((y, x), (r as int, snap@.len() as int)));
            }
        }
        r += 1;
    }
    Graph { nodes, groups }
}

/// Where one registration requires strictly more than another and an entity
/// matches both, the entity has a node for each, and in every valid
/// execution order the node of the more specific registration comes first.
pub proof fn lemma_specific_first(
    snap: Seq<EntityDecl>,
    reg: Registry,
    g0: Graph,
    g1: Graph,
    i: int,
    general: int,
    specific: int,
    order: Seq<int>,
    x: int,
    y: int,
)
    requires
        reg.wf(),
        extended(snap, reg.entries@, g0, g1),
        matches_at(snap, reg.entries@, g1.groups@, i, general),
        matches_at(snap, reg.entries@, g1.groups@, i, specific),
        reg.entries@[specific].required.refines(reg.entries@[general].required),
        g1.valid_order(order),
        0 <= x < order.len(),
        0 <= y < order.len(),
        g0.nodes@.len() <= order[x] < g1.nodes@.len(),
        g0.nodes@.len() <= order[y] < g1.nodes@.len(),
        key(g1.nodes@[order[x]]) == (specific, i),
        key(g1.nodes@[order[y]]) == (general, i),
    ensures
        has_conditional(g1.nodes@, g0.nodes@.len() as int, i, general),
        has_conditional(g1.nodes@, g0.nodes@.len() as int, i, specific),
        x < y,
{
    let entries = reg.entries@;
    let base = g0.nodes@.len() as int;
    let a = order[x];
    let b = order[y];
    lemma_refines_greater(entries[specific].required, entries[general].required);
    assert(specific < general);
    assert(key_lt((general, i), (entries.len() as int, 0)));
    assert(key_lt((specific, i), (entries.len() as int, 0)));
    if b <= a {
        if b < a {
            assert(key_lt(key(g1.nodes@[b]), key(g1.nodes@[a])));
        }
        assert(false);
    }
    assert(conditional_node(snap, entries, g1.nodes@, g1.groups@, base, b));
    assert(refining(entries, g1.nodes@, g1.nodes@[b].owner, general, a));
    assert(listed(g1.nodes@[b].after@, a));
    assert(g1.edge(a, b));
}

} // verus!
