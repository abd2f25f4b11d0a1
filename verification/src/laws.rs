use vstd::prelude::*;
use crate::builder::{base_group, built, link, linked};
use crate::entity::{EntityDecl, acyclic, depends, ranked, scheduled};
use crate::graph::{Graph, StageKind};
use crate::runner::reaches;

verus! {

/// The snapshot asks for node `a` to complete before node `b`: they are the
/// prepare and render nodes of one entity, or `a` is the marker of a declared
/// predecessor of the entity that `b` prepares.
pub open spec fn declared(snap: Seq<EntityDecl>, g: Graph, a: int, b: int) -> bool {
    let x = g.nodes@[a];
    let y = g.nodes@[b];
    ||| (x.owner == y.owner && x.kind == StageKind::Prepare && y.kind == StageKind::RenderBase)
    ||| (x.kind == StageKind::RenderBase && y.kind == StageKind::Prepare && depends(
        snap,
        y.owner as int,
        x.owner as int,
    ))
}

/// Every node of a base graph is the node of its kind in its owner's group.
pub proof fn lemma_node_place(snap: Seq<EntityDecl>, g: Graph, n: int)
    requires
        built(snap, g),
        0 <= n < g.nodes@.len(),
    ensures
        scheduled(snap, g.nodes@[n].owner as int),
        g.groups@[g.nodes@[n].owner as int] is Some,
        g.nodes@[n].kind == StageKind::Prepare ==> g.groups@[g.nodes@[n].owner as int]->0.prepare == n,
        g.nodes@[n].kind == StageKind::RenderBase ==> g.groups@[g.nodes@[n].owner as int]->0.render == n,
        g.nodes@[n].kind == StageKind::Prepare || g.nodes@[n].kind == StageKind::RenderBase,
{
    let o = g.nodes@[n].owner as int;
    assert(g.groups@[o] is Some);
    assert(scheduled(snap, o));
    assert(base_group(snap, g.nodes@, g.groups@, o));
}

/// The edges of a base graph are exactly the orderings that the snapshot
/// declares: none is missing and none is added.
pub proof fn lemma_edges_exact(snap: Seq<EntityDecl>, g: Graph, a: int, b: int)
    requires
        built(snap, g),
        0 <= a < g.nodes@.len(),
        0 <= b < g.nodes@.len(),
    ensures
        g.edge(a, b) <==> declared(snap, g, a, b),
{
    lemma_node_place(snap, g, a);
    lemma_node_place(snap, g, b);
    let i = g.nodes@[b].owner as int;
    let j = g.nodes@[a].owner as int;
    let gi = g.groups@[i]->0;
    let gj = g.groups@[j]->0;
    assert(base_group(snap, g.nodes@, g.groups@, i));
    assert(base_group(snap, g.nodes@, g.groups@, j));
    let after = g.nodes@[b].after@;
    if g.edge(a, b) {
        let k = choose|k: int| 0 <= k < after.len() && #[trigger] after[k] == a;
        if g.nodes@[b].kind == StageKind::Prepare {
            assert(linked(snap, g.groups@, i, after[k] as int));
            let w = choose|w: int| 0 <= w < snap.len() && link(snap, g.groups@, i, w, a);
            assert(scheduled(snap, w));
            assert(base_group(snap, g.nodes@, g.groups@, w));
        } else {
            assert(after[0] == gi.prepare);
        }
    }
    if declared(snap, g, a, b) {
        if g.nodes@[b].kind == StageKind::Prepare {
            assert(depends(snap, i, j));
            assert(after.contains(gj.render));
            let k = choose|k: int| 0 <= k < after.len() && after[k] == gj.render;
            assert(after[k] == a);
        } else {
            assert(after[0] == a);
        }
    }
}

/// In every valid execution order of a graph that holds the base graph of
/// the snapshot, the render node of a declared predecessor comes before the
/// prepare node of the entity that declares it.
pub proof fn lemma_predecessor_first(
    snap: Seq<EntityDecl>,
    base: Graph,
    g: Graph,
    e: int,
    p: int,
    order: Seq<int>,
    x: int,
    y: int,
)
    requires
        built(snap, base),
        g.groups@ == base.groups@,
        base.nodes@.len() <= g.nodes@.len(),
        forall|n: int| 0 <= n < base.nodes@.len() ==> #[trigger] g.nodes@[n] == base.nodes@[n],
        depends(snap, e, p),
        g.valid_order(order),
        0 <= x < order.len(),
        0 <= y < order.len(),
        order[x] == g.groups@[p]->0.render,
        order[y] == g.groups@[e]->0.prepare,
    ensures
        x < y,
{
    assert(scheduled(snap, e));
    assert(scheduled(snap, p));
    assert(base.groups@[e] is Some);
    assert(base.groups@[p] is Some);
    assert(base_group(snap, base.nodes@, base.groups@, e));
    assert(base_group(snap, base.nodes@, base.groups@, p));
    let a = base.groups@[p]->0.render as int;
    let b = base.groups@[e]->0.prepare as int;
    lemma_edges_exact(snap, base, a, b);
    assert(base.edge(a, b));
    assert(g.nodes@[b] == base.nodes@[b]);
    assert(g.edge(a, b));
}

/// Two base graphs of one snapshot order their nodes alike: nodes of the
/// same entities and kinds are joined by an edge in one graph exactly where
/// they are in the other, wherever the nodes stand.
pub proof fn lemma_rebuild_same_relation(
    snap: Seq<EntityDecl>,
    g1: Graph,
    g2: Graph,
    a1: int,
    b1: int,
    a2: int,
    b2: int,
)
    requires
        built(snap, g1),
        built(snap, g2),
        0 <= a1 < g1.nodes@.len(),
        0 <= b1 < g1.nodes@.len(),
        0 <= a2 < g2.nodes@.len(),
        0 <= b2 < g2.nodes@.len(),
        g1.nodes@[a1].owner == g2.nodes@[a2].owner,
        g1.nodes@[a1].kind == g2.nodes@[a2].kind,
        g1.nodes@[b1].owner == g2.nodes@[b2].owner,
        g1.nodes@[b1].kind == g2.nodes@[b2].kind,
    ensures
        g1.edge(a1, b1) <==> g2.edge(a2, b2),
        forall|i: int| 0 <= i < snap.len() ==> (g1.groups@[i] is Some <==> g2.groups@[i] is Some),
{
    lemma_edges_exact(snap, g1, a1, b1);
    lemma_edges_exact(snap, g2, a2, b2);
}

/// Each entity of `path` declares the next one as a predecessor.
pub open spec fn chain(snap: Seq<EntityDecl>, path: Seq<int>) -> bool {
    forall|k: int| 0 <= k < path.len() - 1 ==> depends(snap, #[trigger] path[k], path[k + 1])
}

/// A chain of declared predecessors leads from entity `e` to entity `p`.
pub open spec fn leads(snap: Seq<EntityDecl>, e: int, p: int) -> bool {
    exists|path: Seq<int>| #[trigger] chain(snap, path) && path.len() >= 2 && path[0] == e && path.last() == p
}

/// The marker of the last entity of a chain reaches the prepare node of the
/// first one.
proof fn lemma_chain_reaches(snap: Seq<EntityDecl>, g: Graph, path: Seq<int>)
    requires
        built(snap, g),
        chain(snap, path),
        path.len() >= 2,
    ensures
        reaches(g, g.groups@[path.last()]->0.render as int, g.groups@[path[0]]->0.prepare as int),
    decreases path.len(),
{
    let e = path[0];
    let j = path[1];
    assert(depends(snap, path[0int], path[0int + 1]));
    assert(scheduled(snap, e) && scheduled(snap, j));
    assert(g.groups@[e] is Some && g.groups@[j] is Some);
    assert(base_group(snap, g.nodes@, g.groups@, e));
    assert(base_group(snap, g.nodes@, g.groups@, j));
    let b = g.groups@[e]->0.prepare as int;
    let a1 = g.groups@[j]->0.render as int;
    let pj = g.groups@[j]->0.prepare as int;
    lemma_edges_exact(snap, g, a1, b);
    assert(g.edge(a1, b));
    let k = choose|k: int| 0 <= k < g.nodes@[b].after@.len() && #[trigger] g.nodes@[b].after@[k] == a1;
    assert(g.nodes@[b].after@[k] < b);
    if path.len() == 2 {
        assert(reaches(g, a1, b));
    } else {
        let rest = path.subrange(1, path.len() as int);
        assert forall|x: int| 0 <= x < rest.len() - 1 implies depends(snap, #[trigger] rest[x], rest[x + 1]) by {
            assert(depends(snap, path[x + 1], path[x + 1 + 1]));
        }
        lemma_chain_reaches(snap, g, rest);
        let a = g.groups@[path.last()]->0.render as int;
        assert(rest.last() == path.last());
        assert(rest[0] == j);
        assert(reaches(g, a, pj));
        assert(g.nodes@[a1].after@[0] == pj);
        assert(reaches(g, a, a1));
        assert(reaches(g, a, b));
    }
}

/// Whatever a marker reaches belongs to an entity from which a chain of
/// declared predecessors leads to the marker's entity.
proof fn lemma_reaches_leads(snap: Seq<EntityDecl>, g: Graph, a: int, b: int)
    requires
        built(snap, g),
        0 <= a < g.nodes@.len(),
        g.nodes@[a].kind == StageKind::RenderBase,
        reaches(g, a, b),
    ensures
        leads(snap, g.nodes@[b].owner as int, g.nodes@[a].owner as int),
    decreases b,
{
    let k = choose|k: int|
        0 <= k < g.nodes@[b].after@.len() && {
            let p = (#[trigger] g.nodes@[b].after@[k]) as int;
            p == a || (p < b && reaches(g, a, p))
        };
    let p = g.nodes@[b].after@[k] as int;
    assert(p < b);
    lemma_node_place(snap, g, b);
    lemma_node_place(snap, g, p);
    assert(g.edge(p, b));
    lemma_edges_exact(snap, g, p, b);
    let ob = g.nodes@[b].owner as int;
    let op = g.nodes@[p].owner as int;
    let oa = g.nodes@[a].owner as int;
    if g.nodes@[b].kind == StageKind::Prepare {
        assert(depends(snap, ob, op));
        if p == a {
            let path = seq![ob, oa];
            assert(chain(snap, path));
            assert(path.last() == oa);
        } else {
            lemma_reaches_leads(snap, g, a, p);
            let tail = choose|tail: Seq<int>| #[trigger] chain(snap, tail) && tail.len() >= 2 && tail[0] == op && tail.last() == oa;
            let path = seq![ob] + tail;
            assert forall|x: int| 0 <= x < path.len() - 1 implies depends(snap, #[trigger] path[x], path[x + 1]) by {
                if x > 0 {
                    assert(path[x] == tail[x - 1]);
                    assert(path[x + 1] == tail[x - 1 + 1]);
                    assert(depends(snap, tail[x - 1], tail[x - 1 + 1]));
                } else {
                    assert(path[1] == tail[0]);
                }
            }
            assert(chain(snap, path));
            assert(path.last() == oa);
            assert(path[0] == ob);
        }
    } else {
        lemma_reaches_leads(snap, g, a, p);
    }
}

/// The ordering that a base graph imposes between two entities is exactly
/// the one the snapshot declares, directly or through others: the marker of
/// `p` reaches the prepare node of `e` where a chain of declared predecessors
/// leads from `e` to `p`, and nowhere else.
pub proof fn lemma_closure_exact(snap: Seq<EntityDecl>, g: Graph, e: int, p: int)
    requires
        built(snap, g),
        scheduled(snap, e),
        scheduled(snap, p),
    ensures
        reaches(g, g.groups@[p]->0.render as int, g.groups@[e]->0.prepare as int) <==> leads(snap, e, p),
{
    assert(g.groups@[e] is Some && g.groups@[p] is Some);
    assert(base_group(snap, g.nodes@, g.groups@, e));
    assert(base_group(snap, g.nodes@, g.groups@, p));
    let a = g.groups@[p]->0.render as int;
    let b = g.groups@[e]->0.prepare as int;
    if reaches(g, a, b) {
        lemma_reaches_leads(snap, g, a, b);
    }
    if leads(snap, e, p) {
        let path = choose|path: Seq<int>| #[trigger] chain(snap, path) && path.len() >= 2 && path[0] == e && path.last() == p;
        lemma_chain_reaches(snap, g, path);
    }
}

/// Along a chain of predecessors the rank falls by at least one per step.
proof fn lemma_chain_falls(snap: Seq<EntityDecl>, rank: Seq<nat>, path: Seq<int>, k: int)
    requires
        ranked(snap, rank),
        chain(snap, path),
        0 <= k < path.len(),
    ensures
        rank[path[k]] + k <= rank[path[0]],
    decreases k,
{
    if k > 0 {
        lemma_chain_falls(snap, rank, path, k - 1);
        assert(depends(snap, path[k - 1], path[k - 1 + 1]));
    }
}

/// A snapshot in which a chain of predecessors leads from an entity back to
/// itself is not acyclic; a chain of one entity is a self-reference.
pub proof fn lemma_cycle_rejected(snap: Seq<EntityDecl>, path: Seq<int>)
    requires
        path.len() >= 1,
        chain(snap, path),
        depends(snap, path.last(), path[0]),
    ensures
        !acyclic(snap),
{
    assert forall|rank: Seq<nat>| !ranked(snap, rank) by {
        if ranked(snap, rank) {
            lemma_chain_falls(snap, rank, path, path.len() - 1);
        }
    }
}

} // verus!
