use vstd::prelude::*;
use crate::entity::{EntityDecl, EntityId, acyclic, cyclic_ids, dangling, dangling_ids, depends, orderable, placing, present, ranked, scheduled};
use crate::graph::{Graph, Group, Node, StageKind};

verus! {

/// Why a rebuild left an entity out, or produced no graph at all.
#[derive(Clone, Debug)]
pub enum BuildError {
    /// The entity names a predecessor that the snapshot does not hold.
    DanglingPredecessor(EntityId),
    /// These entities cannot be ordered: each waits, directly or through
    /// others, on entities that wait on each other.
    CycleDetected(Vec<EntityId>),
}

/// A successful rebuild: the graph, and the entities that were left out of it.
#[derive(Clone, Debug)]
pub struct Build {
    pub graph: Graph,
    pub dangling: Vec<EntityId>,
}

/// Node `p` is the marker of a predecessor `j` of entity `i`.
pub open spec fn link(snap: Seq<EntityDecl>, groups: Seq<Option<Group>>, i: int, j: int, p: int) -> bool {
    depends(snap, i, j) && groups[j] is Some && groups[j]->0.render == p
}

/// Node `p` is the marker of some predecessor of entity `i`.
pub open spec fn linked(snap: Seq<EntityDecl>, groups: Seq<Option<Group>>, i: int, p: int) -> bool {
    exists|j: int| 0 <= j < snap.len() && link(snap, groups, i, j, p)
}

/// The base pipeline of entity `i` stands in the graph, wired to the markers
/// of exactly its declared predecessors.
pub open spec fn base_group(snap: Seq<EntityDecl>, nodes: Seq<Node>, groups: Seq<Option<Group>>, i: int) -> bool {
    let gr = groups[i]->0;
    let prep = nodes[gr.prepare as int];
    let rend = nodes[gr.render as int];
    &&& gr.prepare + 1 == gr.render
    &&& gr.render < nodes.len()
    &&& prep.entity == snap[i].id
    &&& prep.owner == i
    &&& prep.kind == StageKind::Prepare
    &&& rend.entity == snap[i].id
    &&& rend.owner == i
    &&& rend.kind == StageKind::RenderBase
    &&& rend.after@ == seq![gr.prepare]
    &&& forall|k: int| 0 <= k < prep.after@.len() ==> linked(snap, groups, i, #[trigger] prep.after@[k] as int)
    &&& forall|j: int| #[trigger]
        depends(snap, i, j) ==> groups[j] is Some && prep.after@.contains(groups[j]->0.render)
}

/// Every node is the prepare or the render node of its owner's group.
pub open spec fn base_only(nodes: Seq<Node>, groups: Seq<Option<Group>>) -> bool {
    forall|n: int|
        0 <= n < nodes.len() ==> {
            let o = (#[trigger] nodes[n]).owner as int;
            0 <= o < groups.len() && groups[o] is Some && (groups[o]->0.prepare == n
                || groups[o]->0.render == n)
        }
}

/// `g` is the base graph of the snapshot: one base pipeline per scheduled
/// entity, nothing else, and edges for exactly the declared predecessors.
pub open spec fn built(snap: Seq<EntityDecl>, g: Graph) -> bool {
    &&& g.wf()
    &&& g.groups@.len() == snap.len()
    &&& base_only(g.nodes@, g.groups@)
    &&& forall|i: int| 0 <= i < snap.len() ==> (#[trigger] g.groups@[i] is Some <==> scheduled(snap, i))
    &&& forall|i: int| 0 <= i < snap.len() && #[trigger] scheduled(snap, i) ==> base_group(snap, g.nodes@, g.groups@, i)
}

/// The entity `id` is scheduled and has a predecessor among `stuck`.
pub open spec fn waits_within(snap: Seq<EntityDecl>, stuck: Seq<EntityId>, id: EntityId) -> bool {
    exists|i: int, j: int| #[trigger] depends(snap, i, j) && snap[i].id == id && stuck.contains(snap[j].id)
}

/// The entities in `stuck` wait on each other: each is scheduled and has a
/// predecessor that is in `stuck` too.
pub open spec fn deadlocked(snap: Seq<EntityDecl>, stuck: Seq<EntityId>) -> bool {
    &&& stuck.len() > 0
    &&& forall|k: int| 0 <= k < stuck.len() ==> waits_within(snap, stuck, #[trigger] stuck[k])
}

/// The graph under construction: the entities placed so far have their base
/// pipelines, and nothing else is in it.
pub open spec fn partial(snap: Seq<EntityDecl>, nodes: Seq<Node>, groups: Seq<Option<Group>>) -> bool {
    &&& groups.len() == snap.len()
    &&& forall|n: int, k: int|
        0 <= n < nodes.len() && 0 <= k < nodes[n].after@.len() ==> (#[trigger] nodes[n].after@[k]) < n
    &&& base_only(nodes, groups)
    &&& forall|i: int|
        0 <= i < snap.len() && #[trigger] groups[i] is Some ==> scheduled(snap, i) && base_group(snap, nodes, groups, i)
}

pub fn is_present(snap: &Vec<EntityDecl>, id: EntityId) -> (r: bool)
    ensures
        r == present(snap@, id),
{
    let mut j: usize = 0;
    while j < snap.len()
        invariant
            j <= snap.len(),
            forall|x: int| 0 <= x < j ==> (#[trigger] snap@[x]).id != id,
        decreases snap.len() - j,
    {
        if snap[j].id == id {
            return true;
        }
        j += 1;
    }
    false
}

pub fn is_dangling(snap: &Vec<EntityDecl>, i: usize) -> (r: bool)
    requires
        i < snap.len(),
    ensures
        r == dangling(snap@, i as int),
{
    let mut k: usize = 0;
    while k < snap[i].predecessors.len()
        invariant
            i < snap.len(),
            k <= snap@[i as int].predecessors@.len(),
            forall|x: int| 0 <= x < k ==> present(snap@, #[trigger] snap@[i as int].predecessors@[x]),
        decreases snap@[i as int].predecessors@.len() - k,
    {
        if !is_present(snap, snap[i].predecessors[k]) {
            return true;
        }
        k += 1;
    }
    false
}

pub fn names(decl: &EntityDecl, id: EntityId) -> (r: bool)
    ensures
        r == decl.predecessors@.contains(id),
{
    let mut k: usize = 0;
    while k < decl.predecessors.len()
        invariant
            k <= decl.predecessors@.len(),
            forall|x: int| 0 <= x < k ==> decl.predecessors@[x] != id,
        decreases decl.predecessors@.len() - k,
    {
        if decl.predecessors[k] == id {
            return true;
        }
        k += 1;
    }
    false
}

/// The markers that entity `i` must follow, if all of its predecessors have
/// been placed; `None` while one of them has not.
fn gather(snap: &Vec<EntityDecl>, sched: &Vec<bool>, groups: &Vec<Option<Group>>, i: usize) -> (r: Option<Vec<usize>>)
    requires
        i < snap.len(),
        sched@.len() == snap@.len(),
        groups@.len() == snap@.len(),
        forall|x: int| 0 <= x < snap@.len() ==> sched@[x] == scheduled(snap@, x),
        sched@[i as int],
    ensures
        r matches Some(after) ==> {
            &&& forall|k: int| 0 <= k < after@.len() ==> linked(snap@, groups@, i as int, #[trigger] after@[k] as int)
            &&& forall|j: int| #[trigger]
                depends(snap@, i as int, j) ==> groups@[j] is Some && after@.contains(groups@[j]->0.render)
        },
        r is None ==> exists|j: int| #[trigger] depends(snap@, i as int, j) && groups@[j] is None,
{
    let mut after: Vec<usize> = Vec::new();
    let mut j: usize = 0;
    while j < snap.len()
        invariant
            i < snap.len(),
            j <= snap.len(),
            sched@.len() == snap@.len(),
            groups@.len() == snap@.len(),
            forall|x: int| 0 <= x < snap@.len() ==> sched@[x] == scheduled(snap@, x),
            sched@[i as int],
            forall|k: int| 0 <= k < after@.len() ==> linked(snap@, groups@, i as int, #[trigger] after@[k] as int),
            forall|x: int| 0 <= x < j && #[trigger] depends(snap@, i as int, x) ==> groups@[x] is Some && after@.contains(groups@[x]->0.render),
        decreases snap.len() - j,
    {
        if sched[j] && names(&snap[i], snap[j].id) {
            assert(depends(snap@, i as int, j as int));
            match groups[j] {
                Some(g) => {
                    let ghost prev = after@;
                    after.push(g.render);
                    proof {
                        assert(link(snap@, groups@, i as int, j as int, g.render as int));
                        assert(after@[prev.len() as int] == g.render);
                        assert forall|x: int| 0 <= x < j + 1 && #[trigger] depends(snap@, i as int, x) implies groups@[x] is Some && after@.contains(groups@[x]->0.render) by {
                            if x < j {
                                let w = choose|w: int| 0 <= w < prev.len() && prev[w] == groups@[x]->0.render;
                                assert(after@[w] == groups@[x]->0.render);
                            }
                        }
                    }
                },
                None => {
                    return None;
                },
            }
        }
        j += 1;
    }
    Some(after)
}

/// The first scheduled entity that has not been placed and whose predecessors
/// all have, with the markers it must follow.
fn find_ready(snap: &Vec<EntityDecl>, sched: &Vec<bool>, groups: &Vec<Option<Group>>) -> (r: Option<(usize, Vec<usize>)>)
    requires
        sched@.len() == snap@.len(),
        groups@.len() == snap@.len(),
        forall|x: int| 0 <= x < snap@.len() ==> sched@[x] == scheduled(snap@, x),
    ensures
        r matches Some((i, after)) ==> {
            &&& i < snap@.len()
            &&& scheduled(snap@, i as int)
            &&& groups@[i as int] is None
            &&& forall|k: int| 0 <= k < after@.len() ==> linked(snap@, groups@, i as int, #[trigger] after@[k] as int)
            &&& forall|j: int| #[trigger]
                depends(snap@, i as int, j) ==> groups@[j] is Some && after@.contains(groups@[j]->0.render)
        },
        r is None ==> forall|i: int|
            0 <= i < snap@.len() && #[trigger] scheduled(snap@, i) && groups@[i] is None ==> exists|j: int| #[trigger]
                depends(snap@, i, j) && groups@[j] is None,
{
    let mut i: usize = 0;
    while i < snap.len()
        invariant
            i <= snap.len(),
            sched@.len() == snap@.len(),
            groups@.len() == snap@.len(),
            forall|x: int| 0 <= x < snap@.len() ==> sched@[x] == scheduled(snap@, x),
            forall|x: int|
                0 <= x < i && #[trigger] scheduled(snap@, x) && groups@[x] is None ==> exists|j: int| #[trigger]
                    depends(snap@, x, j) && groups@[j] is None,
        decreases snap.len() - i,
    {
        if sched[i] && groups[i].is_none() {
            match gather(snap, sched, groups, i) {
                Some(after) => {
                    return Some((i, after));
                },
                None => {},
            }
        }
        i += 1;
    }
    None
}

/// The number of entities that have no group yet.
pub open spec fn unplaced(groups: Seq<Option<Group>>) -> nat
    decreases groups.len(),
{
    if groups.len() == 0 {
        0
    } else {
        unplaced(groups.drop_last()) + if groups.last() is None { 1nat } else { 0nat }
    }
}

proof fn lemma_place(groups: Seq<Option<Group>>, i: int, g: Group)
    requires
        0 <= i < groups.len(),
        groups[i] is None,
    ensures
        unplaced(groups.update(i, Some(g))) + 1 == unplaced(groups),
    decreases groups.len(),
{
    let next = groups.update(i, Some(g));
    if i == groups.len() - 1 {
        assert(next.drop_last() =~= groups.drop_last());
    } else {
        assert(next.drop_last() =~= groups.drop_last().update(i, Some(g)));
        lemma_place(groups.drop_last(), i, g);
    }
}

/// Some unplaced scheduled entity carries the identifier `id`.
pub open spec fn held(snap: Seq<EntityDecl>, groups: Seq<Option<Group>>, id: EntityId) -> bool {
    exists|x: int| 0 <= x < snap.len() && scheduled(snap, x) && groups[x] is None && snap[x].id == id
}

/// Placing entity `i`, whose predecessors are all placed, keeps the graph
/// under construction in shape.
proof fn lemma_extend(
    snap: Seq<EntityDecl>,
    nodes: Seq<Node>,
    groups: Seq<Option<Group>>,
    nodes2: Seq<Node>,
    groups2: Seq<Option<Group>>,
    i: int,
    g: Group,
)
    requires
        partial(snap, nodes, groups),
        g.prepare == nodes.len(),
        g.render == nodes.len() + 1,
        0 <= i < snap.len(),
        scheduled(snap, i),
        groups[i] is None,
        nodes2.len() == nodes.len() + 2,
        forall|n: int| 0 <= n < nodes.len() ==> nodes2[n] == nodes[n],
        groups2 == groups.update(i, Some(g)),
        nodes2[nodes.len() as int].entity == snap[i].id,
        nodes2[nodes.len() as int].owner == i,
        nodes2[nodes.len() as int].kind == StageKind::Prepare,
        nodes2[nodes.len() as int + 1].entity == snap[i].id,
        nodes2[nodes.len() as int + 1].owner == i,
        nodes2[nodes.len() as int + 1].kind == StageKind::RenderBase,
        nodes2[nodes.len() as int + 1].after@ == seq![nodes.len() as usize],
        forall|k: int| 0 <= k < nodes2[nodes.len() as int].after@.len() ==> linked(snap, groups, i, #[trigger] nodes2[nodes.len() as int].after@[k] as int),
        forall|j: int| #[trigger]
            depends(snap, i, j) ==> groups[j] is Some && nodes2[nodes.len() as int].after@.contains(groups[j]->0.render),
    ensures
        partial(snap, nodes2, groups2),
{
    let m = nodes.len() as int;
    assert forall|x: int, j: int, p: int| link(snap, groups, x, j, p) && 0 <= j < snap.len() implies link(snap, groups2, x, j, p) by {}
    assert forall|x: int, p: int| linked(snap, groups, x, p) implies linked(snap, groups2, x, p) by {
        let j = choose|j: int| 0 <= j < snap.len() && link(snap, groups, x, j, p);
        assert(link(snap, groups2, x, j, p));
    }
    assert forall|x: int, p: int| linked(snap, groups, x, p) implies 0 <= p < m by {
        let j = choose|j: int| 0 <= j < snap.len() && link(snap, groups, x, j, p);
        assert(groups[j] is Some);
        assert(base_group(snap, nodes, groups, j));
    }
    assert forall|n: int, k: int|
        0 <= n < nodes2.len() && 0 <= k < nodes2[n].after@.len() implies (#[trigger] nodes2[n].after@[k]) < n by {
        if n < m {
            assert(nodes2[n] == nodes[n]);
        } else if n == m {
            assert(linked(snap, groups, i, nodes2[m].after@[k] as int));
        } else {
        }
    }
    assert forall|n: int| 0 <= n < nodes2.len() implies {
        let o = (#[trigger] nodes2[n]).owner as int;
        0 <= o < groups2.len() && groups2[o] is Some && (groups2[o]->0.prepare == n || groups2[o]->0.render == n)
    } by {
        if n < m {
            assert(nodes2[n] == nodes[n]);
            let o = nodes[n].owner as int;
            assert(groups[o] is Some);
        }
    }
    assert forall|x: int| 0 <= x < snap.len() && #[trigger] groups2[x] is Some implies scheduled(snap, x) && base_group(snap, nodes2, groups2, x) by {
        if x != i {
            assert(groups[x] is Some);
            assert(base_group(snap, nodes, groups, x));
            let gr = groups[x]->0;
            assert(nodes2[gr.prepare as int] == nodes[gr.prepare as int]);
            assert(nodes2[gr.render as int] == nodes[gr.render as int]);
            assert forall|j: int| #[trigger] depends(snap, x, j) implies groups2[j] is Some && nodes2[gr.prepare as int].after@.contains(groups2[j]->0.render) by {
                assert(groups[j] is Some);
            }
        } else {
            assert forall|j: int| #[trigger] depends(snap, i, j) implies groups2[j] is Some && nodes2[m].after@.contains(groups2[j]->0.render) by {
                assert(groups[j] is Some);
            }
        }
    }
}

/// Where every unplaced scheduled entity waits on another one, no ranking of
/// the snapshot exists.
proof fn lemma_stuck(snap: Seq<EntityDecl>, groups: Seq<Option<Group>>, rank: Seq<nat>, i: int)
    requires
        groups.len() == snap.len(),
        exhausted(snap, groups),
        0 <= i < snap.len(),
        scheduled(snap, i),
        groups[i] is None,
    ensures
        !ranked(snap, rank),
    decreases (if ranked(snap, rank) { rank[i] } else { 0 }),
{
    if ranked(snap, rank) {
        let j = choose|j: int| #[trigger] depends(snap, i, j) && groups[j] is None;
        lemma_stuck(snap, groups, rank, j);
    }
}

/// Which entities are scheduled, an empty group table, and the identifiers of
/// the entities that are left out.
fn classify(snap: &Vec<EntityDecl>) -> (r: (Vec<bool>, Vec<Option<Group>>, Vec<EntityId>))
    ensures
        r.0@.len() == snap@.len(),
        r.1@.len() == snap@.len(),
        forall|x: int| 0 <= x < snap@.len() ==> r.0@[x] == scheduled(snap@, x),
        forall|x: int| 0 <= x < snap@.len() ==> r.1@[x] is None,
        r.2@ == dangling_ids(snap@, snap@.len() as int),
{
    let n = snap.len();
    let mut sched: Vec<bool> = Vec::new();
    let mut dangling_list: Vec<EntityId> = Vec::new();
    let mut groups: Vec<Option<Group>> = Vec::new();
    let mut i: usize = 0;
    while i < n
        invariant
            i <= n,
            n == snap.len(),
            sched@.len() == i,
            groups@.len() == i,
            forall|x: int| 0 <= x < i ==> sched@[x] == scheduled(snap@, x),
            forall|x: int| 0 <= x < i ==> groups@[x] is None,
            dangling_list@ == dangling_ids(snap@, i as int),
        decreases n - i,
    {
        let d = is_dangling(snap, i);
        if d {
            dangling_list.push(snap[i].id);
        }
        sched.push(!d);
        groups.push(None);
        i += 1;
    }
    (sched, groups, dangling_list)
}

/// No unplaced scheduled entity can be placed: each waits on another one.
pub open spec fn exhausted(snap: Seq<EntityDecl>, groups: Seq<Option<Group>>) -> bool {
    forall|x: int|
        0 <= x < snap.len() && #[trigger] scheduled(snap, x) && groups[x] is None ==> exists|j: int| #[trigger]
            depends(snap, x, j) && groups[j] is None
}

/// Places entities one by one, each after all of its predecessors, until no
/// further one can be placed.
fn place_all(snap: &Vec<EntityDecl>, sched: &Vec<bool>, groups: &mut Vec<Option<Group>>) -> (nodes: Vec<Node>)
    requires
        sched@.len() == snap@.len(),
        old(groups)@.len() == snap@.len(),
        forall|x: int| 0 <= x < snap@.len() ==> sched@[x] == scheduled(snap@, x),
        forall|x: int| 0 <= x < snap@.len() ==> old(groups)@[x] is None,
    ensures
        partial(snap@, nodes@, final(groups)@),
        exhausted(snap@, final(groups)@),
{
    let mut nodes: Vec<Node> = Vec::new();
    let mut done = false;
    while !done
        invariant
            sched@.len() == snap@.len(),
            forall|x: int| 0 <= x < snap@.len() ==> sched@[x] == scheduled(snap@, x),
            partial(snap@, nodes@, groups@),
            done ==> exhausted(snap@, groups@),
        decreases unplaced(groups@), (if done { 0int } else { 1int }),
    {
        match find_ready(snap, sched, groups) {
            Some((i, after)) => {
                let ghost old_nodes = nodes@;
                let ghost old_groups = groups@;
                let prepare = nodes.len();
                nodes.push(Node { entity: snap[i].id, owner: i, kind: StageKind::Prepare, after });
                let render = nodes.len();
                let mut chain: Vec<usize> = Vec::new();
                chain.push(prepare);
                nodes.push(Node { entity: snap[i].id, owner: i, kind: StageKind::RenderBase, after: chain });
                let group = Group { prepare, render };
                groups.set(i, Some(group));
                proof {
                    lemma_place(old_groups, i as int, group);
                    lemma_extend(snap@, old_nodes, old_groups, nodes@, groups@, i as int, group);
                }
            },
            None => {
                done = true;
            },
        }
    }
    nodes
}

/// An entity that has been placed can be ordered.
proof fn lemma_placed_orderable(snap: Seq<EntityDecl>, nodes: Seq<Node>, groups: Seq<Option<Group>>, x: int)
    requires
        partial(snap, nodes, groups),
        0 <= x < snap.len(),
        groups[x] is Some,
    ensures
        orderable(snap, x),
{
    let placed = Seq::new(snap.len(), |k: int| groups[k] is Some);
    let rank = Seq::new(snap.len(), |k: int| if groups[k] is Some { groups[k]->0.render as nat } else { 0nat });
    assert forall|i: int, j: int|
        0 <= i < snap.len() && placed[i] && #[trigger] depends(snap, i, j) implies placed[j] && rank[j] < rank[i] by {
        assert(groups[i] is Some);
        assert(base_group(snap, nodes, groups, i));
        let p = nodes[groups[i]->0.prepare as int];
        let w = choose|w: int| 0 <= w < p.after@.len() && p.after@[w] == groups[j]->0.render;
        assert(p.after@[w] < groups[i]->0.prepare);
    }
    assert(placing(snap, placed, rank) && placed[x]);
}

/// Where every unplaced scheduled entity waits on another one, no placing
/// holds any of them.
proof fn lemma_unplaced_unorderable(snap: Seq<EntityDecl>, groups: Seq<Option<Group>>, placed: Seq<bool>, rank: Seq<nat>, x: int)
    requires
        groups.len() == snap.len(),
        exhausted(snap, groups),
        0 <= x < snap.len(),
        scheduled(snap, x),
        groups[x] is None,
    ensures
        !(placing(snap, placed, rank) && placed[x]),
    decreases (if placing(snap, placed, rank) { rank[x] } else { 0 }),
{
    if placing(snap, placed, rank) && placed[x] {
        let j = choose|j: int| #[trigger] depends(snap, x, j) && groups[j] is None;
        lemma_unplaced_unorderable(snap, groups, placed, rank, j);
    }
}

/// The identifiers of the scheduled entities that could not be placed, in
/// snapshot order.
fn collect_stuck(snap: &Vec<EntityDecl>, sched: &Vec<bool>, nodes: &Vec<Node>, groups: &Vec<Option<Group>>) -> (r: (Vec<EntityId>, Ghost<int>))
    requires
        sched@.len() == snap@.len(),
        forall|x: int| 0 <= x < snap@.len() ==> sched@[x] == scheduled(snap@, x),
        partial(snap@, nodes@, groups@),
        exhausted(snap@, groups@),
    ensures
        r.0@ == cyclic_ids(snap@, snap@.len() as int),
        forall|x: int| 0 <= x < snap@.len() && #[trigger] scheduled(snap@, x) && groups@[x] is None ==> r.0@.contains(snap@[x].id),
        forall|k: int| 0 <= k < r.0@.len() ==> held(snap@, groups@, #[trigger] r.0@[k]),
        r.0@.len() > 0 ==> 0 <= r.1@ < snap@.len() && scheduled(snap@, r.1@) && groups@[r.1@] is None,
{
    let n = snap.len();
    let mut stuck: Vec<EntityId> = Vec::new();
    let mut witness: Ghost<int> = Ghost(0);
    let mut i: usize = 0;
    while i < n
        invariant
            i <= n,
            n == snap.len(),
            sched@.len() == n,
            groups@.len() == n,
            forall|x: int| 0 <= x < n ==> sched@[x] == scheduled(snap@, x),
            partial(snap@, nodes@, groups@),
            exhausted(snap@, groups@),
            stuck@ == cyclic_ids(snap@, i as int),
            forall|x: int| 0 <= x < i && #[trigger] scheduled(snap@, x) && groups@[x] is None ==> stuck@.contains(snap@[x].id),
            forall|k: int| 0 <= k < stuck@.len() ==> held(snap@, groups@, #[trigger] stuck@[k]),
            stuck@.len() > 0 ==> 0 <= witness@ < n && scheduled(snap@, witness@) && groups@[witness@] is None,
        decreases n - i,
    {
        proof {
            if groups@[i as int] is Some {
                lemma_placed_orderable(snap@, nodes@, groups@, i as int);
            } else if scheduled(snap@, i as int) {
                assert forall|placed: Seq<bool>, rank: Seq<nat>| !(#[trigger] placing(snap@, placed, rank) && placed[i as int]) by {
                    lemma_unplaced_unorderable(snap@, groups@, placed, rank, i as int);
                }
            }
        }
        if sched[i] && groups[i].is_none() {
            let ghost prev = stuck@;
            stuck.push(snap[i].id);
            proof {
                witness@ = i as int;
                assert(stuck@[prev.len() as int] == snap@[i as int].id);
                assert forall|x: int| 0 <= x < i + 1 && #[trigger] scheduled(snap@, x) && groups@[x] is None implies stuck@.contains(snap@[x].id) by {
                    if x < i {
                        let w = choose|w: int| 0 <= w < prev.len() && prev[w] == snap@[x].id;
                        assert(stuck@[w] == snap@[x].id);
                    }
                }
                assert forall|k: int| 0 <= k < stuck@.len() implies held(snap@, groups@, #[trigger] stuck@[k]) by {
                    if k < prev.len() {
                        assert(stuck@[k] == prev[k]);
                    }
                }
            }
        }
        i += 1;
    }
    (stuck, witness)
}

/// Builds the base graph of a population snapshot. Entities that name a
/// missing predecessor are left out and reported; entities that wait on each
/// other make the whole rebuild fail.
pub fn rebuild(snap: &Vec<EntityDecl>) -> (r: Result<Build, BuildError>)
    ensures
        r is Ok <==> acyclic(snap@),
        r matches Ok(b) ==> built(snap@, b.graph) && b.dangling@ == dangling_ids(snap@, snap@.len() as int),
        r matches Err(e) ==> e matches BuildError::CycleDetected(stuck) && deadlocked(snap@, stuck@) && stuck@
            == cyclic_ids(snap@, snap@.len() as int),
{
    let (sched, mut groups, dangling_list) = classify(snap);
    let nodes = place_all(snap, &sched, &mut groups);
    let (stuck, witness) = collect_stuck(snap, &sched, &nodes, &groups);
    if stuck.len() > 0 {
        proof {
            assert forall|rank: Seq<nat>| !ranked(snap@, rank) by {
                lemma_stuck(snap@, groups@, rank, witness@);
            }
            assert forall|k: int| 0 <= k < stuck@.len() implies waits_within(snap@, stuck@, #[trigger] stuck@[k]) by {
                let x = choose|x: int| 0 <= x < snap@.len() && scheduled(snap@, x) && groups@[x] is None && snap@[x].id == stuck@[k];
                let j = choose|j: int| #[trigger] depends(snap@, x, j) && groups@[j] is None;
                assert(scheduled(snap@, j));
                assert(stuck@.contains(snap@[j].id));
            }
        }
        Err(BuildError::CycleDetected(stuck))
    } else {
        proof {
            let rank = Seq::new(snap@.len(), |x: int| if groups@[x] is Some { groups@[x]->0.render as nat } else { 0nat });
            assert forall|a: int, b: int| #[trigger] depends(snap@, a, b) implies rank[b] < rank[a] by {
                assert(scheduled(snap@, a));
                assert(groups@[a] is Some);
                assert(base_group(snap@, nodes@, groups@, a));
                let p = nodes@[groups@[a]->0.prepare as int];
                let w = choose|w: int| 0 <= w < p.after@.len() && p.after@[w] == groups@[b]->0.render;
                assert(p.after@[w] < groups@[a]->0.prepare);
            }
            assert(ranked(snap@, rank));
        }
        Ok(Build { graph: Graph { nodes, groups }, dangling: dangling_list })
    }
}

} // verus!
