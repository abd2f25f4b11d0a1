use vstd::prelude::*;
use crate::entity::EntityId;
use crate::graph::{Graph, StageKind};

verus! {

/// What a stage function reports.
#[derive(Clone, Copy, Debug, PartialEq, Eq, Structural)]
pub enum StageResult {
    Done,
    /// The stage failed; the number says why.
    Failed(u32),
}

/// What became of one node in a run.
#[derive(Clone, Copy, Debug, PartialEq, Eq, Structural)]
pub enum NodeStatus {
    Done,
    Failed(u32),
    /// Not run, because a node it must follow did not complete.
    SkippedUpstream,
    /// Not run, because the run was stopped at an earlier failure.
    NotRun,
}

/// What a failure does to the rest of a run.
#[derive(Clone, Copy, Debug, PartialEq, Eq, Structural)]
pub struct RunPolicy {
    /// Nodes downstream of a node that did not complete are skipped.
    pub skip_downstream: bool,
    /// No node is started once a stage has failed.
    pub halt_on_failure: bool,
}

/// The outcome of one run: one status per node, by node position.
#[derive(Clone, Debug)]
pub struct RunReport {
    pub statuses: Vec<NodeStatus>,
}

/// One entry of a run report that is not a success.
#[derive(Clone, Copy, Debug, PartialEq, Eq, Structural)]
pub enum RunError {
    /// The stage of this kind failed for this entity, with this cause.
    StageFailure(EntityId, StageKind, u32),
    /// The stage of this kind was not run for this entity.
    SkippedUpstream(EntityId, StageKind),
}

/// The errors of the first `n` nodes, in node order.
pub open spec fn errors_upto(g: Graph, statuses: Seq<NodeStatus>, n: int) -> Seq<RunError>
    decreases n,
{
    if n <= 0 {
        Seq::empty()
    } else {
        let nd = g.nodes@[n - 1];
        match statuses[n - 1] {
            NodeStatus::Done => errors_upto(g, statuses, n - 1),
            NodeStatus::Failed(cause) => errors_upto(g, statuses, n - 1).push(
                RunError::StageFailure(nd.entity, nd.kind, cause),
            ),
            NodeStatus::SkippedUpstream => errors_upto(g, statuses, n - 1).push(
                RunError::SkippedUpstream(nd.entity, nd.kind),
            ),
            NodeStatus::NotRun => errors_upto(g, statuses, n - 1),
        }
    }
}

impl RunReport {
    /// No node failed or was skipped.
    pub fn succeeded(&self) -> (r: bool)
        ensures
            r == forall|n: int| 0 <= n < self.statuses@.len() ==> self.statuses@[n] is Done,
    {
        let mut n: usize = 0;
        while n < self.statuses.len()
            invariant
                n <= self.statuses@.len(),
                forall|x: int| 0 <= x < n ==> self.statuses@[x] is Done,
            decreases self.statuses@.len() - n,
        {
            match self.statuses[n] {
                NodeStatus::Done => {},
                _ => {
                    return false;
                },
            }
            n += 1;
        }
        true
    }

    /// Every failure and every node skipped behind one in a run of `g`, in
    /// node order.
    pub fn errors(&self, g: &Graph) -> (r: Vec<RunError>)
        requires
            self.statuses@.len() == g.nodes@.len(),
        ensures
            r@ == errors_upto(*g, self.statuses@, g.nodes@.len() as int),
    {
        let mut out: Vec<RunError> = Vec::new();
        let mut n: usize = 0;
        while n < g.nodes.len()
            invariant
                self.statuses@.len() == g.nodes@.len(),
                n <= g.nodes@.len(),
                out@ == errors_upto(*g, self.statuses@, n as int),
            decreases g.nodes@.len() - n,
        {
            match self.statuses[n] {
                NodeStatus::Done => {},
                NodeStatus::Failed(cause) => {
                    out.push(RunError::StageFailure(g.nodes[n].entity, g.nodes[n].kind, cause));
                },
                NodeStatus::SkippedUpstream => {
                    out.push(RunError::SkippedUpstream(g.nodes[n].entity, g.nodes[n].kind));
                },
                NodeStatus::NotRun => {},
            }
            n += 1;
        }
        out
    }
}

/// The status of a node that ran with the given result.
pub open spec fn status_of(result: StageResult) -> NodeStatus {
    match result {
        StageResult::Done => NodeStatus::Done,
        StageResult::Failed(cause) => NodeStatus::Failed(cause),
    }
}

/// Some node that `n` must follow did not complete.
pub open spec fn blocked(g: Graph, statuses: Seq<NodeStatus>, n: int) -> bool {
    exists|k: int|
        0 <= k < g.nodes@[n].after@.len() && !(statuses[(#[trigger] g.nodes@[n].after@[k]) as int] is Done)
}

/// The stage of some node before `n` failed.
pub open spec fn halted(statuses: Seq<NodeStatus>, n: int) -> bool {
    exists|m: int| 0 <= m < n && (#[trigger] statuses[m]) is Failed
}

/// What the policy decides for node `n` before its stage is called: the
/// status it gets without running, or `None` where it is to run.
pub open spec fn verdict(g: Graph, policy: RunPolicy, statuses: Seq<NodeStatus>, n: int) -> Option<NodeStatus> {
    if policy.halt_on_failure && halted(statuses, n) {
        Some(NodeStatus::NotRun)
    } else if policy.skip_downstream && blocked(g, statuses, n) {
        Some(NodeStatus::SkippedUpstream)
    } else {
        None
    }
}

/// The status of node `n` where its stage, if it runs, returns `result`.
pub open spec fn outcome(g: Graph, policy: RunPolicy, statuses: Seq<NodeStatus>, n: int, result: StageResult) -> NodeStatus {
    match verdict(g, policy, statuses, n) {
        Some(s) => s,
        None => status_of(result),
    }
}

/// `statuses` is the report of a run in which the stage of node `n`, where it
/// ran, returned `results[n]`.
pub open spec fn reported(g: Graph, policy: RunPolicy, results: Seq<StageResult>, statuses: Seq<NodeStatus>) -> bool {
    &&& statuses.len() == g.nodes@.len()
    &&& forall|n: int|
        0 <= n < g.nodes@.len() ==> #[trigger] statuses[n] == outcome(g, policy, statuses, n, results[n])
}

/// `statuses` is the report of a run with the stage function `stage`: each
/// node that ran has the status of something that `stage` may return for it.
pub open spec fn ran<F: Fn(EntityId, StageKind) -> StageResult>(g: Graph, policy: RunPolicy, stage: F, statuses: Seq<NodeStatus>, upto: int) -> bool {
    forall|n: int|
        0 <= n < upto ==> match verdict(g, policy, statuses, n) {
            Some(s) => #[trigger] statuses[n] == s,
            None => exists|result: StageResult|
                stage.ensures((g.nodes@[n].entity, g.nodes@[n].kind), result) && statuses[n] == status_of(result),
        }
}

/// There is a chain of edges from node `a` to node `b`.
pub open spec fn reaches(g: Graph, a: int, b: int) -> bool
    decreases b,
{
    0 <= a < b < g.nodes@.len() && exists|k: int|
        0 <= k < g.nodes@[b].after@.len() && {
            let p = (#[trigger] g.nodes@[b].after@[k]) as int;
            p == a || (p < b && reaches(g, a, p))
        }
}

impl RunPolicy {
    /// Dependents of a failed node are skipped; independent branches proceed.
    pub fn standard() -> (p: RunPolicy)
        ensures
            p.skip_downstream,
            !p.halt_on_failure,
    {
        RunPolicy { skip_downstream: true, halt_on_failure: false }
    }

    /// Every node runs, whatever happened upstream.
    pub fn run_all() -> (p: RunPolicy)
        ensures
            !p.skip_downstream,
            !p.halt_on_failure,
    {
        RunPolicy { skip_downstream: false, halt_on_failure: false }
    }

    /// The first failure stops the run: no further node is started.
    pub fn halting() -> (p: RunPolicy)
        ensures
            p.skip_downstream,
            p.halt_on_failure,
    {
        RunPolicy { skip_downstream: true, halt_on_failure: true }
    }
}

/// Whether the stage of some node before `n` failed.
pub fn has_failure(statuses: &Vec<NodeStatus>, n: usize) -> (r: bool)
    requires
        n <= statuses@.len(),
    ensures
        r == halted(statuses@, n as int),
{
    let mut m: usize = 0;
    while m < n
        invariant
            m <= n <= statuses@.len(),
            forall|x: int| 0 <= x < m ==> !((#[trigger] statuses@[x]) is Failed),
        decreases n - m,
    {
        match statuses[m] {
            NodeStatus::Failed(_) => {
                assert(statuses@[m as int] is Failed);
                return true;
            },
            _ => {},
        }
        m += 1;
    }
    false
}

/// Whether some node that `n` must follow did not complete.
pub fn is_blocked(g: &Graph, statuses: &Vec<NodeStatus>, n: usize) -> (r: bool)
    requires
        g.wf(),
        n < g.nodes@.len(),
        n <= statuses@.len(),
    ensures
        r == blocked(*g, statuses@, n as int),
{
    let node = &g.nodes[n];
    let mut k: usize = 0;
    while k < node.after.len()
        invariant
            g.wf(),
            n < g.nodes@.len(),
            n <= statuses@.len(),
            *node == g.nodes@[n as int],
            k <= node.after@.len(),
            forall|x: int| 0 <= x < k ==> statuses@[(#[trigger] node.after@[x]) as int] is Done,
        decreases node.after@.len() - k,
    {
        let p = node.after[k];
        assert(g.nodes@[n as int].after@[k as int] < n);
        let st = statuses[p];
        let done = match st {
            NodeStatus::Done => true,
            _ => false,
        };
        if !done {
            proof {
                let w = k as int;
                assert(g.nodes@[n as int].after@[w] == p);
                assert(!(statuses@[(g.nodes@[n as int].after@[w]) as int] is Done));
            }
            return true;
        }
        k += 1;
    }
    false
}

/// What the policy decides for node `n`, given the statuses of the nodes
/// before it: the status it gets without running, or `None` where its stage
/// is to be called.
pub fn decide(g: &Graph, policy: &RunPolicy, statuses: &Vec<NodeStatus>, n: usize) -> (r: Option<NodeStatus>)
    requires
        g.wf(),
        n < g.nodes@.len(),
        n <= statuses@.len(),
    ensures
        r == verdict(*g, *policy, statuses@, n as int),
{
    if policy.halt_on_failure && has_failure(statuses, n) {
        Some(NodeStatus::NotRun)
    } else if policy.skip_downstream && is_blocked(g, statuses, n) {
        Some(NodeStatus::SkippedUpstream)
    } else {
        None
    }
}

/// The status recorded for a node that ran.
pub fn record(result: StageResult) -> (s: NodeStatus)
    ensures
        s == status_of(result),
{
    match result {
        StageResult::Done => NodeStatus::Done,
        StageResult::Failed(cause) => NodeStatus::Failed(cause),
    }
}

/// The report of a run in which the stage of node `n`, where it runs, returns
/// `results[n]`. Nodes are taken in stored order, which honours every edge.
pub fn run_with(g: &Graph, policy: &RunPolicy, results: &Vec<StageResult>) -> (r: RunReport)
    requires
        g.wf(),
        results@.len() == g.nodes@.len(),
    ensures
        reported(*g, *policy, results@, r.statuses@),
{
    let mut statuses: Vec<NodeStatus> = Vec::new();
    let mut n: usize = 0;
    while n < g.nodes.len()
        invariant
            g.wf(),
            results@.len() == g.nodes@.len(),
            n <= g.nodes@.len(),
            statuses@.len() == n,
            forall|x: int| 0 <= x < n ==> #[trigger] statuses@[x] == outcome(*g, *policy, statuses@, x, results@[x]),
        decreases g.nodes@.len() - n,
    {
        let ghost prev = statuses@;
        let s = match decide(g, policy, &statuses, n) {
            Some(s) => s,
            None => record(results[n]),
        };
        statuses.push(s);
        proof {
            assert forall|x: int| 0 <= x < n + 1 implies #[trigger] statuses@[x] == outcome(
                *g,
                *policy,
                statuses@,
                x,
                results@[x],
            ) by {
                lemma_prefix(*g, *policy, prev, statuses@, x);
                assert(statuses@[x] == if x < n { prev[x] } else { s });
            }
        }
        n += 1;
    }
    RunReport { statuses }
}

/// Runs the graph once: takes the nodes in stored order, which honours every
/// edge, calls `stage` for each node that the policy lets run, and reports
/// what became of each.
pub fn run<F: Fn(EntityId, StageKind) -> StageResult>(g: &Graph, policy: &RunPolicy, stage: F) -> (r: RunReport)
    requires
        g.wf(),
        forall|e: EntityId, kind: StageKind| stage.requires((e, kind)),
    ensures
        r.statuses@.len() == g.nodes@.len(),
        ran(*g, *policy, stage, r.statuses@, g.nodes@.len() as int),
{
    let mut statuses: Vec<NodeStatus> = Vec::new();
    let mut n: usize = 0;
    while n < g.nodes.len()
        invariant
            g.wf(),
            forall|e: EntityId, kind: StageKind| stage.requires((e, kind)),
            n <= g.nodes@.len(),
            statuses@.len() == n,
            ran(*g, *policy, stage, statuses@, n as int),
        decreases g.nodes@.len() - n,
    {
        let ghost prev = statuses@;
        let s = match decide(g, policy, &statuses, n) {
            Some(s) => s,
            None => {
                let result = stage(g.nodes[n].entity, g.nodes[n].kind);
                record(result)
            },
        };
        statuses.push(s);
        proof {
            assert forall|x: int| 0 <= x < n + 1 implies match verdict(*g, *policy, statuses@, x) {
                Some(v) => #[trigger] statuses@[x] == v,
                None => exists|result: StageResult|
                    stage.ensures((g.nodes@[x].entity, g.nodes@[x].kind), result) && statuses@[x] == status_of(result),
            } by {
                lemma_prefix(*g, *policy, prev, statuses@, x);
                assert(statuses@[x] == if x < n { prev[x] } else { s });
            }
        }
        n += 1;
    }
    RunReport { statuses }
}

/// What the policy decides for a node depends only on the statuses before it.
pub proof fn lemma_prefix(g: Graph, policy: RunPolicy, a: Seq<NodeStatus>, b: Seq<NodeStatus>, n: int)
    requires
        g.wf(),
        0 <= n < g.nodes@.len(),
        n <= a.len(),
        n <= b.len(),
        forall|x: int| 0 <= x < n ==> a[x] == b[x],
    ensures
        verdict(g, policy, a, n) == verdict(g, policy, b, n),
{
    if blocked(g, a, n) {
        let k = choose|k: int| 0 <= k < g.nodes@[n].after@.len() && !(a[(#[trigger] g.nodes@[n].after@[k]) as int] is Done);
        assert(g.nodes@[n].after@[k] < n);
        assert(!(b[g.nodes@[n].after@[k] as int] is Done));
    }
    if blocked(g, b, n) {
        let k = choose|k: int| 0 <= k < g.nodes@[n].after@.len() && !(b[(#[trigger] g.nodes@[n].after@[k]) as int] is Done);
        assert(g.nodes@[n].after@[k] < n);
        assert(!(a[g.nodes@[n].after@[k] as int] is Done));
    }
    if halted(a, n) {
        let m = choose|m: int| 0 <= m < n && (#[trigger] a[m]) is Failed;
        assert(b[m] is Failed);
    }
    if halted(b, n) {
        let m = choose|m: int| 0 <= m < n && (#[trigger] b[m]) is Failed;
        assert(a[m] is Failed);
    }
}

/// Where the stage of exactly one node fails and dependents are skipped, the
/// report marks that node as failed, every node downstream of it as skipped,
/// and every other node as done.
pub proof fn lemma_single_failure(g: Graph, policy: RunPolicy, results: Seq<StageResult>, statuses: Seq<NodeStatus>, f: int, n: int)
    requires
        g.wf(),
        policy.skip_downstream,
        !policy.halt_on_failure,
        reported(g, policy, results, statuses),
        results.len() == g.nodes@.len(),
        0 <= f < g.nodes@.len(),
        results[f] is Failed,
        forall|x: int| 0 <= x < results.len() && x != f ==> results[x] is Done,
        0 <= n < g.nodes@.len(),
    ensures
        n == f ==> statuses[n] == NodeStatus::Failed(results[f]->0),
        reaches(g, f, n) ==> statuses[n] == NodeStatus::SkippedUpstream,
        n != f && !reaches(g, f, n) ==> statuses[n] == NodeStatus::Done,
    decreases n,
{
    let after = g.nodes@[n].after@;
    assert forall|k: int| 0 <= k < after.len() implies {
        let p = (#[trigger] after[k]) as int;
        &&& p < n
        &&& (p == f ==> statuses[p] is Failed)
        &&& (reaches(g, f, p) ==> statuses[p] is SkippedUpstream)
        &&& (p != f && !reaches(g, f, p) ==> statuses[p] is Done)
    } by {
        let p = after[k] as int;
        lemma_single_failure(g, policy, results, statuses, f, p);
    }
    assert(statuses[n] == outcome(g, policy, statuses, n, results[n]));
    if reaches(g, f, n) {
        let k = choose|k: int|
            0 <= k < after.len() && {
                let p = (#[trigger] g.nodes@[n].after@[k]) as int;
                p == f || (p < n && reaches(g, f, p))
            };
        assert(!(statuses[g.nodes@[n].after@[k] as int] is Done));
        assert(blocked(g, statuses, n));
    } else {
        if blocked(g, statuses, n) {
            let k = choose|k: int| 0 <= k < after.len() && !(statuses[(#[trigger] g.nodes@[n].after@[k]) as int] is Done);
            let p = after[k] as int;
            assert(p == f || reaches(g, f, p));
            assert(f < n);
            assert(reaches(g, f, n));
        }
    }
}

} // verus!
