use vstd::prelude::*;
use crate::builder::{Build, BuildError, built, deadlocked, rebuild};
use crate::entity::{CapabilitySet, EntityDecl, EntityId, acyclic, cyclic_ids, dangling_ids};
use crate::extender::{Conditional, Registry, extend, extended};
use crate::graph::{Graph, StageKind};
use crate::runner::{RunPolicy, RunReport, StageResult, ran, run};

verus! {

/// Whether the stored graph reflects the latest known population.
#[derive(Clone, Copy, Debug, PartialEq, Eq, Structural)]
pub enum StoreState {
    Stale,
    Current,
}

/// The holder of the current graph, with the registered conditional stages
/// and the rebuild policy.
#[derive(Clone, Debug)]
pub struct CameraSchedule {
    pub registry: Registry,
    pub graph: Graph,
    pub state: StoreState,
    /// Rebuild on every tick, whether or not a change was signalled.
    pub rebuild_every_tick: bool,
    /// The entities that the last successful rebuild left out.
    pub dangling: Vec<EntityId>,
}

impl CameraSchedule {
    pub open spec fn wf(self) -> bool {
        self.graph.wf() && self.registry.wf()
    }

    /// A rebuild is due before the next run.
    pub open spec fn due(self) -> bool {
        self.rebuild_every_tick || self.state == StoreState::Stale
    }

    /// `self` holds the graph of `snap`: the base graph of the snapshot with
    /// the conditional nodes of the registered stages.
    pub open spec fn holds(self, snap: Seq<EntityDecl>) -> bool {
        exists|base: Graph| built(snap, base) && extended(snap, self.registry.entries@, base, self.graph)
    }

    /// An empty store that rebuilds on every tick.
    pub fn new() -> (s: CameraSchedule)
        ensures
            s.wf(),
            s.state == StoreState::Stale,
            s.rebuild_every_tick,
            s.graph.nodes@.len() == 0,
            s.registry.entries@.len() == 0,
            s.dangling@.len() == 0,
    {
        CameraSchedule {
            registry: Registry::new(),
            graph: Graph::new(),
            state: StoreState::Stale,
            rebuild_every_tick: true,
            dangling: Vec::new(),
        }
    }

    /// The registration of `stage` for the entities that carry all of
    /// `required`.
    pub fn camera_system(required: CapabilitySet, stage: u32) -> (c: Conditional)
        ensures
            c == (Conditional { required, stage }),
    {
        Conditional { required, stage }
    }

    /// Registers a conditional stage and returns its place in priority order.
    /// The stored graph is stale afterwards.
    pub fn register_conditional(&mut self, c: Conditional) -> (pos: usize)
        ensures
            old(self).registry.wf() ==> final(self).registry.wf(),
            pos <= old(self).registry.entries@.len(),
            final(self).registry.entries@ == old(self).registry.entries@.insert(pos as int, c),
            forall|x: int| 0 <= x < pos ==> old(self).registry.entries@[x].required.bits >= c.required.bits,
            pos < old(self).registry.entries@.len() ==> old(self).registry.entries@[pos as int].required.bits
                < c.required.bits,
            final(self).graph == old(self).graph,
            final(self).state == StoreState::Stale,
            final(self).rebuild_every_tick == old(self).rebuild_every_tick,
            final(self).dangling == old(self).dangling,
    {
        self.state = StoreState::Stale;
        self.registry.register(c)
    }

    /// Chooses between a rebuild on every tick and a rebuild on change only.
    pub fn set_rebuild_every_tick(&mut self, every_tick: bool)
        ensures
            final(self).rebuild_every_tick == every_tick,
            final(self).registry == old(self).registry,
            final(self).graph == old(self).graph,
            final(self).state == old(self).state,
            final(self).dangling == old(self).dangling,
    {
        self.rebuild_every_tick = every_tick;
    }

    /// Records that entities, tags or predecessors have changed.
    pub fn mark_changed(&mut self)
        ensures
            final(self).state == StoreState::Stale,
            final(self).registry == old(self).registry,
            final(self).graph == old(self).graph,
            final(self).rebuild_every_tick == old(self).rebuild_every_tick,
            final(self).dangling == old(self).dangling,
    {
        self.state = StoreState::Stale;
    }

    pub fn needs_rebuild(&self) -> (r: bool)
        ensures
            r == self.due(),
    {
        self.rebuild_every_tick || match self.state {
            StoreState::Stale => true,
            StoreState::Current => false,
        }
    }

    /// Replaces the stored graph by the graph of `snap`. Where the snapshot
    /// holds a cycle, the stored graph and state stay as they were.
    pub fn rebuild(&mut self, snap: &Vec<EntityDecl>) -> (r: Result<(), BuildError>)
        ensures
            r is Ok <==> acyclic(snap@),
            final(self).registry == old(self).registry,
            final(self).rebuild_every_tick == old(self).rebuild_every_tick,
            r is Ok ==> final(self).holds(snap@) && final(self).graph.wf() && final(self).state == StoreState::Current
                && final(self).dangling@ == dangling_ids(snap@, snap@.len() as int),
            r matches Err(e) ==> e matches BuildError::CycleDetected(stuck) && deadlocked(snap@, stuck@) && stuck@
                == cyclic_ids(snap@, snap@.len() as int) && final(self).graph == old(self).graph && final(self).state == old(self).state && final(self).dangling
                == old(self).dangling,
    {
        match rebuild(snap) {
            Ok(b) => {
                let Build { graph, dangling } = b;
                let full = extend(graph, snap, &self.registry);
                self.graph = full;
                self.dangling = dangling;
                self.state = StoreState::Current;
                Ok(())
            },
            Err(e) => Err(e),
        }
    }

    /// The entities that the last successful rebuild left out, each as the
    /// error that is reported for it.
    pub fn build_report(&self) -> (r: Vec<BuildError>)
        ensures
            r@.len() == self.dangling@.len(),
            forall|k: int|
                0 <= k < r@.len() ==> (#[trigger] r@[k] matches BuildError::DanglingPredecessor(id) && id
                    == self.dangling@[k]),
    {
        let mut out: Vec<BuildError> = Vec::new();
        let mut k: usize = 0;
        while k < self.dangling.len()
            invariant
                k <= self.dangling@.len(),
                out@.len() == k,
                forall|x: int|
                    0 <= x < k ==> (#[trigger] out@[x] matches BuildError::DanglingPredecessor(id) && id
                        == self.dangling@[x]),
            decreases self.dangling@.len() - k,
        {
            out.push(BuildError::DanglingPredecessor(self.dangling[k]));
            k += 1;
        }
        out
    }

    /// One tick: rebuilds where a rebuild is due, then runs the stored graph,
    /// which after a failed rebuild is the one that was stored before.
    pub fn tick<F: Fn(EntityId, StageKind) -> StageResult>(
        &mut self,
        snap: &Vec<EntityDecl>,
        policy: &RunPolicy,
        stage: F,
    ) -> (r: (Option<BuildError>, RunReport))
        requires
            old(self).graph.wf(),
            forall|e: EntityId, kind: StageKind| stage.requires((e, kind)),
        ensures
            final(self).registry == old(self).registry,
            final(self).rebuild_every_tick == old(self).rebuild_every_tick,
            final(self).graph.wf(),
            old(self).due() && acyclic(snap@) ==> r.0 is None && final(self).holds(snap@) && final(self).state
                == StoreState::Current && final(self).dangling@ == dangling_ids(snap@, snap@.len() as int),
            old(self).due() && !acyclic(snap@) ==> (r.0 matches Some(BuildError::CycleDetected(stuck)) && deadlocked(
                snap@,
                stuck@,
            ) && stuck@ == cyclic_ids(snap@, snap@.len() as int)),
            !old(self).due() || !acyclic(snap@) ==> final(self).graph == old(self).graph && final(self).state == old(
                self,
            ).state && final(self).dangling == old(self).dangling,
            !old(self).due() ==> r.0 is None,
            r.1.statuses@.len() == final(self).graph.nodes@.len(),
            ran(final(self).graph, *policy, stage, r.1.statuses@, final(self).graph.nodes@.len() as int),
    {
        let mut failure: Option<BuildError> = None;
        if self.needs_rebuild() {
            match self.rebuild(snap) {
                Ok(_) => {},
                Err(e) => {
                    failure = Some(e);
                },
            }
        }
        let report = run(&self.graph, policy, stage);
        (failure, report)
    }

    /// Runs the stored graph once.
    pub fn run_current<F: Fn(EntityId, StageKind) -> StageResult>(&self, policy: &RunPolicy, stage: F) -> (r: RunReport)
        requires
            self.graph.wf(),
            forall|e: EntityId, kind: StageKind| stage.requires((e, kind)),
        ensures
            r.statuses@.len() == self.graph.nodes@.len(),
            ran(self.graph, *policy, stage, r.statuses@, self.graph.nodes@.len() as int),
    {
        run(&self.graph, policy, stage)
    }
}

} // verus!
