use camera_schedule::builder::{is_dangling, is_present, names, rebuild, BuildError};
use camera_schedule::entity::{CapabilitySet, EntityDecl, EntityId, Label};
use camera_schedule::extender::{extend, Conditional, Registry};
use camera_schedule::graph::{Graph, StageKind};
use camera_schedule::runner::{
    decide, has_failure, is_blocked, record, run, run_with, NodeStatus, RunError, RunPolicy, StageResult,
};
use camera_schedule::store::{CameraSchedule, StoreState};
use std::cell::RefCell;

const BLOOM: u64 = 1;
const CAMERA_2D: u64 = 2;

fn id(index: u32) -> EntityId {
    EntityId { index, generation: 0 }
}

fn decl(index: u32, preds: &[u32], bits: u64) -> EntityDecl {
    EntityDecl {
        id: id(index),
        predecessors: preds.iter().map(|p| id(*p)).collect(),
        capabilities: CapabilitySet::from_bits(bits),
    }
}

fn demo() -> Vec<EntityDecl> {
    vec![
        decl(0, &[], 0),
        decl(1, &[0], BLOOM | CAMERA_2D),
        decl(2, &[0], 0),
        decl(3, &[0, 1], BLOOM),
    ]
}

fn demo_registry() -> Registry {
    let mut reg = Registry::new();
    reg.register(CameraSchedule::camera_system(CapabilitySet::from_bits(BLOOM | CAMERA_2D), 20));
    reg.register(CameraSchedule::camera_system(CapabilitySet::from_bits(BLOOM), 10));
    reg
}

fn find(g: &Graph, entity: u32, kind: StageKind) -> usize {
    let hits: Vec<usize> = (0..g.nodes.len())
        .filter(|n| g.nodes[*n].entity == id(entity) && g.nodes[*n].kind == kind)
        .collect();
    assert_eq!(hits.len(), 1);
    hits[0]
}

fn edge(g: &Graph, a: usize, b: usize) -> bool {
    g.nodes[b].after.contains(&a)
}

fn sorted(mut v: Vec<usize>) -> Vec<usize> {
    v.sort();
    v
}

#[test]
fn capability_sets_compare_by_containment() {
    let both = CapabilitySet::from_bits(BLOOM | CAMERA_2D);
    let bloom = CapabilitySet::from_bits(BLOOM);
    let none = CapabilitySet::empty();
    assert_eq!(none.bits, 0);
    assert!(both.contains_all(&bloom));
    assert!(!bloom.contains_all(&both));
    assert!(bloom.contains_all(&bloom));
    assert!(bloom.contains_all(&none));
    assert!(both.strictly_contains(&bloom));
    assert!(!bloom.strictly_contains(&bloom));
    assert!(!bloom.strictly_contains(&both));
    assert_eq!(bloom.union(&CapabilitySet::from_bits(CAMERA_2D)), both);
}

#[test]
fn label_keeps_its_text_and_takes_an_entity() {
    let core = Label::new("core");
    assert_eq!(core.label, "core");
    assert_eq!(core.entity, None);
    let scoped = core.for_entity(EntityId { index: 7, generation: 3 });
    assert_eq!(scoped.label, "core");
    assert_eq!(scoped.entity, Some(EntityId { index: 7, generation: 3 }));
    assert_eq!(core.entity, None);
}

#[test]
fn presence_and_dangling_are_decided_by_identifier() {
    let snap = vec![decl(0, &[], 0), decl(1, &[0, 9], 0)];
    assert!(is_present(&snap, id(0)));
    assert!(!is_present(&snap, id(9)));
    assert!(!is_present(&snap, EntityId { index: 0, generation: 1 }));
    assert!(!is_dangling(&snap, 0));
    assert!(is_dangling(&snap, 1));
    assert!(names(&snap[1], id(9)));
    assert!(!names(&snap[1], id(1)));
}

#[test]
fn empty_snapshot_gives_empty_graph() {
    let b = rebuild(&Vec::new()).unwrap();
    assert_eq!(b.graph.len(), 0);
    assert_eq!(b.graph.groups.len(), 0);
    assert!(b.dangling.is_empty());
    assert!(b.graph.is_well_formed());
}

#[test]
fn base_graph_of_the_demo_population() {
    let b = rebuild(&demo()).unwrap();
    let g = &b.graph;
    assert!(g.is_well_formed());
    assert!(b.dangling.is_empty());
    assert_eq!(g.len(), 8);
    let prep: Vec<usize> = (0..4).map(|e| find(g, e, StageKind::Prepare)).collect();
    let rend: Vec<usize> = (0..4).map(|e| find(g, e, StageKind::RenderBase)).collect();
    for e in 0..4 {
        assert_eq!(g.nodes[rend[e]].after, vec![prep[e]]);
        assert_eq!(g.nodes[prep[e]].owner, e);
        assert_eq!(g.groups[e].unwrap().prepare, prep[e]);
        assert_eq!(g.groups[e].unwrap().render, rend[e]);
    }
    assert_eq!(g.nodes[prep[0]].after, Vec::<usize>::new());
    assert_eq!(g.nodes[prep[1]].after, vec![rend[0]]);
    assert_eq!(g.nodes[prep[2]].after, vec![rend[0]]);
    assert_eq!(sorted(g.nodes[prep[3]].after.clone()), sorted(vec![rend[0], rend[1]]));
    assert!(!edge(g, rend[2], prep[3]));
}

#[test]
fn demo_population_with_conditional_stages() {
    let snap = demo();
    let reg = demo_registry();
    assert_eq!(reg.entries[0].stage, 20);
    assert_eq!(reg.entries[1].stage, 10);
    let g = extend(rebuild(&snap).unwrap().graph, &snap, &reg);
    assert!(g.is_well_formed());
    assert_eq!(g.len(), 11);
    let o_marker = find(&g, 1, StageKind::RenderBase);
    let th_marker = find(&g, 3, StageKind::RenderBase);
    let o_combined = find(&g, 1, StageKind::Conditional(0));
    let o_bloom = find(&g, 1, StageKind::Conditional(1));
    let th_bloom = find(&g, 3, StageKind::Conditional(1));
    assert_eq!(g.nodes[o_combined].after, vec![o_marker]);
    assert_eq!(sorted(g.nodes[o_bloom].after.clone()), sorted(vec![o_marker, o_combined]));
    assert_eq!(g.nodes[th_bloom].after, vec![th_marker]);
    let conditional = g.nodes.iter().filter(|n| matches!(n.kind, StageKind::Conditional(_))).count();
    assert_eq!(conditional, 3);
    assert!(g.nodes.iter().all(|n| !n.after.contains(&o_bloom) && !n.after.contains(&th_bloom)));
    assert!(edge(&g, find(&g, 0, StageKind::RenderBase), find(&g, 1, StageKind::Prepare)));
    assert!(edge(&g, find(&g, 0, StageKind::RenderBase), find(&g, 2, StageKind::Prepare)));
    assert!(edge(&g, find(&g, 0, StageKind::RenderBase), find(&g, 3, StageKind::Prepare)));
    assert!(edge(&g, o_marker, find(&g, 3, StageKind::Prepare)));
}

#[test]
fn registration_order_does_not_change_priority() {
    let mut reg = Registry::new();
    let first = reg.register(Conditional { required: CapabilitySet::from_bits(BLOOM), stage: 10 });
    let second = reg.register(Conditional { required: CapabilitySet::from_bits(BLOOM | CAMERA_2D), stage: 20 });
    let third = reg.register(Conditional { required: CapabilitySet::from_bits(BLOOM), stage: 30 });
    assert_eq!((first, second, third), (0, 0, 2));
    let stages: Vec<u32> = reg.entries.iter().map(|c| c.stage).collect();
    assert_eq!(stages, vec![20, 10, 30]);
    let snap = demo();
    let g = extend(rebuild(&snap).unwrap().graph, &snap, &reg);
    let combined = find(&g, 1, StageKind::Conditional(0));
    let plain = find(&g, 1, StageKind::Conditional(1));
    let other = find(&g, 1, StageKind::Conditional(2));
    assert!(edge(&g, combined, plain));
    assert!(edge(&g, combined, other));
    assert!(!edge(&g, plain, other));
    assert!(!edge(&g, other, plain));
}

#[test]
fn self_reference_is_a_cycle() {
    match rebuild(&vec![decl(0, &[], 0), decl(1, &[1], 0)]) {
        Err(BuildError::CycleDetected(stuck)) => assert_eq!(stuck, vec![id(1)]),
        other => panic!("{:?}", other),
    }
}

#[test]
fn mutual_predecessors_are_a_cycle() {
    let snap = vec![decl(0, &[], 0), decl(1, &[2], 0), decl(2, &[1, 0], 0), decl(3, &[2], 0)];
    match rebuild(&snap) {
        Err(BuildError::CycleDetected(stuck)) => assert_eq!(stuck, vec![id(1), id(2), id(3)]),
        other => panic!("{:?}", other),
    }
}

#[test]
fn dangling_predecessor_omits_only_that_entity() {
    let snap = vec![decl(0, &[], 0), decl(1, &[9], 0), decl(2, &[0], 0)];
    let b = rebuild(&snap).unwrap();
    assert_eq!(b.dangling, vec![id(1)]);
    assert_eq!(b.graph.len(), 4);
    assert!(b.graph.groups[1].is_none());
    assert!(b.graph.groups[0].is_some());
    assert!(b.graph.groups[2].is_some());
    assert!(b.graph.nodes.iter().all(|n| n.entity != id(1)));
}

#[test]
fn stale_generation_is_dangling() {
    let mut snap = vec![decl(0, &[], 0), decl(1, &[], 0)];
    snap[1].predecessors.push(EntityId { index: 0, generation: 1 });
    let b = rebuild(&snap).unwrap();
    assert_eq!(b.dangling, vec![id(1)]);
}

#[test]
fn visiting_order_does_not_change_the_relation() {
    let forward = demo();
    let mut backward = demo();
    backward.reverse();
    let a = rebuild(&forward).unwrap().graph;
    let b = rebuild(&backward).unwrap().graph;
    assert_eq!(a.len(), b.len());
    let kinds = [StageKind::Prepare, StageKind::RenderBase];
    for e1 in 0..4u32 {
        for k1 in kinds {
            for e2 in 0..4u32 {
                for k2 in kinds {
                    assert_eq!(
                        edge(&a, find(&a, e1, k1), find(&a, e2, k2)),
                        edge(&b, find(&b, e1, k1), find(&b, e2, k2))
                    );
                }
            }
        }
    }
}

#[test]
fn rebuilding_twice_gives_the_same_graph() {
    let snap = demo();
    let a = rebuild(&snap).unwrap().graph;
    let b = rebuild(&snap).unwrap().graph;
    assert_eq!(a.len(), b.len());
    for n in 0..a.len() {
        assert_eq!(a.nodes[n].entity, b.nodes[n].entity);
        assert_eq!(a.nodes[n].kind, b.nodes[n].kind);
        assert_eq!(a.nodes[n].after, b.nodes[n].after);
    }
}

#[test]
fn one_failure_skips_exactly_its_downstream() {
    let snap = demo();
    let g = extend(rebuild(&snap).unwrap().graph, &snap, &demo_registry());
    let failing = find(&g, 1, StageKind::RenderBase);
    let mut results = vec![StageResult::Done; g.len()];
    results[failing] = StageResult::Failed(7);
    let report = run_with(&g, &RunPolicy::standard(), &results);
    let skipped = [
        find(&g, 1, StageKind::Conditional(0)),
        find(&g, 1, StageKind::Conditional(1)),
        find(&g, 3, StageKind::Prepare),
        find(&g, 3, StageKind::RenderBase),
        find(&g, 3, StageKind::Conditional(1)),
    ];
    for n in 0..g.len() {
        let expected = if n == failing {
            NodeStatus::Failed(7)
        } else if skipped.contains(&n) {
            NodeStatus::SkippedUpstream
        } else {
            NodeStatus::Done
        };
        assert_eq!(report.statuses[n], expected);
    }
}

#[test]
fn run_all_policy_runs_downstream_of_a_failure() {
    let snap = demo();
    let g = rebuild(&snap).unwrap().graph;
    let failing = find(&g, 0, StageKind::Prepare);
    let mut results = vec![StageResult::Done; g.len()];
    results[failing] = StageResult::Failed(1);
    let report = run_with(&g, &RunPolicy::run_all(), &results);
    for n in 0..g.len() {
        let expected = if n == failing { NodeStatus::Failed(1) } else { NodeStatus::Done };
        assert_eq!(report.statuses[n], expected);
    }
    let strict = run_with(&g, &RunPolicy::standard(), &results);
    assert_eq!(strict.statuses[failing], NodeStatus::Failed(1));
    assert_eq!(strict.statuses.iter().filter(|s| **s == NodeStatus::SkippedUpstream).count(), 7);
}

#[test]
fn decision_reads_the_statuses_before_the_node() {
    let snap = demo();
    let g = rebuild(&snap).unwrap().graph;
    let policy = RunPolicy::standard();
    assert_eq!(decide(&g, &policy, &vec![], 0), None);
    assert_eq!(decide(&g, &policy, &vec![NodeStatus::Done], 1), None);
    assert_eq!(decide(&g, &policy, &vec![NodeStatus::Failed(3)], 1), Some(NodeStatus::SkippedUpstream));
    assert_eq!(decide(&g, &policy, &vec![NodeStatus::SkippedUpstream], 1), Some(NodeStatus::SkippedUpstream));
    assert_eq!(decide(&g, &RunPolicy::run_all(), &vec![NodeStatus::Failed(3)], 1), None);
    assert_eq!(decide(&g, &RunPolicy::halting(), &vec![NodeStatus::Failed(3)], 1), Some(NodeStatus::NotRun));
    assert_eq!(decide(&g, &RunPolicy::halting(), &vec![NodeStatus::Done], 1), None);
    assert!(is_blocked(&g, &vec![NodeStatus::Failed(3)], 1));
    assert!(!is_blocked(&g, &vec![NodeStatus::Done], 1));
    assert!(has_failure(&vec![NodeStatus::Done, NodeStatus::Failed(1)], 2));
    assert!(!has_failure(&vec![NodeStatus::Done, NodeStatus::Failed(1)], 1));
    assert!(!has_failure(&vec![NodeStatus::SkippedUpstream, NodeStatus::NotRun], 2));
    assert_eq!(record(StageResult::Done), NodeStatus::Done);
    assert_eq!(record(StageResult::Failed(4)), NodeStatus::Failed(4));
}

#[test]
fn halting_policy_starts_nothing_after_a_failure() {
    let snap = vec![decl(0, &[], 0), decl(1, &[], 0), decl(2, &[0], 0)];
    let g = rebuild(&snap).unwrap().graph;
    let failing = find(&g, 0, StageKind::RenderBase);
    let seen: RefCell<Vec<(EntityId, StageKind)>> = RefCell::new(Vec::new());
    let report = run(&g, &RunPolicy::halting(), |e: EntityId, k: StageKind| {
        seen.borrow_mut().push((e, k));
        if e == id(0) && k == StageKind::RenderBase {
            StageResult::Failed(6)
        } else {
            StageResult::Done
        }
    });
    assert_eq!(seen.into_inner(), vec![(id(0), StageKind::Prepare), (id(0), StageKind::RenderBase)]);
    for n in 0..g.len() {
        let expected = if n < failing {
            NodeStatus::Done
        } else if n == failing {
            NodeStatus::Failed(6)
        } else {
            NodeStatus::NotRun
        };
        assert_eq!(report.statuses[n], expected);
    }
    assert!(!report.succeeded());
    assert_eq!(report.errors(&g), vec![RunError::StageFailure(id(0), StageKind::RenderBase, 6)]);
}

#[test]
fn run_calls_each_stage_once_after_its_predecessors() {
    let snap = demo();
    let g = extend(rebuild(&snap).unwrap().graph, &snap, &demo_registry());
    let seen: RefCell<Vec<(EntityId, StageKind)>> = RefCell::new(Vec::new());
    let report = run(&g, &RunPolicy::standard(), |e: EntityId, k: StageKind| {
        seen.borrow_mut().push((e, k));
        StageResult::Done
    });
    assert!(report.statuses.iter().all(|s| *s == NodeStatus::Done));
    let seen = seen.into_inner();
    assert_eq!(seen.len(), g.len());
    let pos = |e: u32, k: StageKind| seen.iter().position(|x| *x == (id(e), k)).unwrap();
    for n in 0..g.len() {
        let here = seen.iter().filter(|x| **x == (g.nodes[n].entity, g.nodes[n].kind)).count();
        assert_eq!(here, 1);
    }
    assert!(pos(0, StageKind::RenderBase) < pos(1, StageKind::Prepare));
    assert!(pos(0, StageKind::RenderBase) < pos(2, StageKind::Prepare));
    assert!(pos(1, StageKind::RenderBase) < pos(3, StageKind::Prepare));
    assert!(pos(1, StageKind::Conditional(0)) < pos(1, StageKind::Conditional(1)));
    assert!(pos(3, StageKind::RenderBase) < pos(3, StageKind::Conditional(1)));
}

#[test]
fn failing_stage_is_not_followed_by_its_dependents() {
    let snap = demo();
    let g = rebuild(&snap).unwrap().graph;
    let seen: RefCell<Vec<(EntityId, StageKind)>> = RefCell::new(Vec::new());
    let report = run(&g, &RunPolicy::standard(), |e: EntityId, k: StageKind| {
        seen.borrow_mut().push((e, k));
        if e == id(1) && k == StageKind::Prepare {
            StageResult::Failed(5)
        } else {
            StageResult::Done
        }
    });
    let seen = seen.into_inner();
    assert!(!seen.contains(&(id(1), StageKind::RenderBase)));
    assert!(!seen.contains(&(id(3), StageKind::Prepare)));
    assert!(seen.contains(&(id(2), StageKind::RenderBase)));
    assert_eq!(report.statuses[find(&g, 1, StageKind::Prepare)], NodeStatus::Failed(5));
    assert_eq!(report.statuses[find(&g, 1, StageKind::RenderBase)], NodeStatus::SkippedUpstream);
    assert_eq!(report.statuses[find(&g, 2, StageKind::RenderBase)], NodeStatus::Done);
}

#[test]
fn store_keeps_its_graph_when_a_rebuild_finds_a_cycle() {
    let mut store = CameraSchedule::new();
    assert_eq!(store.state, StoreState::Stale);
    assert!(store.needs_rebuild());
    store.register_conditional(CameraSchedule::camera_system(CapabilitySet::from_bits(BLOOM), 10));
    assert!(store.rebuild(&demo()).is_ok());
    assert_eq!(store.state, StoreState::Current);
    assert_eq!(store.graph.len(), 10);
    let before = format!("{:?}", store.graph);
    let cyclic = vec![decl(0, &[1], 0), decl(1, &[0], 0)];
    match store.rebuild(&cyclic) {
        Err(BuildError::CycleDetected(stuck)) => assert_eq!(stuck, vec![id(0), id(1)]),
        other => panic!("{:?}", other),
    }
    assert_eq!(format!("{:?}", store.graph), before);
    assert_eq!(store.state, StoreState::Current);
}

#[test]
fn store_rebuilds_on_change_only_when_asked_to() {
    let mut store = CameraSchedule::new();
    store.set_rebuild_every_tick(false);
    assert!(store.needs_rebuild());
    let stage = |_: EntityId, _: StageKind| StageResult::Done;
    let (failure, report) = store.tick(&demo(), &RunPolicy::standard(), stage);
    assert!(failure.is_none());
    assert_eq!(report.statuses.len(), 8);
    assert!(!store.needs_rebuild());
    let (failure, report) = store.tick(&Vec::new(), &RunPolicy::standard(), stage);
    assert!(failure.is_none());
    assert_eq!(report.statuses.len(), 8);
    store.mark_changed();
    assert!(store.needs_rebuild());
    let (failure, report) = store.tick(&Vec::new(), &RunPolicy::standard(), stage);
    assert!(failure.is_none());
    assert_eq!(report.statuses.len(), 0);
    store.set_rebuild_every_tick(true);
    assert!(store.needs_rebuild());
}

#[test]
fn tick_runs_the_old_graph_after_a_failed_rebuild() {
    let mut store = CameraSchedule::new();
    let stage = |_: EntityId, _: StageKind| StageResult::Done;
    let (failure, _) = store.tick(&demo(), &RunPolicy::standard(), stage);
    assert!(failure.is_none());
    let (failure, report) = store.tick(&vec![decl(5, &[5], 0)], &RunPolicy::standard(), stage);
    assert!(matches!(failure, Some(BuildError::CycleDetected(_))));
    assert_eq!(report.statuses.len(), 8);
    assert_eq!(store.graph.nodes[0].entity, id(0));
}

#[test]
fn build_report_lists_the_omitted_entities() {
    let mut store = CameraSchedule::new();
    assert!(store.rebuild(&vec![decl(0, &[8], 0), decl(1, &[], 0), decl(2, &[9], 0)]).is_ok());
    let report = store.build_report();
    assert_eq!(report.len(), 2);
    assert!(matches!(report[0], BuildError::DanglingPredecessor(e) if e == id(0)));
    assert!(matches!(report[1], BuildError::DanglingPredecessor(e) if e == id(2)));
    assert_eq!(store.graph.len(), 2);
}

#[test]
fn malformed_graph_is_recognised() {
    let mut g = rebuild(&demo()).unwrap().graph;
    assert!(g.is_well_formed());
    g.nodes[0].after.push(1);
    assert!(!g.is_well_formed());
    g.nodes[0].after.clear();
    g.groups[2] = None;
    assert!(!g.is_well_formed());
    assert!(Graph::new().is_well_formed());
}

#[test]
fn report_lists_failures_and_skips_with_entity_and_stage() {
    let snap = vec![decl(0, &[], 0), decl(1, &[0], 0)];
    let g = rebuild(&snap).unwrap().graph;
    let mut results = vec![StageResult::Done; g.len()];
    results[find(&g, 0, StageKind::RenderBase)] = StageResult::Failed(9);
    let report = run_with(&g, &RunPolicy::standard(), &results);
    assert!(!report.succeeded());
    assert_eq!(
        report.errors(&g),
        vec![
            RunError::StageFailure(id(0), StageKind::RenderBase, 9),
            RunError::SkippedUpstream(id(1), StageKind::Prepare),
            RunError::SkippedUpstream(id(1), StageKind::RenderBase),
        ]
    );
    let clean = run_with(&g, &RunPolicy::standard(), &vec![StageResult::Done; g.len()]);
    assert!(clean.succeeded());
    assert!(clean.errors(&g).is_empty());
}

#[test]
fn entity_downstream_of_a_cycle_is_reported_with_it() {
    let snap = vec![decl(0, &[1], 0), decl(1, &[0], 0), decl(2, &[1], 0), decl(3, &[], 0), decl(4, &[7], 0)];
    match rebuild(&snap) {
        Err(BuildError::CycleDetected(stuck)) => assert_eq!(stuck, vec![id(0), id(1), id(2)]),
        other => panic!("{:?}", other),
    }
}

#[test]
fn entity_waiting_on_an_omitted_one_is_still_scheduled() {
    let snap = vec![decl(0, &[9], 0), decl(1, &[0], 0)];
    let b = rebuild(&snap).unwrap();
    assert_eq!(b.dangling, vec![id(0)]);
    assert_eq!(b.graph.len(), 2);
    assert_eq!(b.graph.nodes[0].entity, id(1));
    assert_eq!(b.graph.nodes[0].after, Vec::<usize>::new());
}

#[test]
fn long_chain_is_ordered_whatever_the_snapshot_order() {
    let snap = vec![decl(3, &[2], 0), decl(2, &[1], 0), decl(1, &[0], 0), decl(0, &[], 0)];
    let g = rebuild(&snap).unwrap().graph;
    assert!(g.is_well_formed());
    let order: Vec<u32> = g.nodes.iter().filter(|n| n.kind == StageKind::Prepare).map(|n| n.entity.index).collect();
    assert_eq!(order, vec![0, 1, 2, 3]);
    for e in 1..4 {
        assert!(edge(&g, find(&g, e - 1, StageKind::RenderBase), find(&g, e, StageKind::Prepare)));
    }
}

#[test]
fn predecessor_named_once_waits_on_every_entity_that_carries_the_name() {
    let snap = vec![decl(0, &[], 0), decl(0, &[], BLOOM), decl(1, &[0], 0)];
    let g = rebuild(&snap).unwrap().graph;
    assert_eq!(g.len(), 6);
    let waiting = g.groups[2].unwrap().prepare;
    let first = g.groups[0].unwrap().render;
    let second = g.groups[1].unwrap().render;
    assert_eq!(sorted(g.nodes[waiting].after.clone()), sorted(vec![first, second]));
}

#[test]
fn transitive_predecessors_are_reached_only_through_declared_ones() {
    let snap = vec![decl(0, &[], 0), decl(1, &[0], 0), decl(2, &[1], 0), decl(3, &[], 0)];
    let g = rebuild(&snap).unwrap().graph;
    let mut results = vec![StageResult::Done; g.len()];
    results[find(&g, 0, StageKind::RenderBase)] = StageResult::Failed(2);
    let report = run_with(&g, &RunPolicy::standard(), &results);
    assert_eq!(report.statuses[find(&g, 2, StageKind::Prepare)], NodeStatus::SkippedUpstream);
    assert_eq!(report.statuses[find(&g, 3, StageKind::Prepare)], NodeStatus::Done);
    assert_eq!(report.statuses[find(&g, 3, StageKind::RenderBase)], NodeStatus::Done);
    assert!(!edge(&g, find(&g, 0, StageKind::RenderBase), find(&g, 2, StageKind::Prepare)));
}
