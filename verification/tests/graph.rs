//! The task graph.

use swarm_platform::error::SwarmError;
use swarm_platform::graph::TaskGraph;
use swarm_platform::ids::{CorrelationId, JobId, TaskId};
use swarm_platform::task::{TaskKind, TaskNode, TaskState};

fn ratio(graph: &TaskGraph) -> f32 {
    let (done, total) = graph.progress();
    done as f32 / total as f32
}

fn node(job_id: JobId, title: &str, stage: u32) -> TaskNode {
    TaskNode::new(job_id, TaskKind::Work, title, "do it", stage)
}

/// plan -> {a, b} -> merge
fn diamond() -> (TaskGraph, Vec<TaskId>) {
    let job_id = JobId::new();
    let mut graph = TaskGraph::new(job_id);
    let plan = graph
        .insert(TaskNode::new(job_id, TaskKind::Plan, "plan", "plan it", 0))
        .unwrap();
    let a = graph
        .insert(node(job_id, "a", 1).with_dependencies(vec![plan]))
        .unwrap();
    let b = graph
        .insert(node(job_id, "b", 1).with_dependencies(vec![plan]))
        .unwrap();
    let merge = graph
        .insert(
            TaskNode::new(job_id, TaskKind::Merge, "merge", "merge it", 2)
                .with_dependencies(vec![a, b]),
        )
        .unwrap();
    (graph, vec![plan, a, b, merge])
}

fn complete(graph: &mut TaskGraph, task: TaskId) {
    for state in [
        TaskState::Queued,
        TaskState::Leased,
        TaskState::Running,
        TaskState::Completed,
    ] {
        graph
            .set_state(task, state, "test", None, CorrelationId::new())
            .unwrap();
    }
}

#[test]
fn a_dag_is_acyclic_and_topologically_ordered() {
    let (graph, ids) = diamond();
    graph.assert_acyclic().unwrap();

    let order = graph.topological_order().unwrap();
    assert_eq!(order.len(), 4);
    let position = |id: TaskId| order.iter().position(|candidate| *candidate == id).unwrap();
    assert!(position(ids[0]) < position(ids[1]));
    assert!(position(ids[0]) < position(ids[2]));
    assert!(position(ids[1]) < position(ids[3]));
    assert!(position(ids[2]) < position(ids[3]));
}

#[test]
fn layers_expose_the_critical_path_and_the_widest_wave() {
    let (graph, _) = diamond();
    let layers = graph.layers().unwrap();
    assert_eq!(layers.len(), 3, "critical path is plan -> work -> merge");
    assert_eq!(layers[0].len(), 1);
    assert_eq!(layers[1].len(), 2, "the two work tasks run together");
    assert_eq!(layers[2].len(), 1);
}

#[test]
fn unknown_dependencies_are_refused() {
    let job_id = JobId::new();
    let mut graph = TaskGraph::new(job_id);
    let orphan = TaskId::new();
    let err = graph
        .insert(node(job_id, "a", 0).with_dependencies(vec![orphan]))
        .unwrap_err();
    assert!(matches!(err, SwarmError::UnknownDependency { .. }));
    assert!(graph.is_empty());
}

#[test]
fn a_cycle_is_refused_and_the_graph_is_left_usable() {
    let (mut graph, ids) = diamond();
    // merge already depends on a, so a depending on merge would close a loop.
    let err = graph.add_dependency(ids[1], ids[3]).unwrap_err();
    assert!(matches!(err, SwarmError::CyclicGraph { .. }));

    graph.assert_acyclic().unwrap();
    assert_eq!(graph.dependencies(ids[1]), vec![ids[0]]);
    assert_eq!(graph.len(), 4);
}

#[test]
fn self_dependency_is_refused() {
    let (mut graph, ids) = diamond();
    assert!(graph.add_dependency(ids[0], ids[0]).is_err());
}

#[test]
fn readiness_unlocks_as_dependencies_complete() {
    let (mut graph, ids) = diamond();
    let [plan, a, b, merge] = [ids[0], ids[1], ids[2], ids[3]];

    assert_eq!(graph.ready(), vec![plan]);
    complete(&mut graph, plan);

    let mut ready = graph.ready();
    ready.sort_unstable();
    let mut expected = vec![a, b];
    expected.sort_unstable();
    assert_eq!(ready, expected);

    complete(&mut graph, a);
    assert_eq!(graph.ready(), vec![b], "merge still waits on b");
    complete(&mut graph, b);
    assert_eq!(graph.ready(), vec![merge]);

    complete(&mut graph, merge);
    assert!(graph.ready().is_empty());
    assert!(graph.is_complete());
    assert_eq!(ratio(&graph), 1.0);
}

#[test]
fn dynamic_insertion_makes_a_running_task_wait_for_new_work() {
    let (mut graph, ids) = diamond();
    let job_id = graph.job_id();
    let discovered = graph
        .insert_dynamic(node(job_id, "discovered", 1), &[ids[3]])
        .unwrap();

    graph.assert_acyclic().unwrap();
    assert!(graph.dependencies(ids[3]).contains(&discovered));
    assert_eq!(graph.len(), 5);
    assert_eq!(graph.layers().unwrap().len(), 3);
}

#[test]
fn dynamic_insertion_that_would_cycle_leaves_nothing_behind() {
    let (mut graph, ids) = diamond();
    let job_id = graph.job_id();
    // The new task depends on merge, and merge is asked to depend on it.
    let cyclic = node(job_id, "cyclic", 3).with_dependencies(vec![ids[3]]);
    let err = graph.insert_dynamic(cyclic, &[ids[3]]).unwrap_err();

    assert!(matches!(err, SwarmError::CyclicGraph { .. }));
    assert_eq!(graph.len(), 4, "the rejected task must not linger");
    graph.assert_acyclic().unwrap();
}

#[test]
fn splitting_a_task_preserves_its_place_in_the_dag() {
    let (mut graph, ids) = diamond();
    let [plan, a, _b, merge] = [ids[0], ids[1], ids[2], ids[3]];
    let job_id = graph.job_id();

    let children = graph
        .split(a, vec![node(job_id, "a1", 1), node(job_id, "a2", 1)])
        .unwrap();

    assert_eq!(children.len(), 2);
    graph.assert_acyclic().unwrap();
    for child in &children {
        assert_eq!(
            graph.dependencies(*child),
            vec![plan],
            "children inherit the original's dependencies"
        );
    }
    let mut a_deps = graph.dependencies(a);
    a_deps.sort_unstable();
    let mut expected = children.clone();
    expected.sort_unstable();
    assert_eq!(a_deps, expected, "the original becomes their join point");
    assert!(
        graph.dependents(a).contains(&merge),
        "downstream edges survive the split"
    );
}

#[test]
fn splitting_into_nothing_is_refused() {
    let (mut graph, ids) = diamond();
    assert!(graph.split(ids[1], Vec::new()).is_err());
}

#[test]
fn dead_lettered_tasks_expose_their_stranded_subtree() {
    let (mut graph, ids) = diamond();
    let [plan, a, b, merge] = [ids[0], ids[1], ids[2], ids[3]];
    complete(&mut graph, plan);
    complete(&mut graph, b);

    for state in [
        TaskState::Queued,
        TaskState::Leased,
        TaskState::Running,
        TaskState::Failed,
        TaskState::DeadLettered,
    ] {
        graph
            .set_state(a, state, "test", None, CorrelationId::new())
            .unwrap();
    }

    assert_eq!(
        graph.blocked_by_abandoned(),
        vec![merge],
        "merge can never run, so the job must not wait for it"
    );
    assert!(graph.ready().is_empty());
}

#[test]
fn state_changes_are_validated_and_audited() {
    let (mut graph, ids) = diamond();
    let transition = graph
        .set_state(
            ids[0],
            TaskState::Queued,
            "coordinator:test",
            Some("dependencies_satisfied".to_owned()),
            CorrelationId::new(),
        )
        .unwrap();
    assert_eq!(transition.from, Some(TaskState::Created));
    assert_eq!(transition.to, TaskState::Queued);
    assert_eq!(graph.get(ids[0]).unwrap().state, TaskState::Queued);

    // Queued -> Completed is not an edge that exists.
    assert!(graph
        .set_state(
            ids[0],
            TaskState::Completed,
            "test",
            None,
            CorrelationId::new()
        )
        .is_err());
    assert_eq!(graph.get(ids[0]).unwrap().state, TaskState::Queued);
}

#[test]
fn counts_add_up_to_the_total() {
    let (mut graph, ids) = diamond();
    complete(&mut graph, ids[0]);
    graph
        .set_state(
            ids[1],
            TaskState::Queued,
            "test",
            None,
            CorrelationId::new(),
        )
        .unwrap();

    let counts = graph.counts();
    assert_eq!(counts.total, 4);
    assert_eq!(counts.completed, 1);
    assert_eq!(counts.queued, 1);
    assert_eq!(
        counts.pending
            + counts.queued
            + counts.in_flight
            + counts.completed
            + counts.retrying
            + counts.abandoned,
        counts.total
    );
    assert!((ratio(&graph) - 0.25).abs() < f32::EPSILON);
}

#[test]
fn a_thousand_tasks_stay_fast_and_acyclic() {
    let job_id = JobId::new();
    let mut graph = TaskGraph::new(job_id);
    let root = graph
        .insert(TaskNode::new(job_id, TaskKind::Plan, "plan", "plan", 0))
        .unwrap();
    let mut previous_layer = vec![root];

    for stage in 1..=10u32 {
        let mut layer = Vec::new();
        for index in 0..100 {
            let task = graph
                .insert(
                    node(job_id, &format!("s{stage}-t{index}"), stage)
                        .with_dependencies(previous_layer.clone()),
                )
                .unwrap();
            layer.push(task);
        }
        previous_layer = layer;
    }

    assert_eq!(graph.len(), 1_001);
    graph.assert_acyclic().unwrap();
    assert_eq!(graph.layers().unwrap().len(), 11);
    assert_eq!(graph.ready(), vec![root]);
}

#[test]
fn a_state_can_be_restored_past_the_edges_it_took() {
    let (mut graph, ids) = diamond();
    graph.restore_state(ids[0], TaskState::Completed).unwrap();
    assert_eq!(graph.get(ids[0]).unwrap().state, TaskState::Completed);
    assert!(matches!(
        graph.restore_state(TaskId::new(), TaskState::Completed),
        Err(SwarmError::NotFound { kind: "task", .. })
    ));
}

#[test]
fn a_task_is_inserted_once() {
    let (mut graph, ids) = diamond();
    let again = graph.get(ids[0]).unwrap().clone();
    assert!(matches!(graph.insert(again), Err(SwarmError::Internal(_))));
    assert_eq!(graph.len(), 4);
}

#[test]
fn a_refused_dynamic_insertion_takes_back_every_link() {
    let (mut graph, ids) = diamond();
    let job_id = graph.job_id();
    let cyclic = node(job_id, "cyclic", 3).with_dependencies(vec![ids[1]]);
    assert!(graph.insert_dynamic(cyclic, &[ids[3], ids[1]]).is_err());
    let mut waits_for = graph.dependencies(ids[3]);
    waits_for.sort_unstable();
    assert_eq!(waits_for, vec![ids[1], ids[2]]);
    assert_eq!(graph.get(ids[3]).unwrap().dependencies, vec![ids[1], ids[2]]);
}
