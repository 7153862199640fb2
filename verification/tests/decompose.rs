//! Plans.

use std::collections::HashSet;

use swarm_platform::decompose::{
    decompose, decompose_named, estimate_complexity, stages, subtopics, validation_for,
};
use swarm_platform::graph::TaskGraph;
use swarm_platform::ids::TaskId;
use swarm_platform::job::{ExecutionStrategy, Job, JobRequest};
use swarm_platform::task::{TaskKind, ValidationRule};

fn job(objective: &str, strategy: ExecutionStrategy, max_agents: usize) -> Job {
    Job::new(
        JobRequest::new(objective)
            .with_strategy(strategy)
            .with_max_agents(max_agents),
    )
}

#[test]
fn complexity_reacts_to_length_and_enumeration_but_stays_bounded() {
    assert_eq!(estimate_complexity("do it"), 2);
    assert!(estimate_complexity("compare a, b, c, and d") > 2);
    assert_eq!(estimate_complexity(&"word ".repeat(500)), 8);
    assert_eq!(estimate_complexity(""), 2);
}

#[test]
fn subtopics_are_distinct_and_exactly_as_many_as_asked_for() {
    let topics = subtopics("compare Raft, Paxos, and Viewstamped Replication", 3);
    assert_eq!(topics.len(), 3);
    assert_eq!(
        topics.iter().collect::<HashSet<_>>().len(),
        3,
        "duplicate topics would collide idempotency keys"
    );

    // A short objective still yields the requested number of distinct topics.
    let padded = subtopics("do a thing", 5);
    assert_eq!(padded.len(), 5);
    assert_eq!(padded.iter().collect::<HashSet<_>>().len(), 5);
}

#[test]
fn every_strategy_produces_an_acyclic_graph_with_a_single_entry_point() {
    for &strategy in ExecutionStrategy::all() {
        let job = job("Compare Raft and Paxos for leader election", strategy, 6);
        let graph = decompose(&job).unwrap();

        graph.assert_acyclic().unwrap();
        assert!(!graph.is_empty(), "{strategy:?} produced no tasks");
        assert_eq!(
            graph.ready().len(),
            graph.layers().unwrap()[0].len(),
            "{strategy:?}: the first wave must be exactly the ready set"
        );
        assert!(
            graph.layers().unwrap().len() >= 2,
            "{strategy:?} must have more than one stage"
        );
    }
}

#[test]
fn idempotency_keys_are_unique_across_the_whole_graph() {
    // A collision would make the queue silently drop a task as a duplicate.
    for &strategy in ExecutionStrategy::all() {
        let job = job(
            "Investigate consensus, replication, and recovery",
            strategy,
            8,
        );
        let graph = decompose(&job).unwrap();
        let keys: HashSet<&str> = graph
            .nodes()
            .iter()
            .map(|node| node.idempotency_key.as_str())
            .collect();
        assert_eq!(
            keys.len(),
            graph.len(),
            "{strategy:?} produced colliding idempotency keys"
        );
    }
}

#[test]
fn decomposition_is_reproducible_in_shape() {
    let first = decompose(&job("Explain Raft", ExecutionStrategy::Parallel, 4)).unwrap();
    let second = decompose(&job("Explain Raft", ExecutionStrategy::Parallel, 4)).unwrap();

    assert_eq!(first.len(), second.len());
    let titles = |graph: &TaskGraph| {
        let mut titles: Vec<String> = graph.nodes().iter().map(|node| node.title.clone()).collect();
        titles.sort();
        titles
    };
    assert_eq!(titles(&first), titles(&second));
}

#[test]
fn fanout_follows_the_agent_budget() {
    for agents in [2, 8, 50] {
        let job = job("Explain consensus", ExecutionStrategy::Parallel, agents);
        let graph = decompose(&job).unwrap();
        let widest = graph
            .layers()
            .unwrap()
            .iter()
            .map(Vec::len)
            .max()
            .unwrap_or(0);
        assert_eq!(
            widest, agents,
            "a {agents}-agent budget should fan out {agents} ways"
        );
    }
}

#[test]
fn fanout_never_exceeds_the_agent_budget() {
    let job = job(
        "compare a, b, c, d, e, f, g, and h across many dimensions",
        ExecutionStrategy::Parallel,
        2,
    );
    let graph = decompose(&job).unwrap();
    let widest = graph
        .layers()
        .unwrap()
        .iter()
        .map(Vec::len)
        .max()
        .unwrap_or(0);
    assert!(widest <= 2, "widest wave was {widest}, budget was 2");
}

#[test]
fn debate_answers_are_independent_and_the_judge_waits_for_everyone() {
    let job = job("Is Raft simpler than Paxos?", ExecutionStrategy::Debate, 4);
    let graph = decompose(&job).unwrap();
    let layers = graph.layers().unwrap();

    assert!(layers[0].len() >= 2, "a debate needs competing answers");
    for answer in &layers[0] {
        assert!(
            graph.dependencies(*answer).is_empty(),
            "answers must be formed independently"
        );
    }
    let judge = layers.last().unwrap();
    assert_eq!(judge.len(), 1);
    assert_eq!(graph.get(judge[0]).unwrap().kind, TaskKind::Judge);
}

#[test]
fn sequential_work_is_a_chain_not_a_fan_out() {
    let job = job("Do a, then b, then c", ExecutionStrategy::Sequential, 8);
    let graph = decompose(&job).unwrap();
    for layer in graph.layers().unwrap() {
        assert_eq!(layer.len(), 1, "sequential jobs must never widen");
    }
}

#[test]
fn every_task_carries_validation_and_a_capability_requirement() {
    let job = job("Explain consensus", ExecutionStrategy::Hierarchical, 6);
    let graph = decompose(&job).unwrap();
    for node in graph.nodes() {
        assert!(!node.validation.is_empty(), "{} has no checks", node.title);
        assert!(
            !node.required_capabilities.is_empty(),
            "{} requires no capability",
            node.title
        );
        assert!(node.estimated_tokens.is_some());
        assert!(node.timeout_seconds > 0);
    }
}

#[test]
fn a_debate_answers_then_criticises_then_judges() {
    let shape: Vec<(TaskKind, usize)> = stages(ExecutionStrategy::Debate, 4)
        .iter()
        .map(|stage| (stage.kind, stage.fanout))
        .collect();
    assert_eq!(
        shape,
        vec![(TaskKind::Answer, 4), (TaskKind::Critique, 4), (TaskKind::Judge, 1)]
    );
}

#[test]
fn no_topics_are_made_where_none_are_asked_for() {
    assert!(subtopics("compare Raft, Paxos, and Viewstamped Replication", 0).is_empty());
}

#[test]
fn plans_with_the_same_names_are_the_same() {
    let job = job("Explain Raft", ExecutionStrategy::Sequential, 4);
    let total = decompose(&job).unwrap().len();
    let names: Vec<TaskId> = (0..total as u128).map(TaskId::from_uuid).collect();
    let one = decompose_named(&job, &names).unwrap();
    let other = decompose_named(&job, &names).unwrap();
    assert_eq!(one.topological_order().unwrap(), other.topological_order().unwrap());
    let mut again = names.clone();
    again[total - 2] = names[0];
    again[total - 1] = names[1];
    assert_eq!(
        decompose_named(&job, &again).err().unwrap().to_string(),
        format!("internal error: task {} is already in the graph", names[0].to_string())
    );
}

#[test]
fn work_must_be_substantial() {
    assert!(validation_for(TaskKind::Work)
        .iter()
        .any(|rule| matches!(rule, ValidationRule::MinWords(_))));
}
