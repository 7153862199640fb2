//! Placement.

use std::collections::HashMap;

use swarm_platform::agent::{AgentDescriptor, AgentStatus, AgentType, Capability, ModelConfig};
use swarm_platform::figures::Real32;
use swarm_platform::ids::{AgentId, JobId, NodeId};
use swarm_platform::schedule::{
    candidates, highest_scored, LeastLoaded, RoundRobin, Scheduler, SchedulerKind,
    SchedulingOutcome, Weights,
};
use swarm_platform::task::{TaskKind, TaskNode};

fn number(x: f32) -> Real32 {
    Real32 { bits: x.to_bits() }
}

/// How well an agent fits a task: idle, reliable, fast, and no broader than need be.
fn score(agent: &AgentDescriptor, task: &TaskNode) -> f32 {
    let idleness = 1.0 - f32::from_bits(agent.current_load.bits).clamp(0.0, 1.0);
    let speed = 1_000.0 / (1_000.0 + agent.average_latency_ms as f32);
    let extra = agent.capabilities.len().saturating_sub(task.required_capabilities.len()) as f32;
    idleness
        + f32::from_bits(agent.success_rate.bits).clamp(0.0, 1.0)
        + 0.5 * speed
        + 0.5 * (1.0 / (1.0 + extra))
}

fn select(kind: SchedulerKind, task: &TaskNode, agents: &[AgentDescriptor]) -> Option<AgentId> {
    match kind {
        SchedulerKind::RoundRobin => RoundRobin::default().select(task, agents),
        SchedulerKind::LeastLoaded => LeastLoaded.select(task, agents),
        SchedulerKind::CapabilityWeighted | SchedulerKind::Adaptive => {
            let scores: Vec<Real32> =
                agents.iter().map(|agent| number(score(agent, task))).collect();
            highest_scored(task, agents, &scores)
        }
    }
}

fn agent(agent_type: AgentType) -> AgentDescriptor {
    let mut descriptor =
        AgentDescriptor::new(agent_type, NodeId::new(), ModelConfig::default());
    descriptor.status = AgentStatus::Idle;
    descriptor
}

fn task(kind: TaskKind) -> TaskNode {
    TaskNode::new(JobId::new(), kind, "a task", "do it", 0)
}

#[test]
fn no_strategy_ever_places_a_task_on_an_incapable_agent() {
    let agents = vec![agent(AgentType::Summarization)];
    let coding = task(TaskKind::Work); // requires Research

    for &kind in SchedulerKind::all() {
        assert!(
            select(kind, &coding, &agents).is_none(),
            "{} placed a task on an agent that cannot run it",
            kind.name()
        );
    }
}

#[test]
fn no_strategy_ever_places_a_task_on_a_busy_agent() {
    let mut busy = agent(AgentType::Research);
    busy.status = AgentStatus::Running;
    let agents = vec![busy];

    for &kind in SchedulerKind::all() {
        assert!(select(kind, &task(TaskKind::Work), &agents).is_none());
    }
}

#[test]
fn an_empty_pool_yields_no_placement() {
    for &kind in SchedulerKind::all() {
        assert!(select(kind, &task(TaskKind::Work), &[]).is_none());
    }
}

#[test]
fn round_robin_spreads_work_evenly() {
    let agents: Vec<AgentDescriptor> = (0..4).map(|_| agent(AgentType::Research)).collect();
    let mut scheduler = RoundRobin::default();

    let mut counts: HashMap<AgentId, usize> = HashMap::new();
    for _ in 0..40 {
        let chosen = scheduler.select(&task(TaskKind::Work), &agents).unwrap();
        *counts.entry(chosen).or_default() += 1;
    }

    assert_eq!(counts.len(), 4);
    for count in counts.values() {
        assert_eq!(*count, 10);
    }
}

#[test]
fn least_loaded_picks_the_idlest_agent() {
    let mut idle = agent(AgentType::Research);
    idle.current_load = number(0.1);
    let mut busy = agent(AgentType::Research);
    busy.current_load = number(0.9);
    let expected = idle.id;

    let agents = vec![busy, idle];
    assert_eq!(
        LeastLoaded.select(&task(TaskKind::Work), &agents),
        Some(expected)
    );
}

#[test]
fn least_loaded_breaks_ties_on_latency() {
    let mut fast = agent(AgentType::Research);
    fast.average_latency_ms = 50;
    let mut slow = agent(AgentType::Research);
    slow.average_latency_ms = 5_000;
    let expected = fast.id;

    let agents = vec![slow, fast];
    assert_eq!(
        LeastLoaded.select(&task(TaskKind::Work), &agents),
        Some(expected)
    );
}

#[test]
fn capability_weighted_prefers_the_reliable_agent_over_the_flaky_one() {
    let mut reliable = agent(AgentType::Research);
    reliable.success_rate = number(0.99);
    let mut flaky = agent(AgentType::Research);
    flaky.success_rate = number(0.20);
    let expected = reliable.id;

    let agents = vec![flaky, reliable];
    assert_eq!(
        select(SchedulerKind::CapabilityWeighted, &task(TaskKind::Work), &agents),
        Some(expected)
    );
}

#[test]
fn capability_weighted_saves_generalists_for_work_only_they_can_do() {
    // Both can run the task; the specialist should take it so the broader agent
    // stays free.
    let specialist = agent(AgentType::Research);
    let mut generalist = agent(AgentType::Research);
    generalist.capabilities = Capability::all().to_vec();
    let expected = specialist.id;

    let agents = vec![generalist, specialist];
    assert_eq!(
        select(SchedulerKind::CapabilityWeighted, &task(TaskKind::Work), &agents),
        Some(expected)
    );
}

#[test]
fn candidates_are_capable_and_free() {
    let mut busy = agent(AgentType::Research);
    busy.status = AgentStatus::Running;
    let agents = vec![busy, agent(AgentType::Research), agent(AgentType::Summarization)];
    assert_eq!(candidates(&task(TaskKind::Work), &agents), vec![1]);
}

#[test]
fn the_last_of_equally_good_agents_is_taken() {
    let agents = vec![agent(AgentType::Research), agent(AgentType::Research)];
    let scores = [number(0.5), number(0.5)];
    assert_eq!(
        highest_scored(&task(TaskKind::Work), &agents, &scores),
        Some(agents[1].id)
    );
    assert_eq!(
        LeastLoaded.select(&task(TaskKind::Work), &agents),
        Some(agents[0].id)
    );
}

#[test]
fn every_strategy_has_a_name() {
    let names: Vec<&str> = SchedulerKind::all().iter().map(|kind| kind.name()).collect();
    assert_eq!(
        names,
        vec!["round_robin", "least_loaded", "capability_weighted", "adaptive"]
    );
    assert_eq!(SchedulerKind::default(), SchedulerKind::CapabilityWeighted);
}

#[test]
fn stateless_strategies_learn_nothing_and_keep_their_weights() {
    let outcome = SchedulingOutcome {
        agent_id: AgentId::new(),
        succeeded: false,
        latency_ms: 900,
        queue_wait_ms: 40,
    };
    let balanced = Weights {
        load: number(1.0),
        reliability: number(1.0),
        latency: number(0.5),
        specificity: number(0.5),
    };
    let agents = vec![agent(AgentType::Research), agent(AgentType::Research)];
    let work = task(TaskKind::Work);

    let mut rotation = RoundRobin::default();
    assert_eq!(rotation.select(&work, &agents), Some(agents[0].id));
    rotation.observe(outcome);
    assert_eq!(rotation.weights(), balanced);
    assert_eq!(rotation.select(&work, &agents), Some(agents[1].id));

    let mut idlest = LeastLoaded;
    idlest.observe(outcome);
    assert_eq!(idlest.weights(), balanced);
    assert_eq!(idlest.select(&work, &agents), Some(agents[0].id));
}
