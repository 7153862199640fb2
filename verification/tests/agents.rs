//! Agents and what they can do.

use swarm_platform::agent::{AgentDescriptor, AgentStatus, AgentType, Capability, ModelConfig};
use swarm_platform::clock::Timestamp;
use swarm_platform::figures::Real32;
use swarm_platform::ids::{NodeId, TaskId};

fn rate(agent: &AgentDescriptor) -> f32 {
    f32::from_bits(agent.success_rate.bits)
}

/// Record an attempt; recent outcomes weigh a fifth.
fn attempt(agent: &mut AgentDescriptor, succeeded: bool, latency_ms: u64) {
    let outcome = if succeeded { 1.0 } else { 0.0 };
    let next = rate(agent) * 0.8 + outcome * 0.2;
    agent.record_attempt(
        succeeded,
        latency_ms,
        Real32 { bits: next.to_bits() },
        Timestamp::now(),
    );
}

#[test]
fn every_agent_type_offers_general_and_its_own_capability() {
    for &agent_type in AgentType::all() {
        let caps = agent_type.capabilities();
        assert!(
            caps.contains(&Capability::General),
            "{agent_type:?} must offer General as a fallback"
        );
    }
}

#[test]
fn every_capability_has_an_agent_type_that_offers_it() {
    for &capability in Capability::all() {
        let agent_type = AgentType::for_capability(capability);
        assert!(
            agent_type.capabilities().contains(&capability),
            "{agent_type:?} was chosen for {capability:?} but does not offer it"
        );
    }
}

#[test]
fn supports_requires_all_capabilities_not_just_one() {
    let agent =
        AgentDescriptor::new(AgentType::Research, NodeId::new(), ModelConfig::default());
    assert!(agent.supports(&[Capability::Research]));
    assert!(agent.supports(&[Capability::Research, Capability::General]));
    assert!(!agent.supports(&[Capability::Research, Capability::Coding]));
}

#[test]
fn reliability_stats_react_to_recent_outcomes() {
    let mut agent =
        AgentDescriptor::new(AgentType::General, NodeId::new(), ModelConfig::default());
    assert_eq!(rate(&agent), 1.0);

    attempt(&mut agent, false, 100);
    assert!(rate(&agent) < 1.0, "a failure must lower the rate");
    assert_eq!(agent.tasks_failed, 1);
    assert_eq!(agent.average_latency_ms, 100);

    for _ in 0..50 {
        attempt(&mut agent, true, 100);
    }
    assert!(
        rate(&agent) > 0.99,
        "sustained success must recover the rate, got {}",
        rate(&agent)
    );
    assert_eq!(agent.tasks_completed, 50);
}

#[test]
fn latency_is_smoothed_after_the_first_sample() {
    let mut agent = AgentDescriptor::new(AgentType::General, NodeId::new(), ModelConfig::default());
    attempt(&mut agent, true, 100);
    assert_eq!(agent.average_latency_ms, 100);
    attempt(&mut agent, true, 200);
    assert_eq!(agent.average_latency_ms, 120);
}

#[test]
fn only_idle_agents_are_available() {
    let mut agent = AgentDescriptor::new(AgentType::General, NodeId::new(), ModelConfig::default());
    agent.status = AgentStatus::Idle;
    assert!(agent.is_available());
    agent.current_task = Some(TaskId::new());
    agent.status = AgentStatus::Running;
    assert!(!agent.is_available());
}

#[test]
fn labels_are_stable() {
    assert_eq!(AgentType::ResultMerger.as_str(), "result_merger");
    assert_eq!(Capability::ToolUse.as_str(), "tool_use");
    assert_eq!(Capability::all().len(), 11);
}
