//! Limits and knobs for one coordinator process.

use crate::ids::NodeId;
use crate::schedule::SchedulerKind;
use vstd::prelude::*;

verus! {

/// Limits and knobs for one coordinator process.
#[derive(Clone, Copy, Debug, PartialEq, Eq, Structural)]
pub struct CoordinatorConfig {
    /// Identity of the node this coordinator runs on.
    pub node_id: NodeId,
    /// Placement strategy.
    pub scheduler: SchedulerKind,
    /// Agents this coordinator may hold across all jobs.
    pub max_cluster_agents: usize,
    /// Visibility timeout granted with each task lease.
    pub lease_ms: u64,
    /// Buffered events per job before slow subscribers start missing some.
    pub event_buffer: usize,
    /// Pause between scheduling ticks when there is nothing to dispatch.
    pub tick_ms: u64,
    /// Safety valve: maximum scheduling ticks for one job.
    pub max_ticks: u64,
    /// How long an idle agent is kept warm before being reclaimed.
    pub agent_idle_timeout_ms: u64,
}

/// The settings that hold where nobody chose others, on a given node.
pub open spec fn default_settings(node_id: NodeId) -> CoordinatorConfig {
    CoordinatorConfig {
        node_id,
        scheduler: SchedulerKind::CapabilityWeighted,
        max_cluster_agents: 512,
        lease_ms: 60_000,
        event_buffer: 1_024,
        tick_ms: 5,
        max_ticks: 100_000,
        agent_idle_timeout_ms: 30_000,
    }
}

impl Default for CoordinatorConfig {
    fn default() -> (r: Self)
        ensures
            r == default_settings(r.node_id),
    {
        CoordinatorConfig {
            node_id: NodeId::new(),
            scheduler: SchedulerKind::default(),
            max_cluster_agents: 512,
            lease_ms: 60_000,
            event_buffer: 1_024,
            tick_ms: 5,
            max_ticks: 100_000,
            agent_idle_timeout_ms: 30_000,
        }
    }
}

} // verus!
