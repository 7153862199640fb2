//! Errors, hashes, identifiers and state machines.

use swarm_platform::agent::{AgentStatus, NodeStatus};
use swarm_platform::error::SwarmError;
use swarm_platform::hash::{fnv1a, stable_hash};
use swarm_platform::ids::{AgentId, CorrelationId, JobId, TaskId};
use swarm_platform::job::JobStatus;
use swarm_platform::state::{apply, LeaseState, StateMachine};
use swarm_platform::task::TaskState;

#[test]
fn transient_failures_are_retryable_and_logic_errors_are_not() {
    assert!(SwarmError::Timeout { millis: 10 }.is_retryable());
    assert!(SwarmError::Provider {
        provider: "mock".into(),
        detail: "503".into()
    }
    .is_retryable());
    assert!(!SwarmError::Validation("missing section".into()).is_retryable());
    assert!(!SwarmError::Cancelled("operator".into()).is_retryable());
    assert!(!SwarmError::BudgetExceeded("over $5".into()).is_retryable());
}

#[test]
fn kind_is_stable_for_metrics() {
    assert_eq!(SwarmError::Queue("full".into()).kind(), "queue");
    assert_eq!(
        SwarmError::InvalidTransition {
            entity: "task",
            from: "Completed".into(),
            to: "Running".into()
        }
        .kind(),
        "invalid_transition"
    );
}

#[test]
fn hashing_is_deterministic_and_sensitive_to_small_changes() {
    assert_eq!(stable_hash(b"swarm"), stable_hash(b"swarm"));
    assert_ne!(stable_hash(b"swarm"), stable_hash(b"swarn"));
    assert_ne!(stable_hash(b""), stable_hash(b"\0"));
}

#[test]
fn chaining_distinguishes_field_boundaries() {
    let joined = fnv1a(stable_hash(b"ab"), b"c");
    let split = fnv1a(stable_hash(b"a"), b"bc");
    assert_eq!(joined, split, "FNV-1a over the same byte stream agrees");
    // Which is exactly why callers that need boundaries must insert separators.
    assert_ne!(stable_hash(b"a|bc"), stable_hash(b"ab|c"));
}

#[test]
fn ids_roundtrip_through_plain_and_prefixed_forms() {
    let id = TaskId::new();
    assert_eq!(TaskId::from_str(&id.to_string()).unwrap(), id);
    assert_eq!(TaskId::from_str(&id.prefixed()).unwrap(), id);
    assert!(id.prefixed().starts_with("task_"));
}


#[test]
fn garbage_is_rejected_with_the_offending_value() {
    let err = AgentId::from_str("not-a-uuid").unwrap_err();
    assert!(matches!(err, SwarmError::InvalidId { ref value, .. } if value == "not-a-uuid"));
}

#[test]
fn ids_are_unique() {
    let ids: std::collections::HashSet<JobId> = (0..10_000).map(|_| JobId::new()).collect();
    assert_eq!(ids.len(), 10_000);
}

#[test]
fn task_happy_path_is_walkable() {
    let mut state = TaskState::Created;
    for next in [
        TaskState::Queued,
        TaskState::Leased,
        TaskState::Running,
        TaskState::Completed,
    ] {
        state = state.transition(next).unwrap();
    }
    assert!(state.is_terminal());
}

#[test]
fn completed_tasks_cannot_be_resurrected() {
    let err = TaskState::Completed
        .transition(TaskState::Running)
        .unwrap_err();
    match err {
        SwarmError::InvalidTransition { entity, from, to } => {
            assert_eq!(entity, "task");
            assert_eq!(from, "Completed");
            assert_eq!(to, "Running");
        }
        other => panic!("expected InvalidTransition, got {other:?}"),
    }
}

#[test]
fn lease_expiry_recovers_a_task_to_the_queue() {
    // The recovery path that makes worker crashes survivable.
    let state = TaskState::Leased.transition(TaskState::Queued).unwrap();
    assert_eq!(state, TaskState::Queued);
}

#[test]
fn failure_leads_to_retry_or_dead_letter_and_nothing_else() {
    assert_eq!(
        TaskState::Failed.allowed(),
        &[TaskState::RetryScheduled, TaskState::DeadLettered]
    );
    assert!(TaskState::Failed.transition(TaskState::Queued).is_err());
    assert!(TaskState::TimedOut.transition(TaskState::Running).is_err());
}

#[test]
fn retrying_a_failed_job_is_allowed_but_a_completed_one_is_not() {
    assert!(JobStatus::Failed.transition(JobStatus::Running).is_ok());
    assert!(JobStatus::PartiallyCompleted
        .transition(JobStatus::Running)
        .is_ok());
    assert!(JobStatus::Completed.transition(JobStatus::Running).is_err());
    assert!(JobStatus::Completed.is_terminal());
}

#[test]
fn agents_return_to_the_warm_pool_after_completing() {
    assert!(AgentStatus::Completed.transition(AgentStatus::Idle).is_ok());
    assert!(AgentStatus::Terminated
        .transition(AgentStatus::Idle)
        .is_err());
}

#[test]
fn unreachable_nodes_may_rejoin_but_removed_ones_may_not() {
    assert!(NodeStatus::Unreachable
        .transition(NodeStatus::Ready)
        .is_ok());
    assert!(NodeStatus::Removed.transition(NodeStatus::Ready).is_err());
}

#[test]
fn only_active_leases_can_be_acknowledged() {
    assert!(LeaseState::Held.is_active());
    assert!(LeaseState::Extended.is_active());
    assert!(!LeaseState::Expired.is_active());
    assert!(LeaseState::Expired
        .transition(LeaseState::Released)
        .is_err());
}

#[test]
fn terminal_states_are_exactly_those_with_no_outgoing_edges() {
    for state in [
        TaskState::Completed,
        TaskState::Cancelled,
        TaskState::DeadLettered,
    ] {
        assert!(state.is_terminal(), "{state:?} should be terminal");
    }
    for state in [
        TaskState::Created,
        TaskState::Queued,
        TaskState::Leased,
        TaskState::Running,
        TaskState::Failed,
        TaskState::TimedOut,
        TaskState::RetryScheduled,
        TaskState::Preempted,
        TaskState::WaitingForDependency,
    ] {
        assert!(!state.is_terminal(), "{state:?} should not be terminal");
    }
}

#[test]
fn no_state_machine_declares_a_self_loop_it_does_not_mean() {
    // Extended -> Extended is the one intentional self-loop in the platform.
    for state in [
        TaskState::Created,
        TaskState::Queued,
        TaskState::Running,
        TaskState::Completed,
    ] {
        assert!(
            !state.can_transition_to(state),
            "{state:?} should not loop to itself"
        );
    }
    assert!(LeaseState::Extended.can_transition_to(LeaseState::Extended));
}

#[test]
fn apply_produces_an_audit_record_with_actor_and_reason() {
    let correlation_id = CorrelationId::new();
    let (state, record) = apply(
        TaskState::Leased,
        TaskState::Queued,
        "coordinator:node-1",
        Some("lease_expired".to_owned()),
        correlation_id,
    )
    .unwrap();

    assert_eq!(state, TaskState::Queued);
    assert_eq!(record.entity, "task");
    assert_eq!(record.from, Some(TaskState::Leased));
    assert_eq!(record.to, TaskState::Queued);
    assert_eq!(record.actor, "coordinator:node-1");
    assert_eq!(record.reason.as_deref(), Some("lease_expired"));
    assert_eq!(record.correlation_id, correlation_id);
    assert!(record.term.is_none());
    assert_eq!(record.with_term(7).term, Some(7));
}

#[test]
fn apply_refuses_illegal_edges_and_produces_no_record() {
    let result = apply(
        TaskState::Completed,
        TaskState::Queued,
        "system",
        None,
        CorrelationId::new(),
    );
    assert!(result.is_err());
}

#[test]
fn hashes_are_the_published_ones() {
    assert_eq!(stable_hash(b""), 0xcbf2_9ce4_8422_2325);
    assert_eq!(stable_hash(b"a"), 0xaf63_dc4c_8601_ec8c);
    assert_eq!(fnv1a(stable_hash(b""), b"a"), stable_hash(b"a"));
}

#[test]
fn ids_are_written_the_way_they_are_read() {
    let id = JobId::from_uuid(0x0190_0000_0000_7000_8000_0000_0000_00ff);
    assert_eq!(id.to_string(), "01900000-0000-7000-8000-0000000000ff");
    assert_eq!(id.prefixed(), "job_019000000000700080000000000000ff");
    assert_eq!(JobId::from_str("019000000000700080000000000000ff").unwrap(), id);
    assert_eq!(
        JobId::from_str("JOB_019000000000700080000000000000ff").is_ok(),
        false
    );
    assert!(TaskId::from_str(&id.prefixed()).is_err());
}

#[test]
fn errors_read_as_sentences() {
    assert_eq!(
        SwarmError::NotFound { kind: "job", id: "x".into() }.to_string(),
        "unknown job `x`"
    );
    assert_eq!(
        SwarmError::RateLimited { provider: "mock".into(), retry_after_ms: 250 }.to_string(),
        "provider `mock` rate limited (retry after 250ms)"
    );
    assert_eq!(
        SwarmError::VersionConflict {
            namespace: "jobs".into(),
            key: "k".into(),
            expected: 1,
            actual: 2
        }
        .to_string(),
        "version conflict on jobs/k: expected 1, found 2"
    );
}

#[test]
fn every_lifecycle_has_exactly_its_edges() {
    assert_eq!(
        TaskState::Created.allowed(),
        &[
            TaskState::Queued,
            TaskState::WaitingForDependency,
            TaskState::Cancelled,
        ]
    );
    assert_eq!(
        TaskState::WaitingForDependency.allowed(),
        &[
            TaskState::Queued,
            TaskState::Cancelled,
        ]
    );
    assert_eq!(
        TaskState::Queued.allowed(),
        &[
            TaskState::Leased,
            TaskState::Cancelled,
            TaskState::Preempted,
        ]
    );
    assert_eq!(
        TaskState::Leased.allowed(),
        &[
            TaskState::Running,
            TaskState::Queued,
            TaskState::Cancelled,
        ]
    );
    assert_eq!(
        TaskState::Running.allowed(),
        &[
            TaskState::Completed,
            TaskState::Failed,
            TaskState::TimedOut,
            TaskState::WaitingForDependency,
            TaskState::Cancelled,
        ]
    );
    assert_eq!(
        TaskState::TimedOut.allowed(),
        &[
            TaskState::RetryScheduled,
            TaskState::DeadLettered,
        ]
    );
    assert_eq!(TaskState::RetryScheduled.allowed(), &[TaskState::Queued]);
    assert_eq!(TaskState::Preempted.allowed(), &[TaskState::Queued]);

    assert_eq!(JobStatus::Submitted.allowed(), &[JobStatus::Admitted, JobStatus::Rejected]);
    assert_eq!(JobStatus::Admitted.allowed(), &[JobStatus::Planning]);
    assert_eq!(JobStatus::Planning.allowed(), &[JobStatus::Running, JobStatus::Failed]);
    assert_eq!(
        JobStatus::Running.allowed(),
        &[JobStatus::Paused, JobStatus::Aggregating, JobStatus::Failed, JobStatus::Cancelled]
    );
    assert_eq!(JobStatus::Paused.allowed(), &[JobStatus::Running, JobStatus::Cancelled]);
    assert_eq!(
        JobStatus::Aggregating.allowed(),
        &[
            JobStatus::Completed,
            JobStatus::PartiallyCompleted,
            JobStatus::Failed,
        ]
    );
    assert_eq!(JobStatus::Failed.allowed(), &[JobStatus::Running]);
    assert_eq!(JobStatus::PartiallyCompleted.allowed(), &[JobStatus::Running]);

    assert_eq!(AgentStatus::Created.allowed(), &[AgentStatus::Registered]);
    assert_eq!(AgentStatus::Registered.allowed(), &[AgentStatus::Idle]);
    assert_eq!(AgentStatus::Idle.allowed(), &[AgentStatus::Assigned, AgentStatus::Terminated]);
    assert_eq!(AgentStatus::Assigned.allowed(), &[AgentStatus::Running]);
    assert_eq!(
        AgentStatus::Running.allowed(),
        &[
            AgentStatus::Waiting,
            AgentStatus::Completed,
            AgentStatus::Failed,
        ]
    );
    assert_eq!(AgentStatus::Waiting.allowed(), &[AgentStatus::Running, AgentStatus::Terminated]);
    assert_eq!(AgentStatus::Completed.allowed(), &[AgentStatus::Idle]);
    assert_eq!(
        AgentStatus::Failed.allowed(),
        &[
            AgentStatus::Retrying,
            AgentStatus::Idle,
            AgentStatus::Terminated,
        ]
    );
    assert_eq!(AgentStatus::Retrying.allowed(), &[AgentStatus::Running]);

    assert_eq!(NodeStatus::Joining.allowed(), &[NodeStatus::Ready]);
    assert_eq!(
        NodeStatus::Ready.allowed(),
        &[
            NodeStatus::Degraded,
            NodeStatus::Draining,
            NodeStatus::Unreachable,
        ]
    );
    assert_eq!(
        NodeStatus::Degraded.allowed(),
        &[
            NodeStatus::Ready,
            NodeStatus::Draining,
            NodeStatus::Unreachable,
        ]
    );
    assert_eq!(NodeStatus::Draining.allowed(), &[NodeStatus::Removed]);
    assert_eq!(NodeStatus::Unreachable.allowed(), &[NodeStatus::Ready, NodeStatus::Removed]);
}
