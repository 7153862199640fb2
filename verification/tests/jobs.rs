//! Jobs and their requests.

use swarm_platform::clock::Timestamp;
use swarm_platform::error::SwarmError;
use swarm_platform::figures::Real64;
use swarm_platform::job::{
    ExecutionStatistics, ExecutionStrategy, Job, JobRequest, JobStatus, Priority,
    MAX_AGENTS_PER_JOB, MAX_OBJECTIVE_LEN,
};

fn usd(amount: f64) -> Real64 {
    Real64 { bits: amount.to_bits() }
}

#[test]
fn priority_orders_low_to_critical() {
    assert!(Priority::Critical > Priority::High);
    assert!(Priority::High > Priority::Normal);
    assert!(Priority::Normal > Priority::Low);
    assert_eq!(Priority::default(), Priority::Normal);
}

#[test]
fn strategies_parse_from_every_spelling_operators_use() {
    assert_eq!(
        "map-reduce".parse::<ExecutionStrategy>().unwrap(),
        ExecutionStrategy::MapReduce
    );
    assert_eq!(
        "map_reduce".parse::<ExecutionStrategy>().unwrap(),
        ExecutionStrategy::MapReduce
    );
    assert_eq!(
        "MapReduce".parse::<ExecutionStrategy>().unwrap(),
        ExecutionStrategy::MapReduce
    );
    assert!("teamwork".parse::<ExecutionStrategy>().is_err());
}

#[test]
fn every_strategy_roundtrips_through_its_label() {
    for &strategy in ExecutionStrategy::all() {
        assert_eq!(
            strategy.as_str().parse::<ExecutionStrategy>().unwrap(),
            strategy
        );
    }
}

#[test]
fn validation_rejects_unusable_requests() {
    assert!(JobRequest::new("do a thing").validate().is_ok());
    assert!(JobRequest::new("   ").validate().is_err());
    assert!(JobRequest::new("x").with_max_agents(0).validate().is_err());
    assert!(JobRequest::new("x")
        .with_max_agents(MAX_AGENTS_PER_JOB + 1)
        .validate()
        .is_err());
    assert!(JobRequest::new("x").with_max_cost(usd(0.0)).validate().is_err());
    assert!(JobRequest::new("x")
        .with_max_cost(usd(f64::NAN))
        .validate()
        .is_err());
    assert!(JobRequest::new(&"x".repeat(MAX_OBJECTIVE_LEN + 1))
        .validate()
        .is_err());
}


#[test]
fn deadline_and_runtime_budget_both_expire_a_job() {
    let mut job = Job::new(JobRequest::new("x"));
    let now = Timestamp::now();
    assert!(!job.is_past_deadline(now));

    job.request.deadline = Some(now.plus_millis(-1_000));
    assert!(job.is_past_deadline(now));

    job.request.deadline = None;
    job.request.max_runtime_seconds = Some(60);
    job.started_at = Some(now.plus_millis(-61_000));
    assert!(job.is_past_deadline(now));

    job.started_at = Some(now.plus_millis(-10_000));
    assert!(!job.is_past_deadline(now));
}

#[test]
fn percentiles_use_nearest_rank() {
    let mut stats = ExecutionStatistics::default();
    let latencies: Vec<u64> = (1..=100).collect();
    stats.set_latency_percentiles(&latencies);
    assert_eq!(stats.median_task_latency_ms, 50);
    assert_eq!(stats.p95_task_latency_ms, 95);
    assert_eq!(stats.p99_task_latency_ms, 99);

    // Single sample: every percentile is that sample.
    stats.set_latency_percentiles(&[7]);
    assert_eq!(stats.median_task_latency_ms, 7);
    assert_eq!(stats.p99_task_latency_ms, 7);
}


#[test]
fn finished_statuses_are_exactly_the_terminal_ones() {
    assert!(JobStatus::Completed.is_finished());
    assert!(JobStatus::Cancelled.is_finished());
    assert!(JobStatus::Rejected.is_finished());
    assert!(!JobStatus::Running.is_finished());
    assert!(!JobStatus::Paused.is_finished());
}

#[test]
fn each_refusal_says_why() {
    let reason = |request: JobRequest| request.validate().unwrap_err().to_string();
    assert_eq!(
        reason(JobRequest::new(" \t")),
        "validation failed: objective must not be empty"
    );
    assert_eq!(
        reason(JobRequest::new("x").with_max_agents(0)),
        "validation failed: max_agents must be at least 1"
    );
    assert!(matches!(
        JobRequest::new("x").with_max_agents(MAX_AGENTS_PER_JOB + 1).validate(),
        Err(SwarmError::QuotaExceeded(_))
    ));
    assert!(JobRequest::new("x").with_max_cost(usd(0.01)).validate().is_ok());
    assert!(JobRequest::new(&"x".repeat(MAX_OBJECTIVE_LEN)).validate().is_ok());
}

#[test]
fn the_strategies_that_deliberate_need_consensus() {
    let deliberating: Vec<&str> = ExecutionStrategy::all()
        .iter()
        .filter(|strategy| strategy.needs_consensus())
        .map(|strategy| strategy.as_str())
        .collect();
    assert_eq!(deliberating, vec!["debate", "consensus"]);
}

#[test]
fn percentiles_of_nothing_are_nothing() {
    let mut stats = ExecutionStatistics::default();
    stats.set_latency_percentiles(&[]);
    assert_eq!(stats.median_task_latency_ms, 0);
    stats.set_latency_percentiles(&[30, 10, 20]);
    assert_eq!(stats.median_task_latency_ms, 20);
    assert_eq!(stats.p95_task_latency_ms, 30);
}
