//! The front doors: HTTP answers and the command line.

use swarm_platform::api::{job_id, ApiError, Health};
use swarm_platform::cli::{
    codegen_demo, debate_demo, demo, event_line, research_demo, strategies, Demo, Placement,
};
use swarm_platform::clock::Timestamp;
use swarm_platform::config::CoordinatorConfig;
use swarm_platform::error::SwarmError;
use swarm_platform::handle::{JobEvent, JobEventKind, Progress};
use swarm_platform::ids::JobId;
use swarm_platform::job::{ExecutionStrategy, Priority};
use swarm_platform::schedule::SchedulerKind;

#[test]
fn client_faults_and_server_faults_are_told_apart() {
    let cases = [
        (SwarmError::NotFound { kind: "job", id: "x".into() }, 404),
        (SwarmError::Validation("objective must not be empty".into()), 400),
        (SwarmError::QuotaExceeded("too many agents".into()), 429),
        (SwarmError::BudgetExceeded("over $5".into()), 402),
        (SwarmError::Provider { provider: "mock".into(), detail: "503".into() }, 502),
        (SwarmError::Internal("bug".into()), 500),
    ];

    for (error, expected) in cases {
        let api_error = ApiError::from_error(&error);
        assert_eq!(api_error.status(), expected, "{}", api_error.message);
    }
}

#[test]
fn the_machine_readable_kind_survives_the_conversion() {
    let error = ApiError::from_error(&SwarmError::Timeout { millis: 10 });
    assert_eq!(error.kind, "timeout");
    assert_eq!(error.status(), 504);
}

#[test]
fn malformed_ids_are_a_client_error_not_a_missing_resource() {
    let error = job_id("not-a-uuid").unwrap_err();
    assert_eq!(error.status(), 400);
    assert_eq!(error.message, "`not-a-uuid` is not a job id");
    assert!(job_id(&JobId::new().to_string()).is_ok());
}

#[test]
fn conflicts_and_rate_limits_have_codes_of_their_own() {
    let code = |error: SwarmError| ApiError::from_error(&error).status();
    assert_eq!(code(SwarmError::Cancelled("x".into())), 409);
    assert_eq!(
        code(SwarmError::RateLimited { provider: "p".into(), retry_after_ms: 1 }),
        429
    );
    assert_eq!(code(SwarmError::CircuitOpen { provider: "p".into() }), 502);
    assert_eq!(code(SwarmError::Config("x".into())), 500);
    assert_eq!(ApiError::bad_request("no".into()).kind, "bad_request");
}

#[test]
fn health_reports_the_running_build() {
    let health = Health::serving("0.1.0", 12);
    assert_eq!(health.status, "ok");
    assert_eq!(health.version, "0.1.0");
    assert_eq!(health.uptime_seconds, 12);
}

#[test]
fn strategy_and_priority_flags_parse_the_way_the_help_claims() {
    assert_eq!(
        "map-reduce".parse::<ExecutionStrategy>().unwrap(),
        ExecutionStrategy::MapReduce
    );
    assert_eq!("critical".parse::<Priority>().unwrap(), Priority::Critical);
    assert!("nonsense".parse::<ExecutionStrategy>().is_err());
}

#[test]
fn every_demo_builds_a_valid_request() {
    for request in [research_demo(6), codegen_demo(6), debate_demo(6)] {
        request.validate().unwrap();
    }
}

#[test]
fn placement_flags_cover_every_scheduler() {
    for placement in [
        Placement::RoundRobin,
        Placement::LeastLoaded,
        Placement::CapabilityWeighted,
        Placement::Adaptive,
    ] {
        let kind: SchedulerKind = placement.kind();
        assert!(SchedulerKind::all().contains(&kind));
    }
}

#[test]
fn all_demos_run_in_order() {
    let titles: Vec<&str> = demo(Demo::All, 3).iter().map(|(title, _)| *title).collect();
    assert_eq!(
        titles,
        vec![
            "Parallel research swarm",
            "Distributed code-generation swarm",
            "Debate and consensus swarm"
        ]
    );
    let only = demo(Demo::Debate, 3);
    assert_eq!(only.len(), 1);
    assert_eq!(only[0].1.max_agents, 3);
    assert_eq!(only[0].1.execution_strategy, ExecutionStrategy::Debate);
}

#[test]
fn events_are_shown_in_colour() {
    let event = JobEvent {
        sequence_number: 4,
        job_id: JobId::new(),
        task_id: None,
        kind: JobEventKind::TaskCompleted,
        detail: "Merge".to_owned(),
        progress: Progress { done: 1, total: 2 },
        at: Timestamp::now(),
    };
    assert_eq!(event_line(&event, " 50"), "\x1b[32m[ 50%]  done\x1b[0m Merge");
}

#[test]
fn every_strategy_is_shown() {
    let text = strategies();
    for strategy in ExecutionStrategy::all() {
        assert!(text.contains(&format!("  {}\n", strategy.as_str())));
    }
    assert!(text.ends_with("  adaptive\n"));
}

#[test]
fn the_settings_start_from_their_defaults() {
    let config = CoordinatorConfig::default();
    assert_eq!(config.max_cluster_agents, 512);
    assert_eq!(config.lease_ms, 60_000);
    assert_eq!(config.event_buffer, 1_024);
    assert_eq!(config.tick_ms, 5);
    assert_eq!(config.max_ticks, 100_000);
    assert_eq!(config.agent_idle_timeout_ms, 30_000);
    assert_eq!(config.scheduler, SchedulerKind::CapabilityWeighted);
}
