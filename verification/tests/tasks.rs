//! Tasks, retries and output checks.

use swarm_platform::ids::{JobId, TaskId};
use swarm_platform::task::{
    slug, validate_output, RetryPolicy, TaskKind, TaskNode, ValidationRule,
};

fn task() -> TaskNode {
    TaskNode::new(
        JobId::new(),
        TaskKind::Work,
        "Investigate Raft leader election",
        "Explain how Raft elects a leader.",
        1,
    )
}

#[test]
fn backoff_doubles_then_caps() {
    let policy = RetryPolicy {
        max_attempts: 10,
        backoff_base_ms: 100,
        backoff_max_ms: 800,
        jitter: false,
    };
    assert_eq!(policy.backoff_ms(1, 0), 100);
    assert_eq!(policy.backoff_ms(2, 0), 200);
    assert_eq!(policy.backoff_ms(3, 0), 400);
    assert_eq!(policy.backoff_ms(4, 0), 800);
    assert_eq!(policy.backoff_ms(9, 0), 800, "must stay capped");
    assert_eq!(policy.backoff_ms(99, 0), 800, "must not overflow");
}

#[test]
fn jitter_stays_within_half_the_backoff_window() {
    let policy = RetryPolicy {
        max_attempts: 5,
        backoff_base_ms: 1_000,
        backoff_max_ms: 60_000,
        jitter: true,
    };
    for nonce in 0..1_000 {
        let wait = policy.backoff_ms(1, nonce);
        assert!(
            (500..=1_000).contains(&wait),
            "jittered wait {wait} left the window"
        );
    }
}

#[test]
fn retry_budget_is_respected() {
    let policy = RetryPolicy::default();
    assert!(policy.allows_retry(0));
    assert!(policy.allows_retry(2));
    assert!(!policy.allows_retry(3));
    assert!(!RetryPolicy::no_retries().allows_retry(1));
}

#[test]
fn validation_rules_catch_what_they_claim_to() {
    assert!(ValidationRule::NonEmpty.check("text").is_none());
    assert!(ValidationRule::NonEmpty.check("   \n").is_some());

    assert!(ValidationRule::MinWords(3).check("one two three").is_none());
    assert!(ValidationRule::MinWords(3).check("one two").is_some());

    let mentions = ValidationRule::MustMention("Raft".into());
    assert!(mentions.check("we used raft consensus").is_none());
    assert!(mentions.check("we used paxos").is_some());

    let keys = ValidationRule::RequiredJsonKeys(vec!["summary".into(), "findings".into()]);
    assert!(keys.check(r#"{"summary":"s","findings":[]}"#).is_none());
    assert!(keys.check(r#"{"summary":"s"}"#).is_some());
    assert!(keys.check("[1,2]").is_some());
    assert!(keys.check("not json").is_some());
}

#[test]
fn validate_output_reports_every_failure_not_just_the_first() {
    let failures = validate_output(
        "short",
        &[
            ValidationRule::MinWords(10),
            ValidationRule::MustMention("Raft".into()),
        ],
    );
    assert_eq!(failures.len(), 2);
}

#[test]
fn idempotency_keys_are_stable_per_task_and_distinct_per_attempt() {
    let job_id = JobId::new();
    let first = TaskNode::new(job_id, TaskKind::Work, "Do the thing", "…", 1);
    let rebuilt = TaskNode::new(job_id, TaskKind::Work, "Do the thing", "…", 1);
    assert_ne!(first.id, rebuilt.id, "ids differ");
    assert_eq!(
        first.idempotency_key, rebuilt.idempotency_key,
        "the same logical task must keep its key across a rebuild"
    );

    let mut retried = first.clone();
    retried.attempt = 1;
    assert_ne!(first.attempt_key(), retried.attempt_key());
}

#[test]
fn titles_sharing_a_long_prefix_still_get_distinct_keys() {
    // Slugs are truncated, so uniqueness cannot rest on them alone.
    let job_id = JobId::new();
    let prefix = "Investigate consensus, replication, and recovery in distributed systems";
    let first = TaskNode::new(
        job_id,
        TaskKind::Work,
        &format!("{prefix} — aspect 1"),
        "",
        1,
    );
    let second = TaskNode::new(
        job_id,
        TaskKind::Work,
        &format!("{prefix} — aspect 2"),
        "",
        1,
    );
    assert_ne!(first.idempotency_key, second.idempotency_key);
}

#[test]
fn slugs_are_bounded_and_free_of_stray_separators() {
    assert_eq!(
        slug("Investigate Raft leader election"),
        "investigate-raft-leader-election"
    );
    assert_eq!(slug("  spaces  "), "spaces");
    assert_eq!(slug("!!!"), "");
    assert!(slug(&"word ".repeat(100)).len() <= 48);
}

#[test]
fn dependencies_gate_readiness() {
    let mut node = task();
    let upstream = TaskId::new();
    node.dependencies = vec![upstream];

    let mut completed = Vec::new();
    assert!(!node.dependencies_satisfied(&completed));
    completed.push(upstream);
    assert!(node.dependencies_satisfied(&completed));
}

#[test]
fn work_kinds_are_reportable_and_scaffolding_is_not() {
    assert!(TaskKind::Work.is_reportable());
    assert!(TaskKind::Merge.is_reportable());
    assert!(!TaskKind::Plan.is_reportable());
    assert!(!TaskKind::Vote.is_reportable());
}

#[test]
fn complexity_drives_the_token_estimate() {
    let node = task().with_complexity(5);
    assert_eq!(node.estimated_complexity, 5);
    assert_eq!(node.estimated_tokens, Some(2_000));
    assert_eq!(task().with_complexity(0).estimated_complexity, 1);
}

#[test]
fn complaints_say_what_is_missing() {
    assert_eq!(
        ValidationRule::MinWords(3).check("one two").unwrap(),
        "output has 2 words, needs 3"
    );
    assert_eq!(
        ValidationRule::MustMention("Raft".into()).check("paxos").unwrap(),
        "output does not mention `Raft`"
    );
}

#[test]
fn an_attempt_key_is_the_task_key_and_the_attempt() {
    let mut node = task();
    node.attempt = 3;
    assert_eq!(node.attempt_key(), format!("{}#3", node.idempotency_key));
}
