//! The task queue.

use swarm_platform::agent::Capability;
use swarm_platform::clock::Timestamp;
use swarm_platform::error::SwarmError;
use swarm_platform::ids::{JobId, LeaseId, TaskId};
use swarm_platform::job::Priority;
use swarm_platform::queue::{InMemoryQueue, QueuedTask};
use swarm_platform::state::LeaseState;
use swarm_platform::task::{RetryPolicy, TaskKind, TaskNode};

const LEASE_MS: u64 = 30_000;

fn task(job_id: JobId, title: &str, priority: Priority) -> QueuedTask {
    let node = TaskNode::new(job_id, TaskKind::Work, title, "do it", 0);
    QueuedTask::from_task(&node, priority, LEASE_MS).unwrap()
}

/// A task whose lease is already expired the moment it is granted, so expiry
/// behaviour is testable without sleeping.
fn instantly_expiring(job_id: JobId, title: &str) -> QueuedTask {
    let mut queued = task(job_id, title, Priority::Normal);
    queued.lease_duration_ms = 0;
    queued
}

fn no_backoff(mut queued: QueuedTask, max_attempts: u32) -> QueuedTask {
    queued.retry = RetryPolicy {
        max_attempts,
        backoff_base_ms: 0,
        backoff_max_ms: 0,
        jitter: false,
    };
    queued
}

#[test]
fn tasks_come_back_highest_priority_first() {
    let mut queue = InMemoryQueue::new();
    let job_id = JobId::new();
    queue
        .enqueue(task(job_id, "low", Priority::Low))
        .unwrap();
    queue
        .enqueue(task(job_id, "critical", Priority::Critical))
        .unwrap();
    queue
        .enqueue(task(job_id, "normal", Priority::Normal))
        .unwrap();

    let mut order = Vec::new();
    while let Some(lease) = queue.dequeue("worker-1".into()).unwrap() {
        order.push(lease.task.task().unwrap().title);
        queue.acknowledge(lease.lease_id).unwrap();
    }
    assert_eq!(order, vec!["critical", "normal", "low"]);
}

#[test]
fn equal_priority_is_served_oldest_first() {
    let mut queue = InMemoryQueue::new();
    let job_id = JobId::new();
    let mut first = task(job_id, "first", Priority::Normal);
    first.enqueued_at = Timestamp::now().plus_millis(-60_000);
    queue.enqueue(first).unwrap();
    queue
        .enqueue(task(job_id, "second", Priority::Normal))
        .unwrap();

    let lease = queue.dequeue("worker-1".into()).unwrap().unwrap();
    assert_eq!(lease.task.task().unwrap().title, "first");
}

#[test]
fn delayed_tasks_stay_invisible_until_their_time() {
    let mut queue = InMemoryQueue::new();
    let job_id = JobId::new();
    let delayed = task(job_id, "later", Priority::Critical)
        .available_at(Timestamp::now().plus_millis(30_000));
    queue.enqueue(delayed).unwrap();
    queue
        .enqueue(task(job_id, "now", Priority::Low))
        .unwrap();

    let lease = queue.dequeue("worker-1".into()).unwrap().unwrap();
    assert_eq!(
        lease.task.task().unwrap().title,
        "now",
        "a delayed critical task must not jump ahead of an available low one"
    );

    queue.acknowledge(lease.lease_id).unwrap();
    assert!(queue.dequeue("worker-1".into()).unwrap().is_none());

    let stats = queue.stats().unwrap();
    assert_eq!(stats.ready, 0);
    assert_eq!(stats.delayed, 1);
}

#[test]
fn a_duplicate_delivery_of_the_same_attempt_is_dropped() {
    let mut queue = InMemoryQueue::new();
    let entry = task(JobId::new(), "once", Priority::Normal);

    queue.enqueue(entry.clone()).unwrap();
    queue.enqueue(entry.clone()).unwrap();
    queue.enqueue(entry).unwrap();

    assert!(queue.dequeue("worker-1".into()).unwrap().is_some());
    assert!(queue.dequeue("worker-1".into()).unwrap().is_none());

    let stats = queue.stats().unwrap();
    assert_eq!(stats.enqueued_total, 1);
    assert_eq!(stats.deduplicated_total, 2);
}

#[test]
fn a_leased_task_is_invisible_to_other_workers() {
    let mut queue = InMemoryQueue::new();
    queue
        .enqueue(task(JobId::new(), "only", Priority::Normal))
        .unwrap();

    let lease = queue.dequeue("worker-1".into()).unwrap().unwrap();
    assert!(queue.dequeue("worker-2".into()).unwrap().is_none());
    queue.acknowledge(lease.lease_id).unwrap();
}

#[test]
fn an_expired_lease_returns_the_task_to_another_worker() {
    let mut queue = InMemoryQueue::new();
    let job_id = JobId::new();
    queue
        .enqueue(no_backoff(instantly_expiring(job_id, "recoverable"), 5))
        .unwrap();

    let lost = queue.dequeue("worker-1".into()).unwrap().unwrap();
    assert_eq!(queue.requeue_expired().unwrap(), 1);

    let recovered = queue.dequeue("worker-2".into()).unwrap().unwrap();
    assert_eq!(recovered.task.task_id, lost.task.task_id);
    assert_eq!(recovered.task.attempt, 2, "the redelivery is a new attempt");

    let stats = queue.stats().unwrap();
    assert_eq!(stats.expired_total, 1);
    assert_eq!(stats.retried_total, 1);
}

#[test]
fn a_worker_cannot_acknowledge_after_its_lease_expired() {
    let mut queue = InMemoryQueue::new();
    queue
        .enqueue(no_backoff(instantly_expiring(JobId::new(), "slow"), 5))
        .unwrap();

    let lease = queue.dequeue("slow-worker".into()).unwrap().unwrap();
    let err = queue.acknowledge(lease.lease_id).unwrap_err();
    assert!(matches!(err, SwarmError::Queue(_)));

    // And the task is back for someone else rather than silently lost.
    assert!(queue.dequeue("fast-worker".into()).unwrap().is_some());
}

#[test]
fn extending_a_lease_keeps_a_slow_but_live_worker_in_charge() {
    let mut queue = InMemoryQueue::new();
    let mut entry = task(JobId::new(), "long", Priority::Normal);
    entry.lease_duration_ms = 50;
    queue.enqueue(entry).unwrap();

    let lease = queue.dequeue("worker-1".into()).unwrap().unwrap();
    queue
        .extend_lease(lease.lease_id, 60_000)
        .unwrap();

    assert_eq!(queue.requeue_expired().unwrap(), 0);
    queue.acknowledge(lease.lease_id).unwrap();
}

#[test]
fn extending_an_unknown_lease_is_an_error_not_a_silent_success() {
    let mut queue = InMemoryQueue::new();
    let err = queue
        .extend_lease(LeaseId::new(), 1_000)
        .unwrap_err();
    assert!(matches!(err, SwarmError::Queue(_)));
}

#[test]
fn rejected_tasks_retry_until_the_budget_runs_out_then_dead_letter() {
    let mut queue = InMemoryQueue::new();
    let job_id = JobId::new();
    queue
        .enqueue(no_backoff(task(job_id, "doomed", Priority::Normal), 3))
        .unwrap();

    for attempt in 1..=3 {
        let lease = queue.dequeue("worker-1".into()).unwrap().unwrap();
        assert_eq!(lease.task.attempt, attempt);
        queue
            .reject(lease.lease_id, format!("failure {attempt}"))
            .unwrap();
    }

    assert!(
        queue.dequeue("worker-1".into()).unwrap().is_none(),
        "a task out of attempts must not be redelivered"
    );

    let dead = queue.dead_letters().unwrap();
    assert_eq!(dead.len(), 1);
    assert_eq!(dead[0].attempts, 3);
    assert_eq!(dead[0].last_error, "failure 3");
    assert_eq!(queue.stats().unwrap().dead_lettered, 1);
}

#[test]
fn a_dead_letter_can_be_replayed_by_an_operator() {
    let mut queue = InMemoryQueue::new();
    let job_id = JobId::new();
    queue
        .enqueue(no_backoff(task(job_id, "doomed", Priority::Normal), 1))
        .unwrap();

    let lease = queue.dequeue("worker-1".into()).unwrap().unwrap();
    let task_id = lease.task.task_id;
    queue.reject(lease.lease_id, "boom".into()).unwrap();
    assert_eq!(queue.dead_letters().unwrap().len(), 1);

    assert!(queue.replay_dead_letter(task_id).unwrap());
    assert!(queue.dead_letters().unwrap().is_empty());
    assert!(queue.dequeue("worker-2".into()).unwrap().is_some());

    assert!(!queue.replay_dead_letter(TaskId::new()).unwrap());
}

#[test]
fn releasing_a_task_does_not_spend_an_attempt() {
    let mut queue = InMemoryQueue::new();
    queue
        .enqueue(task(JobId::new(), "unschedulable", Priority::Normal))
        .unwrap();

    let lease = queue.dequeue("worker-1".into()).unwrap().unwrap();
    assert_eq!(lease.task.attempt, 1);
    queue.release(lease.lease_id).unwrap();

    let again = queue.dequeue("worker-2".into()).unwrap().unwrap();
    assert_eq!(
        again.task.attempt, 1,
        "the release must not cost an attempt"
    );
}

#[test]
fn workers_only_receive_tasks_they_can_run() {
    let mut queue = InMemoryQueue::new();
    let job_id = JobId::new();
    let mut coding = task(job_id, "write code", Priority::Critical);
    coding.required_capabilities = vec![Capability::Coding];
    let mut research = task(job_id, "read papers", Priority::Low);
    research.required_capabilities = vec![Capability::Research];
    queue.enqueue(coding).unwrap();
    queue.enqueue(research).unwrap();

    let lease = queue
        .dequeue_from("researcher".into(), &[], &[Capability::Research])
        .unwrap()
        .unwrap();
    assert_eq!(
        lease.task.task().unwrap().title,
        "read papers",
        "capability filtering must beat priority"
    );

    assert!(queue
        .dequeue_from("designer".into(), &[], &[Capability::Summarization])
        .unwrap()
        .is_none());
}

#[test]
fn named_queues_isolate_workloads() {
    let mut queue = InMemoryQueue::new();
    let job_id = JobId::new();
    queue
        .enqueue(task(job_id, "gpu work", Priority::Normal).on_queue("gpu"))
        .unwrap();
    queue
        .enqueue(task(job_id, "cpu work", Priority::Normal))
        .unwrap();

    let gpu_queue = vec!["gpu".to_owned()];
    let lease = queue
        .dequeue_from("gpu-worker".into(), &gpu_queue, &[])
        .unwrap()
        .unwrap();
    assert_eq!(lease.task.task().unwrap().title, "gpu work");

    assert!(queue
        .dequeue_from("gpu-worker".into(), &gpu_queue, &[])
        .unwrap()
        .is_none());
}

#[test]
fn cancelling_a_job_purges_its_queued_and_leased_work() {
    let mut queue = InMemoryQueue::new();
    let doomed = JobId::new();
    let survivor = JobId::new();
    queue
        .enqueue(task(doomed, "a", Priority::Normal))
        .unwrap();
    queue
        .enqueue(task(doomed, "b", Priority::Normal))
        .unwrap();
    queue
        .enqueue(task(survivor, "c", Priority::Normal))
        .unwrap();

    let leased = queue.dequeue("worker-1".into()).unwrap().unwrap();
    assert_eq!(leased.task.job_id, doomed);

    assert_eq!(queue.purge_job(doomed).unwrap(), 2);
    let remaining = queue.dequeue("worker-2".into()).unwrap().unwrap();
    assert_eq!(remaining.task.job_id, survivor);
    assert!(queue.dequeue("worker-3".into()).unwrap().is_none());
}

#[test]
fn a_thousand_tasks_across_fifty_workers_are_each_delivered_once() {
    let mut queue = InMemoryQueue::new();
    let job_id = JobId::new();
    for index in 0..1_000 {
        queue
            .enqueue(task(job_id, &format!("task-{index}"), Priority::Normal))
            .unwrap();
    }

    // The workers take turns, each holding its claim until the next one has taken its own.
    let mut all = Vec::new();
    let mut held = Vec::new();
    let mut worker = 0;
    while let Some(lease) = queue.dequeue(format!("worker-{}", worker % 50)).unwrap() {
        all.push(lease.task.task_id);
        held.push(lease.lease_id);
        if held.len() == 50 {
            for lease_id in held.drain(..) {
                queue.acknowledge(lease_id).unwrap();
            }
        }
        worker += 1;
    }
    for lease_id in held {
        queue.acknowledge(lease_id).unwrap();
    }

    assert_eq!(all.len(), 1_000, "every task must be delivered");
    all.sort_unstable();
    all.dedup();
    assert_eq!(all.len(), 1_000, "no task may be delivered twice");

    let stats = queue.stats().unwrap();
    assert_eq!(stats.acknowledged_total, 1_000);
    assert_eq!(stats.depth(), 0);
}

#[test]
fn a_retry_waits_out_its_backoff() {
    let mut queue = InMemoryQueue::new();
    let now = Timestamp::now();
    let mut entry = task(JobId::new(), "flaky", Priority::Normal);
    entry.available_at = now;
    entry.retry = RetryPolicy {
        max_attempts: 3,
        backoff_base_ms: 1_000,
        backoff_max_ms: 60_000,
        jitter: false,
    };
    queue.enqueue(entry).unwrap();
    let lease = queue
        .dequeue_at("w".into(), None, &[], &[], LeaseId::new(), now)
        .unwrap();
    queue.reject_at(lease.lease_id, "boom".into(), now).unwrap();

    let soon = now.plus_millis(999);
    assert!(queue.dequeue_at("w".into(), None, &[], &[], LeaseId::new(), soon).is_none());
    let due = now.plus_millis(1_000);
    let again = queue.dequeue_at("w".into(), None, &[], &[], LeaseId::new(), due).unwrap();
    assert_eq!(again.task.attempt, 2);
    assert_eq!(again.expires_at, due.plus_millis(30_000));
}

#[test]
fn a_claim_lapses_at_its_very_instant_of_expiry() {
    let mut queue = InMemoryQueue::new();
    let now = Timestamp::now();
    let mut entry = task(JobId::new(), "edge", Priority::Normal);
    entry.available_at = now;
    queue.enqueue(entry).unwrap();
    let lease = queue
        .dequeue_at("w".into(), None, &[], &[], LeaseId::new(), now)
        .unwrap();
    assert_eq!(lease.state, LeaseState::Held);
    assert!(!lease.is_expired(now.plus_millis(29_999)));
    assert!(lease.is_expired(now.plus_millis(30_000)));
    assert_eq!(queue.requeue_expired_at(now.plus_millis(29_999)), 0);
    assert_eq!(queue.requeue_expired_at(now.plus_millis(30_000)), 1);
}

#[test]
fn a_settled_claim_cannot_be_settled_again() {
    let mut queue = InMemoryQueue::new();
    queue.enqueue(task(JobId::new(), "once", Priority::Normal)).unwrap();
    let lease = queue.dequeue("w".into()).unwrap().unwrap();
    queue.acknowledge(lease.lease_id).unwrap();
    assert!(matches!(queue.acknowledge(lease.lease_id), Err(SwarmError::Queue(_))));
    assert!(matches!(queue.reject(lease.lease_id, "x".into()), Err(SwarmError::Queue(_))));
    assert!(matches!(queue.release(lease.lease_id), Err(SwarmError::Queue(_))));
}

#[test]
fn every_accepted_task_is_accounted_for() {
    let mut queue = InMemoryQueue::new();
    let job_id = JobId::new();
    for title in ["acknowledged", "given up", "released", "waiting"] {
        queue.enqueue(no_backoff(task(job_id, title, Priority::Normal), 1)).unwrap();
    }
    let lapsing = no_backoff(instantly_expiring(job_id, "lapsed"), 1);
    queue.enqueue(lapsing.clone()).unwrap();
    queue.enqueue(lapsing).unwrap();

    let now = Timestamp::now().plus_millis(1_000);
    let mut leases = Vec::new();
    for _ in 0..5 {
        let name = LeaseId::new();
        leases.push(queue.dequeue_at("worker-1".into(), None, &[], &[], name, now).unwrap());
    }
    for lease in leases {
        let name = lease.lease_id;
        match lease.task.task().unwrap().title.as_str() {
            "acknowledged" => queue.acknowledge_at(name, now).unwrap(),
            "given up" => queue.reject_at(name, "no".into(), now).unwrap(),
            "released" => queue.release_at(name, now).unwrap(),
            "waiting" => queue.extend_lease_at(name, 60_000, now).unwrap(),
            _ => assert_eq!(queue.requeue_expired_at(now), 1),
        }
        let stats = queue.stats_at(now);
        assert_eq!(
            stats.depth() as u64 + stats.dead_lettered as u64 + stats.acknowledged_total,
            stats.enqueued_total
        );
    }
    let stats = queue.stats_at(now);
    assert_eq!(stats.enqueued_total, 5);
    assert_eq!(stats.deduplicated_total, 1);
    assert_eq!((stats.ready, stats.leased), (1, 1));
    assert_eq!((stats.dead_lettered, stats.acknowledged_total), (2, 1));
}
