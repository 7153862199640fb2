//! Coming back from a journal.

use swarm_platform::clock::Timestamp;
use swarm_platform::error::SwarmError;
use swarm_platform::figures::{Real32, Real64};
use swarm_platform::handle::JobHandle;
use swarm_platform::ids::{AgentId, CorrelationId, JobId};
use swarm_platform::job::{ExecutionStatistics, FinalResult, Job, JobRequest, JobStatus};
use swarm_platform::journal::JournalRecord;
use swarm_platform::recovery::{rebuild_graph, replay_records};
use swarm_platform::state::Transition;
use swarm_platform::task::{TaskFailure, TaskKind, TaskNode, TaskResult, TaskState};

fn usd(amount: f64) -> Real64 {
    Real64 { bits: amount.to_bits() }
}

fn job_with_chain() -> (Job, Vec<TaskNode>) {
    let job = Job::new(JobRequest::new("recoverable objective"));
    let first = TaskNode::new(job.id, TaskKind::Plan, "plan", "plan it", 0);
    let second = TaskNode::new(job.id, TaskKind::Work, "work", "do it", 1)
        .with_dependencies(vec![first.id]);
    let third = TaskNode::new(job.id, TaskKind::Merge, "merge", "merge it", 2)
        .with_dependencies(vec![second.id]);
    (job, vec![first, second, third])
}

fn result_for(job: &Job, task: &TaskNode) -> TaskResult {
    TaskResult {
        task_id: task.id,
        job_id: job.id,
        agent_id: AgentId::new(),
        attempt: 1,
        kind: task.kind,
        title: task.title.clone(),
        output: "an output".to_owned(),
        structured: serde_json::from_str("{}").unwrap(),
        evidence: Vec::new(),
        reasoning_summary: String::new(),
        confidence: Real32 { bits: 0.8_f32.to_bits() },
        validation_failures: Vec::new(),
        tokens_in: 10,
        tokens_out: 20,
        cost_usd: usd(0.001),
        duration_ms: 7,
        deduplicated: false,
        finished_at: Timestamp::now(),
    }
}

fn transition(job_id: JobId, task: &TaskNode, to: TaskState, attempt: u32) -> JournalRecord {
    JournalRecord::TaskTransitioned {
        job_id,
        transition: Box::new(Transition::new(
            None,
            to,
            "coordinator:test",
            Some("test".to_owned()),
            CorrelationId::new(),
        )),
        task_id: task.id,
        attempt,
    }
}

/// The only job of a log, brought back.
fn revive(records: Vec<JournalRecord>) -> Result<JobHandle, SwarmError> {
    let mut replay = replay_records(records);
    let (_, known) = replay.jobs.pop().unwrap();
    assert!(known.can_build());
    let cost = known
        .results
        .iter()
        .map(|result| f64::from_bits(result.cost_usd.bits))
        .sum();
    known.build(usd(cost))
}

#[test]
fn a_planned_but_unstarted_job_comes_back_whole() {
    let (job, tasks) = job_with_chain();
    let job_id = job.id;
    let handle = revive(vec![JournalRecord::JobPlanned {
        job: Box::new(job),
        tasks: tasks.clone(),
    }])
    .unwrap();

    let graph = &handle.graph;
    assert_eq!(graph.len(), 3);
    assert_eq!(graph.job_id(), job_id);
    assert_eq!(graph.ready().len(), 1, "only the plan task is ready");
    graph.assert_acyclic().unwrap();
}

#[test]
fn completed_work_is_preserved_and_in_flight_work_is_re_queued() {
    let (job, tasks) = job_with_chain();
    let job_id = job.id;

    let records = vec![
        JournalRecord::JobPlanned {
            job: Box::new(job.clone()),
            tasks: tasks.clone(),
        },
        JournalRecord::JobStatusChanged {
            job_id,
            status: JobStatus::Running,
            reason: None,
            at: Timestamp::now(),
        },
        transition(job_id, &tasks[0], TaskState::Completed, 1),
        JournalRecord::TaskCompleted {
            job_id,
            result: Box::new(result_for(&job, &tasks[0])),
        },
        // The second task was running when the process died.
        transition(job_id, &tasks[1], TaskState::Running, 2),
    ];

    let handle = revive(records).unwrap();

    let graph = &handle.graph;
    assert_eq!(graph.get(tasks[0].id).unwrap().state, TaskState::Completed);
    assert_eq!(
        graph.get(tasks[1].id).unwrap().state,
        TaskState::Created,
        "the interrupted task must be schedulable again"
    );
    assert_eq!(
        graph.get(tasks[1].id).unwrap().attempt,
        2,
        "attempts already spent still count against the retry budget"
    );
    assert_eq!(
        graph.ready(),
        vec![tasks[1].id],
        "the job resumes, not restarts"
    );

    // The job is rewound to Planning so the engine can start it again.
    assert_eq!(handle.job.status, JobStatus::Planning);
    assert!(handle.job.status_reason.is_some());

    // Restored results are not lost, and the statistics reflect them.
    assert_eq!(handle.results.len(), 1);
    let statistics = &handle.statistics;
    assert_eq!(statistics.tasks_succeeded, 1);
    assert_eq!(statistics.tokens_in, 10);
    assert!((f64::from_bits(statistics.cost_usd.bits) - 0.001).abs() < 1e-9);
    assert_eq!(statistics.median_task_latency_ms, 7);
    assert_eq!(
        statistics.wall_clock_ms, 0,
        "unobservable timings stay zero"
    );
}

#[test]
fn a_finished_job_keeps_its_terminal_status_and_result() {
    let (mut job, tasks) = job_with_chain();
    job.status = JobStatus::Completed;
    let job_id = job.id;
    let final_result = FinalResult {
        job_id,
        status: JobStatus::Completed,
        summary: "all done".to_owned(),
        outputs: Vec::new(),
        supporting_evidence: Vec::new(),
        confidence_score: Real32 { bits: 0.9_f32.to_bits() },
        unresolved_conflicts: Vec::new(),
        execution_statistics: ExecutionStatistics::default(),
    };

    let records = vec![
        JournalRecord::JobPlanned {
            job: Box::new(job),
            tasks,
        },
        JournalRecord::JobStatusChanged {
            job_id,
            status: JobStatus::Completed,
            reason: None,
            at: Timestamp::now(),
        },
        JournalRecord::JobFinished {
            job_id,
            result: Box::new(final_result.clone()),
        },
    ];

    let handle = revive(records).unwrap();

    assert_eq!(handle.job.status, JobStatus::Completed);
    assert_eq!(
        handle.final_result.as_ref()
            .unwrap()
            .summary,
        "all done"
    );
}

#[test]
fn a_log_missing_its_plan_is_refused_rather_than_half_recovered() {
    let job_id = JobId::new();
    let outcome = revive(vec![JournalRecord::JobStatusChanged {
        job_id,
        status: JobStatus::Running,
        reason: None,
        at: Timestamp::now(),
    }]);
    let Err(error) = outcome else {
        panic!("a job with no plan must not recover");
    };
    assert!(error.to_string().contains("never planned"));
}

#[test]
fn tasks_are_rebuilt_in_dependency_order_whatever_order_they_were_logged_in() {
    let (job, mut tasks) = job_with_chain();
    tasks.reverse();

    let graph = rebuild_graph(job.id, &tasks).unwrap();
    assert_eq!(graph.len(), 3);
    graph.assert_acyclic().unwrap();
    assert_eq!(graph.layers().unwrap().len(), 3);
}

#[test]
fn a_task_whose_dependency_is_missing_is_reported() {
    let (job, tasks) = job_with_chain();
    // Drop the root; the rest can never be inserted.
    let orphaned = tasks[1..].to_vec();

    let error = rebuild_graph(job.id, &orphaned).err().unwrap();
    assert!(error.to_string().contains("dependencies are missing"));
}

#[test]
fn failures_come_back_and_are_counted() {
    let (job, tasks) = job_with_chain();
    let job_id = job.id;
    let failure = |dead_lettered: bool| JournalRecord::TaskFailed {
        job_id,
        failure: Box::new(TaskFailure {
            task_id: tasks[1].id,
            title: "work".to_owned(),
            attempt: 1,
            error_kind: "timeout".to_owned(),
            error_message: "timed out after 10ms".to_owned(),
            dead_lettered,
            validation_failures: Vec::new(),
            at: Timestamp::now(),
        }),
    };
    let handle = revive(vec![
        JournalRecord::JobPlanned { job: Box::new(job.clone()), tasks: tasks.clone() },
        failure(false),
        failure(true),
    ])
    .unwrap();
    assert_eq!(handle.failures.len(), 2);
    assert_eq!(handle.statistics.tasks_failed, 1);
    assert_eq!(handle.statistics.tasks_retried, 1);
}

#[test]
fn the_records_of_several_jobs_are_told_apart() {
    let (one, one_tasks) = job_with_chain();
    let (other, other_tasks) = job_with_chain();
    let (one_id, other_id) = (one.id, other.id);
    let replay = replay_records(vec![
        JournalRecord::JobPlanned { job: Box::new(one), tasks: one_tasks.clone() },
        JournalRecord::JobPlanned { job: Box::new(other), tasks: other_tasks },
        transition(one_id, &one_tasks[0], TaskState::Completed, 1),
    ]);
    assert_eq!(replay.jobs.len(), 2);
    let transitions_of = |id: JobId| {
        let (_, known) = replay.jobs.iter().find(|(job_id, _)| *job_id == id).unwrap();
        known.transitions.len()
    };
    assert_eq!(transitions_of(one_id), 1);
    assert_eq!(transitions_of(other_id), 0);
}
