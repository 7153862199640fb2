//! Whole jobs: the coordinator over the real queue, shared memory, scheduler and agent
//! runtime. Only the model provider is a deterministic stand-in.

use std::cell::RefCell;
use std::collections::{HashMap, HashSet};
use std::rc::Rc;

use swarm_platform::agent::{AgentDescriptor, AgentType};
use swarm_platform::aggregate::{survey, Figures, Standing};
use swarm_platform::api::{cluster, finished_result, ApiError};
use swarm_platform::cli::report;
use swarm_platform::clock::Timestamp;
use swarm_platform::config::CoordinatorConfig;
use swarm_platform::coordinator::{Coordinator, Start};
use swarm_platform::decompose::fresh_names;
use swarm_platform::engine::Run;
use swarm_platform::error::SwarmError;
use swarm_platform::figures::{Real32, Real64};
use swarm_platform::gateway::{over_budget, Gateway, GatewayConfig, Opening};
use swarm_platform::handle::{JobEventKind, Progress};
use swarm_platform::ids::{AgentId, CorrelationId, JobId, MemoryId, NodeId, TaskId};
use swarm_platform::job::{ExecutionStrategy, FinalResult, JobRequest, JobStatus, Priority};
use swarm_platform::journal::{JournalRecord, MemoryJournal};
use swarm_platform::metrics::render;
use swarm_platform::mock::{Answer, MockProvider};
use swarm_platform::model::{CompletionRequest, CompletionResponse, ModelPricing};
use swarm_platform::ns;
use swarm_platform::outcome::{Estimates, Outcome};
use swarm_platform::queue::QueuedTask;
use swarm_platform::recovery::{replay_records, Replay};
use swarm_platform::runtime::{
    agent_type_for, already_executing, label_of_checkpoint, latest_checkpoint, render_prompt,
    reused, stored_result, system_prompt, Agent, Event, Move, ParsedOutput, Phase, TaskContext,
    UpstreamOutput,
};
use swarm_platform::schedule::{
    candidates, LeastLoaded, RoundRobin, Scheduler, SchedulerKind, SchedulingOutcome,
};
use swarm_platform::state::StateMachine;
use swarm_platform::task::{TaskKind, TaskNode, TaskResult, TaskState, ValidationRule};
use swarm_platform::tick::Tick;

fn number(x: f64) -> Real64 {
    Real64 { bits: x.to_bits() }
}

fn value(x: Real64) -> f64 {
    f64::from_bits(x.bits)
}

/// An answer as the provider sends it.
fn encode(answer: Answer) -> String {
    match answer {
        Answer::Text(text) => text,
        Answer::Document(sketch) => {
            let mut evidence = Vec::new();
            for (index, finding) in sketch.findings.iter().enumerate() {
                let mut item = serde_json::Map::new();
                item.insert("source".into(), sketch.sources[index].as_str().into());
                item.insert("claim".into(), finding.as_str().into());
                let support = sketch.supports[index] as f64 / 100.0 + 0.65;
                item.insert("support".into(), support.into());
                evidence.push(serde_json::Value::Object(item));
            }
            let mut document = serde_json::Map::new();
            document.insert("summary".into(), sketch.summary.into());
            document.insert("findings".into(), sketch.findings.into());
            document.insert("confidence".into(), (sketch.confidence as f64 / 100.0).into());
            document.insert("evidence".into(), evidence.into());
            document.insert("reasoning_summary".into(), sketch.reasoning.into());
            serde_json::Value::Object(document).to_string()
        }
    }
}

/// Call a provider, and price what it answers.
fn ask(
    provider: &mut MockProvider,
    request: &CompletionRequest,
) -> Result<CompletionResponse, SwarmError> {
    let text = encode(provider.call(request)?);
    let mut response = provider.respond(request, text, Real64::zero(), provider.latency_ms());
    let pricing = provider.pricing();
    response.cost_usd = number(
        (response.tokens_in as f64 / 1_000_000.0) * value(pricing.input_per_million)
            + (response.tokens_out as f64 / 1_000_000.0) * value(pricing.output_per_million),
    );
    Ok(response)
}

/// Call a model through a gateway.
fn complete(
    gateway: &mut Gateway,
    providers: &mut [MockProvider],
    request: &CompletionRequest,
    now: Timestamp,
) -> Result<CompletionResponse, SwarmError> {
    let serves = vec![true; providers.len()];
    let mut route = match gateway.begin(request, &serves) {
        Opening::Hit(response) => return Ok(response),
        Opening::Refused(error) => return Err(error),
        Opening::Overspent => {
            let spent = format!("{:.4}", value(gateway.usage().cost_usd));
            let budget = format!("{:.4}", value(gateway.config().budget_usd.unwrap()));
            return Err(over_budget(&spent, &budget));
        }
        Opening::Try(route) => route,
    };
    while let Some(index) = gateway.next_provider(&mut route, now) {
        let mut attempt = 1;
        loop {
            gateway.record_request();
            let error = match ask(&mut providers[index], request) {
                Ok(response) => {
                    let spent =
                        number(value(gateway.usage().cost_usd) + value(response.cost_usd));
                    gateway.record_success(index, &response, request.cache_key(), spent);
                    return Ok(response);
                }
                Err(error) => error,
            };
            if gateway.retry_after(index, &error, attempt, now).is_none() {
                route.gave_up(error);
                break;
            }
            attempt += 1;
        }
    }
    Err(route.failure())
}

fn single(x: f32) -> Real32 {
    Real32 { bits: x.to_bits() }
}

/// What a test runs a swarm on: a clock that only the test moves, one provider behind a
/// gateway, and the results that stand for what memory holds.
struct Swarm<S: Scheduler> {
    coordinator: Coordinator<S>,
    gateway: Gateway,
    providers: [MockProvider; 1],
    stored: HashMap<TaskId, TaskResult>,
    now: Timestamp,
}

impl Swarm<RoundRobin> {
    fn with(provider: MockProvider, gateway: GatewayConfig, config: CoordinatorConfig) -> Self {
        Self::placing(provider, gateway, config, RoundRobin::default())
    }

    fn new() -> Self {
        Self::with(
            MockProvider::new("mock"),
            GatewayConfig::default(),
            CoordinatorConfig::default(),
        )
    }
}

impl<S: Scheduler> Swarm<S> {
    fn placing(
        provider: MockProvider,
        gateway: GatewayConfig,
        config: CoordinatorConfig,
        scheduler: S,
    ) -> Self {
        let gateway = Gateway::new(GatewayConfig {
            retry_backoff_ms: 0,
            cache_enabled: false,
            ..gateway
        })
        .and_provider(provider.name());
        Self {
            coordinator: Coordinator::local_with(config, scheduler),
            gateway,
            providers: [provider],
            stored: HashMap::new(),
            now: Timestamp::now(),
        }
    }

    fn submit(&mut self, request: JobRequest) -> Result<JobId, SwarmError> {
        self.coordinator.submit(request, self.now)
    }

    /// Carry out one attempt at a task.
    fn execute(
        &mut self,
        agent: &Agent,
        task: &TaskNode,
        context: &TaskContext,
    ) -> Result<TaskResult, SwarmError> {
        let now = self.now;
        let (mut phase, mut step) = Phase::begin();
        let mut own = None;
        loop {
            let event = match step {
                Move::ReadResult => {
                    let memory = self.coordinator.memory();
                    Event::Stored(stored_result(memory, task.job_id, task.id, now).is_some())
                }
                Move::ClaimAttempt => {
                    let write = agent.claim_write(task, serde_json::Value::from(task.attempt));
                    let memory = self.coordinator.memory_mut();
                    Event::Claimed(memory.claim_at(write, MemoryId::new(), now).is_some())
                }
                Move::WriteCheckpoint(seq) => {
                    let label = serde_json::Value::from(label_of_checkpoint(seq));
                    let write = agent.checkpoint_write(task, seq, label);
                    self.coordinator.memory_mut().put_at(write, MemoryId::new(), now);
                    Event::Checkpointed
                }
                Move::CallModel => {
                    let request = agent.request(task, context);
                    let response =
                        complete(&mut self.gateway, &mut self.providers, &request, now)?;
                    let parsed = ParsedOutput::from_text(&response.text);
                    let confidence = single(value(parsed.confidence) as f32);
                    let supports: Vec<Real32> = parsed
                        .evidence
                        .iter()
                        .map(|item| single(value(item.support) as f32))
                        .collect();
                    let result =
                        agent.result(task, &response, parsed, confidence, &supports, 7, now);
                    let passed = result.passed_validation();
                    own = Some(result);
                    Event::Answered(passed)
                }
                Move::PublishResult => {
                    let result: &TaskResult = own.as_ref().unwrap();
                    let write = agent
                        .result_write(task, serde_json::Value::from(task.id.to_string()));
                    let memory = self.coordinator.memory_mut();
                    let first = memory.claim_at(write, MemoryId::new(), now).is_some();
                    if first {
                        self.stored.insert(task.id, result.clone());
                    }
                    Event::Published(first)
                }
                Move::ReturnStored => return Ok(reused(self.stored[&task.id].clone())),
                Move::ReturnOwn => return Ok(own.unwrap()),
                Move::FailBusy => return Err(already_executing(task)),
            };
            (phase, step) = phase.next(event);
        }
    }

    /// One round of scheduling, and the work it hands out: whether the job is over, and if so,
    /// whether it was cancelled.
    fn step(&mut self, job_id: JobId, run: &mut Run) -> Result<Option<bool>, SwarmError> {
        match self.coordinator.tick(job_id, run, self.now)? {
            Tick::Finish(cancelled) => Ok(Some(cancelled)),
            Tick::AwaitResume => Ok(None),
            Tick::Sleep(ms) => {
                self.now = self.now.plus_millis(ms as i64);
                Ok(None)
            }
            Tick::Execute(dispatches) => {
                for dispatch in &dispatches {
                    let outcome =
                        match self.execute(&dispatch.agent, &dispatch.task, &dispatch.context) {
                            Ok(result) => Outcome::Finished(result),
                            Err(error) => Outcome::Failed(error),
                        };
                    let handle = self.coordinator.handle(job_id)?;
                    let rate = handle
                        .agents
                        .iter()
                        .find(|agent| agent.id() == dispatch.agent.id())
                        .map_or(1.0, |agent| f32::from_bits(agent.descriptor.success_rate.bits));
                    let cost = match &outcome {
                        Outcome::Finished(result) => value(result.cost_usd),
                        _ => 0.0,
                    };
                    let estimates = Estimates {
                        rate_after_success: single(0.8 * rate + 0.2),
                        rate_after_failure: single(0.8 * rate),
                        cost_usd: number(value(handle.statistics.cost_usd) + cost),
                    };
                    self.coordinator.settle(job_id, dispatch, outcome, estimates, self.now)?;
                }
                let done = self.coordinator.handle(job_id)?.graph.is_complete();
                Ok(if done { Some(false) } else { None })
            }
        }
    }

    fn finish(
        &mut self,
        job_id: JobId,
        cancelled: bool,
        spawned: usize,
    ) -> Result<FinalResult, SwarmError> {
        self.coordinator.wind_down(job_id, cancelled, spawned, 100, self.now)?;
        let handle = self.coordinator.handle(job_id)?;
        let seen = survey(&handle.graph, &handle.results);
        let weigh = |members: &[usize]| -> f32 {
            members
                .iter()
                .map(|index| {
                    f32::from_bits(handle.results[seen.answers[*index]].confidence.bits)
                })
                .sum()
        };
        let everyone: Vec<usize> = (0..seen.answers.len()).collect();
        let total = weigh(&everyone);
        let standings = seen
            .positions
            .iter()
            .map(|members| {
                let weight = weigh(members);
                let share = if total > 0.0 { weight / total } else { 0.0 };
                Standing {
                    weight: single(weight),
                    share: single(share),
                    percent: format!("{:.0}", share * 100.0),
                }
            })
            .collect();
        let kept = &seen.kept;
        let confidence = if kept.is_empty() {
            0.0
        } else {
            let sum: f32 = kept
                .iter()
                .map(|index| f32::from_bits(handle.results[*index].confidence.bits))
                .sum();
            let counts = handle.graph.counts();
            let completion = counts.completed as f32 / counts.total as f32;
            (sum / kept.len() as f32 * completion - 0.1 * seen.conflicts as f32).clamp(0.0, 1.0)
        };
        let figures = Figures { standings, confidence: single(confidence) };
        let cost = format!("{:.4}", value(handle.statistics.cost_usd));
        self.coordinator.conclude(job_id, cancelled, &figures, &cost, self.now)
    }

    /// Drive a planned job to completion.
    fn run(&mut self, job_id: JobId) -> Result<FinalResult, SwarmError> {
        let spawned = match self.coordinator.begin(job_id, self.now)? {
            Start::Over(result) => return Ok(*result),
            Start::Running(spawned) => spawned,
        };
        let mut run = Run { ticks: 0, paused: false };
        loop {
            if let Some(cancelled) = self.step(job_id, &mut run)? {
                return self.finish(job_id, cancelled, spawned);
            }
        }
    }

    fn submit_and_run(&mut self, request: JobRequest) -> Result<FinalResult, SwarmError> {
        let job_id = self.submit(request)?;
        self.run(job_id)
    }

    /// Run a job up to the point where so many tasks are done.
    fn run_until(&mut self, job_id: JobId, completed: usize) -> (usize, Run) {
        let spawned = match self.coordinator.begin(job_id, self.now).unwrap() {
            Start::Running(spawned) => spawned,
            Start::Over(_) => panic!("the job is over"),
        };
        let mut run = Run { ticks: 0, paused: false };
        while self.coordinator.state(job_id).unwrap().counts.completed < completed {
            assert!(self.step(job_id, &mut run).unwrap().is_none(), "over too soon");
        }
        (spawned, run)
    }

    /// Bring back, into another coordinator, what a journal tells of.
    fn recover_from(&mut self, journal: &MemoryJournal) -> Result<usize, SwarmError> {
        let replay = replay_records(journal.replay()?);
        self.recover(replay)
    }

    fn recover(&mut self, replay: Replay) -> Result<usize, SwarmError> {
        let costs: Vec<Real64> = replay
            .jobs
            .iter()
            .map(|(_, known)| {
                number(known.results.iter().map(|result| value(result.cost_usd)).sum())
            })
            .collect();
        assert!(replay.jobs.iter().all(|(_, known)| known.can_build()));
        self.coordinator.recover(replay, &costs)
    }
}

fn ratio(progress: Progress) -> f32 {
    progress.done as f32 / progress.total as f32
}

#[test]
fn submitting_plans_the_job_without_running_it() {
    let mut swarm = Swarm::new();
    let job_id = swarm.submit(JobRequest::new("Explain consensus algorithms")).unwrap();

    let state = swarm.coordinator.state(job_id).unwrap();
    assert_eq!(state.status, JobStatus::Planning);
    assert!(state.counts.total > 0);
    assert_eq!(state.counts.completed, 0);
    assert_eq!(ratio(state.progress), 0.0);
    assert!(!swarm.coordinator.task_graph(job_id).unwrap().is_empty());
}

#[test]
fn an_invalid_request_never_becomes_a_job() {
    let mut swarm = Swarm::new();
    assert!(swarm.submit(JobRequest::new("   ")).is_err());
    assert_eq!(swarm.coordinator.job_count(), 0);
}

#[test]
fn a_job_over_the_cluster_quota_is_rejected_at_admission() {
    let mut swarm = Swarm::with(
        MockProvider::new("mock"),
        GatewayConfig::default(),
        CoordinatorConfig { max_cluster_agents: 4, ..CoordinatorConfig::default() },
    );

    let err = swarm.submit(JobRequest::new("big job").with_max_agents(100)).unwrap_err();
    assert!(matches!(err, SwarmError::QuotaExceeded(_)));
    assert_eq!(
        err.to_string(),
        "quota exceeded: job asks for 100 agents; this cluster allows 4"
    );
    assert_eq!(swarm.coordinator.job_count(), 0);
}

#[test]
fn unknown_jobs_are_reported_as_not_found() {
    let swarm = Swarm::new();
    let err = swarm.coordinator.state(JobId::new()).unwrap_err();
    assert!(matches!(err, SwarmError::NotFound { kind: "job", .. }));
}

#[test]
fn planning_emits_events_before_anyone_subscribes_without_failing() {
    let mut swarm = Swarm::new();
    let job_id = swarm.submit(JobRequest::new("no subscribers")).unwrap();
    let events = swarm.coordinator.take_events(job_id).unwrap();
    assert_eq!(events.len(), 2);
    assert_eq!(events[0].kind, JobEventKind::JobAdmitted);
    assert_eq!(events[1].kind, JobEventKind::JobPlanned);
    assert_eq!(events[1].detail, "10 tasks in 3 stages");
    assert!(swarm.coordinator.take_events(job_id).unwrap().is_empty());
}

#[test]
fn pausing_a_cancelled_job_is_refused() {
    let mut swarm = Swarm::new();
    let job_id = swarm.submit(JobRequest::new("objective")).unwrap();
    let now = swarm.now;
    swarm.coordinator.cancel(job_id, now).unwrap();

    assert!(swarm.coordinator.pause(job_id, now).is_err());
    assert!(matches!(
        swarm.coordinator.resume(job_id, now),
        Err(SwarmError::Cancelled(_))
    ));
}

#[test]
fn every_execution_strategy_runs_to_completion() {
    for &strategy in ExecutionStrategy::all() {
        let mut swarm = Swarm::new();
        let result = swarm
            .submit_and_run(
                JobRequest::new("Compare Raft and Paxos for leader election and recovery")
                    .with_strategy(strategy)
                    .with_max_agents(4),
            )
            .unwrap_or_else(|e| panic!("{strategy:?} failed: {e:?}"));

        assert_eq!(result.status, JobStatus::Completed, "{strategy:?} did not complete");
        assert!(!result.summary.is_empty(), "{strategy:?} produced no summary");
        assert!(!result.outputs.is_empty(), "{strategy:?} produced no outputs");
        let confidence = f32::from_bits(result.confidence_score.bits);
        assert!(
            (0.0..=1.0).contains(&confidence),
            "{strategy:?} produced confidence {confidence}"
        );

        let statistics = &result.execution_statistics;
        assert_eq!(
            statistics.tasks_succeeded, statistics.tasks_total as u64,
            "{strategy:?} left tasks unfinished"
        );
        assert_eq!(statistics.tasks_failed, 0, "{strategy:?} had failures");
        assert!(statistics.tokens_in > 0 && statistics.tokens_out > 0);
        assert!(value(statistics.cost_usd) > 0.0, "{strategy:?} recorded no cost");
        assert!(statistics.agents_spawned > 0);
    }
}

#[test]
fn a_finished_job_exposes_its_graph_results_and_audit_trail() {
    let mut swarm = Swarm::new();
    let job_id = swarm
        .submit(
            JobRequest::new("Investigate consensus, replication, and recovery")
                .with_strategy(ExecutionStrategy::Parallel)
                .with_max_agents(3),
        )
        .unwrap();
    swarm.run(job_id).unwrap();
    let coordinator = &swarm.coordinator;

    let graph = coordinator.task_graph(job_id).unwrap();
    assert!(graph.iter().all(|node| node.state == TaskState::Completed));
    let mut listed: Vec<(u32, &str)> =
        graph.iter().map(|node| (node.stage, node.title.as_str())).collect();
    let order = listed.clone();
    listed.sort();
    assert_eq!(listed, order);

    let results = coordinator.intermediate_results(job_id).unwrap();
    assert_eq!(results.len(), graph.len());
    assert!(results.iter().all(|result| result.passed_validation()));

    // Every task walked Created -> Queued -> Leased -> Running -> Completed, and each
    // step was journaled with an actor and a reason.
    let transitions = coordinator.transitions(job_id).unwrap();
    assert_eq!(transitions.len(), graph.len() * 4);
    assert!(transitions.iter().all(|t| t.actor.starts_with("coordinator:")));
    assert!(transitions.iter().all(|t| t.reason.is_some()));
    assert_eq!(
        transitions.iter().filter(|t| t.to == TaskState::Completed).count(),
        graph.len()
    );

    assert!(coordinator.failures(job_id).unwrap().is_empty());
    assert_eq!(coordinator.state(job_id).unwrap().status, JobStatus::Completed);
    assert!(coordinator.final_result(job_id).unwrap().is_some());
    assert!(!coordinator.agents(job_id).unwrap().is_empty());
}

#[test]
fn a_flaky_provider_is_survived_by_retries() {
    // Every third model call fails, and the gateway is told not to retry, so the
    // failure reaches the task and the *task* has to recover. The job must still
    // finish, with the retries visible in the statistics.
    let mut swarm = Swarm::with(
        MockProvider::new("flaky").failing_every(3),
        GatewayConfig { max_attempts: 1, ..GatewayConfig::default() },
        CoordinatorConfig::default(),
    );

    let result = swarm
        .submit_and_run(
            JobRequest::new("Explain leader election under partition")
                .with_strategy(ExecutionStrategy::Parallel)
                .with_max_agents(4),
        )
        .unwrap();

    assert_eq!(result.status, JobStatus::Completed);
    assert!(
        result.execution_statistics.tasks_retried > 0,
        "the flaky provider should have forced at least one retry"
    );
    assert_eq!(result.execution_statistics.tasks_failed, 0);
}

#[test]
fn a_dead_provider_produces_dead_letters_not_a_hang() {
    let mut swarm = Swarm::with(
        MockProvider::new("dead").always_failing(),
        GatewayConfig::default(),
        CoordinatorConfig::default(),
    );

    let job_id = swarm
        .submit(
            JobRequest::new("This cannot succeed")
                .with_strategy(ExecutionStrategy::Parallel)
                .with_max_agents(2),
        )
        .unwrap();
    let result = swarm.run(job_id).unwrap();

    assert_eq!(result.status, JobStatus::Failed);
    assert_eq!(f32::from_bits(result.confidence_score.bits), 0.0);
    assert!(result.outputs.is_empty());

    let failures = swarm.coordinator.failures(job_id).unwrap();
    assert!(!failures.is_empty());
    assert!(failures.iter().any(|failure| failure.dead_lettered));
    assert!(!swarm.coordinator.queue().dead_letters().unwrap().is_empty());

    // Downstream tasks that could never run were cancelled rather than left hanging.
    let graph = swarm.coordinator.task_graph(job_id).unwrap();
    assert!(graph.iter().all(TaskNode::is_terminal));
    assert!(graph.iter().any(|node| node.state == TaskState::DeadLettered));
}

#[test]
fn duplicate_delivery_of_a_task_does_not_execute_it_twice() {
    // The queue is at-least-once by design, so the guarantee that matters is that a
    // second delivery produces no second execution.
    let mut swarm = Swarm::new();

    let job_id = swarm
        .submit(
            JobRequest::new("Explain quorum intersection")
                .with_strategy(ExecutionStrategy::Sequential)
                .with_max_agents(1),
        )
        .unwrap();

    // Re-enqueue every task a second time, exactly as a redelivering broker would.
    let tasks = swarm.coordinator.task_graph(job_id).unwrap();
    for task in &tasks {
        let mut duplicate = QueuedTask::from_task(task, Priority::Normal, 60_000).unwrap();
        // A redelivery carries the attempt the worker will actually run.
        duplicate.attempt = 0;
        duplicate.idempotency_key = format!("{}#1", task.idempotency_key);
        swarm.coordinator.queue_mut().enqueue(duplicate).unwrap();
    }

    let result = swarm.run(job_id).unwrap();
    assert_eq!(result.status, JobStatus::Completed);

    let results = swarm.coordinator.intermediate_results(job_id).unwrap();
    let unique: HashSet<_> = results.iter().map(|result| result.task_id).collect();
    assert_eq!(unique.len(), results.len(), "no task may report two results");
    let calls = swarm.providers[0].call_count();
    assert!(
        calls <= tasks.len() as u64,
        "{} model calls for {} tasks: work was duplicated",
        calls,
        tasks.len()
    );
}

#[test]
fn cancelling_a_running_job_stops_it_and_purges_its_queue() {
    let mut swarm = Swarm::new();
    let job_id = swarm
        .submit(
            JobRequest::new("A long job that will be interrupted midway through")
                .with_strategy(ExecutionStrategy::Hierarchical)
                .with_max_agents(4),
        )
        .unwrap();

    let (spawned, mut run) = swarm.run_until(job_id, 1);
    swarm.coordinator.cancel(job_id, swarm.now).unwrap();
    let cancelled = swarm.step(job_id, &mut run).unwrap();
    assert_eq!(cancelled, Some(true));

    let result = swarm.finish(job_id, true, spawned).unwrap();
    assert_eq!(result.status, JobStatus::Cancelled);

    let graph = swarm.coordinator.task_graph(job_id).unwrap();
    assert!(
        graph.iter().all(TaskNode::is_terminal),
        "cancellation must leave every task in a terminal state"
    );
    assert!(
        graph.iter().any(|node| node.state != TaskState::Completed),
        "the job should not have finished everything before being cancelled"
    );
    assert_eq!(swarm.coordinator.queue().stats().unwrap().depth(), 0);
}

#[test]
fn pausing_holds_scheduling_until_resumed() {
    let mut swarm = Swarm::new();
    let job_id = swarm
        .submit(
            JobRequest::new("A job that gets paused halfway through its work")
                .with_strategy(ExecutionStrategy::Hierarchical)
                .with_max_agents(3),
        )
        .unwrap();

    let (spawned, mut run) = swarm.run_until(job_id, 1);
    swarm.coordinator.pause(job_id, swarm.now).unwrap();
    assert!(swarm.step(job_id, &mut run).unwrap().is_none());
    let paused = swarm.coordinator.state(job_id).unwrap();
    assert_eq!(paused.status, JobStatus::Paused);

    for _ in 0..5 {
        assert!(swarm.step(job_id, &mut run).unwrap().is_none());
    }
    assert_eq!(
        swarm.coordinator.state(job_id).unwrap().counts.completed,
        paused.counts.completed,
        "no task may start while the job is paused"
    );

    swarm.coordinator.resume(job_id, swarm.now).unwrap();
    let cancelled = loop {
        if let Some(cancelled) = swarm.step(job_id, &mut run).unwrap() {
            break cancelled;
        }
    };
    let result = swarm.finish(job_id, cancelled, spawned).unwrap();
    assert_eq!(result.status, JobStatus::Completed);
}

#[test]
fn the_event_stream_reports_the_whole_lifecycle_in_order() {
    let mut swarm = Swarm::new();
    let job_id = swarm
        .submit(
            JobRequest::new("Summarise the CAP theorem")
                .with_strategy(ExecutionStrategy::Parallel)
                .with_max_agents(2),
        )
        .unwrap();
    swarm.run(job_id).unwrap();

    let mut seen = Vec::new();
    let mut previous_sequence = None;
    for event in swarm.coordinator.take_events(job_id).unwrap() {
        if let Some(previous) = previous_sequence {
            assert!(
                event.sequence_number > previous,
                "event sequence numbers must increase"
            );
        }
        previous_sequence = Some(event.sequence_number);
        assert!((0.0..=1.0).contains(&ratio(event.progress)));
        seen.push(event.kind);
    }

    for expected in [
        JobEventKind::AgentSpawned,
        JobEventKind::TaskQueued,
        JobEventKind::TaskStarted,
        JobEventKind::TaskCompleted,
        JobEventKind::JobFinished,
    ] {
        assert!(seen.contains(&expected), "no {expected:?} event was emitted");
    }
    assert_eq!(seen.last(), Some(&JobEventKind::JobFinished));
}

#[test]
fn a_job_past_its_deadline_stops_spending() {
    let mut swarm = Swarm::new();
    let result = swarm.submit_and_run(
        JobRequest::new("A job with an impossible deadline to meet in time")
            .with_strategy(ExecutionStrategy::Hierarchical)
            .with_max_agents(4),
    );

    // With no deadline it completes; the same job with one in the past must not.
    assert_eq!(result.unwrap().status, JobStatus::Completed);

    let mut request = JobRequest::new("A job whose deadline has already passed entirely")
        .with_strategy(ExecutionStrategy::Hierarchical)
        .with_max_agents(4);
    request.deadline = Some(swarm.now.plus_millis(-1_000));

    let expired = swarm.submit_and_run(request).unwrap();
    assert_ne!(expired.status, JobStatus::Completed);
    assert_eq!(expired.execution_statistics.tasks_succeeded, 0);
}

#[test]
fn a_job_stops_when_its_budget_is_spent() {
    let mut swarm = Swarm::with(
        MockProvider::new("dear").with_pricing(ModelPricing {
            input_per_million: number(1_000_000.0),
            output_per_million: number(1_000_000.0),
        }),
        GatewayConfig::default(),
        CoordinatorConfig::default(),
    );
    let job_id = swarm
        .submit(
            JobRequest::new("A job with little to spend")
                .with_strategy(ExecutionStrategy::Sequential)
                .with_max_agents(2)
                .with_max_cost(number(1.0)),
        )
        .unwrap();
    let result = swarm.run(job_id).unwrap();
    assert_eq!(result.status, JobStatus::PartiallyCompleted);
    assert_eq!(result.execution_statistics.tasks_succeeded, 1);
    let events = swarm.coordinator.take_events(job_id).unwrap();
    assert!(events.iter().any(|event| event.detail == "budget exhausted"));
}

#[test]
fn a_hundred_agents_cooperate_on_one_job() {
    let mut swarm = Swarm::with(
        MockProvider::new("mock"),
        GatewayConfig::default(),
        CoordinatorConfig { max_cluster_agents: 256, ..CoordinatorConfig::default() },
    );

    let result = swarm
        .submit_and_run(
            JobRequest::new(
                "Survey the design space of distributed consensus, replication, \
                 membership, failure detection, and recovery",
            )
            .with_strategy(ExecutionStrategy::Parallel)
            .with_max_agents(100),
        )
        .unwrap();

    assert_eq!(result.status, JobStatus::Completed);
    assert_eq!(
        result.execution_statistics.agents_spawned, 100,
        "the job should have used its whole agent budget"
    );
    assert_eq!(result.execution_statistics.tasks_total, 102);
    assert_eq!(result.execution_statistics.tasks_succeeded, 102);

    // Agents are released back to the cluster budget when the job ends.
    assert_eq!(swarm.coordinator.cluster_agent_count(), 0);
}

#[test]
fn a_cluster_with_no_room_left_starts_no_job() {
    let mut swarm = Swarm::with(
        MockProvider::new("mock"),
        GatewayConfig::default(),
        CoordinatorConfig { max_cluster_agents: 4, ..CoordinatorConfig::default() },
    );
    let first = swarm.submit(JobRequest::new("one").with_max_agents(4)).unwrap();
    let second = swarm.submit(JobRequest::new("two").with_max_agents(4)).unwrap();
    swarm.coordinator.begin(first, swarm.now).unwrap();
    let held = swarm.coordinator.cluster_agent_count();
    let error = swarm.coordinator.begin(second, swarm.now).unwrap_err();
    assert!(matches!(error, SwarmError::QuotaExceeded(_)));
    assert_eq!(swarm.coordinator.cluster_agent_count(), held);
}

#[test]
fn a_job_over_its_tick_budget_is_an_error() {
    let mut swarm = Swarm::with(
        MockProvider::new("mock"),
        GatewayConfig::default(),
        CoordinatorConfig { max_ticks: 1, ..CoordinatorConfig::default() },
    );
    let job_id = swarm.submit(JobRequest::new("too slow")).unwrap();
    let error = swarm.run(job_id).unwrap_err();
    assert_eq!(
        error.to_string(),
        format!(
            "internal error: job {} exceeded its scheduling tick budget",
            job_id.to_string()
        )
    );
}

#[test]
fn a_finished_job_answers_with_its_result() {
    let mut swarm = Swarm::new();
    let job_id = swarm.submit(JobRequest::new("once").with_max_agents(2)).unwrap();
    let first = swarm.run(job_id).unwrap();
    let calls = swarm.providers[0].call_count();
    let again = swarm.run(job_id).unwrap();
    assert_eq!(again.summary, first.summary);
    assert_eq!(swarm.providers[0].call_count(), calls);
}

#[test]
fn the_task_state_machine_refuses_illegal_edges_end_to_end() {
    // A guard against the engine ever "fixing" a stuck task by forcing a state.
    assert!(TaskState::Completed.transition(TaskState::Running).is_err());
    assert!(TaskState::DeadLettered.transition(TaskState::Queued).is_err());
    assert!(TaskState::Queued.transition(TaskState::Completed).is_err());
}

#[test]
fn a_coordinator_that_dies_mid_job_resumes_from_the_journal() {
    // ---- first process: start the job, then die partway through ----
    let mut first = Swarm::new();
    let job_id = first
        .submit(
            JobRequest::new("Survey consensus, replication, and recovery in depth")
                .with_strategy(ExecutionStrategy::Hierarchical)
                .with_max_agents(4),
        )
        .unwrap();
    first.run_until(job_id, 2);
    let interrupted = first.coordinator.state(job_id).unwrap();
    assert!(!interrupted.status.is_finished(), "the job must not be done yet");
    assert!(interrupted.counts.completed >= 2);
    let calls_before_crash = first.providers[0].call_count();
    assert!(calls_before_crash > 0);

    // ---- second process: same journal, fresh everything else ----
    assert!(!first.coordinator.journal().is_empty(), "the journal must have survived");
    let mut second = Swarm::new();
    let recovered = second.recover_from(first.coordinator.journal()).unwrap();
    assert_eq!(recovered, 1, "one job should come back");

    let recovered = second.coordinator.state(job_id).unwrap();
    assert_eq!(
        recovered.status,
        JobStatus::Planning,
        "a recovered job is rewound so the engine can start it again"
    );
    assert!(
        recovered.counts.completed >= 2,
        "completed work must survive the crash"
    );

    // Snapshot what was already done, so we can prove it is not redone.
    let restored = second.coordinator.intermediate_results(job_id).unwrap().clone();
    assert!(!restored.is_empty());

    // ---- resume ----
    let result = second.run(job_id).unwrap();
    assert_eq!(result.status, JobStatus::Completed);
    assert!(!result.summary.is_empty());

    let graph = second.coordinator.task_graph(job_id).unwrap();
    assert!(graph.iter().all(|node| node.state == TaskState::Completed));

    // Every task that had finished before the crash kept its original result: same
    // agent, same timestamp. Resumption, not repetition.
    let after = second.coordinator.intermediate_results(job_id).unwrap();
    for original in &restored {
        let matching = after
            .iter()
            .find(|candidate| candidate.task_id == original.task_id)
            .expect("a restored result disappeared");
        assert_eq!(matching.agent_id, original.agent_id);
        assert_eq!(matching.finished_at, original.finished_at);
        assert_eq!(matching.output, original.output);
    }

    // And the second process only paid for what was left.
    let calls_after = calls_before_crash + second.providers[0].call_count();
    assert!(
        calls_after < calls_before_crash + graph.len() as u64,
        "resuming cost {} calls for {} tasks; work was redone",
        calls_after - calls_before_crash,
        graph.len()
    );
}

#[test]
fn a_finished_job_comes_back_finished_with_its_result_intact() {
    let mut first = Swarm::new();
    let job_id = first
        .submit(
            JobRequest::new("A job that finishes before anything goes wrong").with_max_agents(3),
        )
        .unwrap();
    let original = first.run(job_id).unwrap();

    let mut second = Swarm::new();
    assert_eq!(second.recover_from(first.coordinator.journal()).unwrap(), 1);

    let state = second.coordinator.state(job_id).unwrap();
    assert_eq!(state.status, JobStatus::Completed);
    assert_eq!(ratio(state.progress), 1.0);

    let recovered = second.coordinator.final_result(job_id).unwrap().as_ref().unwrap();
    assert_eq!(recovered.summary, original.summary);
    assert_eq!(recovered.outputs.len(), original.outputs.len());
    assert_eq!(recovered.confidence_score, original.confidence_score);

    // Recovery must not have called the model at all.
    assert_eq!(second.providers[0].call_count(), 0);
}

#[test]
fn several_jobs_recover_independently() {
    let mut submitted = Vec::new();
    let mut first = Swarm::new();
    for index in 0..3 {
        let job_id = first
            .submit(
                JobRequest::new(&format!("Independent objective number {index}"))
                    .with_max_agents(2),
            )
            .unwrap();
        // Only the first is actually run, so the other two recover as unstarted.
        if index == 0 {
            first.run(job_id).unwrap();
        }
        submitted.push(job_id);
    }

    let mut second = Swarm::new();
    assert_eq!(second.recover_from(first.coordinator.journal()).unwrap(), 3);

    assert_eq!(
        second.coordinator.state(submitted[0]).unwrap().status,
        JobStatus::Completed
    );
    for job_id in &submitted[1..] {
        let state = second.coordinator.state(*job_id).unwrap();
        assert_eq!(state.status, JobStatus::Planning);
        assert_eq!(state.counts.completed, 0);

        // An unstarted job recovered from the journal still runs normally.
        assert_eq!(second.run(*job_id).unwrap().status, JobStatus::Completed);
    }
}

#[test]
fn recovering_an_empty_journal_is_a_no_op() {
    let mut swarm = Swarm::new();
    assert_eq!(swarm.recover_from(&MemoryJournal::new()).unwrap(), 0);
    assert!(swarm.coordinator.list_jobs().is_empty());
}

#[test]
fn journalling_is_off_the_critical_path_when_no_file_is_configured() {
    // The in-memory journal keeps the write path identical, so a deployment
    // that does not want durability still exercises the same code.
    let mut swarm = Swarm::new();
    let result = swarm
        .submit_and_run(JobRequest::new("no journal configured").with_max_agents(2))
        .unwrap();
    assert_eq!(result.status, JobStatus::Completed);

    // Recovery from the in-memory journal works within the process's lifetime.
    let replay = swarm.coordinator.replay().unwrap();
    assert_eq!(swarm.recover(replay).unwrap(), 1);
}

#[test]
fn a_log_without_a_plan_brings_nothing_back() {
    let mut first = Swarm::new();
    let job_id = first.submit(JobRequest::new("kept")).unwrap();
    let mut journal = MemoryJournal::new();
    for record in first.coordinator.journal().replay().unwrap() {
        journal.append(&record).unwrap();
    }
    journal
        .append(&JournalRecord::JobStatusChanged {
            job_id: JobId::new(),
            status: JobStatus::Running,
            reason: None,
            at: first.now,
        })
        .unwrap();
    let mut second = Swarm::new();
    assert!(second.recover_from(&journal).is_err());
    assert!(second.coordinator.state(job_id).is_err(), "none comes back where one cannot");
}

#[test]
fn jobs_can_be_listed_newest_first() {
    let mut swarm = Swarm::new();
    for index in 0..3 {
        swarm
            .submit(JobRequest::new(&format!("objective number {index}")).with_max_agents(2))
            .unwrap();
    }
    let jobs = swarm.coordinator.list_jobs();
    assert_eq!(jobs.len(), 3);
    let ids: Vec<JobId> = jobs.iter().map(|job| job.job_id).collect();
    let mut sorted = ids.clone();
    sorted.sort_unstable_by(|left, right| right.cmp(left));
    assert_eq!(ids, sorted);
}

#[test]
fn the_final_result_is_absent_until_the_job_finishes() {
    let mut swarm = Swarm::new();
    let job_id = swarm
        .submit(JobRequest::new("A job to inspect mid-flight").with_max_agents(2))
        .unwrap();
    let raw = job_id.to_string();
    let error = finished_result(&swarm.coordinator, &raw).unwrap_err();
    assert_eq!(error.status(), 404);
    assert_eq!(error.message, format!("unknown finished job `{raw}`"));
    swarm.run(job_id).unwrap();
    assert!(finished_result(&swarm.coordinator, &raw).is_ok());
}

#[test]
fn invalid_submissions_are_rejected_with_a_reason() {
    let mut swarm = Swarm::new();
    let refused = ApiError::from_error(&swarm.submit(JobRequest::new("   ")).unwrap_err());
    assert_eq!(refused.status(), 400);
    assert_eq!(refused.kind, "validation");
    assert!(refused.message.contains("empty"));

    // Over the cluster's agent ceiling.
    let request = JobRequest::new("far too large").with_max_agents(100_000);
    let refused = ApiError::from_error(&swarm.submit(request).unwrap_err());
    assert_eq!(refused.status(), 429);
    assert_eq!(refused.kind, "quota_exceeded");
}

#[test]
fn unknown_and_malformed_job_ids_are_distinguished() {
    let swarm = Swarm::new();
    let missing =
        finished_result(&swarm.coordinator, "019fce00-0000-7000-8000-000000000000").unwrap_err();
    assert_eq!(missing.status(), 404);
    assert_eq!(missing.kind, "not_found");
    let malformed = finished_result(&swarm.coordinator, "nonsense").unwrap_err();
    assert_eq!(malformed.status(), 400);
}

#[test]
fn the_cluster_view_and_metrics_reflect_real_work() {
    let mut swarm = Swarm::new();
    swarm
        .submit_and_run(JobRequest::new("Work that shows up in the metrics").with_max_agents(3))
        .unwrap();
    let now = swarm.now;
    let health = swarm.gateway.health(0, Some(swarm.providers[0].health_check()), now);
    let usage = swarm.gateway.usage();
    let view = cluster(&swarm.coordinator, usage, vec![health], now);
    assert_eq!(view.jobs_total, 1);
    assert_eq!(view.jobs_active, 0);
    assert_eq!(view.cluster_agents, 0, "agents are released when a job ends");
    assert!(view.gateway.requests > 0);
    assert!(!view.providers.is_empty());
    assert_eq!(view.scheduler, "CapabilityWeighted");

    let cost = format!("{}", value(usage.cost_usd));
    let metrics = render(&swarm.coordinator, usage, &cost, now);
    assert!(metrics.contains("swarm_jobs_active 0"));
    assert!(metrics.contains("swarm_jobs_total{status=\"completed\"} 1"));
    assert!(metrics.contains("# TYPE swarm_model_requests_total counter"));
}

#[test]
fn the_exposition_is_well_formed_and_reflects_submitted_work() {
    let mut swarm = Swarm::new();
    swarm.submit(JobRequest::new("measure something").with_max_agents(2)).unwrap();

    let text = render(&swarm.coordinator, swarm.gateway.usage(), "0", swarm.now);

    // Every series must be preceded by its HELP and TYPE lines.
    for line in text.lines().filter(|line| !line.starts_with('#')) {
        let name = line.split([' ', '{']).next().unwrap();
        assert!(
            text.contains(&format!("# HELP {name} ")),
            "series `{name}` has no HELP line"
        );
        assert!(
            text.contains(&format!("# TYPE {name} ")),
            "series `{name}` has no TYPE line"
        );
    }

    assert!(text.contains("swarm_jobs_active 1"));
    assert!(text.contains("swarm_jobs_total{status=\"planning\"} 1"));
    assert!(text.contains("swarm_cost_usd_total 0"));
}

#[test]
fn a_report_shows_how_the_job_ran() {
    let mut swarm = Swarm::new();
    let result = swarm
        .submit_and_run(JobRequest::new("report on this").with_max_agents(2))
        .unwrap();
    let text = report(&result, "0.0123", "0.70");
    assert!(text.starts_with("\n\x1b[1mResult\x1b[0m (completed)\n"));
    assert!(text.contains("  tasks         4/4 succeeded (0 retried, 0 failed)\n"));
    assert!(text.contains("  wall clock    100ms\n"));
    assert!(text.contains("  cost          $0.0123\n"));
    assert!(text.contains("  confidence    0.70\n"));
}

fn task(job_id: JobId) -> TaskNode {
    let mut node = TaskNode::new(
        job_id,
        TaskKind::Work,
        "Investigate Raft leader election",
        "Explain how a leader is chosen.",
        1,
    );
    node.attempt = 1;
    node
}

fn researcher() -> Agent {
    Agent::new(AgentType::Research, NodeId::new())
}

#[test]
fn a_task_runs_and_produces_a_validated_result() {
    let mut swarm = Swarm::new();
    let agent = researcher();
    let task = task(JobId::new());
    let context = TaskContext::new("Understand consensus algorithms");

    let result = swarm.execute(&agent, &task, &context).unwrap();

    assert_eq!(result.task_id, task.id);
    assert_eq!(result.agent_id, agent.id());
    assert_eq!(result.attempt, 1);
    assert!(result.passed_validation());
    assert!(!result.deduplicated);
    assert!(!result.output.is_empty());
    assert!(result.tokens_in > 0 && result.tokens_out > 0);
    assert!(value(result.cost_usd) > 0.0);
    assert!((0.0..=1.0).contains(&f32::from_bits(result.confidence.bits)));
    assert!(!result.evidence.is_empty());
    assert!(!result.reasoning_summary.is_empty());
}

#[test]
fn a_duplicate_delivery_returns_the_first_result_without_calling_the_model() {
    // The core effectively-once guarantee: at-least-once delivery must not become
    // at-least-once execution.
    let mut swarm = Swarm::new();
    let agent = researcher();
    let task = task(JobId::new());
    let context = TaskContext::new("objective");

    let first = swarm.execute(&agent, &task, &context).unwrap();
    assert_eq!(swarm.providers[0].call_count(), 1);

    let second = swarm.execute(&agent, &task, &context).unwrap();
    assert_eq!(
        swarm.providers[0].call_count(),
        1,
        "the duplicate must not reach the model"
    );
    assert!(second.deduplicated);
    assert_eq!(second.output, first.output);
    assert_eq!(second.agent_id, first.agent_id);
}

#[test]
fn a_second_agent_delivered_the_same_task_also_deduplicates() {
    let mut swarm = Swarm::new();
    let task = task(JobId::new());
    let context = TaskContext::new("objective");
    let first = swarm.execute(&researcher(), &task, &context).unwrap();
    let second = swarm.execute(&researcher(), &task, &context).unwrap();

    assert!(second.deduplicated);
    assert_eq!(second.agent_id, first.agent_id, "the original author is kept");
    assert_eq!(swarm.providers[0].call_count(), 1);
}

#[test]
fn validation_failures_are_reported_and_the_result_is_not_published() {
    let mut swarm = Swarm::new();
    let mut task = task(JobId::new());
    task.validation = vec![ValidationRule::MustMention("Byzantine".into())];
    let context = TaskContext::new("objective");

    let result = swarm.execute(&researcher(), &task, &context).unwrap();
    assert!(!result.passed_validation());
    assert_eq!(result.validation_failures.len(), 1);

    // Nothing was published, so a retry is free to run.
    let memory = swarm.coordinator.memory();
    assert!(stored_result(memory, task.job_id, task.id, swarm.now).is_none());
}

#[test]
fn a_retry_of_a_failed_attempt_is_allowed_to_execute() {
    let mut swarm = Swarm::new();
    let agent = researcher();
    let mut task = task(JobId::new());
    task.validation = vec![ValidationRule::MustMention("Byzantine".into())];
    let context = TaskContext::new("objective");

    swarm.execute(&agent, &task, &context).unwrap();
    assert_eq!(swarm.providers[0].call_count(), 1);

    task.attempt = 2;
    task.validation = vec![ValidationRule::NonEmpty];
    let retry = swarm.execute(&agent, &task, &context).unwrap();

    assert_eq!(swarm.providers[0].call_count(), 2, "attempt 2 must really run");
    assert!(retry.passed_validation());
    assert!(!retry.deduplicated);
}

#[test]
fn provider_failure_surfaces_as_an_error_not_a_bad_result() {
    let mut swarm = Swarm::with(
        MockProvider::new("mock").always_failing(),
        GatewayConfig::default(),
        CoordinatorConfig::default(),
    );
    let result =
        swarm.execute(&researcher(), &task(JobId::new()), &TaskContext::new("objective"));
    assert!(matches!(result, Err(SwarmError::Provider { .. })));
}

#[test]
fn an_attempt_held_elsewhere_is_not_executed() {
    let mut swarm = Swarm::new();
    let agent = researcher();
    let task = task(JobId::new());
    let claim = agent.claim_write(&task, serde_json::Value::from(1));
    swarm.coordinator.memory_mut().claim_at(claim, MemoryId::new(), swarm.now).unwrap();
    let error = swarm
        .execute(&researcher(), &task, &TaskContext::new("objective"))
        .unwrap_err();
    assert_eq!(
        error.to_string(),
        format!(
            "internal error: attempt 1 of task {} is already being executed elsewhere",
            task.id.to_string()
        )
    );
    assert_eq!(swarm.providers[0].call_count(), 0);
}

#[test]
fn checkpoints_are_written_so_a_crashed_task_can_be_resumed() {
    let mut swarm = Swarm::new();
    let task = task(JobId::new());
    swarm.execute(&researcher(), &task, &TaskContext::new("objective")).unwrap();

    let prefix = format!("{}/", task.id.to_string());
    let all = swarm
        .coordinator
        .memory()
        .list_at(&ns::checkpoints(task.job_id), &prefix, swarm.now);
    assert_eq!(all.len(), 3, "started, model_responded, completed");

    let latest = latest_checkpoint(&all).unwrap();
    assert_eq!(all[latest].value, serde_json::Value::from("completed"));
    assert_eq!(all[latest].key, format!("{prefix}1/2"));
}

#[test]
fn upstream_outputs_reach_the_prompt_but_stay_bounded() {
    let task = task(JobId::new());
    let context = TaskContext::new("the objective").with_upstream(vec![UpstreamOutput {
        task_id: TaskId::new(),
        title: "Prior finding".into(),
        output: "x".repeat(5_000),
    }]);

    let prompt = render_prompt(&task, &context);
    assert!(prompt.starts_with("Task: Investigate Raft leader election"));
    assert!(prompt.contains("Objective: the objective"));
    assert!(prompt.contains("## Prior finding"));
    assert!(
        prompt.len() < 3_000,
        "a long upstream output must be truncated, got {} bytes",
        prompt.len()
    );
}

#[test]
fn prose_responses_are_handled_when_a_provider_ignores_json_mode() {
    let mut swarm = Swarm::with(
        MockProvider::new("mock").scripted("Task:", "Just some prose, no JSON here."),
        GatewayConfig::default(),
        CoordinatorConfig::default(),
    );
    let result = swarm
        .execute(&researcher(), &task(JobId::new()), &TaskContext::new("objective"))
        .unwrap();

    assert_eq!(result.output, "Just some prose, no JSON here.");
    assert_eq!(f32::from_bits(result.confidence.bits), 0.5);
    assert!(result.evidence.is_empty());
    assert!(result.passed_validation(), "NonEmpty still holds");
}

#[test]
fn every_task_kind_maps_to_an_agent_type_that_can_serve_it() {
    for kind in [
        TaskKind::Plan,
        TaskKind::Subplan,
        TaskKind::Work,
        TaskKind::MapStep,
        TaskKind::Reduce,
        TaskKind::Answer,
        TaskKind::Critique,
        TaskKind::Verify,
        TaskKind::Judge,
        TaskKind::Vote,
        TaskKind::Merge,
        TaskKind::Summarize,
        TaskKind::Supervise,
    ] {
        let agent_type = agent_type_for(kind);
        for capability in kind.required_capabilities() {
            assert!(
                agent_type.capabilities().contains(capability),
                "{agent_type:?} cannot serve {kind:?} (missing {capability:?})"
            );
        }
    }
}

#[test]
fn system_prompts_ask_for_the_structure_the_parser_expects() {
    for agent_type in AgentType::all() {
        let prompt = system_prompt(*agent_type);
        assert!(prompt.contains("summary"));
        assert!(prompt.contains("confidence"));
        assert!(prompt.contains("reasoning_summary"));
    }
}

#[test]
fn concurrent_jobs_share_the_cluster_without_interfering() {
    let mut swarm = Swarm::new();

    let mut runs = Vec::new();
    for index in 0..4 {
        let request = JobRequest::new(&format!("Independent objective number {index}"))
            .with_strategy(ExecutionStrategy::Parallel)
            .with_max_agents(3);
        let job_id = swarm.submit(request).unwrap();
        let Start::Running(spawned) = swarm.coordinator.begin(job_id, swarm.now).unwrap() else {
            panic!("the job is over");
        };
        runs.push((job_id, spawned, Run { ticks: 0, paused: false }, false));
    }

    let mut left = runs.len();
    while left > 0 {
        for (job_id, spawned, run, over) in runs.iter_mut() {
            if *over {
                continue;
            }
            if let Some(cancelled) = swarm.step(*job_id, run).unwrap() {
                let result = swarm.finish(*job_id, cancelled, *spawned).unwrap();
                assert_eq!(result.status, JobStatus::Completed);
                *over = true;
                left -= 1;
            }
        }
    }
    assert_eq!(swarm.coordinator.cluster_agent_count(), 0);
}

fn finishes_under<S: Scheduler>(kind: SchedulerKind, scheduler: S) {
    let mut swarm = Swarm::placing(
        MockProvider::new("mock"),
        GatewayConfig::default(),
        CoordinatorConfig { scheduler: kind, ..CoordinatorConfig::default() },
        scheduler,
    );
    let result = swarm
        .submit_and_run(
            JobRequest::new("Compare scheduling strategies under load")
                .with_strategy(ExecutionStrategy::MapReduce)
                .with_max_agents(6),
        )
        .unwrap();
    assert_eq!(result.status, JobStatus::Completed);
}

#[test]
fn round_robin_and_least_loaded_finish_the_same_job() {
    finishes_under(SchedulerKind::RoundRobin, RoundRobin::default());
    finishes_under(SchedulerKind::LeastLoaded, LeastLoaded);
}

/// What a scheduler was asked and told.
#[derive(Default)]
struct Log {
    picks: Vec<(TaskId, AgentId)>,
    outcomes: Vec<SchedulingOutcome>,
}

/// Takes the last agent that will do, and writes down what it is asked and told.
struct LastFit {
    log: Rc<RefCell<Log>>,
}

impl Scheduler for LastFit {
    fn name(&self) -> &'static str {
        "last_fit"
    }

    fn select(&mut self, task: &TaskNode, agents: &[AgentDescriptor]) -> Option<AgentId> {
        let id = candidates(task, agents).last().map(|index| agents[*index].id)?;
        self.log.borrow_mut().picks.push((task.id, id));
        Some(id)
    }

    fn observe(&mut self, outcome: SchedulingOutcome) {
        self.log.borrow_mut().outcomes.push(outcome);
    }
}

#[test]
fn tasks_go_where_the_scheduler_puts_them() {
    let log = Rc::new(RefCell::new(Log::default()));
    let mut swarm = Swarm::placing(
        MockProvider::new("mock"),
        GatewayConfig::default(),
        CoordinatorConfig::default(),
        LastFit { log: Rc::clone(&log) },
    );
    let job_id = swarm
        .submit(
            JobRequest::new("Compare consensus algorithms")
                .with_strategy(ExecutionStrategy::Parallel)
                .with_max_agents(4),
        )
        .unwrap();
    swarm.coordinator.begin(job_id, swarm.now).unwrap();
    let mut run = Run { ticks: 0, paused: false };
    // The plan comes first, on its own.
    assert_eq!(swarm.step(job_id, &mut run).unwrap(), None);
    assert_eq!(log.borrow().picks.len(), 1);

    let Tick::Execute(dispatches) = swarm.coordinator.tick(job_id, &mut run, swarm.now).unwrap()
    else {
        panic!("nothing to run");
    };
    let placed: Vec<(TaskId, AgentId)> =
        dispatches.iter().map(|d| (d.task.id, d.agent.id())).collect();
    assert!(placed.len() > 1);
    assert_eq!(placed, log.borrow().picks[1..]);
}

#[test]
fn the_scheduler_is_told_how_every_attempt_went() {
    let log = Rc::new(RefCell::new(Log::default()));
    let mut swarm = Swarm::placing(
        MockProvider::new("mock").failing_first(1),
        GatewayConfig { max_attempts: 1, ..GatewayConfig::default() },
        CoordinatorConfig::default(),
        LastFit { log: Rc::clone(&log) },
    );
    let result = swarm
        .submit_and_run(
            JobRequest::new("Compare consensus algorithms")
                .with_strategy(ExecutionStrategy::Parallel)
                .with_max_agents(3),
        )
        .unwrap();
    assert_eq!(result.status, JobStatus::Completed);

    let log = log.borrow();
    let told: Vec<AgentId> = log.outcomes.iter().map(|outcome| outcome.agent_id).collect();
    let placed: Vec<AgentId> = log.picks.iter().map(|(_, agent)| *agent).collect();
    assert_eq!(told, placed);
    assert!(!log.outcomes[0].succeeded);
    assert_eq!(log.outcomes[0].latency_ms, 0);
    for outcome in &log.outcomes[1..] {
        assert!(outcome.succeeded);
        assert_eq!(outcome.latency_ms, 7);
    }
}

#[test]
fn a_task_that_waits_for_a_retry_is_cancelled_from_the_queue() {
    let mut swarm = Swarm::with(
        MockProvider::new("mock").failing_first(1),
        GatewayConfig { max_attempts: 1, ..GatewayConfig::default() },
        CoordinatorConfig::default(),
    );
    let job_id = swarm
        .submit(
            JobRequest::new("Explain consensus algorithms")
                .with_strategy(ExecutionStrategy::Sequential),
        )
        .unwrap();
    let Start::Running(spawned) = swarm.coordinator.begin(job_id, swarm.now).unwrap() else {
        panic!("the job is over");
    };
    let mut run = Run { ticks: 0, paused: false };
    assert_eq!(swarm.step(job_id, &mut run).unwrap(), None);
    let waiting = swarm
        .coordinator
        .task_graph(job_id)
        .unwrap()
        .into_iter()
        .find(|node| node.state == TaskState::RetryScheduled)
        .expect("a task that waits for a retry");

    swarm.coordinator.cancel(job_id, swarm.now).unwrap();
    assert_eq!(swarm.step(job_id, &mut run).unwrap(), Some(true));
    let result = swarm.finish(job_id, true, spawned).unwrap();
    assert_eq!(result.status, JobStatus::Cancelled);

    let graph = swarm.coordinator.task_graph(job_id).unwrap();
    assert!(graph.iter().all(TaskNode::is_terminal));
    assert!(graph
        .iter()
        .any(|node| node.id == waiting.id && node.state == TaskState::Cancelled));
    let trail = swarm.coordinator.transitions(job_id).unwrap();
    let at = trail
        .iter()
        .position(|change| change.from == Some(TaskState::RetryScheduled))
        .unwrap();
    assert_eq!(trail[at].to, TaskState::Queued);
    assert_eq!(trail[at + 1].from, Some(TaskState::Queued));
    assert_eq!(trail[at + 1].to, TaskState::Cancelled);
}

#[test]
fn an_entry_of_another_job_is_left_in_the_queue() {
    let mut swarm = Swarm::new();
    let stranger = TaskNode::new(JobId::new(), TaskKind::Work, "not yours", "do it", 0);
    let entry = QueuedTask::from_task(&stranger, Priority::Critical, 30_000).unwrap();
    swarm.coordinator.queue_mut().enqueue(entry).unwrap();

    let result = swarm
        .submit_and_run(
            JobRequest::new("Compare consensus algorithms")
                .with_strategy(ExecutionStrategy::Parallel)
                .with_max_agents(3),
        )
        .unwrap();
    assert_eq!(result.status, JobStatus::Completed);

    let stats = swarm.coordinator.queue().stats().unwrap();
    assert_eq!(stats.depth(), 1);
    assert_eq!((stats.leased, stats.dead_lettered), (0, 0));
    let lease = swarm.coordinator.queue_mut().dequeue("worker".into()).unwrap().unwrap();
    assert_eq!(lease.task.task_id, stranger.id);
    assert_eq!(lease.task.attempt, 1);
}

#[test]
fn a_job_goes_by_the_names_it_is_given() {
    let mut swarm = Swarm::new();
    let request = || {
        JobRequest::new("Explain consensus algorithms").with_strategy(ExecutionStrategy::Sequential)
    };
    let total = fresh_names(&request()).len();
    let names: Vec<TaskId> = (1..=total as u128).map(TaskId::from_uuid).collect();
    let job_id = JobId::from_uuid(7);
    let correlation_id = CorrelationId::from_uuid(8);

    let repeated = vec![names[0]; total];
    let err = swarm
        .coordinator
        .submit_named(request(), job_id, correlation_id, &repeated, swarm.now)
        .unwrap_err();
    assert_eq!(
        err.to_string(),
        format!("internal error: task {} is already in the graph", names[0].to_string())
    );
    assert_eq!(swarm.coordinator.job_count(), 0);

    let filed = swarm
        .coordinator
        .submit_named(request(), job_id, correlation_id, &names, swarm.now)
        .unwrap();
    assert_eq!(filed, job_id);
    let mut planned: Vec<TaskId> = swarm
        .coordinator
        .task_graph(job_id)
        .unwrap()
        .iter()
        .map(|node| node.id)
        .collect();
    planned.sort();
    assert_eq!(planned, names);
    assert_eq!(swarm.coordinator.journal().len(), 1);
    assert_eq!(swarm.coordinator.take_events(job_id).unwrap().len(), 2);

    let err = swarm
        .coordinator
        .submit_named(JobRequest::new("  "), job_id, correlation_id, &Vec::new(), swarm.now)
        .unwrap_err();
    assert!(matches!(err, SwarmError::Validation(_)));
    assert_eq!(swarm.coordinator.job_count(), 1);
}
