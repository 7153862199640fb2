//! What an execution comes to: the lease is settled, the task moves on, and everything that
//! learns from it is told.

use crate::agent::{count_one, counted, AgentStatus, AgentView};
use crate::clock::Timestamp;
use crate::dispatch::{find_agent, first_named, lemma_state_elsewhere, Dispatch, DispatchView};
use crate::error::{outcome, ErrorView, SwarmError};
use crate::figures::{Real32, Real64, ZERO_BITS};
use crate::gateway::summed;
use crate::handle::{pool_views, HandleView, JobEventKind, JobHandle};
use crate::ids::{AgentId, TaskId};
use crate::job::ExecutionStatistics;
use crate::journal::{JournalRecord, RecordView};
use crate::queue::{InMemoryQueue, QueueView};
use crate::schedule::{Scheduler, SchedulingOutcome};
use crate::state::StateMachine;
use crate::task::{failure_views, result_views, TaskFailure, TaskFailureView, TaskNode, TaskResult,
    TaskResultView, TaskState, TaskView};
use crate::text::{clone_strings, decimal, decimal_text, join, joined, views};
use vstd::prelude::*;
use vstd::string::*;

verus! {

/// What came of running a task.
#[derive(Debug)]
pub enum Outcome {
    /// The agent handed back a result.
    Finished(TaskResult),
    /// The agent failed.
    Failed(SwarmError),
    /// The task ran out of time.
    TimedOut,
}

/// What an outcome holds.
pub enum OutcomeView {
    /// The agent handed back a result.
    Finished(TaskResultView),
    /// The agent failed.
    Failed(ErrorView),
    /// The task ran out of time.
    TimedOut,
}

impl View for Outcome {
    type V = OutcomeView;

    open spec fn view(&self) -> OutcomeView {
        match self {
            Outcome::Finished(result) => OutcomeView::Finished(result@),
            Outcome::Failed(error) => OutcomeView::Failed(error@),
            Outcome::TimedOut => OutcomeView::TimedOut,
        }
    }
}

/// The figures that an outcome changes, worked out for either way it can go.
#[derive(Clone, Copy, Debug, PartialEq, Eq, Structural)]
pub struct Estimates {
    /// The agent's rolling success rate after one more success.
    pub rate_after_success: Real32,
    /// The agent's rolling success rate after one more failure.
    pub rate_after_failure: Real32,
    /// The job's spend with this result.
    pub cost_usd: Real64,
}

impl AgentView {
    /// The agent back in the pool after an attempt.
    pub open spec fn rested(
        self,
        succeeded: bool,
        latency_ms: u64,
        success_rate: Real32,
        now: Timestamp,
    ) -> AgentView {
        let ended = if succeeded {
            AgentStatus::Completed
        } else {
            AgentStatus::Failed
        };
        let settled = if self.status.edges().contains(ended) {
            ended
        } else {
            self.status
        };
        AgentView {
            status: if settled.edges().contains(AgentStatus::Idle) {
                AgentStatus::Idle
            } else {
                settled
            },
            current_task: None,
            current_load: Real32 { bits: ZERO_BITS },
            ..self
        }.after_attempt(succeeded, latency_ms, success_rate, now)
    }
}

/// A pool after one of its agents finished an attempt.
pub open spec fn pool_after(
    agents: Seq<AgentView>,
    id: AgentId,
    succeeded: bool,
    latency_ms: u64,
    estimates: Estimates,
    now: Timestamp,
) -> Seq<AgentView> {
    match first_named(agents, id, 0) {
        Some(at) => agents.update(
            at as int,
            agents[at as int].rested(
                succeeded,
                latency_ms,
                if succeeded {
                    estimates.rate_after_success
                } else {
                    estimates.rate_after_failure
                },
                now,
            ),
        ),
        None => agents,
    }
}

/// Return an agent to the idle pool, updating its reliability stats and feeding the outcome
/// back to the scheduler.
pub fn release_agent<S: Scheduler>(
    handle: &mut JobHandle,
    scheduler: &mut S,
    agent: AgentId,
    succeeded: bool,
    latency_ms: u64,
    queue_wait_ms: u64,
    estimates: Estimates,
    now: Timestamp,
)
    requires
        old(handle).wf(),
    ensures
        final(handle).wf(),
        final(handle)@ == (HandleView {
            agents: pool_after(old(handle)@.agents, agent, succeeded, latency_ms, estimates, now),
            ..old(handle)@
        }),
        S::learns(
            *old(scheduler),
            SchedulingOutcome { agent_id: agent, succeeded, latency_ms, queue_wait_ms },
            *final(scheduler),
        ),
{
    let ghost entry = handle@;
    scheduler.observe(SchedulingOutcome { agent_id: agent, succeeded, latency_ms, queue_wait_ms });
    let at: usize = match find_agent(&handle.agents, agent) {
        Some(at) => at,
        None => {
            assert(handle@ =~= HandleView { agents: entry.agents, ..entry });
            return ;
        },
    };
    assert(entry.agents[at as int] == handle.agents@[at as int]@);
    let ended = if succeeded {
        AgentStatus::Completed
    } else {
        AgentStatus::Failed
    };
    let mut pooled = handle.agents[at].clone();
    if pooled.descriptor.status.can_transition_to(ended) {
        pooled.descriptor.status = ended;
    }
    if pooled.descriptor.status.can_transition_to(AgentStatus::Idle) {
        pooled.descriptor.status = AgentStatus::Idle;
    }
    pooled.descriptor.current_task = None;
    pooled.descriptor.current_load = Real32::zero();
    let rate = if succeeded {
        estimates.rate_after_success
    } else {
        estimates.rate_after_failure
    };
    pooled.descriptor.record_attempt(succeeded, latency_ms, rate, now);
    assert(pooled@ == entry.agents[at as int].rested(succeeded, latency_ms, rate, now));
    handle.agents.set(at, pooled);
    assert(pool_views(handle.agents@) =~= entry.agents.update(at as int, pooled@));
    assert(handle@ =~= HandleView {
        agents: pool_after(entry.agents, agent, succeeded, latency_ms, estimates, now),
        ..entry
    });
}

impl HandleView {
    /// With a successful result on the books.
    pub open spec fn succeeded(
        self,
        agent: AgentId,
        result: TaskResultView,
        queue_wait_ms: u64,
        estimates: Estimates,
        now: Timestamp,
    ) -> HandleView {
        let s = self.statistics;
        HandleView {
            agents: pool_after(self.agents, agent, true, result.duration_ms, estimates, now),
            statistics: ExecutionStatistics {
                tasks_succeeded: counted(s.tasks_succeeded),
                tokens_in: summed(s.tokens_in, result.tokens_in),
                tokens_out: summed(s.tokens_out, result.tokens_out),
                cost_usd: estimates.cost_usd,
                queue_wait_ms_total: summed(s.queue_wait_ms_total, queue_wait_ms),
                scheduling_decisions: counted(s.scheduling_decisions),
                model_cache_hits: if result.deduplicated {
                    counted(s.model_cache_hits)
                } else {
                    s.model_cache_hits
                },
                model_requests: if result.deduplicated {
                    s.model_requests
                } else {
                    counted(s.model_requests)
                },
                ..s
            },
            latencies: self.latencies.push(result.duration_ms),
            results: self.results.push(result),
            ..self
        }.noted(RecordView::TaskCompleted { job_id: self.job.id, result })
    }

    /// With a failed attempt on the books: the task is retried, or given up.
    pub open spec fn failed(
        self,
        task: TaskView,
        failure_state: TaskState,
        error_kind: Seq<char>,
        error_message: Seq<char>,
        retryable: bool,
        validation_failures: Seq<Seq<char>>,
        actor: Seq<char>,
        now: Timestamp,
    ) -> HandleView {
        let next = if retryable {
            TaskState::RetryScheduled
        } else {
            TaskState::DeadLettered
        };
        let moved = self.advanced(task.id, failure_state, actor, error_kind, now).advanced(
            task.id,
            next,
            actor,
            error_kind,
            now,
        );
        let failure = TaskFailureView {
            task_id: task.id,
            title: task.title,
            attempt: task.attempt,
            error_kind,
            error_message,
            dead_lettered: !retryable,
            validation_failures,
            at: now,
        };
        let booked = HandleView {
            failures: moved.failures.push(failure),
            statistics: ExecutionStatistics {
                model_requests: counted(moved.statistics.model_requests),
                tasks_retried: if retryable {
                    counted(moved.statistics.tasks_retried)
                } else {
                    moved.statistics.tasks_retried
                },
                tasks_failed: if retryable {
                    moved.statistics.tasks_failed
                } else {
                    counted(moved.statistics.tasks_failed)
                },
                ..moved.statistics
            },
            ..moved
        }.noted(RecordView::TaskFailed { job_id: self.job.id, failure });
        booked.emitted(
            if retryable {
                JobEventKind::TaskRetrying
            } else {
                JobEventKind::TaskDeadLettered
            },
            Some(task.id),
            if retryable {
                task.title + ": "@ + error_message
            } else {
                task.title + " gave up after "@ + decimal(task.attempt as nat) + " attempts: "@
                    + error_message
            },
            booked.progress(),
            now,
        )
    }
}

/// Store a successful result and update everything that learns from it.
pub fn record_success<S: Scheduler>(
    handle: &mut JobHandle,
    scheduler: &mut S,
    agent: AgentId,
    result: &TaskResult,
    queue_wait_ms: u64,
    estimates: Estimates,
    now: Timestamp,
)
    requires
        old(handle).wf(),
    ensures
        final(handle).wf(),
        final(handle)@ == old(handle)@.succeeded(agent, result@, queue_wait_ms, estimates, now),
        S::learns(
            *old(scheduler),
            SchedulingOutcome {
                agent_id: agent,
                succeeded: true,
                latency_ms: result@.duration_ms,
                queue_wait_ms,
            },
            *final(scheduler),
        ),
{
    let ghost entry = handle@;
    release_agent(
        handle,
        scheduler,
        agent,
        true,
        result.duration_ms,
        queue_wait_ms,
        estimates,
        now,
    );
    handle.statistics.tasks_succeeded = count_one(handle.statistics.tasks_succeeded);
    handle.statistics.tokens_in = handle.statistics.tokens_in.saturating_add(result.tokens_in);
    handle.statistics.tokens_out = handle.statistics.tokens_out.saturating_add(result.tokens_out);
    handle.statistics.cost_usd = estimates.cost_usd;
    handle.statistics.queue_wait_ms_total = handle.statistics.queue_wait_ms_total.saturating_add(
        queue_wait_ms,
    );
    handle.statistics.scheduling_decisions = count_one(handle.statistics.scheduling_decisions);
    if result.deduplicated {
        handle.statistics.model_cache_hits = count_one(handle.statistics.model_cache_hits);
    } else {
        handle.statistics.model_requests = count_one(handle.statistics.model_requests);
    }
    handle.latencies.push(result.duration_ms);
    handle.results.push(result.clone());
    let job_id = handle.job.id;
    assert(result_views(handle.results@) =~= entry.results.push(result@));
    handle.note(JournalRecord::TaskCompleted { job_id, result: Box::new(result.clone()) });
    assert(handle@ =~= entry.succeeded(agent, result@, queue_wait_ms, estimates, now));
}

/// A failed attempt can be retried or given up.
proof fn lemma_after_failure(state: TaskState)
    requires
        state == TaskState::Failed || state == TaskState::TimedOut,
    ensures
        state.edges().contains(TaskState::RetryScheduled),
        state.edges().contains(TaskState::DeadLettered),
        !state.unqueued(),
{
    assert(state.edges()[0] == TaskState::RetryScheduled);
    assert(state.edges()[1] == TaskState::DeadLettered);
}

/// Move a failed task to its next state and record the failure.
pub fn fail_task(
    handle: &mut JobHandle,
    task: &TaskNode,
    failure_state: TaskState,
    error_kind: &str,
    error_message: &str,
    retryable: bool,
    validation_failures: Vec<String>,
    actor: &str,
    now: Timestamp,
) -> (r: Result<(), SwarmError>)
    requires
        old(handle).wf(),
        failure_state == TaskState::Failed || failure_state == TaskState::TimedOut,
    ensures
        final(handle).wf(),
        match r {
            Ok(_) => {
                &&& old(handle)@.graph.state_refusal(task@.id, failure_state) is None
                &&& final(handle)@ == old(handle)@.failed(
                    task@,
                    failure_state,
                    error_kind@,
                    error_message@,
                    retryable,
                    views(validation_failures@),
                    actor@,
                    now,
                )
            },
            Err(error) => {
                &&& old(handle)@.graph.state_refusal(task@.id, failure_state) == Some(error@)
                &&& final(handle)@ == old(handle)@
            },
        },
{
    let ghost entry = handle@;
    let task_id = task.id;
    proof {
        lemma_after_failure(failure_state);
        handle.graph.lemma_wf();
    }
    match handle.advance(task_id, failure_state, actor, error_kind, now) {
        Ok(_) => {},
        Err(error) => {
            return Err(error);
        },
    }
    proof {
        handle.graph.lemma_wf();
        lemma_state_elsewhere(entry.graph, task_id, failure_state);
    }
    let next = if retryable {
        TaskState::RetryScheduled
    } else {
        TaskState::DeadLettered
    };
    let _ = handle.advance(task_id, next, actor, error_kind, now);
    let ghost moved = handle@;
    let failure = TaskFailure {
        task_id,
        title: task.title.clone(),
        attempt: task.attempt,
        error_kind: error_kind.to_owned(),
        error_message: error_message.to_owned(),
        dead_lettered: !retryable,
        validation_failures,
        at: now,
    };
    let copy = failure.clone();
    handle.failures.push(failure);
    assert(failure_views(handle.failures@) =~= moved.failures.push(failure@));
    handle.statistics.model_requests = count_one(handle.statistics.model_requests);
    if retryable {
        handle.statistics.tasks_retried = count_one(handle.statistics.tasks_retried);
    } else {
        handle.statistics.tasks_failed = count_one(handle.statistics.tasks_failed);
    }
    let job_id = handle.job.id;
    handle.note(JournalRecord::TaskFailed { job_id, failure: Box::new(copy) });
    let mut detail = task.title.clone();
    if retryable {
        detail.append(": ");
    } else {
        detail.append(" gave up after ");
        detail.append(decimal_text(task.attempt as u64).as_str());
        detail.append(" attempts: ");
    }
    detail.append(error_message);
    let progress = handle.progress();
    let kind = if retryable {
        JobEventKind::TaskRetrying
    } else {
        JobEventKind::TaskDeadLettered
    };
    handle.emit(kind, Some(task_id), detail, progress, now);
    assert(handle@ =~= entry.failed(
        task@,
        failure_state,
        error_kind@,
        error_message@,
        retryable,
        views(validation_failures@),
        actor@,
        now,
    ));
    Ok(())
}

/// Seconds in milliseconds, as far as the count goes.
pub open spec fn in_millis(seconds: u64) -> u64 {
    if seconds * 1_000 > u64::MAX {
        u64::MAX
    } else {
        (seconds * 1_000) as u64
    }
}

/// Where a job, the queue, and an operation on them stand.
#[verifier::ext_equal]
pub struct Applied {
    /// The job.
    pub handle: HandleView,
    /// The queue.
    pub queue: QueueView,
    /// Whether the operation went through.
    pub result: Result<(), ErrorView>,
}

/// What a failed attempt comes to, once its lease is settled.
pub open spec fn lost(
    h: HandleView,
    q: QueueView,
    dispatch: DispatchView,
    latency_ms: u64,
    failure_state: TaskState,
    error_kind: Seq<char>,
    error_message: Seq<char>,
    retryable: bool,
    validation_failures: Seq<Seq<char>>,
    estimates: Estimates,
    actor: Seq<char>,
    now: Timestamp,
) -> Applied {
    let rested = HandleView {
        agents: pool_after(h.agents, dispatch.agent.id, false, latency_ms, estimates, now),
        ..h
    };
    match rested.graph.state_refusal(dispatch.task.id, failure_state) {
        Some(error) => Applied { handle: rested, queue: q, result: Err(error) },
        None => Applied {
            handle: rested.failed(
                dispatch.task,
                failure_state,
                error_kind,
                error_message,
                retryable,
                validation_failures,
                actor,
                now,
            ),
            queue: q,
            result: Ok(()),
        },
    }
}

/// What an execution comes to.
#[verifier::opaque]
pub open spec fn applied(
    h: HandleView,
    q: QueueView,
    dispatch: DispatchView,
    outcome: OutcomeView,
    estimates: Estimates,
    actor: Seq<char>,
    now: Timestamp,
) -> Applied {
    let lease = dispatch.lease.lease_id;
    let task = dispatch.task;
    let retryable = dispatch.lease.task.attempt < dispatch.lease.task.retry.max_attempts;
    match outcome {
        OutcomeView::Finished(result) => if result.passed() {
            match q.acknowledged(lease, now) {
                (queue, Ok(_)) => match h.graph.state_refusal(task.id, TaskState::Completed) {
                    Some(error) => Applied { handle: h, queue, result: Err(error) },
                    None => {
                        let booked = h.advanced(
                            task.id,
                            TaskState::Completed,
                            actor,
                            "validated"@,
                            now,
                        ).succeeded(
                            dispatch.agent.id,
                            result,
                            dispatch.queue_wait_ms,
                            estimates,
                            now,
                        );
                        Applied {
                            handle: booked.emitted(
                                JobEventKind::TaskCompleted,
                                Some(task.id),
                                task.title + " in "@ + decimal(result.duration_ms as nat) + "ms"@,
                                booked.progress(),
                                now,
                            ),
                            queue,
                            result: Ok(()),
                        }
                    },
                },
                (queue, Err(error)) => lost(
                    h,
                    queue,
                    dispatch,
                    result.duration_ms,
                    TaskState::Failed,
                    "lease_lost"@,
                    error.message(),
                    retryable,
                    seq![],
                    estimates,
                    actor,
                    now,
                ),
            }
        } else {
            let detail = joined(result.validation_failures, "; "@);
            lost(
                h,
                q.rejected(lease, "validation failed: "@ + detail, now).0,
                dispatch,
                result.duration_ms,
                TaskState::Failed,
                "validation_failed"@,
                detail,
                retryable,
                result.validation_failures,
                estimates,
                actor,
                now,
            )
        },
        OutcomeView::Failed(error) => lost(
            h,
            q.rejected(lease, error.message(), now).0,
            dispatch,
            0,
            TaskState::Failed,
            error.label(),
            error.message(),
            retryable && error.retryable(),
            seq![],
            estimates,
            actor,
            now,
        ),
        OutcomeView::TimedOut => lost(
            h,
            q.rejected(
                lease,
                "timed out after "@ + decimal(in_millis(task.timeout_seconds) as nat) + "ms"@,
                now,
            ).0,
            dispatch,
            in_millis(task.timeout_seconds),
            TaskState::TimedOut,
            "timeout"@,
            "exceeded "@ + decimal(task.timeout_seconds as nat) + "s"@,
            retryable,
            seq![],
            estimates,
            actor,
            now,
        ),
    }
}

/// What the scheduler is told of an execution: how the placement turned out, unless the task
/// could not be completed any more.
#[verifier::opaque]
pub open spec fn lesson(
    h: HandleView,
    q: QueueView,
    dispatch: DispatchView,
    outcome: OutcomeView,
    now: Timestamp,
) -> Option<SchedulingOutcome> {
    let (succeeded, latency_ms) = match outcome {
        OutcomeView::Finished(result) => (
            result.passed() && q.acknowledged(dispatch.lease.lease_id, now).1 is Ok,
            result.duration_ms,
        ),
        OutcomeView::Failed(_) => (false, 0),
        OutcomeView::TimedOut => (false, in_millis(dispatch.task.timeout_seconds)),
    };
    if succeeded && h.graph.state_refusal(dispatch.task.id, TaskState::Completed) is Some {
        None
    } else {
        Some(
            SchedulingOutcome {
                agent_id: dispatch.agent.id,
                succeeded,
                latency_ms,
                queue_wait_ms: dispatch.queue_wait_ms,
            },
        )
    }
}

/// Whether a scheduler may stand at `after` once it was told a lesson. It stays as it is where
/// there was none.
pub open spec fn told<S: Scheduler>(
    before: S,
    lesson: Option<SchedulingOutcome>,
    after: S,
) -> bool {
    match lesson {
        Some(outcome) => S::learns(before, outcome, after),
        None => after == before,
    }
}

/// Put a failed attempt on the books, once its lease is settled.
fn lose<S: Scheduler>(
    handle: &mut JobHandle,
    scheduler: &mut S,
    dispatch: &Dispatch,
    latency_ms: u64,
    failure_state: TaskState,
    error_kind: &str,
    error_message: &str,
    retryable: bool,
    validation_failures: Vec<String>,
    estimates: Estimates,
    actor: &str,
    now: Timestamp,
    Ghost(q): Ghost<QueueView>,
) -> (r: Result<(), SwarmError>)
    requires
        old(handle).wf(),
        failure_state == TaskState::Failed || failure_state == TaskState::TimedOut,
    ensures
        final(handle).wf(),
        lost(
            old(handle)@,
            q,
            dispatch@,
            latency_ms,
            failure_state,
            error_kind@,
            error_message@,
            retryable,
            views(validation_failures@),
            estimates,
            actor@,
            now,
        ) == (Applied { handle: final(handle)@, queue: q, result: outcome(r) }),
        S::learns(
            *old(scheduler),
            SchedulingOutcome {
                agent_id: dispatch@.agent.id,
                succeeded: false,
                latency_ms,
                queue_wait_ms: dispatch@.queue_wait_ms,
            },
            *final(scheduler),
        ),
{
    release_agent(
        handle,
        scheduler,
        dispatch.agent.descriptor.id,
        false,
        latency_ms,
        dispatch.queue_wait_ms,
        estimates,
        now,
    );
    fail_task(
        handle,
        &dispatch.task,
        failure_state,
        error_kind,
        error_message,
        retryable,
        validation_failures,
        actor,
        now,
    )
}

/// Apply one execution outcome: acknowledge or reject the lease, move the task, and update
/// the agent's reliability stats.
pub fn apply_outcome<S: Scheduler>(
    handle: &mut JobHandle,
    queue: &mut InMemoryQueue,
    scheduler: &mut S,
    dispatch: &Dispatch,
    outcome_of_run: Outcome,
    estimates: Estimates,
    actor: &str,
    now: Timestamp,
) -> (r: Result<(), SwarmError>)
    requires
        old(handle).wf(),
        old(queue)@.wf(),
    ensures
        final(handle).wf(),
        final(queue)@.wf(),
        applied(
            old(handle)@,
            old(queue)@,
            dispatch@,
            outcome_of_run@,
            estimates,
            actor@,
            now,
        ) == (Applied { handle: final(handle)@, queue: final(queue)@, result: outcome(r) }),
        told(
            *old(scheduler),
            lesson(old(handle)@, old(queue)@, dispatch@, outcome_of_run@, now),
            *final(scheduler),
        ),
{
    proof {
        reveal(applied);
        reveal(lesson);
    }
    let ghost entry = handle@;
    let lease_id = dispatch.lease.lease_id;
    let task_id = dispatch.task.id;
    let retryable = dispatch.lease.task.retry.allows_retry(dispatch.lease.task.attempt);
    let none: Vec<String> = Vec::new();
    assert(views(none@) =~= seq![]);
    match outcome_of_run {
        Outcome::Finished(result) => {
            if result.passed_validation() {
                match queue.acknowledge_at(lease_id, now) {
                    Ok(_) => {
                        match handle.advance(
                            task_id,
                            TaskState::Completed,
                            actor,
                            "validated",
                            now,
                        ) {
                            Ok(_) => {},
                            Err(error) => {
                                return Err(error);
                            },
                        }
                        record_success(
                            handle,
                            scheduler,
                            dispatch.agent.descriptor.id,
                            &result,
                            dispatch.queue_wait_ms,
                            estimates,
                            now,
                        );
                        let mut detail = dispatch.task.title.clone();
                        detail.append(" in ");
                        detail.append(decimal_text(result.duration_ms).as_str());
                        detail.append("ms");
                        let progress = handle.progress();
                        handle.emit(
                            JobEventKind::TaskCompleted,
                            Some(task_id),
                            detail,
                            progress,
                            now,
                        );
                        Ok(())
                    },
                    Err(error) => {
                        // The lease expired while we were working, so another agent may
                        // already have redone the task. Fail the attempt rather than
                        // claiming a completion we no longer own.
                        let message = error.to_string();
                        lose(
                            handle,
                            scheduler,
                            dispatch,
                            result.duration_ms,
                            TaskState::Failed,
                            "lease_lost",
                            message.as_str(),
                            retryable,
                            none,
                            estimates,
                            actor,
                            now,
                            Ghost(queue@),
                        )
                    },
                }
            } else {
                let detail = join(&result.validation_failures, "; ");
                let mut reason = "validation failed: ".to_owned();
                reason.append(detail.as_str());
                let _ = queue.reject_at(lease_id, reason, now);
                lose(
                    handle,
                    scheduler,
                    dispatch,
                    result.duration_ms,
                    TaskState::Failed,
                    "validation_failed",
                    detail.as_str(),
                    retryable,
                    clone_strings(&result.validation_failures),
                    estimates,
                    actor,
                    now,
                    Ghost(queue@),
                )
            }
        },
        Outcome::Failed(error) => {
            let message = error.to_string();
            let _ = queue.reject_at(lease_id, message.clone(), now);
            lose(
                handle,
                scheduler,
                dispatch,
                0,
                TaskState::Failed,
                error.kind(),
                message.as_str(),
                retryable && error.is_retryable(),
                none,
                estimates,
                actor,
                now,
                Ghost(queue@),
            )
        },
        Outcome::TimedOut => {
            let seconds: u64 = dispatch.task.timeout_seconds;
            let timeout_ms: u64 = if seconds > u64::MAX / 1_000 {
                u64::MAX
            } else {
                seconds * 1_000
            };
            let mut reason = "timed out after ".to_owned();
            reason.append(decimal_text(timeout_ms).as_str());
            reason.append("ms");
            let _ = queue.reject_at(lease_id, reason, now);
            let mut message = "exceeded ".to_owned();
            message.append(decimal_text(seconds).as_str());
            message.append("s");
            lose(
                handle,
                scheduler,
                dispatch,
                timeout_ms,
                TaskState::TimedOut,
                "timeout",
                message.as_str(),
                retryable,
                none,
                estimates,
                actor,
                now,
                Ghost(queue@),
            )
        },
    }
}

/// The scheduler learns how every placement turned out: which agent ran the task, how long the
/// task had waited, and that it succeeded exactly where a result passed every check and its
/// lease was acknowledged.
pub proof fn law_the_scheduler_learns_of_every_attempt(
    h: HandleView,
    q: QueueView,
    dispatch: DispatchView,
    outcome: OutcomeView,
    now: Timestamp,
)
    requires
        h.graph.state_refusal(dispatch.task.id, TaskState::Completed) is None,
    ensures
        lesson(h, q, dispatch, outcome, now) matches Some(told) && {
            &&& told.agent_id == dispatch.agent.id
            &&& told.queue_wait_ms == dispatch.queue_wait_ms
            &&& told.succeeded == (outcome matches OutcomeView::Finished(result) && result.passed()
                && q.acknowledged(dispatch.lease.lease_id, now).1 is Ok)
            &&& outcome matches OutcomeView::Finished(result) ==> told.latency_ms
                == result.duration_ms
        },
{
    reveal(lesson);
}

/// A failed attempt ends in exactly one of two ways: the task waits for another attempt, or
/// it is given up.
pub proof fn law_a_failure_is_retried_or_given_up(
    h: HandleView,
    task: TaskView,
    failure_state: TaskState,
    error_kind: Seq<char>,
    error_message: Seq<char>,
    retryable: bool,
    validation_failures: Seq<Seq<char>>,
    actor: Seq<char>,
    now: Timestamp,
)
    requires
        h.graph.distinct(),
        h.graph.has(task.id),
    ensures
        h.failed(
            task,
            failure_state,
            error_kind,
            error_message,
            retryable,
            validation_failures,
            actor,
            now,
        ).graph.task(task.id).state == if retryable {
            TaskState::RetryScheduled
        } else {
            TaskState::DeadLettered
        },
{
    lemma_state_elsewhere(h.graph, task.id, failure_state);
    lemma_state_elsewhere(
        h.graph.with_state(task.id, failure_state),
        task.id,
        if retryable {
            TaskState::RetryScheduled
        } else {
            TaskState::DeadLettered
        },
    );
}

/// A result whose lease was lost is not counted: nothing completes without an acknowledged
/// lease.
pub proof fn law_nothing_completes_without_its_lease(
    h: HandleView,
    q: QueueView,
    dispatch: DispatchView,
    outcome: OutcomeView,
    estimates: Estimates,
    actor: Seq<char>,
    now: Timestamp,
)
    requires
        q.acknowledged(dispatch.lease.lease_id, now).1 is Err,
    ensures
        applied(h, q, dispatch, outcome, estimates, actor, now).handle.results == h.results,
{
    reveal(applied);
}

/// A validated result whose claim still stands is kept: the task is completed, the result is the
/// last one on the books with its tokens, its latency, and its wait, and the claim is settled.
pub proof fn law_a_validated_result_is_kept(
    h: HandleView,
    q: QueueView,
    dispatch: DispatchView,
    result: TaskResultView,
    estimates: Estimates,
    actor: Seq<char>,
    now: Timestamp,
)
    requires
        h.graph.distinct(),
        h.graph.has(dispatch.task.id),
        h.graph.state_refusal(dispatch.task.id, TaskState::Completed) is None,
        q.acknowledged(dispatch.lease.lease_id, now).1 is Ok,
        result.validation_failures.len() == 0,
        h.statistics.tasks_succeeded < u64::MAX,
        h.statistics.tokens_in + result.tokens_in <= u64::MAX,
        h.statistics.tokens_out + result.tokens_out <= u64::MAX,
        h.statistics.queue_wait_ms_total + dispatch.queue_wait_ms <= u64::MAX,
        h.statistics.model_cache_hits < u64::MAX,
        h.statistics.model_requests < u64::MAX,
    ensures
        ({
            let done = applied(
                h,
                q,
                dispatch,
                OutcomeView::Finished(result),
                estimates,
                actor,
                now,
            );
            let after = done.handle;
            &&& done.result is Ok
            &&& after.graph.task(dispatch.task.id).state == TaskState::Completed
            &&& forall|other: TaskId|
                other != dispatch.task.id && h.graph.has(other) ==> #[trigger] after.graph.task(
                    other,
                ) == h.graph.task(other)
            &&& after.results == h.results.push(result)
            &&& after.failures == h.failures
            &&& after.latencies == h.latencies.push(result.duration_ms)
            &&& after.statistics.tasks_succeeded == h.statistics.tasks_succeeded + 1
            &&& after.statistics.tasks_failed == h.statistics.tasks_failed
            &&& after.statistics.tasks_retried == h.statistics.tasks_retried
            &&& after.statistics.tokens_in == h.statistics.tokens_in + result.tokens_in
            &&& after.statistics.tokens_out == h.statistics.tokens_out + result.tokens_out
            &&& after.statistics.queue_wait_ms_total == h.statistics.queue_wait_ms_total
                + dispatch.queue_wait_ms
            &&& after.statistics.cost_usd == estimates.cost_usd
            &&& after.statistics.model_cache_hits == h.statistics.model_cache_hits + (if result.deduplicated { 1int } else { 0 })
            &&& after.statistics.model_requests == h.statistics.model_requests + (if result.deduplicated { 0int } else { 1 })
            &&& done.queue == q.acknowledged(dispatch.lease.lease_id, now).0
        }),
{
    reveal(applied);
    lemma_state_elsewhere(h.graph, dispatch.task.id, TaskState::Completed);
}

/// An attempt that did not produce a validated result leaves no result behind: the failure is on
/// the books with the attempt, the task waits for another attempt as long as its budget and the
/// error allow it, and is given up otherwise.
pub proof fn law_an_attempt_without_a_result_is_a_failure(
    h: HandleView,
    q: QueueView,
    dispatch: DispatchView,
    outcome: OutcomeView,
    estimates: Estimates,
    actor: Seq<char>,
    now: Timestamp,
)
    requires
        h.graph.distinct(),
        h.graph.has(dispatch.task.id),
        outcome is Finished ==> outcome->Finished_0.validation_failures.len() > 0,
        h.graph.state_refusal(dispatch.task.id, TaskState::Failed) is None,
        h.graph.state_refusal(dispatch.task.id, TaskState::TimedOut) is None,
        h.statistics.tasks_failed < u64::MAX,
        h.statistics.tasks_retried < u64::MAX,
        h.statistics.model_requests < u64::MAX,
    ensures
        ({
            let done = applied(h, q, dispatch, outcome, estimates, actor, now);
            let after = done.handle;
            let again = dispatch.lease.task.attempt < dispatch.lease.task.retry.max_attempts && (
            outcome is Failed ==> outcome->Failed_0.retryable());
            let failure = after.failures.last();
            &&& done.result is Ok
            &&& after.results == h.results
            &&& after.latencies == h.latencies
            &&& after.failures.len() == h.failures.len() + 1
            &&& failure.task_id == dispatch.task.id
            &&& failure.attempt == dispatch.task.attempt
            &&& failure.dead_lettered == !again
            &&& failure.at == now
            &&& outcome is Finished ==> failure.validation_failures
                == outcome->Finished_0.validation_failures
            &&& outcome is Failed ==> failure.error_message == outcome->Failed_0.message()
            &&& after.graph.task(dispatch.task.id).state == if again {
                TaskState::RetryScheduled
            } else {
                TaskState::DeadLettered
            }
            &&& after.statistics.tasks_succeeded == h.statistics.tasks_succeeded
            &&& after.statistics.tasks_retried == h.statistics.tasks_retried + (if again { 1int } else { 0 })
            &&& after.statistics.tasks_failed == h.statistics.tasks_failed + (if again { 0int } else { 1 })
            &&& after.statistics.model_requests == h.statistics.model_requests + 1
            &&& done.queue.ready.len() + done.queue.dead.len() + done.queue.leases.len()
                == q.ready.len() + q.dead.len() + q.leases.len()
        }),
{
    reveal(applied);
    let again = dispatch.lease.task.attempt < dispatch.lease.task.retry.max_attempts && (
    outcome is Failed ==> outcome->Failed_0.retryable());
    let ended = if outcome is TimedOut {
        TaskState::TimedOut
    } else {
        TaskState::Failed
    };
    let end = if again {
        TaskState::RetryScheduled
    } else {
        TaskState::DeadLettered
    };
    lemma_state_elsewhere(h.graph, dispatch.task.id, ended);
    lemma_state_elsewhere(h.graph.with_state(dispatch.task.id, ended), dispatch.task.id, end);
    if q.has_lease(dispatch.lease.lease_id) {
        assert(q.holds_at(dispatch.lease.lease_id, q.lease_at(dispatch.lease.lease_id)));
    }
}

/// Whoever worked on an attempt is free of it afterwards, with the attempt on record, and nobody
/// else is touched.
pub proof fn law_only_the_worker_is_freed(
    agents: Seq<AgentView>,
    id: AgentId,
    succeeded: bool,
    latency_ms: u64,
    estimates: Estimates,
    now: Timestamp,
    i: int,
)
    requires
        0 <= i < agents.len(),
        forall|a: int, b: int|
            0 <= a < b < agents.len() ==> (#[trigger] agents[a]).id != (#[trigger] agents[b]).id,
        agents[i].tasks_completed < u64::MAX,
        agents[i].tasks_failed < u64::MAX,
    ensures
        ({
            let after = pool_after(agents, id, succeeded, latency_ms, estimates, now);
            &&& after.len() == agents.len()
            &&& agents[i].id != id ==> after[i] == agents[i]
            &&& agents[i].id == id ==> {
                &&& after[i].id == id
                &&& after[i].current_task is None
                &&& after[i].current_load.bits == 0
                &&& after[i].last_active_at == now
                &&& after[i].tasks_completed == agents[i].tasks_completed + (if succeeded { 1int } else { 0 })
                &&& after[i].tasks_failed == agents[i].tasks_failed + (if succeeded { 0int } else { 1 })
            }
        }),
{
    lemma_found_named(agents, id, 0, i);
}

/// The position found for a name is one that goes by it, and is found where there is one.
proof fn lemma_found_named(agents: Seq<AgentView>, id: AgentId, from: nat, i: int)
    requires
        from <= i < agents.len(),
    ensures
        first_named(agents, id, from) matches Some(at) ==> from <= at < agents.len()
            && agents[at as int].id == id,
        agents[i].id == id ==> first_named(agents, id, from) is Some,
    decreases agents.len() - from,
{
    if agents[from as int].id != id && from < i {
        lemma_found_named(agents, id, from + 1, i);
    } else if agents[from as int].id != id {
        lemma_named_found(agents, id, from + 1);
    }
}

/// The position found for a name is one that goes by it.
proof fn lemma_named_found(agents: Seq<AgentView>, id: AgentId, from: nat)
    ensures
        first_named(agents, id, from) matches Some(at) ==> from <= at < agents.len()
            && agents[at as int].id == id,
    decreases agents.len() - from,
{
    if from < agents.len() && agents[from as int].id != id {
        lemma_named_found(agents, id, from + 1);
    }
}

} // verus!
