//! What the HTTP front door answers.
//!
//! Every failure the API can produce is a platform error, so the mapping onto status codes lives
//! in one place: a caller can tell a bad request from an over-quota one from a provider outage
//! by status code alone, and gets the machine-readable `kind` either way.

use crate::coordinator::{lists_jobs, no_job, Coordinator, JobStateView};
use crate::error::{ErrorView, SwarmError};
use crate::gateway::Usage;
use crate::ids::{parsed_form, JobId};
use crate::job::{FinalResult, JobStatus};
use crate::model::ProviderHealth;
use crate::queue::QueueStats;
use crate::schedule::{Scheduler, SchedulerKind};
use crate::clock::Timestamp;
use vstd::prelude::*;
use vstd::string::*;

verus! {

/// An error rendered as an HTTP response.
#[derive(Debug)]
pub struct ApiError {
    /// The status code.
    pub status: u16,
    /// A stable machine-readable label.
    pub kind: &'static str,
    /// What to tell the caller.
    pub message: String,
}

/// What an error response says.
pub struct ApiErrorView {
    /// The status code.
    pub status: u16,
    /// A stable machine-readable label.
    pub kind: Seq<char>,
    /// What to tell the caller.
    pub message: Seq<char>,
}

impl View for ApiError {
    type V = ApiErrorView;

    open spec fn view(&self) -> ApiErrorView {
        ApiErrorView { status: self.status, kind: self.kind@, message: self.message@ }
    }
}

/// The status code an error is served with.
pub open spec fn status_of(error: ErrorView) -> u16 {
    match error {
        ErrorView::NotFound { .. } => 404,
        ErrorView::Validation(_) => 400,
        ErrorView::InvalidId { .. } => 400,
        ErrorView::UnknownDependency { .. } => 400,
        ErrorView::CyclicGraph { .. } => 400,
        ErrorView::InvalidTransition { .. } => 400,
        ErrorView::QuotaExceeded(_) => 429,
        ErrorView::RateLimited { .. } => 429,
        ErrorView::BudgetExceeded(_) => 402,
        ErrorView::Cancelled(_) => 409,
        ErrorView::VersionConflict { .. } => 409,
        ErrorView::Timeout { .. } => 504,
        ErrorView::Provider { .. } => 502,
        ErrorView::CircuitOpen { .. } => 502,
        _ => 500,
    }
}

impl ApiErrorView {
    /// The response to a platform error.
    pub open spec fn about(error: ErrorView) -> ApiErrorView {
        ApiErrorView { status: status_of(error), kind: error.label(), message: error.message() }
    }

    /// The response to a request that makes no sense.
    pub open spec fn bad_request(message: Seq<char>) -> ApiErrorView {
        ApiErrorView { status: 400, kind: "bad_request"@, message }
    }

    /// The response to a request for what is not there.
    pub open spec fn not_found(kind: Seq<char>, id: Seq<char>) -> ApiErrorView {
        ApiErrorView {
            status: 404,
            kind: "not_found"@,
            message: "unknown "@ + kind + " `"@ + id + "`"@,
        }
    }
}

impl ApiError {
    /// A `400 Bad Request` with a custom message.
    pub fn bad_request(message: String) -> (r: Self)
        ensures
            r@ == ApiErrorView::bad_request(message@),
    {
        ApiError { status: 400, kind: "bad_request", message }
    }

    /// A `404 Not Found` for a named resource.
    pub fn not_found(kind: &str, id: &str) -> (r: Self)
        ensures
            r@ == ApiErrorView::not_found(kind@, id@),
    {
        let mut message = "unknown ".to_owned();
        message.append(kind);
        message.append(" `");
        message.append(id);
        message.append("`");
        ApiError { status: 404, kind: "not_found", message }
    }

    /// The status this error will be served with.
    pub fn status(&self) -> (r: u16)
        ensures
            r == self@.status,
    {
        self.status
    }

    /// The response to a platform error.
    pub fn from_error(error: &SwarmError) -> (r: Self)
        ensures
            r@ == ApiErrorView::about(error@),
    {
        let status: u16 = match error {
            SwarmError::NotFound { .. } => 404,
            SwarmError::Validation(_)
            | SwarmError::InvalidId { .. }
            | SwarmError::UnknownDependency { .. }
            | SwarmError::CyclicGraph { .. }
            | SwarmError::InvalidTransition { .. } => 400,
            SwarmError::QuotaExceeded(_) | SwarmError::RateLimited { .. } => 429,
            SwarmError::BudgetExceeded(_) => 402,
            SwarmError::Cancelled(_) | SwarmError::VersionConflict { .. } => 409,
            SwarmError::Timeout { .. } => 504,
            SwarmError::Provider { .. } | SwarmError::CircuitOpen { .. } => 502,
            SwarmError::Queue(_)
            | SwarmError::Memory(_)
            | SwarmError::Config(_)
            | SwarmError::Internal(_) => 500,
        };
        ApiError { status, kind: error.kind(), message: error.to_string() }
    }
}

/// A fault of the caller is never served as a fault of the server, nor the other way round: the
/// code says whose it is for every error there is.
pub proof fn law_faults_are_told_apart(error: ErrorView)
    ensures
        status_of(error) >= 500 <==> {
            ||| error is Timeout
            ||| error is Provider
            ||| error is CircuitOpen
            ||| error is Queue
            ||| error is Memory
            ||| error is Config
            ||| error is Internal
        },
        400 <= status_of(error) < 600,
{
}

/// Parse a path segment into a job id, rejecting garbage with `400` rather than `404`.
pub fn job_id(raw: &str) -> (r: Result<JobId, ApiError>)
    ensures
        match r {
            Ok(id) => parsed_form(raw@, "job"@) == Ok::<u128, Seq<char>>(id.value),
            Err(error) => parsed_form(raw@, "job"@) is Err && error@ == ApiErrorView::bad_request(
                "`"@ + raw@ + "` is not a job id"@,
            ),
        },
{
    match JobId::from_str(raw) {
        Ok(id) => Ok(id),
        Err(_) => {
            let mut message = "`".to_owned();
            message.append(raw);
            message.append("` is not a job id");
            Err(ApiError::bad_request(message))
        },
    }
}

/// Liveness and build information.
#[derive(Debug)]
pub struct Health {
    /// Always `ok` when the process is serving.
    pub status: &'static str,
    /// Version of the running binary.
    pub version: &'static str,
    /// Seconds since the process started serving.
    pub uptime_seconds: u64,
}

impl Health {
    /// The answer of a process that is serving.
    pub fn serving(version: &'static str, uptime_seconds: u64) -> (r: Self)
        ensures
            r.status@ == "ok"@,
            r.version@ == version@,
            r.uptime_seconds == uptime_seconds,
    {
        Health { status: "ok", version, uptime_seconds }
    }
}

/// The response to a successful submission.
#[derive(Clone, Copy, Debug, PartialEq, Eq, Structural)]
pub struct SubmitResponse {
    /// Identifier to poll and stream with.
    pub job_id: JobId,
    /// Status at the moment of admission.
    pub status: JobStatus,
    /// How many tasks the objective compiled into.
    pub tasks_planned: usize,
}

impl SubmitResponse {
    /// The response that goes with the first snapshot of a job.
    pub fn of(planned: &JobStateView) -> (r: Self)
        ensures
            r == (SubmitResponse {
                job_id: planned.job_id,
                status: planned.status,
                tasks_planned: planned.counts.total,
            }),
    {
        SubmitResponse {
            job_id: planned.job_id,
            status: planned.status,
            tasks_planned: planned.counts.total,
        }
    }
}

/// How many of some jobs have not finished.
pub open spec fn active_count(jobs: Seq<JobStateView>) -> nat
    decreases jobs.len(),
{
    if jobs.len() == 0 {
        0
    } else {
        active_count(jobs.drop_last()) + if jobs.last().status.finished() {
            0nat
        } else {
            1nat
        }
    }
}

/// How many of some jobs have not finished.
pub fn count_active(jobs: &Vec<JobStateView>) -> (r: usize)
    ensures
        r == active_count(jobs@),
        r <= jobs@.len(),
{
    let mut count: usize = 0;
    assert(jobs@.take(0) =~= seq![]);
    for i in 0..jobs.len()
        invariant
            count == active_count(jobs@.take(i as int)),
            count <= i,
    {
        assert(jobs@.take(i + 1).drop_last() =~= jobs@.take(i as int));
        if !jobs[i].status.is_finished() {
            count = count + 1;
        }
    }
    assert(jobs@.take(jobs@.len() as int) =~= jobs@);
    count
}

/// How many of some jobs have a status.
pub open spec fn status_count(jobs: Seq<JobStateView>, status: JobStatus) -> nat
    decreases jobs.len(),
{
    if jobs.len() == 0 {
        0
    } else {
        status_count(jobs.drop_last(), status) + if jobs.last().status == status {
            1nat
        } else {
            0nat
        }
    }
}

/// How many of some jobs have a status.
pub fn count_status(jobs: &Vec<JobStateView>, status: JobStatus) -> (r: usize)
    ensures
        r == status_count(jobs@, status),
        r <= jobs@.len(),
{
    let mut count: usize = 0;
    assert(jobs@.take(0) =~= seq![]);
    for i in 0..jobs.len()
        invariant
            count == status_count(jobs@.take(i as int), status),
            count <= i,
    {
        assert(jobs@.take(i + 1).drop_last() =~= jobs@.take(i as int));
        if jobs[i].status == status {
            count = count + 1;
        }
    }
    assert(jobs@.take(jobs@.len() as int) =~= jobs@);
    count
}

/// The name a placement strategy is shown under.
pub open spec fn placement_name(kind: SchedulerKind) -> Seq<char> {
    match kind {
        SchedulerKind::RoundRobin => "RoundRobin"@,
        SchedulerKind::LeastLoaded => "LeastLoaded"@,
        SchedulerKind::CapabilityWeighted => "CapabilityWeighted"@,
        SchedulerKind::Adaptive => "Adaptive"@,
    }
}

/// A snapshot of the whole coordinator, for operators and the dashboard.
#[derive(Debug)]
pub struct ClusterView {
    /// Node this coordinator runs on.
    pub node_id: String,
    /// Placement strategy in force.
    pub scheduler: String,
    /// Agents allocated right now.
    pub cluster_agents: usize,
    /// Ceiling on concurrently allocated agents.
    pub max_cluster_agents: usize,
    /// Jobs that have not finished.
    pub jobs_active: usize,
    /// Jobs known to this coordinator.
    pub jobs_total: usize,
    /// Queue health.
    pub queue: QueueStats,
    /// Tasks parked after exhausting their retries.
    pub dead_letters: usize,
    /// Model spend so far.
    pub gateway: Usage,
    /// Per-provider health, including breaker state.
    pub providers: Vec<ProviderHealth>,
}

/// A snapshot of the whole coordinator at `now`. Spend and provider health come from its
/// gateway.
pub fn cluster<S: Scheduler>(
    coordinator: &Coordinator<S>,
    gateway: Usage,
    providers: Vec<ProviderHealth>,
    now: Timestamp,
) -> (r: ClusterView)
    requires
        coordinator.wf(),
    ensures
        r.node_id@ == coordinator@.config.node_id.text(),
        r.scheduler@ == placement_name(coordinator@.config.scheduler),
        r.cluster_agents == coordinator@.cluster_agents,
        r.max_cluster_agents == coordinator@.config.max_cluster_agents,
        exists|jobs: Seq<JobStateView>| #[trigger]
            lists_jobs(coordinator@, jobs) && r.jobs_active == active_count(jobs) && r.jobs_total
                == jobs.len(),
        r.queue == coordinator@.queue.stats(now),
        r.dead_letters == coordinator@.queue.dead.len(),
        r.gateway == gateway,
        r.providers == providers,
{
    let jobs = coordinator.list_jobs();
    let config = coordinator.config();
    let scheduler = match config.scheduler {
        SchedulerKind::RoundRobin => "RoundRobin",
        SchedulerKind::LeastLoaded => "LeastLoaded",
        SchedulerKind::CapabilityWeighted => "CapabilityWeighted",
        SchedulerKind::Adaptive => "Adaptive",
    };
    let stats = coordinator.queue().stats_at(now);
    ClusterView {
        node_id: config.node_id.to_string(),
        scheduler: scheduler.to_owned(),
        cluster_agents: coordinator.cluster_agent_count(),
        max_cluster_agents: config.max_cluster_agents,
        jobs_active: count_active(&jobs),
        jobs_total: jobs.len(),
        queue: stats,
        dead_letters: stats.dead_lettered,
        gateway,
        providers,
    }
}

/// The final result of the job a path segment names, or `404` while it is still running.
pub fn finished_result<'a, S: Scheduler>(coordinator: &'a Coordinator<S>, raw: &str) -> (r: Result<
    &'a FinalResult,
    ApiError,
>)
    requires
        coordinator.wf(),
    ensures
        match parsed_form(raw@, "job"@) {
            Err(_) => r matches Err(error) && error@ == ApiErrorView::bad_request(
                "`"@ + raw@ + "` is not a job id"@,
            ),
            Ok(value) => {
                let id = JobId { value };
                if !coordinator@.has(id) {
                    r matches Err(error) && error@ == ApiErrorView::about(no_job(id))
                } else {
                    match coordinator@.job(id).final_result {
                        Some(result) => r matches Ok(found) && found@ == result,
                        None => r matches Err(error) && error@ == ApiErrorView::not_found(
                            "finished job"@,
                            raw@,
                        ),
                    }
                }
            },
        },
{
    let id = match job_id(raw) {
        Ok(id) => id,
        Err(error) => {
            return Err(error);
        },
    };
    match coordinator.final_result(id) {
        Ok(Some(result)) => Ok(result),
        Ok(None) => Err(ApiError::not_found("finished job", raw)),
        Err(error) => Err(ApiError::from_error(&error)),
    }
}

/// Jobs are counted once by their status, and the active ones are those of the statuses that are
/// not final.
pub proof fn law_every_job_is_counted(jobs: Seq<JobStateView>)
    ensures
        active_count(jobs) == status_count(jobs, JobStatus::Submitted) + status_count(
            jobs,
            JobStatus::Admitted,
        ) + status_count(jobs, JobStatus::Planning) + status_count(jobs, JobStatus::Running)
            + status_count(jobs, JobStatus::Paused) + status_count(jobs, JobStatus::Aggregating),
        active_count(jobs) + status_count(jobs, JobStatus::Completed) + status_count(
            jobs,
            JobStatus::PartiallyCompleted,
        ) + status_count(jobs, JobStatus::Failed) + status_count(jobs, JobStatus::Cancelled)
            + status_count(jobs, JobStatus::Rejected) == jobs.len(),
    decreases jobs.len(),
{
    if jobs.len() > 0 {
        law_every_job_is_counted(jobs.drop_last());
    }
}

/// An error is answered in its own words, and one whose caller is to blame with a status that
/// says so.
pub proof fn law_errors_are_passed_on(error: ErrorView)
    ensures
        ApiErrorView::about(error).message == error.message(),
        ApiErrorView::about(error).kind == error.label(),
        ApiErrorView::about(error).status == status_of(error),
        400 <= status_of(error) < 600,
        error is NotFound <==> status_of(error) == 404,
        error is BudgetExceeded <==> status_of(error) == 402,
        error is QuotaExceeded || error is RateLimited <==> status_of(error) == 429,
        error is Cancelled || error is VersionConflict <==> status_of(error) == 409,
        error is Timeout <==> status_of(error) == 504,
        error is Provider || error is CircuitOpen <==> status_of(error) == 502,
{
}

} // verus!
