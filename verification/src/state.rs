//! Explicit state machines for jobs, tasks, leases, agents, and nodes.
//!
//! Every legal edge is declared in one place, illegal edges are refused with a typed
//! error, and every accepted edge produces a [`Transition`] record for the audit
//! trail. Nothing in the platform mutates a lifecycle field directly.

use crate::agent::{AgentStatus, NodeStatus};
use crate::clock::Timestamp;
use crate::error::{ErrorView, SwarmError};
use crate::ids::CorrelationId;
use crate::job::JobStatus;
use crate::task::TaskState;
use crate::text::{clone_option, option_view};
use vstd::prelude::*;

verus! {

/// A lifecycle whose legal transitions are known at compile time.
pub trait StateMachine: Copy + PartialEq + std::fmt::Debug + 'static + Sized {
    /// Entity label used in errors, metrics, and the transition journal.
    const ENTITY: &'static str;

    /// States reachable in one step from `self`.
    spec fn edges(self) -> Seq<Self>;

    /// The name of the state, as written in errors.
    spec fn spelled(self) -> Seq<char>;

    /// States reachable in one step from `self`.
    fn allowed(self) -> (r: &'static [Self])
        ensures
            r@ == self.edges(),
    ;

    /// The name of the state, as written in errors.
    fn name(self) -> (r: &'static str)
        ensures
            r@ == self.spelled(),
    ;

    /// Whether two states are the same.
    fn same(self, other: Self) -> (r: bool)
        ensures
            r == (self == other),
    ;

    /// Whether no further transition is possible.
    fn is_terminal(self) -> (r: bool)
        ensures
            r == (self.edges().len() == 0),
    {
        self.allowed().len() == 0
    }

    /// Whether `to` is reachable in one step.
    fn can_transition_to(self, to: Self) -> (r: bool)
        ensures
            r == self.edges().contains(to),
    {
        let allowed = self.allowed();
        for i in 0..allowed.len()
            invariant
                allowed@ == self.edges(),
                forall|k: int| 0 <= k < i ==> allowed@[k] != to,
        {
            if allowed[i].same(to) {
                assert(self.edges()[i as int] == to);
                return true;
            }
        }
        false
    }

    /// Take the edge to `to`, or fail if it does not exist.
    fn transition(self, to: Self) -> (r: Result<Self, SwarmError>)
        ensures
            match r {
                Ok(next) => next == to && self.edges().contains(to),
                Err(error) => !self.edges().contains(to) && error@ == (
                ErrorView::InvalidTransition {
                    entity: Self::ENTITY@,
                    from: self.spelled(),
                    to: to.spelled(),
                }),
            },
    {
        if self.can_transition_to(to) {
            Ok(to)
        } else {
            Err(
                SwarmError::InvalidTransition {
                    entity: Self::ENTITY,
                    from: self.name().to_owned(),
                    to: to.name().to_owned(),
                },
            )
        }
    }
}

/// Lifecycle of a task lease held by a worker.
#[derive(Clone, Copy, Debug, PartialEq, Eq, Structural, Hash)]
pub enum LeaseState {
    /// Freshly granted at dequeue.
    Held,
    /// Extended because the worker reported progress.
    Extended,
    /// Acknowledged; the task is done.
    Released,
    /// Negatively acknowledged; the task retries or dead-letters.
    Rejected,
    /// Visibility timeout elapsed; the task is available to another worker.
    Expired,
}

impl LeaseState {
    /// Whether the lease still confers the right to acknowledge the task.
    pub open spec fn active(self) -> bool {
        self == LeaseState::Held || self == LeaseState::Extended
    }

    /// Whether the lease still confers the right to acknowledge the task.
    pub fn is_active(self) -> (r: bool)
        ensures
            r == self.active(),
    {
        matches!(self, Self::Held | Self::Extended)
    }
}

impl StateMachine for LeaseState {
    const ENTITY: &'static str = "lease";

    open spec fn edges(self) -> Seq<Self> {
        match self {
            LeaseState::Held => seq![
                LeaseState::Extended,
                LeaseState::Released,
                LeaseState::Rejected,
                LeaseState::Expired,
            ],
            LeaseState::Extended => seq![
                LeaseState::Extended,
                LeaseState::Released,
                LeaseState::Rejected,
                LeaseState::Expired,
            ],
            LeaseState::Released | LeaseState::Rejected | LeaseState::Expired => seq![],
        }
    }

    open spec fn spelled(self) -> Seq<char> {
        match self {
            LeaseState::Held => "Held"@,
            LeaseState::Extended => "Extended"@,
            LeaseState::Released => "Released"@,
            LeaseState::Rejected => "Rejected"@,
            LeaseState::Expired => "Expired"@,
        }
    }

    fn allowed(self) -> (r: &'static [Self]) {
        let r: &'static [Self] = match self {
            Self::Held => &[Self::Extended, Self::Released, Self::Rejected, Self::Expired],
            Self::Extended => &[Self::Extended, Self::Released, Self::Rejected, Self::Expired],
            Self::Released | Self::Rejected | Self::Expired => &[],
        };
        assert(r@ =~= self.edges());
        r
    }

    fn name(self) -> (r: &'static str) {
        match self {
            Self::Held => "Held",
            Self::Extended => "Extended",
            Self::Released => "Released",
            Self::Rejected => "Rejected",
            Self::Expired => "Expired",
        }
    }

    fn same(self, other: Self) -> (r: bool) {
        self == other
    }
}

impl StateMachine for TaskState {
    const ENTITY: &'static str = "task";

    open spec fn edges(self) -> Seq<Self> {
        match self {
            TaskState::Created => seq![
                TaskState::Queued,
                TaskState::WaitingForDependency,
                TaskState::Cancelled,
            ],
            TaskState::WaitingForDependency => seq![TaskState::Queued, TaskState::Cancelled],
            TaskState::Queued => seq![
                TaskState::Leased,
                TaskState::Cancelled,
                TaskState::Preempted,
            ],
            TaskState::Leased => seq![
                TaskState::Running,
                TaskState::Queued,
                TaskState::Cancelled,
            ],
            TaskState::Running => seq![
                TaskState::Completed,
                TaskState::Failed,
                TaskState::TimedOut,
                TaskState::WaitingForDependency,
                TaskState::Cancelled,
            ],
            TaskState::Failed | TaskState::TimedOut => seq![
                TaskState::RetryScheduled,
                TaskState::DeadLettered,
            ],
            TaskState::RetryScheduled | TaskState::Preempted => seq![TaskState::Queued],
            TaskState::Completed | TaskState::Cancelled | TaskState::DeadLettered => seq![],
        }
    }

    open spec fn spelled(self) -> Seq<char> {
        match self {
            TaskState::Created => "Created"@,
            TaskState::WaitingForDependency => "WaitingForDependency"@,
            TaskState::Queued => "Queued"@,
            TaskState::Leased => "Leased"@,
            TaskState::Running => "Running"@,
            TaskState::Completed => "Completed"@,
            TaskState::Failed => "Failed"@,
            TaskState::TimedOut => "TimedOut"@,
            TaskState::RetryScheduled => "RetryScheduled"@,
            TaskState::Preempted => "Preempted"@,
            TaskState::Cancelled => "Cancelled"@,
            TaskState::DeadLettered => "DeadLettered"@,
        }
    }

    fn allowed(self) -> (r: &'static [Self]) {
        let r: &'static [Self] = match self {
            Self::Created => &[Self::Queued, Self::WaitingForDependency, Self::Cancelled],
            Self::WaitingForDependency => &[Self::Queued, Self::Cancelled],
            Self::Queued => &[Self::Leased, Self::Cancelled, Self::Preempted],
            // Leased -> Queued is the recovery edge taken when a lease expires
            // before the worker starts.
            Self::Leased => &[Self::Running, Self::Queued, Self::Cancelled],
            Self::Running => &[
                Self::Completed,
                Self::Failed,
                Self::TimedOut,
                Self::WaitingForDependency,
                Self::Cancelled,
            ],
            Self::Failed | Self::TimedOut => &[Self::RetryScheduled, Self::DeadLettered],
            // A task that waits for another turn is cancelled from the queue, like any other.
            Self::RetryScheduled | Self::Preempted => &[Self::Queued],
            Self::Completed | Self::Cancelled | Self::DeadLettered => &[],
        };
        assert(r@ =~= self.edges());
        r
    }

    fn name(self) -> (r: &'static str) {
        match self {
            Self::Created => "Created",
            Self::WaitingForDependency => "WaitingForDependency",
            Self::Queued => "Queued",
            Self::Leased => "Leased",
            Self::Running => "Running",
            Self::Completed => "Completed",
            Self::Failed => "Failed",
            Self::TimedOut => "TimedOut",
            Self::RetryScheduled => "RetryScheduled",
            Self::Preempted => "Preempted",
            Self::Cancelled => "Cancelled",
            Self::DeadLettered => "DeadLettered",
        }
    }

    fn same(self, other: Self) -> (r: bool) {
        self == other
    }
}

impl StateMachine for JobStatus {
    const ENTITY: &'static str = "job";

    open spec fn edges(self) -> Seq<Self> {
        match self {
            JobStatus::Submitted => seq![JobStatus::Admitted, JobStatus::Rejected],
            JobStatus::Admitted => seq![JobStatus::Planning],
            JobStatus::Planning => seq![JobStatus::Running, JobStatus::Failed],
            JobStatus::Running => seq![
                JobStatus::Paused,
                JobStatus::Aggregating,
                JobStatus::Failed,
                JobStatus::Cancelled,
            ],
            JobStatus::Paused => seq![JobStatus::Running, JobStatus::Cancelled],
            JobStatus::Aggregating => seq![
                JobStatus::Completed,
                JobStatus::PartiallyCompleted,
                JobStatus::Failed,
            ],
            JobStatus::Failed | JobStatus::PartiallyCompleted => seq![JobStatus::Running],
            JobStatus::Completed | JobStatus::Cancelled | JobStatus::Rejected => seq![],
        }
    }

    open spec fn spelled(self) -> Seq<char> {
        match self {
            JobStatus::Submitted => "Submitted"@,
            JobStatus::Admitted => "Admitted"@,
            JobStatus::Rejected => "Rejected"@,
            JobStatus::Planning => "Planning"@,
            JobStatus::Running => "Running"@,
            JobStatus::Paused => "Paused"@,
            JobStatus::Aggregating => "Aggregating"@,
            JobStatus::Completed => "Completed"@,
            JobStatus::PartiallyCompleted => "PartiallyCompleted"@,
            JobStatus::Failed => "Failed"@,
            JobStatus::Cancelled => "Cancelled"@,
        }
    }

    fn allowed(self) -> (r: &'static [Self]) {
        let r: &'static [Self] = match self {
            Self::Submitted => &[Self::Admitted, Self::Rejected],
            Self::Admitted => &[Self::Planning],
            Self::Planning => &[Self::Running, Self::Failed],
            // A job is cancelled while it runs or is paused. One that was only planned is
            // cancelled as it starts.
            Self::Running => &[Self::Paused, Self::Aggregating, Self::Failed, Self::Cancelled],
            Self::Paused => &[Self::Running, Self::Cancelled],
            Self::Aggregating => &[Self::Completed, Self::PartiallyCompleted, Self::Failed],
            // Failed and PartiallyCompleted are resting, not terminal: a retry
            // re-queues only the failed subgraph.
            Self::Failed | Self::PartiallyCompleted => &[Self::Running],
            Self::Completed | Self::Cancelled | Self::Rejected => &[],
        };
        assert(r@ =~= self.edges());
        r
    }

    fn name(self) -> (r: &'static str) {
        match self {
            Self::Submitted => "Submitted",
            Self::Admitted => "Admitted",
            Self::Rejected => "Rejected",
            Self::Planning => "Planning",
            Self::Running => "Running",
            Self::Paused => "Paused",
            Self::Aggregating => "Aggregating",
            Self::Completed => "Completed",
            Self::PartiallyCompleted => "PartiallyCompleted",
            Self::Failed => "Failed",
            Self::Cancelled => "Cancelled",
        }
    }

    fn same(self, other: Self) -> (r: bool) {
        self == other
    }
}

impl StateMachine for AgentStatus {
    const ENTITY: &'static str = "agent";

    /// An agent comes back to the pool after every attempt: from `Completed` for warm reuse, and
    /// from `Failed` because placement by reliability rates agents by how often they failed,
    /// which takes agents that go on working after a failure.
    open spec fn edges(self) -> Seq<Self> {
        match self {
            AgentStatus::Created => seq![AgentStatus::Registered],
            AgentStatus::Registered => seq![AgentStatus::Idle],
            AgentStatus::Idle => seq![AgentStatus::Assigned, AgentStatus::Terminated],
            AgentStatus::Assigned => seq![AgentStatus::Running],
            AgentStatus::Running => seq![
                AgentStatus::Waiting,
                AgentStatus::Completed,
                AgentStatus::Failed,
            ],
            AgentStatus::Waiting => seq![AgentStatus::Running, AgentStatus::Terminated],
            AgentStatus::Completed => seq![AgentStatus::Idle],
            AgentStatus::Failed => seq![
                AgentStatus::Retrying,
                AgentStatus::Idle,
                AgentStatus::Terminated,
            ],
            AgentStatus::Retrying => seq![AgentStatus::Running],
            AgentStatus::Terminated => seq![],
        }
    }

    open spec fn spelled(self) -> Seq<char> {
        match self {
            AgentStatus::Created => "Created"@,
            AgentStatus::Registered => "Registered"@,
            AgentStatus::Idle => "Idle"@,
            AgentStatus::Assigned => "Assigned"@,
            AgentStatus::Running => "Running"@,
            AgentStatus::Waiting => "Waiting"@,
            AgentStatus::Completed => "Completed"@,
            AgentStatus::Failed => "Failed"@,
            AgentStatus::Retrying => "Retrying"@,
            AgentStatus::Terminated => "Terminated"@,
        }
    }

    fn allowed(self) -> (r: &'static [Self]) {
        let r: &'static [Self] = match self {
            Self::Created => &[Self::Registered],
            Self::Registered => &[Self::Idle],
            Self::Idle => &[Self::Assigned, Self::Terminated],
            Self::Assigned => &[Self::Running],
            Self::Running => &[Self::Waiting, Self::Completed, Self::Failed],
            Self::Waiting => &[Self::Running, Self::Terminated],
            // Completed -> Idle is the warm-pool edge: agents are reused, not rebuilt.
            Self::Completed => &[Self::Idle],
            // Failed -> Idle is the same for an agent whose attempt failed. It goes back to
            // the pool with a lower success rate, which placement by reliability reads.
            Self::Failed => &[Self::Retrying, Self::Idle, Self::Terminated],
            Self::Retrying => &[Self::Running],
            Self::Terminated => &[],
        };
        assert(r@ =~= self.edges());
        r
    }

    fn name(self) -> (r: &'static str) {
        match self {
            Self::Created => "Created",
            Self::Registered => "Registered",
            Self::Idle => "Idle",
            Self::Assigned => "Assigned",
            Self::Running => "Running",
            Self::Waiting => "Waiting",
            Self::Completed => "Completed",
            Self::Failed => "Failed",
            Self::Retrying => "Retrying",
            Self::Terminated => "Terminated",
        }
    }

    fn same(self, other: Self) -> (r: bool) {
        self == other
    }
}

impl StateMachine for NodeStatus {
    const ENTITY: &'static str = "node";

    open spec fn edges(self) -> Seq<Self> {
        match self {
            NodeStatus::Joining => seq![NodeStatus::Ready],
            NodeStatus::Ready => seq![
                NodeStatus::Degraded,
                NodeStatus::Draining,
                NodeStatus::Unreachable,
            ],
            NodeStatus::Degraded => seq![
                NodeStatus::Ready,
                NodeStatus::Draining,
                NodeStatus::Unreachable,
            ],
            NodeStatus::Draining => seq![NodeStatus::Removed],
            NodeStatus::Unreachable => seq![NodeStatus::Ready, NodeStatus::Removed],
            NodeStatus::Removed => seq![],
        }
    }

    open spec fn spelled(self) -> Seq<char> {
        match self {
            NodeStatus::Joining => "Joining"@,
            NodeStatus::Ready => "Ready"@,
            NodeStatus::Degraded => "Degraded"@,
            NodeStatus::Draining => "Draining"@,
            NodeStatus::Unreachable => "Unreachable"@,
            NodeStatus::Removed => "Removed"@,
        }
    }

    fn allowed(self) -> (r: &'static [Self]) {
        let r: &'static [Self] = match self {
            Self::Joining => &[Self::Ready],
            Self::Ready => &[Self::Degraded, Self::Draining, Self::Unreachable],
            Self::Degraded => &[Self::Ready, Self::Draining, Self::Unreachable],
            Self::Draining => &[Self::Removed],
            // A node may come back with the same identity, so Unreachable is not final.
            Self::Unreachable => &[Self::Ready, Self::Removed],
            Self::Removed => &[],
        };
        assert(r@ =~= self.edges());
        r
    }

    fn name(self) -> (r: &'static str) {
        match self {
            Self::Joining => "Joining",
            Self::Ready => "Ready",
            Self::Degraded => "Degraded",
            Self::Draining => "Draining",
            Self::Unreachable => "Unreachable",
            Self::Removed => "Removed",
        }
    }

    fn same(self, other: Self) -> (r: bool) {
        self == other
    }
}

/// An accepted state change, recorded for audit.
///
/// This is the row shape of `*_state_transitions` in Postgres.
#[derive(Debug)]
pub struct Transition<S> {
    /// Entity kind the transition belongs to.
    ///
    /// Owned rather than `&'static str` because transitions are journaled and read
    /// back: a borrowed field would make the record impossible to deserialize.
    pub entity: String,
    /// Previous state; `None` for the initial state of a new entity.
    pub from: Option<S>,
    /// New state.
    pub to: S,
    /// Who caused it, e.g. `coordinator:node-1`, `user:alice`, `system`.
    pub actor: String,
    /// Machine-readable cause, e.g. `lease_expired`, `validation_failed`.
    pub reason: Option<String>,
    /// The leader term that authorised it, when a leader did.
    pub term: Option<u64>,
    /// Correlates this change with the request or message that triggered it.
    pub correlation_id: CorrelationId,
    /// When it happened.
    pub at: Timestamp,
}

/// A transition record, with its texts as character sequences.
pub struct TransitionView<S> {
    /// Entity kind.
    pub entity: Seq<char>,
    /// Previous state.
    pub from: Option<S>,
    /// New state.
    pub to: S,
    /// Who caused it.
    pub actor: Seq<char>,
    /// Machine-readable cause.
    pub reason: Option<Seq<char>>,
    /// Leader term.
    pub term: Option<u64>,
    /// Correlation.
    pub correlation_id: CorrelationId,
    /// When it happened.
    pub at: Timestamp,
}

impl<S> View for Transition<S> {
    type V = TransitionView<S>;

    open spec fn view(&self) -> TransitionView<S> {
        TransitionView {
            entity: self.entity@,
            from: self.from,
            to: self.to,
            actor: self.actor@,
            reason: option_view(self.reason),
            term: self.term,
            correlation_id: self.correlation_id,
            at: self.at,
        }
    }
}

impl<S: StateMachine> Clone for Transition<S> {
    fn clone(&self) -> (r: Self)
        ensures
            r@ == self@,
    {
        Transition {
            entity: self.entity.clone(),
            from: self.from,
            to: self.to,
            actor: self.actor.clone(),
            reason: clone_option(&self.reason),
            term: self.term,
            correlation_id: self.correlation_id,
            at: self.at,
        }
    }
}

/// The record of an accepted change.
pub open spec fn transition_record<S: StateMachine>(
    from: Option<S>,
    to: S,
    actor: Seq<char>,
    reason: Option<Seq<char>>,
    correlation_id: CorrelationId,
    at: Timestamp,
) -> TransitionView<S> {
    TransitionView { entity: S::ENTITY@, from, to, actor, reason, term: None, correlation_id, at }
}

impl<S: StateMachine> Transition<S> {
    /// Record an accepted transition. The clock decides when it happened.
    pub fn new(
        from: Option<S>,
        to: S,
        actor: &str,
        reason: Option<String>,
        correlation_id: CorrelationId,
    ) -> (r: Self)
        ensures
            r@ == transition_record(
                from,
                to,
                actor@,
                option_view(reason),
                correlation_id,
                r.at,
            ),
    {
        Self::new_at(from, to, actor, reason, correlation_id, Timestamp::now())
    }

    /// Record a transition accepted at `at`.
    pub fn new_at(
        from: Option<S>,
        to: S,
        actor: &str,
        reason: Option<String>,
        correlation_id: CorrelationId,
        at: Timestamp,
    ) -> (r: Self)
        ensures
            r@ == transition_record(from, to, actor@, option_view(reason), correlation_id, at),
    {
        Transition {
            entity: S::ENTITY.to_owned(),
            from,
            to,
            actor: actor.to_owned(),
            reason,
            term: None,
            correlation_id,
            at,
        }
    }

    /// Stamp the leader term that authorised the change (fencing).
    pub fn with_term(self, term: u64) -> (r: Self)
        ensures
            r@ == (TransitionView { term: Some(term), ..self@ }),
    {
        let mut r = self;
        r.term = Some(term);
        r
    }
}

/// Apply a transition to `current`, returning the new state and its audit record.
///
/// This is the only function the rest of the platform should use to change a
/// lifecycle field: it cannot succeed without producing the audit record. The clock
/// decides when the change happened.
pub fn apply<S: StateMachine>(
    current: S,
    to: S,
    actor: &str,
    reason: Option<String>,
    correlation_id: CorrelationId,
) -> (r: Result<(S, Transition<S>), SwarmError>)
    ensures
        match r {
            Ok((next, record)) => {
                &&& current.edges().contains(to)
                &&& next == to
                &&& record@ == transition_record(
                    Some(current),
                    to,
                    actor@,
                    option_view(reason),
                    correlation_id,
                    record.at,
                )
            },
            Err(error) => !current.edges().contains(to) && error@ == (
            ErrorView::InvalidTransition {
                entity: S::ENTITY@,
                from: current.spelled(),
                to: to.spelled(),
            }),
        },
{
    apply_at(current, to, actor, reason, correlation_id, Timestamp::now())
}

/// Apply a transition to `current` at time `at`, returning the new state and its audit
/// record.
pub fn apply_at<S: StateMachine>(
    current: S,
    to: S,
    actor: &str,
    reason: Option<String>,
    correlation_id: CorrelationId,
    at: Timestamp,
) -> (r: Result<(S, Transition<S>), SwarmError>)
    ensures
        match r {
            Ok((next, record)) => {
                &&& current.edges().contains(to)
                &&& next == to
                &&& record@ == transition_record(
                    Some(current),
                    to,
                    actor@,
                    option_view(reason),
                    correlation_id,
                    at,
                )
            },
            Err(error) => !current.edges().contains(to) && error@ == (
            ErrorView::InvalidTransition {
                entity: S::ENTITY@,
                from: current.spelled(),
                to: to.spelled(),
            }),
        },
{
    match current.transition(to) {
        Ok(next) => Ok(
            (next, Transition::new_at(Some(current), next, actor, reason, correlation_id, at)),
        ),
        Err(error) => Err(error),
    }
}

/// A terminal state can never be left again: completed, cancelled, and dead-lettered
/// tasks are not resurrected, and no other task state is terminal.
pub proof fn law_terminal_tasks_stay_terminal(state: TaskState)
    ensures
        state.edges().len() == 0 <==> state.finished(),
        state.finished() ==> forall|to: TaskState| !#[trigger] state.edges().contains(to),
{
}

/// A job state is terminal exactly when it is completed, cancelled, or rejected. Failed and
/// partially completed jobs are finished, but can be run again.
pub proof fn law_terminal_jobs(status: JobStatus)
    ensures
        status.edges().len() == 0 ==> status.finished(),
        status.finished() && status.edges().len() > 0 ==> (status.edges().contains(
            JobStatus::Running,
        ) && (status == JobStatus::Failed || status == JobStatus::PartiallyCompleted)),
{
    if status == JobStatus::Failed || status == JobStatus::PartiallyCompleted {
        assert(status.edges()[0] == JobStatus::Running);
    }
}

/// A lease can be released exactly while it is active.
pub proof fn law_only_active_leases_are_released(state: LeaseState)
    ensures
        state.active() <==> state.edges().contains(LeaseState::Released),
        state.active() <==> state.edges().contains(LeaseState::Rejected),
        state.active() <==> state.edges().contains(LeaseState::Expired),
{
    if state.active() {
        assert(state.edges()[1] == LeaseState::Released);
        assert(state.edges()[2] == LeaseState::Rejected);
        assert(state.edges()[3] == LeaseState::Expired);
    }
}

/// A task, job, agent, or node never moves to the state it is in; an extended lease is the
/// one thing that may.
pub proof fn law_no_self_loops(
    task: TaskState,
    job: JobStatus,
    agent: AgentStatus,
    node: NodeStatus,
    lease: LeaseState,
)
    ensures
        !task.edges().contains(task),
        !job.edges().contains(job),
        !agent.edges().contains(agent),
        !node.edges().contains(node),
        lease.edges().contains(lease) <==> lease == LeaseState::Extended,
{
    if lease == LeaseState::Extended {
        assert(lease.edges()[0] == lease);
    }
}

/// Whatever an agent worked on, a completed or failed agent can go back to the warm pool,
/// and a terminated one cannot.
pub proof fn law_agents_return_to_the_pool()
    ensures
        AgentStatus::Completed.edges().contains(AgentStatus::Idle),
        AgentStatus::Failed.edges().contains(AgentStatus::Idle),
        AgentStatus::Running.edges().contains(AgentStatus::Completed),
        AgentStatus::Running.edges().contains(AgentStatus::Failed),
        AgentStatus::Terminated.edges().len() == 0,
{
    assert(AgentStatus::Completed.edges()[0] == AgentStatus::Idle);
    assert(AgentStatus::Failed.edges()[1] == AgentStatus::Idle);
    assert(AgentStatus::Running.edges()[1] == AgentStatus::Completed);
    assert(AgentStatus::Running.edges()[2] == AgentStatus::Failed);
}

/// A task can run its course: from its creation through the queue, a claim, and a run to its
/// completion; a failed or timed-out attempt can be tried again or given up; and whatever is not
/// over can be called off, but for what waits for its next attempt.
pub proof fn law_a_task_can_run_its_course()
    ensures
        TaskState::Created.edges().contains(TaskState::Queued),
        TaskState::WaitingForDependency.edges().contains(TaskState::Queued),
        TaskState::Queued.edges().contains(TaskState::Leased),
        TaskState::Leased.edges().contains(TaskState::Running),
        TaskState::Leased.edges().contains(TaskState::Queued),
        TaskState::Running.edges().contains(TaskState::Completed),
        TaskState::Running.edges().contains(TaskState::Failed),
        TaskState::Running.edges().contains(TaskState::TimedOut),
        TaskState::Failed.edges().contains(TaskState::RetryScheduled),
        TaskState::Failed.edges().contains(TaskState::DeadLettered),
        TaskState::TimedOut.edges().contains(TaskState::RetryScheduled),
        TaskState::TimedOut.edges().contains(TaskState::DeadLettered),
        TaskState::RetryScheduled.edges().contains(TaskState::Queued),
        TaskState::Preempted.edges().contains(TaskState::Queued),
        TaskState::Created.edges().contains(TaskState::Cancelled),
        TaskState::WaitingForDependency.edges().contains(TaskState::Cancelled),
        TaskState::Queued.edges().contains(TaskState::Cancelled),
        TaskState::Leased.edges().contains(TaskState::Cancelled),
        TaskState::Running.edges().contains(TaskState::Cancelled),
{
    assert(TaskState::Created.edges()[0] == TaskState::Queued);
    assert(TaskState::Created.edges()[2] == TaskState::Cancelled);
    assert(TaskState::WaitingForDependency.edges()[0] == TaskState::Queued);
    assert(TaskState::WaitingForDependency.edges()[1] == TaskState::Cancelled);
    assert(TaskState::Queued.edges()[0] == TaskState::Leased);
    assert(TaskState::Queued.edges()[1] == TaskState::Cancelled);
    assert(TaskState::Leased.edges()[0] == TaskState::Running);
    assert(TaskState::Leased.edges()[1] == TaskState::Queued);
    assert(TaskState::Leased.edges()[2] == TaskState::Cancelled);
    assert(TaskState::Running.edges()[0] == TaskState::Completed);
    assert(TaskState::Running.edges()[1] == TaskState::Failed);
    assert(TaskState::Running.edges()[2] == TaskState::TimedOut);
    assert(TaskState::Running.edges()[4] == TaskState::Cancelled);
    assert(TaskState::Failed.edges()[0] == TaskState::RetryScheduled);
    assert(TaskState::Failed.edges()[1] == TaskState::DeadLettered);
    assert(TaskState::TimedOut.edges()[0] == TaskState::RetryScheduled);
    assert(TaskState::TimedOut.edges()[1] == TaskState::DeadLettered);
    assert(TaskState::RetryScheduled.edges()[0] == TaskState::Queued);
    assert(TaskState::Preempted.edges()[0] == TaskState::Queued);
}

/// No step of a task's course is left out: only what runs completes, fails, or times out, only
/// what is claimed runs, only what is queued is claimed or set aside, only a failed attempt is
/// tried again or given up, and nothing is created twice.
pub proof fn law_a_task_skips_no_step(from: TaskState)
    ensures
        from.edges().contains(TaskState::Completed) ==> from == TaskState::Running,
        from.edges().contains(TaskState::Failed) ==> from == TaskState::Running,
        from.edges().contains(TaskState::TimedOut) ==> from == TaskState::Running,
        from.edges().contains(TaskState::Running) ==> from == TaskState::Leased,
        from.edges().contains(TaskState::Leased) ==> from == TaskState::Queued,
        from.edges().contains(TaskState::Preempted) ==> from == TaskState::Queued,
        from.edges().contains(TaskState::RetryScheduled) ==> from == TaskState::Failed || from
            == TaskState::TimedOut,
        from.edges().contains(TaskState::DeadLettered) ==> from == TaskState::Failed || from
            == TaskState::TimedOut,
        !from.edges().contains(TaskState::Created),
{
}

/// A job can run its course: from its submission through admission and planning to a run, a
/// pause and back, and over the merging of its results to its end; and a job that ended without
/// all of its results can be run again.
pub proof fn law_a_job_can_run_its_course()
    ensures
        JobStatus::Submitted.edges().contains(JobStatus::Admitted),
        JobStatus::Submitted.edges().contains(JobStatus::Rejected),
        JobStatus::Admitted.edges().contains(JobStatus::Planning),
        JobStatus::Planning.edges().contains(JobStatus::Running),
        JobStatus::Running.edges().contains(JobStatus::Paused),
        JobStatus::Running.edges().contains(JobStatus::Aggregating),
        JobStatus::Running.edges().contains(JobStatus::Cancelled),
        JobStatus::Paused.edges().contains(JobStatus::Running),
        JobStatus::Paused.edges().contains(JobStatus::Cancelled),
        JobStatus::Aggregating.edges().contains(JobStatus::Completed),
        JobStatus::Aggregating.edges().contains(JobStatus::PartiallyCompleted),
        JobStatus::Aggregating.edges().contains(JobStatus::Failed),
        JobStatus::Failed.edges().contains(JobStatus::Running),
        JobStatus::PartiallyCompleted.edges().contains(JobStatus::Running),
{
    assert(JobStatus::Submitted.edges()[0] == JobStatus::Admitted);
    assert(JobStatus::Submitted.edges()[1] == JobStatus::Rejected);
    assert(JobStatus::Admitted.edges()[0] == JobStatus::Planning);
    assert(JobStatus::Planning.edges()[0] == JobStatus::Running);
    assert(JobStatus::Running.edges()[0] == JobStatus::Paused);
    assert(JobStatus::Running.edges()[1] == JobStatus::Aggregating);
    assert(JobStatus::Running.edges()[3] == JobStatus::Cancelled);
    assert(JobStatus::Paused.edges()[0] == JobStatus::Running);
    assert(JobStatus::Paused.edges()[1] == JobStatus::Cancelled);
    assert(JobStatus::Aggregating.edges()[0] == JobStatus::Completed);
    assert(JobStatus::Aggregating.edges()[1] == JobStatus::PartiallyCompleted);
    assert(JobStatus::Aggregating.edges()[2] == JobStatus::Failed);
    assert(JobStatus::Failed.edges()[0] == JobStatus::Running);
    assert(JobStatus::PartiallyCompleted.edges()[0] == JobStatus::Running);
}

/// No step of a job's course is left out: only merged results complete a job, only a running job
/// is paused or merged, only a submitted one is admitted or rejected, only an admitted one is
/// planned, only one that runs or is paused is cancelled, and nothing is submitted twice.
pub proof fn law_a_job_skips_no_step(from: JobStatus)
    ensures
        from.edges().contains(JobStatus::Completed) ==> from == JobStatus::Aggregating,
        from.edges().contains(JobStatus::PartiallyCompleted) ==> from == JobStatus::Aggregating,
        from.edges().contains(JobStatus::Aggregating) ==> from == JobStatus::Running,
        from.edges().contains(JobStatus::Paused) ==> from == JobStatus::Running,
        from.edges().contains(JobStatus::Cancelled) ==> from == JobStatus::Running || from
            == JobStatus::Paused,
        from.edges().contains(JobStatus::Planning) ==> from == JobStatus::Admitted,
        from.edges().contains(JobStatus::Admitted) ==> from == JobStatus::Submitted,
        from.edges().contains(JobStatus::Rejected) ==> from == JobStatus::Submitted,
        !from.edges().contains(JobStatus::Submitted),
{
}

/// An agent that works was assigned or waited or is trying again, one that ended an attempt was
/// working, and one that was taken away does nothing more.
pub proof fn law_an_agent_skips_no_step(from: AgentStatus)
    ensures
        from.edges().contains(AgentStatus::Running) ==> from == AgentStatus::Assigned || from
            == AgentStatus::Waiting || from == AgentStatus::Retrying,
        from.edges().contains(AgentStatus::Completed) ==> from == AgentStatus::Running,
        from.edges().contains(AgentStatus::Failed) ==> from == AgentStatus::Running,
        from.edges().contains(AgentStatus::Assigned) ==> from == AgentStatus::Idle,
        from.edges().contains(AgentStatus::Registered) ==> from == AgentStatus::Created,
        !from.edges().contains(AgentStatus::Created),
        AgentStatus::Terminated.edges().len() == 0,
{
}

} // verus!
