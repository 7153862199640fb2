//! The live state of a job.
//!
//! Everything the engine changes while a job runs stands in its handle: the job record, the
//! task graph, the agents, what came of the tasks, and what is still to be published and
//! journaled about it.

use crate::agent::{count_one, counted, AgentView};
use crate::clock::Timestamp;
use crate::error::{ErrorView, SwarmError};
use crate::graph::{lemma_tally_terminal, tally, GraphView, TaskGraph, TaskGroup};
use crate::ids::{JobId, TaskId};
use crate::job::{no_statistics, ExecutionStatistics, FinalResult, FinalResultView, Job, JobStatus,
    JobView};
use crate::journal::{record_views, JournalRecord, RecordView};
use crate::runtime::Agent;
use crate::state::{transition_record, StateMachine, Transition, TransitionView};
use crate::task::{failure_views, result_views, TaskFailure, TaskFailureView, TaskResult,
    TaskResultView, TaskState};
use crate::text::{clone_option, option_view};
use vstd::prelude::*;
use vstd::string::*;

verus! {

/// What happened, as streamed to clients and the dashboard.
#[derive(Clone, Copy, Debug, PartialEq, Eq, Structural)]
pub enum JobEventKind {
    /// The job passed admission control.
    JobAdmitted,
    /// The task graph was compiled and validated.
    JobPlanned,
    /// An agent was created for this job.
    AgentSpawned,
    /// An idle agent was reclaimed.
    AgentTerminated,
    /// A task became eligible and entered the queue.
    TaskQueued,
    /// An agent started executing a task.
    TaskStarted,
    /// A task completed and passed validation.
    TaskCompleted,
    /// A task attempt failed.
    TaskFailed,
    /// A failed task will be retried after its backoff.
    TaskRetrying,
    /// A task ran out of attempts.
    TaskDeadLettered,
    /// A task was abandoned because the job was cancelled or its input was lost.
    TaskCancelled,
    /// Scheduling was suspended.
    JobPaused,
    /// Scheduling resumed.
    JobResumed,
    /// The job was cancelled.
    JobCancelled,
    /// The job reached a terminal state.
    JobFinished,
}

/// How far a job has come: the number of tasks that are terminal out of all its tasks.
#[derive(Clone, Copy, Debug, PartialEq, Eq, Structural)]
pub struct Progress {
    /// Terminal tasks.
    pub done: usize,
    /// All tasks.
    pub total: usize,
}

/// No progress at all.
pub open spec fn no_progress() -> Progress {
    Progress { done: 0, total: 1 }
}

/// One entry on a job's event stream.
#[derive(Debug)]
pub struct JobEvent {
    /// Monotonic per job; lets a reconnecting client resume without gaps.
    pub sequence_number: u64,
    /// Job the event belongs to.
    pub job_id: JobId,
    /// Task the event is about, when it is about one.
    pub task_id: Option<TaskId>,
    /// What happened.
    pub kind: JobEventKind,
    /// Human-readable detail.
    pub detail: String,
    /// Fraction of tasks terminal at the time of the event.
    pub progress: Progress,
    /// When it happened.
    pub at: Timestamp,
}

/// What an event holds.
pub struct EventView {
    /// Its place on the stream.
    pub sequence_number: u64,
    /// Job the event belongs to.
    pub job_id: JobId,
    /// Task the event is about.
    pub task_id: Option<TaskId>,
    /// What happened.
    pub kind: JobEventKind,
    /// Human-readable detail.
    pub detail: Seq<char>,
    /// Fraction of tasks terminal at the time of the event.
    pub progress: Progress,
    /// When it happened.
    pub at: Timestamp,
}

impl View for JobEvent {
    type V = EventView;

    open spec fn view(&self) -> EventView {
        EventView {
            sequence_number: self.sequence_number,
            job_id: self.job_id,
            task_id: self.task_id,
            kind: self.kind,
            detail: self.detail@,
            progress: self.progress,
            at: self.at,
        }
    }
}

/// What some events hold.
pub open spec fn event_views(events: Seq<JobEvent>) -> Seq<EventView> {
    events.map_values(|event: JobEvent| event@)
}

/// Operator control over a running job.
#[derive(Clone, Copy, Debug, PartialEq, Eq, Structural)]
pub enum Control {
    /// Scheduling proceeds.
    Running,
    /// Scheduling is suspended; running tasks are left alone.
    Paused,
    /// The job is being torn down.
    Cancelled,
}

/// The agents behind a list.
pub open spec fn pool_views(agents: Seq<Agent>) -> Seq<AgentView> {
    agents.map_values(|agent: Agent| agent@)
}

/// The transitions behind a list.
pub open spec fn transition_views(list: Seq<Transition<TaskState>>) -> Seq<
    TransitionView<TaskState>,
> {
    list.map_values(|item: Transition<TaskState>| item@)
}

/// Everything the engine mutates while a job runs.
pub struct JobHandle {
    /// The job record.
    pub job: Job,
    /// Its tasks.
    pub graph: TaskGraph,
    /// The agents allocated to it.
    pub agents: Vec<Agent>,
    /// Results so far, in the order they came in.
    pub results: Vec<TaskResult>,
    /// Failed attempts so far.
    pub failures: Vec<TaskFailure>,
    /// The audit trail of its tasks.
    pub transitions: Vec<Transition<TaskState>>,
    /// How it ran.
    pub statistics: ExecutionStatistics,
    /// Latencies of its completed tasks.
    pub latencies: Vec<u64>,
    /// The merged result, once there is one.
    pub final_result: Option<FinalResult>,
    /// Events not handed to the stream yet.
    pub events: Vec<JobEvent>,
    /// What the operator wants.
    pub control: Control,
    /// The number of the next event.
    pub sequence: u64,
    /// Records not handed to the journal yet.
    pub records: Vec<JournalRecord>,
}

/// What a handle holds.
#[verifier::ext_equal]
pub struct HandleView {
    /// The job record.
    pub job: JobView,
    /// Its tasks.
    pub graph: GraphView,
    /// The agents allocated to it.
    pub agents: Seq<AgentView>,
    /// Results so far.
    pub results: Seq<TaskResultView>,
    /// Failed attempts so far.
    pub failures: Seq<TaskFailureView>,
    /// The audit trail of its tasks.
    pub transitions: Seq<TransitionView<TaskState>>,
    /// How it ran.
    pub statistics: ExecutionStatistics,
    /// Latencies of its completed tasks.
    pub latencies: Seq<u64>,
    /// The merged result.
    pub final_result: Option<FinalResultView>,
    /// Events not handed to the stream yet.
    pub events: Seq<EventView>,
    /// What the operator wants.
    pub control: Control,
    /// The number of the next event.
    pub sequence: u64,
    /// Records not handed to the journal yet.
    pub records: Seq<RecordView>,
}

/// A merged result, taken by its view.
pub open spec fn merged_view(result: Option<FinalResult>) -> Option<FinalResultView> {
    match result {
        Some(result) => Some(result@),
        None => None,
    }
}

impl View for JobHandle {
    type V = HandleView;

    open spec fn view(&self) -> HandleView {
        HandleView {
            job: self.job@,
            graph: self.graph@,
            agents: pool_views(self.agents@),
            results: result_views(self.results@),
            failures: failure_views(self.failures@),
            transitions: transition_views(self.transitions@),
            statistics: self.statistics,
            latencies: self.latencies@,
            final_result: merged_view(self.final_result),
            events: event_views(self.events@),
            control: self.control,
            sequence: self.sequence,
            records: record_views(self.records@),
        }
    }
}

impl HandleView {
    /// A job that was just planned.
    pub open spec fn planned(job: JobView, graph: GraphView) -> HandleView {
        HandleView {
            job,
            graph,
            agents: seq![],
            results: seq![],
            failures: seq![],
            transitions: seq![],
            statistics: no_statistics(),
            latencies: seq![],
            final_result: None,
            events: seq![],
            control: Control::Running,
            sequence: 0,
            records: seq![],
        }
    }

    /// How far the job has come.
    pub open spec fn progress(self) -> Progress {
        Progress {
            done: (tally(self.graph.tasks, TaskGroup::Completed) + tally(
                self.graph.tasks,
                TaskGroup::Abandoned,
            )) as usize,
            total: self.graph.tasks.len() as usize,
        }
    }

    /// With one more event.
    pub open spec fn emitted(
        self,
        kind: JobEventKind,
        task_id: Option<TaskId>,
        detail: Seq<char>,
        progress: Progress,
        now: Timestamp,
    ) -> HandleView {
        HandleView {
            events: self.events.push(
                EventView {
                    sequence_number: self.sequence,
                    job_id: self.job.id,
                    task_id,
                    kind,
                    detail,
                    progress,
                    at: now,
                },
            ),
            sequence: if self.sequence == u64::MAX {
                0
            } else {
                (self.sequence + 1) as u64
            },
            statistics: ExecutionStatistics {
                messages_sent: counted(self.statistics.messages_sent),
                ..self.statistics
            },
            ..self
        }
    }

    /// With one more record for the journal.
    pub open spec fn noted(self, record: RecordView) -> HandleView {
        HandleView { records: self.records.push(record), ..self }
    }

    /// Why the job may not move to a status.
    pub open spec fn status_refusal(self, to: JobStatus) -> Option<ErrorView> {
        if self.job.status.edges().contains(to) {
            None
        } else {
            Some(
                ErrorView::InvalidTransition {
                    entity: JobStatus::ENTITY@,
                    from: self.job.status.spelled(),
                    to: to.spelled(),
                },
            )
        }
    }

    /// With the job in another status.
    pub open spec fn with_status(
        self,
        to: JobStatus,
        reason: Option<Seq<char>>,
        now: Timestamp,
    ) -> HandleView {
        HandleView {
            job: JobView {
                status: to,
                status_reason: reason,
                started_at: if to == JobStatus::Running && self.job.started_at is None {
                    Some(now)
                } else {
                    self.job.started_at
                },
                finished_at: if to.finished() {
                    Some(now)
                } else {
                    self.job.finished_at
                },
                ..self.job
            },
            ..self
        }.noted(
            RecordView::JobStatusChanged { job_id: self.job.id, status: to, reason, at: now },
        )
    }

    /// With a task in another state, the change on record.
    pub open spec fn advanced(
        self,
        task: TaskId,
        to: TaskState,
        actor: Seq<char>,
        reason: Seq<char>,
        now: Timestamp,
    ) -> HandleView {
        let change = transition_record(
            Some(self.graph.task(task).state),
            to,
            actor,
            Some(reason),
            self.job.correlation_id,
            now,
        );
        HandleView {
            graph: self.graph.with_state(task, to),
            transitions: self.transitions.push(change),
            ..self
        }.noted(
            RecordView::TaskTransitioned {
                job_id: self.job.id,
                transition: change,
                task_id: task,
                attempt: self.graph.task(task).attempt,
            },
        )
    }

    /// Whether a task that is still to be queued can start another attempt.
    pub open spec fn startable(self) -> bool {
        forall|i: int|
            0 <= i < self.graph.tasks.len() && (#[trigger] self.graph.tasks[i]).state.unqueued()
                ==> self.graph.tasks[i].attempt < u32::MAX
    }
}

impl JobHandle {
    /// What holds of every handle.
    pub open spec fn wf(&self) -> bool {
        self.graph.wf() && self@.startable()
    }

    /// A handle for a job that was just planned.
    pub fn new(job: Job, graph: TaskGraph) -> (r: Self)
        requires
            graph.wf(),
            HandleView::planned(job@, graph@).startable(),
        ensures
            r.wf(),
            r@ == HandleView::planned(job@, graph@),
    {
        let r = JobHandle {
            job,
            graph,
            agents: Vec::new(),
            results: Vec::new(),
            failures: Vec::new(),
            transitions: Vec::new(),
            statistics: ExecutionStatistics::default(),
            latencies: Vec::new(),
            final_result: None,
            events: Vec::new(),
            control: Control::Running,
            sequence: 0,
            records: Vec::new(),
        };
        assert(r@ =~= HandleView::planned(job@, graph@));
        r
    }

    /// How far the job has come.
    pub fn progress(&self) -> (r: Progress)
        requires
            self.wf(),
        ensures
            r == self@.progress(),
    {
        let (done, total) = self.graph.progress();
        Progress { done, total }
    }

    /// Publish an event. The sequence number lets a client that missed one notice.
    pub fn emit(
        &mut self,
        kind: JobEventKind,
        task_id: Option<TaskId>,
        detail: String,
        progress: Progress,
        now: Timestamp,
    )
        requires
            old(self).wf(),
        ensures
            final(self).wf(),
            final(self)@ == old(self)@.emitted(kind, task_id, detail@, progress, now),
    {
        let sequence_number: u64 = self.sequence;
        self.sequence = if sequence_number == u64::MAX {
            0
        } else {
            sequence_number + 1
        };
        self.statistics.messages_sent = count_one(self.statistics.messages_sent);
        self.events.push(
            JobEvent {
                sequence_number,
                job_id: self.job.id,
                task_id,
                kind,
                detail,
                progress,
                at: now,
            },
        );
        assert(self@ =~= old(self)@.emitted(kind, task_id, detail@, progress, now));
    }

    /// Put a record on the way to the journal.
    pub fn note(&mut self, record: JournalRecord)
        requires
            old(self).wf(),
        ensures
            final(self).wf(),
            final(self)@ == old(self)@.noted(record@),
    {
        self.records.push(record);
        assert(self@ =~= old(self)@.noted(record@));
    }

    /// Move the job to a new status, recording the reason.
    pub fn set_status(&mut self, to: JobStatus, reason: Option<String>, now: Timestamp) -> (r:
        Result<(), SwarmError>)
        requires
            old(self).wf(),
        ensures
            final(self).wf(),
            match r {
                Ok(_) => old(self)@.status_refusal(to) is None && final(self)@ == old(self)@.with_status(to, option_view(reason), now),
                Err(error) => old(self)@.status_refusal(to) == Some(error@) && final(self)@ == old(self)@,
            },
    {
        let next = match self.job.status.transition(to) {
            Ok(next) => next,
            Err(error) => {
                return Err(error);
            },
        };
        let kept = clone_option(&reason);
        self.job.status = next;
        self.job.status_reason = reason;
        if matches!(next, JobStatus::Running) && self.job.started_at.is_none() {
            self.job.started_at = Some(now);
        }
        if next.is_finished() {
            self.job.finished_at = Some(now);
        }
        let job_id = self.job.id;
        self.note(JournalRecord::JobStatusChanged { job_id, status: next, reason: kept, at: now });
        assert(self@ =~= old(self)@.with_status(to, option_view(reason), now));
        Ok(())
    }

    /// Record a task state change, keeping the audit trail complete.
    pub fn advance(&mut self, task: TaskId, to: TaskState, actor: &str, reason: &str, now: Timestamp) -> (r:
        Result<(), SwarmError>)
        requires
            old(self).wf(),
            !to.unqueued(),
        ensures
            final(self).wf(),
            match r {
                Ok(_) => old(self)@.graph.state_refusal(task, to) is None && final(self)@ == old(self)@.advanced(task, to, actor@, reason@, now),
                Err(error) => old(self)@.graph.state_refusal(task, to) == Some(error@) && final(self)@ == old(self)@,
            },
    {
        let ghost before = self@;
        let correlation_id = self.job.correlation_id;
        let change = match self.graph.set_state_at(
            task,
            to,
            actor,
            Some(reason.to_owned()),
            correlation_id,
            now,
        ) {
            Ok(change) => change,
            Err(error) => {
                return Err(error);
            },
        };
        let ghost moved = before.graph.at(task);
        proof {
            assert(before.graph.has(task));
            assert(before.graph.stands(task, moved));
            assert forall|i: int|
                0 <= i < self.graph@.tasks.len() && (
                #[trigger] self.graph@.tasks[i]).state.unqueued() implies self.graph@.tasks[i].attempt
                < u32::MAX by {
                assert(i != moved);
                assert(self.graph@.tasks[i] == before.graph.tasks[i]);
            }
        }
        let attempt: u32 = match self.graph.get(task) {
            Some(node) => node.attempt,
            None => 0,
        };
        proof {
            crate::graph::lemma_same_names(before.graph, self.graph@);
            assert(self.graph@.stands(task, moved));
            assert(before.graph.stands(task, self.graph@.at(task)));
            self.graph.lemma_wf();
            crate::graph::lemma_at_unique(self.graph@, task, moved);
        }
        let copy = change.clone();
        self.transitions.push(change);
        let job_id = self.job.id;
        self.note(
            JournalRecord::TaskTransitioned {
                job_id,
                transition: Box::new(copy),
                task_id: task,
                attempt,
            },
        );
        assert(self@ =~= before.advanced(task, to, actor@, reason@, now));
        Ok(())
    }

    /// Hand out the events that were not handed out yet.
    pub fn take_events(&mut self) -> (r: Vec<JobEvent>)
        requires
            old(self).wf(),
        ensures
            final(self).wf(),
            event_views(r@) == old(self)@.events,
            final(self)@ == (HandleView { events: seq![], ..old(self)@ }),
    {
        let mut out: Vec<JobEvent> = Vec::new();
        std::mem::swap(&mut out, &mut self.events);
        assert(self@ =~= HandleView { events: seq![], ..old(self)@ });
        out
    }

    /// Hand out the records that were not handed out yet.
    pub fn take_records(&mut self) -> (r: Vec<JournalRecord>)
        requires
            old(self).wf(),
        ensures
            final(self).wf(),
            record_views(r@) == old(self)@.records,
            final(self)@ == (HandleView { records: seq![], ..old(self)@ }),
    {
        let mut out: Vec<JournalRecord> = Vec::new();
        std::mem::swap(&mut out, &mut self.records);
        assert(self@ =~= HandleView { records: seq![], ..old(self)@ });
        out
    }
}

/// Progress counts the tasks that ended, one way or another, of all there are.
pub proof fn law_progress_counts_what_ended(h: HandleView)
    requires
        h.graph.tasks.len() <= usize::MAX,
    ensures
        h.progress().done <= h.progress().total,
        h.progress().total == h.graph.tasks.len(),
        h.progress().done == h.progress().total <==> forall|i: int|
            0 <= i < h.graph.tasks.len() ==> (#[trigger] h.graph.tasks[i]).state
                == TaskState::Completed || h.graph.tasks[i].state == TaskState::Cancelled
                || h.graph.tasks[i].state == TaskState::DeadLettered,
{
    lemma_tally_terminal(h.graph.tasks);
    assert forall|i: int| 0 <= i < h.graph.tasks.len() implies (
    #[trigger] h.graph.tasks[i]).state.finished() == (h.graph.tasks[i].state == TaskState::Completed
        || h.graph.tasks[i].state == TaskState::Cancelled || h.graph.tasks[i].state
        == TaskState::DeadLettered) by {}
}

/// A job keeps the time when it first ran, gets one when it ends, and keeps everything else but
/// its status and the reason.
pub proof fn law_a_status_is_stamped(
    h: HandleView,
    to: JobStatus,
    reason: Option<Seq<char>>,
    now: Timestamp,
)
    ensures
        ({
            let after = h.with_status(to, reason, now).job;
            &&& after.status == to
            &&& after.status_reason == reason
            &&& h.job.started_at is Some ==> after.started_at == h.job.started_at
            &&& h.job.started_at is None && to == JobStatus::Running ==> after.started_at == Some(
                now,
            )
            &&& h.job.started_at is None && to != JobStatus::Running ==> after.started_at is None
            &&& to == JobStatus::Completed || to == JobStatus::PartiallyCompleted || to
                == JobStatus::Failed || to == JobStatus::Cancelled || to == JobStatus::Rejected
                ==> after.finished_at == Some(now)
            &&& to == JobStatus::Running || to == JobStatus::Paused || to == JobStatus::Planning
                || to == JobStatus::Aggregating || to == JobStatus::Admitted ==> after.finished_at
                == h.job.finished_at
            &&& after.id == h.job.id
            &&& after.request == h.job.request
            &&& after.created_at == h.job.created_at
        }),
{
}

/// A story that goes out tells of the job, what happened, and to which task.
pub proof fn law_events_say_what_happened(
    h: HandleView,
    kind: JobEventKind,
    task_id: Option<TaskId>,
    detail: Seq<char>,
    progress: Progress,
    now: Timestamp,
)
    ensures
        ({
            let after = h.emitted(kind, task_id, detail, progress, now);
            let event = after.events.last();
            &&& after.events.len() == h.events.len() + 1
            &&& after.events.drop_last() == h.events
            &&& event.job_id == h.job.id
            &&& event.task_id == task_id
            &&& event.kind == kind
            &&& event.detail == detail
            &&& event.progress == progress
            &&& event.at == now
            &&& event.sequence_number == h.sequence
            &&& after.graph == h.graph && after.job == h.job && after.agents == h.agents
            &&& after.results == h.results && after.failures == h.failures
        }),
{
    let after = h.emitted(kind, task_id, detail, progress, now);
    assert(after.events.drop_last() =~= h.events);
}

} // verus!
