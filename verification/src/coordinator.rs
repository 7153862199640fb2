//! Job orchestration: decompose, schedule, execute, aggregate.
//!
//! The coordinator owns a job's lifecycle from submission to final result. It decides; whoever
//! drives it calls the models, waits, and hands back what came of it.

use crate::aggregate::{answers_of, clusters_of, int_lists, survey, Figures};
use crate::clock::Timestamp;
use crate::config::{default_settings, CoordinatorConfig};
use crate::decompose::{decompose_named, first_repeated, fresh_names, lemma_all_created,
    lemma_first_repeated, lemma_plans_have_tasks, lemma_small_plans_fit, name_taken, plan_for,
    plan_of, planned, task_total};
use crate::dispatch::Dispatch;
use crate::engine::{closing_status, conclude, wind_down, wound_down, Run};
use crate::error::{outcome, ErrorView, SwarmError};
use crate::figures::Real64;
use crate::gateway::summed;
use crate::graph::{shorter_than, tally, GraphCounts, GraphView, TaskGroup};
use crate::handle::{event_views, merged_view, no_progress, pool_views, transition_views, Control,
    HandleView, JobEvent, JobEventKind, JobHandle, Progress};
use crate::ids::{AgentId, CorrelationId, JobId, TaskId};
use crate::job::{ExecutionStrategy, FinalResult, FinalResultView, Job, JobRequest, JobRequestView,
    JobStatus, JobView};
use crate::journal::{clone_tasks, record_views, JournalRecord, MemoryJournal, RecordView};
use crate::memory::{InMemoryStore, StoreView};
use crate::order::in_order;
use crate::outcome::{applied, apply_outcome, lesson, told, Estimates, Outcome};
use crate::queue::{InMemoryQueue, QueueView};
use crate::recovery::{replay_records, Recovering, Replay};
use crate::register::Register;
use crate::runtime::Agent;
use crate::schedule::Scheduler;
use crate::staff::{crew, headcount, is_widest, lemma_tasks_need_staff, provision_agents, reduced};
use crate::state::Transition;
use crate::task::{failure_views, result_views, task_views, TaskFailure, TaskNode, TaskResult,
    TaskState, TaskView};
use crate::text::{comes_before, decimal, decimal_text, lemma_text_before_total,
    lemma_text_before_transitive, same_text, text_before};
use crate::tick::{actor_of, coordinator_actor, possible, tick, tick_view, ticked, Chances, Desk,
    Tick, TickView};
use vstd::prelude::*;
use vstd::string::*;

verus! {

/// A compact view of a job's progress, for APIs and the dashboard.
#[derive(Clone, Copy, Debug, PartialEq, Eq, Structural)]
pub struct JobStateView {
    /// Job identity.
    pub job_id: JobId,
    /// Current status.
    pub status: JobStatus,
    /// Strategy it was compiled with.
    pub execution_strategy: ExecutionStrategy,
    /// Task counts by lifecycle group.
    pub counts: GraphCounts,
    /// Fraction of tasks terminal.
    pub progress: Progress,
    /// Agents currently allocated to the job.
    pub active_agents: usize,
    /// Prompt plus completion tokens spent so far.
    pub tokens_used: u64,
    /// Estimated spend so far.
    pub cost_usd: Real64,
    /// Submission time.
    pub created_at: Timestamp,
    /// Completion time, once finished.
    pub finished_at: Option<Timestamp>,
}

/// Task counts by lifecycle group.
pub open spec fn counts_of(tasks: Seq<TaskView>) -> GraphCounts {
    GraphCounts {
        total: tasks.len() as usize,
        pending: tally(tasks, TaskGroup::Pending) as usize,
        queued: tally(tasks, TaskGroup::Queued) as usize,
        in_flight: tally(tasks, TaskGroup::InFlight) as usize,
        completed: tally(tasks, TaskGroup::Completed) as usize,
        retrying: tally(tasks, TaskGroup::Retrying) as usize,
        abandoned: tally(tasks, TaskGroup::Abandoned) as usize,
    }
}

impl HandleView {
    /// The job's progress in brief.
    pub open spec fn state(self, job_id: JobId) -> JobStateView {
        JobStateView {
            job_id,
            status: self.job.status,
            execution_strategy: self.job.request.execution_strategy,
            counts: counts_of(self.graph.tasks),
            progress: self.progress(),
            active_agents: self.agents.len() as usize,
            tokens_used: summed(self.statistics.tokens_in, self.statistics.tokens_out),
            cost_usd: self.statistics.cost_usd,
            created_at: self.job.created_at,
            finished_at: self.job.finished_at,
        }
    }

    /// With every record handed over.
    pub open spec fn handed_over(self) -> HandleView {
        HandleView { records: seq![], ..self }
    }
}

/// What a coordinator holds.
#[verifier::ext_equal]
pub struct CoordinatorView<S> {
    /// Its settings.
    pub config: CoordinatorConfig,
    /// The task queue.
    pub queue: QueueView,
    /// Shared memory.
    pub memory: StoreView,
    /// The scheduler that places tasks.
    pub scheduler: S,
    /// The jobs, by the number of their id.
    pub jobs: Map<u128, HandleView>,
    /// Agents allocated across every job.
    pub cluster_agents: nat,
    /// Everything that happened.
    pub journal: Seq<RecordView>,
}

impl<S> CoordinatorView<S> {
    /// Whether there is such a job.
    pub open spec fn has(self, job_id: JobId) -> bool {
        self.jobs.contains_key(job_id.value)
    }

    /// The job of that name.
    pub open spec fn job(self, job_id: JobId) -> HandleView {
        self.jobs[job_id.value]
    }

    /// With a job in another condition, its records in the journal.
    pub open spec fn with_job(self, job_id: JobId, handle: HandleView) -> CoordinatorView<S> {
        CoordinatorView {
            jobs: self.jobs.insert(job_id.value, handle.handed_over()),
            journal: self.journal + handle.records,
            ..self
        }
    }
}

/// To take a job out and put it back changes nothing.
proof fn lemma_put_back<S>(c: CoordinatorView<S>, job_id: JobId)
    requires
        c.has(job_id),
        c.job(job_id).records.len() == 0,
    ensures
        c.with_job(job_id, c.job(job_id)) == c,
{
    let handle = c.job(job_id);
    assert(handle.handed_over() =~= handle);
    assert(c.jobs.insert(job_id.value, handle) =~= c.jobs);
    assert(c.journal + handle.records =~= c.journal);
}

/// Why a lookup of a job fails where there is none.
pub open spec fn no_job(job_id: JobId) -> ErrorView {
    ErrorView::NotFound { kind: "job"@, id: job_id.text() }
}

/// Accepts jobs, plans them, drives them to completion, and merges the result.
pub struct Coordinator<S: Scheduler> {
    config: CoordinatorConfig,
    queue: InMemoryQueue,
    memory: InMemoryStore,
    scheduler: S,
    jobs: Register<JobHandle>,
    cluster_agents: usize,
    journal: MemoryJournal,
}

impl<S: Scheduler> View for Coordinator<S> {
    type V = CoordinatorView<S>;

    closed spec fn view(&self) -> CoordinatorView<S> {
        CoordinatorView {
            config: self.config,
            queue: self.queue@,
            memory: self.memory@,
            scheduler: self.scheduler,
            jobs: self.jobs@.map_values(|handle: JobHandle| handle@),
            cluster_agents: self.cluster_agents as nat,
            journal: self.journal@,
        }
    }
}

impl<S: Scheduler> Coordinator<S> {
    /// What holds of every coordinator.
    pub closed spec fn wf(&self) -> bool {
        &&& self.queue@.wf()
        &&& self.memory.wf()
        &&& self.jobs.wf()
        &&& forall|key: u128| #[trigger]
            self.jobs@.contains_key(key) ==> self.jobs@[key].wf() && self.jobs@[key]@.records.len()
                == 0
    }

    /// Every job of a coordinator is filed without loose ends.
    pub proof fn lemma_wf(&self)
        requires
            self.wf(),
        ensures
            self@.queue.wf(),
            forall|key: u128| #[trigger]
                self@.jobs.contains_key(key) ==> self@.jobs[key].records.len() == 0,
    {
    }

    /// Build a coordinator that places tasks with `scheduler`.
    pub fn new(config: CoordinatorConfig, scheduler: S) -> (r: Self)
        ensures
            r.wf(),
            r@ == (CoordinatorView {
                config,
                queue: QueueView::empty(),
                memory: StoreView::empty(),
                scheduler,
                jobs: Map::empty(),
                cluster_agents: 0,
                journal: seq![],
            }),
    {
        let r = Coordinator {
            config,
            queue: InMemoryQueue::new(),
            memory: InMemoryStore::new(),
            scheduler,
            jobs: Register::new(),
            cluster_agents: 0,
            journal: MemoryJournal::new(),
        };
        assert(r@.jobs =~= Map::empty());
        r
    }

    /// A coordinator with the default settings.
    pub fn local(scheduler: S) -> (r: Self)
        ensures
            r.wf(),
            r@.config == default_settings(r@.config.node_id),
            r@ == (CoordinatorView {
                config: r@.config,
                queue: QueueView::empty(),
                memory: StoreView::empty(),
                scheduler,
                jobs: Map::empty(),
                cluster_agents: 0,
                journal: seq![],
            }),
    {
        Self::new(CoordinatorConfig::default(), scheduler)
    }

    /// A coordinator under the given configuration, holding no job yet.
    pub fn local_with(config: CoordinatorConfig, scheduler: S) -> (r: Self)
        ensures
            r.wf(),
            r@ == (CoordinatorView {
                config,
                queue: QueueView::empty(),
                memory: StoreView::empty(),
                scheduler,
                jobs: Map::empty(),
                cluster_agents: 0,
                journal: seq![],
            }),
    {
        Self::new(config, scheduler)
    }

    /// This coordinator's configuration.
    pub fn config(&self) -> (r: &CoordinatorConfig)
        ensures
            *r == self@.config,
    {
        &self.config
    }

    /// The task queue, for depth and dead-letter inspection.
    pub fn queue(&self) -> (r: &InMemoryQueue)
        ensures
            r@ == self@.queue,
            self.wf() ==> r@.wf(),
    {
        &self.queue
    }

    /// The task queue, to be worked on.
    pub fn queue_mut(&mut self) -> (r: &mut InMemoryQueue)
        ensures
            r@ == old(self)@.queue,
            final(self)@ == (CoordinatorView { queue: final(r)@, ..old(self)@ }),
            old(self).wf() ==> r@.wf(),
            old(self).wf() && final(r)@.wf() ==> final(self).wf(),
    {
        &mut self.queue
    }

    /// Shared memory, for reading intermediate agent state.
    pub fn memory(&self) -> (r: &InMemoryStore)
        ensures
            r@ == self@.memory,
            self.wf() ==> r.wf(),
    {
        &self.memory
    }

    /// Shared memory, to be worked on.
    pub fn memory_mut(&mut self) -> (r: &mut InMemoryStore)
        ensures
            r@ == old(self)@.memory,
            final(self)@ == (CoordinatorView { memory: final(r)@, ..old(self)@ }),
            old(self).wf() ==> r.wf(),
            old(self).wf() && final(r).wf() ==> final(self).wf(),
    {
        &mut self.memory
    }

    /// The journal of everything that happened.
    pub fn journal(&self) -> (r: &MemoryJournal)
        ensures
            r@ == self@.journal,
    {
        &self.journal
    }

    /// Agents currently allocated across every job on this coordinator.
    pub fn cluster_agent_count(&self) -> (r: usize)
        ensures
            r == self@.cluster_agents,
    {
        self.cluster_agents
    }

    /// How many jobs there are.
    pub fn job_count(&self) -> (r: usize)
        ensures
            r == self@.jobs.dom().len(),
    {
        assert(self@.jobs.dom() =~= self.jobs@.dom());
        self.jobs.len()
    }

    /// The live state of a job.
    pub fn handle(&self, job_id: JobId) -> (r: Result<&JobHandle, SwarmError>)
        requires
            self.wf(),
        ensures
            match r {
                Ok(handle) => self@.has(job_id) && handle@ == self@.job(job_id) && handle.wf(),
                Err(error) => !self@.has(job_id) && error@ == no_job(job_id),
            },
    {
        match self.jobs.get(job_id.value) {
            Some(handle) => Ok(handle),
            None => Err(SwarmError::NotFound { kind: "job", id: job_id.to_string() }),
        }
    }

    /// Take a job out of the register, to work on it.
    fn check_out(&mut self, job_id: JobId) -> (r: Result<JobHandle, SwarmError>)
        requires
            old(self).wf(),
        ensures
            final(self).wf(),
            match r {
                Ok(handle) => {
                    &&& old(self)@.has(job_id)
                    &&& handle@ == old(self)@.job(job_id)
                    &&& handle.wf()
                    &&& handle@.records.len() == 0
                    &&& final(self)@ == (CoordinatorView {
                        jobs: old(self)@.jobs.remove(job_id.value),
                        ..old(self)@
                    })
                },
                Err(error) => {
                    &&& !old(self)@.has(job_id)
                    &&& error@ == no_job(job_id)
                    &&& final(self)@ == old(self)@
                },
            },
    {
        let ghost before = *self;
        match self.jobs.remove(job_id.value) {
            Some(handle) => {
                assert(before.jobs@.contains_key(job_id.value));
                assert(self@.jobs =~= before@.jobs.remove(job_id.value));
                assert forall|key: u128| #[trigger] self.jobs@.contains_key(key) implies self.jobs@[key].wf()
                    && self.jobs@[key]@.records.len() == 0 by {
                    assert(before.jobs@.contains_key(key));
                }
                Ok(handle)
            },
            None => {
                assert(self@.jobs =~= before@.jobs);
                assert forall|key: u128| #[trigger] self.jobs@.contains_key(key) implies self.jobs@[key].wf()
                    && self.jobs@[key]@.records.len() == 0 by {
                    assert(before.jobs@.contains_key(key));
                }
                Err(SwarmError::NotFound { kind: "job", id: job_id.to_string() })
            },
        }
    }

    /// Put a job into the register, its records into the journal.
    fn check_in(&mut self, job_id: JobId, handle: JobHandle)
        requires
            old(self).wf(),
            handle.wf(),
        ensures
            final(self).wf(),
            final(self)@ == old(self)@.with_job(job_id, handle@),
    {
        let ghost before = *self;
        let ghost given = handle@;
        let mut handle = handle;
        let records = handle.take_records();
        let ghost all = record_views(records@);
        assert(before.journal@ + all.take(0) =~= before.journal@);
        for i in 0..records.len()
            invariant
                all == record_views(records@),
                self.journal@ == before.journal@ + all.take(i as int),
                *self == (Coordinator { journal: self.journal, ..before }),
        {
            assert(all[i as int] == records@[i as int]@);
            let _ = self.journal.append(&records[i]);
            assert(self.journal@ =~= before.journal@ + all.take(i + 1));
        }
        assert(all.take(all.len() as int) =~= all);
        self.jobs.put(job_id.value, handle);
        proof {
            assert(self@.jobs =~= before@.jobs.insert(job_id.value, given.handed_over()));
            assert forall|key: u128| #[trigger] self.jobs@.contains_key(key) implies self.jobs@[key].wf()
                && self.jobs@[key]@.records.len() == 0 by {
                if key != job_id.value {
                    assert(before.jobs@.contains_key(key));
                }
            }
            assert(self@ =~= before@.with_job(job_id, given));
        }
    }

    /// Hand out the events of a job that were not handed out yet.
    pub fn take_events(&mut self, job_id: JobId) -> (r: Result<Vec<JobEvent>, SwarmError>)
        requires
            old(self).wf(),
        ensures
            final(self).wf(),
            match r {
                Ok(events) => {
                    &&& old(self)@.has(job_id)
                    &&& event_views(events@) == old(self)@.job(job_id).events
                    &&& final(self)@ == old(self)@.with_job(
                        job_id,
                        HandleView { events: seq![], ..old(self)@.job(job_id) },
                    )
                },
                Err(error) => {
                    &&& !old(self)@.has(job_id)
                    &&& error@ == no_job(job_id)
                    &&& final(self)@ == old(self)@
                },
            },
    {
        let ghost before = self@;
        let mut handle = match self.check_out(job_id) {
            Ok(handle) => handle,
            Err(error) => {
                return Err(error);
            },
        };
        let events = handle.take_events();
        self.check_in(job_id, handle);
        assert(self@ =~= before.with_job(
            job_id,
            HandleView { events: seq![], ..before.job(job_id) },
        ));
        Ok(events)
    }

    /// Stop a job. Running tasks are abandoned and queued work is purged.
    pub fn cancel(&mut self, job_id: JobId, now: Timestamp) -> (r: Result<(), SwarmError>)
        requires
            old(self).wf(),
        ensures
            final(self).wf(),
            match r {
                Ok(_) => {
                    &&& old(self)@.has(job_id)
                    &&& final(self)@ == (CoordinatorView {
                        queue: old(self)@.queue.purged(job_id),
                        ..old(self)@
                    }).with_job(
                        job_id,
                        HandleView {
                            control: Control::Cancelled,
                            ..old(self)@.job(job_id)
                        }.emitted(
                            JobEventKind::JobCancelled,
                            None,
                            "cancelled by operator"@,
                            no_progress(),
                            now,
                        ),
                    )
                },
                Err(error) => {
                    &&& !old(self)@.has(job_id)
                    &&& error@ == no_job(job_id)
                    &&& final(self)@ == old(self)@
                },
            },
    {
        let ghost before = self@;
        let mut handle = match self.check_out(job_id) {
            Ok(handle) => handle,
            Err(error) => {
                return Err(error);
            },
        };
        let ghost h = handle@;
        handle.control = Control::Cancelled;
        assert(handle@ =~= HandleView { control: Control::Cancelled, ..h });
        handle.emit(
            JobEventKind::JobCancelled,
            None,
            "cancelled by operator".to_owned(),
            Progress { done: 0, total: 1 },
            now,
        );
        let ghost told = handle@;
        let _ = self.queue.purge_job(job_id);
        self.check_in(job_id, handle);
        assert(self@ =~= CoordinatorView {
            queue: before.queue.purged(job_id),
            ..before
        }.with_job(job_id, told));
        Ok(())
    }

    /// Tell a job what the operator wants, unless it is cancelled.
    fn steer(
        &mut self,
        job_id: JobId,
        control: Control,
        kind: JobEventKind,
        detail: &str,
        now: Timestamp,
    ) -> (r: Result<(), SwarmError>)
        requires
            old(self).wf(),
        ensures
            final(self).wf(),
            match r {
                Ok(_) => {
                    &&& old(self)@.has(job_id)
                    &&& old(self)@.job(job_id).control != Control::Cancelled
                    &&& final(self)@ == old(self)@.with_job(
                        job_id,
                        HandleView { control, ..old(self)@.job(job_id) }.emitted(
                            kind,
                            None,
                            detail@,
                            no_progress(),
                            now,
                        ),
                    )
                },
                Err(error) => {
                    &&& final(self)@ == old(self)@
                    &&& error@ == steering_refusal(old(self)@, job_id)
                    &&& !old(self)@.has(job_id) || old(self)@.job(job_id).control
                        == Control::Cancelled
                },
            },
    {
        let ghost before = self@;
        match self.handle(job_id) {
            Ok(handle) => {
                if handle.control == Control::Cancelled {
                    let mut text = "job ".to_owned();
                    text.append(job_id.to_string().as_str());
                    text.append(" is cancelled");
                    return Err(SwarmError::Cancelled(text));
                }
            },
            Err(error) => {
                return Err(error);
            },
        }
        let mut handle = match self.check_out(job_id) {
            Ok(handle) => handle,
            Err(error) => {
                return Err(error);
            },
        };
        let ghost h = handle@;
        handle.control = control;
        assert(handle@ =~= HandleView { control, ..h });
        handle.emit(kind, None, detail.to_owned(), Progress { done: 0, total: 1 }, now);
        let ghost told = handle@;
        self.check_in(job_id, handle);
        assert(self@ =~= before.with_job(job_id, told));
        Ok(())
    }

    /// Suspend scheduling. Tasks already running are allowed to finish.
    pub fn pause(&mut self, job_id: JobId, now: Timestamp) -> (r: Result<(), SwarmError>)
        requires
            old(self).wf(),
        ensures
            final(self).wf(),
            match r {
                Ok(_) => {
                    &&& old(self)@.has(job_id)
                    &&& old(self)@.job(job_id).control != Control::Cancelled
                    &&& final(self)@ == old(self)@.with_job(
                        job_id,
                        HandleView { control: Control::Paused, ..old(self)@.job(job_id) }.emitted(
                            JobEventKind::JobPaused,
                            None,
                            "paused by operator"@,
                            no_progress(),
                            now,
                        ),
                    )
                },
                Err(error) => {
                    &&& final(self)@ == old(self)@
                    &&& error@ == steering_refusal(old(self)@, job_id)
                    &&& !old(self)@.has(job_id) || old(self)@.job(job_id).control
                        == Control::Cancelled
                },
            },
    {
        self.steer(job_id, Control::Paused, JobEventKind::JobPaused, "paused by operator", now)
    }

    /// Resume a paused job.
    pub fn resume(&mut self, job_id: JobId, now: Timestamp) -> (r: Result<(), SwarmError>)
        requires
            old(self).wf(),
        ensures
            final(self).wf(),
            match r {
                Ok(_) => {
                    &&& old(self)@.has(job_id)
                    &&& old(self)@.job(job_id).control != Control::Cancelled
                    &&& final(self)@ == old(self)@.with_job(
                        job_id,
                        HandleView { control: Control::Running, ..old(self)@.job(job_id) }.emitted(
                            JobEventKind::JobResumed,
                            None,
                            "resumed by operator"@,
                            no_progress(),
                            now,
                        ),
                    )
                },
                Err(error) => {
                    &&& final(self)@ == old(self)@
                    &&& error@ == steering_refusal(old(self)@, job_id)
                    &&& !old(self)@.has(job_id) || old(self)@.job(job_id).control
                        == Control::Cancelled
                },
            },
    {
        self.steer(job_id, Control::Running, JobEventKind::JobResumed, "resumed by operator", now)
    }
}

/// A job as it is planned.
pub open spec fn planning(
    job_id: JobId,
    correlation_id: CorrelationId,
    request: JobRequestView,
    now: Timestamp,
) -> JobView {
    JobView {
        status: JobStatus::Planning,
        ..JobView::submitted(job_id, correlation_id, request, now)
    }
}

/// Whether a graph has so many stages.
pub open spec fn is_depth(g: GraphView, depth: nat) -> bool {
    &&& forall|n: nat| n < depth ==> (#[trigger] g.wave(n)).len() > 0
    &&& forall|v: int| 0 <= v < g.tasks.len() ==> #[trigger] shorter_than(g.edges, v, depth)
}

/// A job that was just admitted and planned.
pub open spec fn launched(
    job: JobView,
    names: Seq<TaskId>,
    depth: nat,
    now: Timestamp,
) -> HandleView {
    let graph = planned(job, names);
    HandleView::planned(job, graph).noted(
        RecordView::JobPlanned { job, tasks: graph.tasks },
    ).emitted(JobEventKind::JobAdmitted, None, "admitted"@, no_progress(), now).emitted(
        JobEventKind::JobPlanned,
        None,
        decimal(graph.tasks.len()) + " tasks in "@ + decimal(depth) + " stages"@,
        no_progress(),
        now,
    )
}

/// Why a request is not admitted.
pub open spec fn admission_refusal(
    request: JobRequestView,
    config: CoordinatorConfig,
) -> Option<ErrorView> {
    match request.refusal() {
        Some(error) => Some(error),
        None => if request.max_agents > config.max_cluster_agents {
            Some(
                ErrorView::QuotaExceeded(
                    "job asks for "@ + decimal(request.max_agents as nat)
                        + " agents; this cluster allows "@ + decimal(
                        config.max_cluster_agents as nat,
                    ),
                ),
            )
        } else {
            None
        },
    }
}

/// Whether a request is admitted: it is valid, and the cluster is large enough for it.
pub fn check_admission(request: &JobRequest, config: &CoordinatorConfig) -> (r: Result<(), SwarmError>)
    ensures
        match r {
            Ok(_) => admission_refusal(request@, *config) is None,
            Err(error) => admission_refusal(request@, *config) == Some(error@),
        },
{
    match request.validate() {
        Ok(()) => {},
        Err(error) => {
            return Err(error);
        },
    }
    if request.max_agents > config.max_cluster_agents {
        let mut text = "job asks for ".to_owned();
        text.append(decimal_text(request.max_agents as u64).as_str());
        text.append(" agents; this cluster allows ");
        text.append(decimal_text(config.max_cluster_agents as u64).as_str());
        return Err(SwarmError::QuotaExceeded(text));
    }
    Ok(())
}

/// How a job starts.
#[derive(Debug)]
pub enum Start {
    /// It is over, and this came of it.
    Over(Box<FinalResult>),
    /// It runs, with so many agents.
    Running(usize),
}

/// How a job starts.
pub enum StartView {
    /// It is over, and this came of it.
    Over(FinalResultView),
    /// It runs, with so many agents.
    Running(nat),
}

/// The start of a job, taken by its view.
pub open spec fn start_view(r: Result<Start, SwarmError>) -> Result<StartView, ErrorView> {
    match r {
        Ok(Start::Over(result)) => Ok(StartView::Over(result@)),
        Ok(Start::Running(spawned)) => Ok(StartView::Running(spawned as nat)),
        Err(error) => Err(error@),
    }
}

impl<S> CoordinatorView<S> {
    /// How many agents a job is given whose widest wave is this wide.
    pub open spec fn wanted(self, job_id: JobId, widest: nat) -> nat {
        headcount(
            widest,
            self.job(job_id).staff().len(),
            self.job(job_id).job.request.max_agents as nat,
        )
    }

    /// Whether a job can be started.
    pub open spec fn starts(self, job_id: JobId) -> bool {
        &&& self.has(job_id)
        &&& !self.job(job_id).job.status.finished()
        &&& self.job(job_id).status_refusal(JobStatus::Running) is None
    }

    /// What starting a job comes to. The names are those of its agents.
    pub open spec fn begun(
        self,
        job_id: JobId,
        widest: nat,
        names: Seq<AgentId>,
        now: Timestamp,
    ) -> (CoordinatorView<S>, Result<StartView, ErrorView>) {
        let handle = self.job(job_id);
        let target = self.wanted(job_id, widest);
        if !self.has(job_id) {
            (self, Err(no_job(job_id)))
        } else if handle.job.status.finished() {
            (
                self,
                match handle.final_result {
                    Some(result) => Ok(StartView::Over(result)),
                    None => Err(
                        ErrorView::Internal(
                            "job "@ + handle.job.id.text() + " finished without a result"@,
                        ),
                    ),
                },
            )
        } else {
            match handle.status_refusal(JobStatus::Running) {
                Some(error) => (self, Err(error)),
                None => {
                    let running = handle.with_status(JobStatus::Running, None, now);
                    if self.cluster_agents + target > self.config.max_cluster_agents {
                        (
                            self.with_job(job_id, running),
                            Err(
                                ErrorView::QuotaExceeded(
                                    "cluster has "@ + decimal(self.cluster_agents) + " of "@
                                        + decimal(self.config.max_cluster_agents as nat)
                                        + " agents in use; job needs "@ + decimal(target)
                                        + " more"@,
                                ),
                            ),
                        )
                    } else {
                        (
                            CoordinatorView {
                                cluster_agents: self.cluster_agents + target,
                                ..self
                            }.with_job(
                                job_id,
                                running.staffed(
                                    crew(
                                        running.staff(),
                                        names,
                                        self.config.node_id,
                                        running.job.id,
                                        now,
                                    ),
                                    now,
                                ),
                            ),
                            Ok(StartView::Running(target)),
                        )
                    }
                },
            }
        }
    }

    /// What a tick for a job works on.
    pub open spec fn desk(self, job_id: JobId, run: Run) -> Desk<S> {
        Desk {
            handle: self.job(job_id),
            queue: self.queue,
            scheduler: self.scheduler,
            cluster_agents: self.cluster_agents,
            run,
        }
    }

    /// With what is left on a desk put back.
    pub open spec fn cleared(self, job_id: JobId, desk: Desk<S>) -> CoordinatorView<S> {
        CoordinatorView {
            queue: desk.queue,
            scheduler: desk.scheduler,
            cluster_agents: desk.cluster_agents,
            ..self
        }.with_job(job_id, desk.handle)
    }
}

impl<S: Scheduler> Coordinator<S> {
    /// Validate, admit, and plan a job. Returns its id; nothing runs yet. The job and its tasks
    /// go by fresh names.
    ///
    /// Admission control runs here, before any resource is committed: an over-quota job is
    /// rejected rather than being allowed to starve the cluster.
    pub fn submit(&mut self, request: JobRequest, now: Timestamp) -> (r: Result<JobId, SwarmError>)
        requires
            old(self).wf(),
        ensures
            final(self).wf(),
            match r {
                Ok(job_id) => {
                    &&& admission_refusal(request@, old(self)@.config) is None
                    &&& final(self)@.job(job_id).staff().len() > 0
                    &&& exists|correlation_id: CorrelationId, names: Seq<TaskId>, depth: nat|
                        {
                            let job = planning(job_id, correlation_id, request@, now);
                            &&& names.no_duplicates()
                            &&& names.len() == task_total(plan_of(job))
                            &&& is_depth(planned(job, names), depth)
                            &&& final(self)@ == old(self)@.with_job(
                                job_id,
                                #[trigger] launched(
                                    planning(job_id, correlation_id, request@, now),
                                    names,
                                    depth,
                                    now,
                                ),
                            )
                        }
                },
                Err(error) => {
                    &&& final(self)@ == old(self)@
                    &&& match admission_refusal(request@, old(self)@.config) {
                        Some(refusal) => error@ == refusal,
                        None => exists|names: Seq<TaskId>, k: int|
                            names.len() == task_total(plan_for(request@))
                                && #[trigger] first_repeated(names, k) && error@ == name_taken(
                                names[k],
                            ),
                    }
                },
            },
    {
        let names = match check_admission(&request, &self.config) {
            Ok(()) => fresh_names(&request),
            Err(_) => Vec::new(),
        };
        self.submit_named(request, JobId::new(), CorrelationId::new(), &names, now)
    }

    /// Validate, admit, and plan a job under the given names: whether it is admitted hangs on
    /// the request alone, and whether it is planned on its tasks having different names.
    pub fn submit_named(
        &mut self,
        request: JobRequest,
        job_id: JobId,
        correlation_id: CorrelationId,
        names: &Vec<TaskId>,
        now: Timestamp,
    ) -> (r: Result<JobId, SwarmError>)
        requires
            old(self).wf(),
            admission_refusal(request@, old(self)@.config) is None ==> names@.len() == task_total(
                plan_for(request@),
            ),
        ensures
            final(self).wf(),
            match admission_refusal(request@, old(self)@.config) {
                Some(refusal) => {
                    &&& r matches Err(error) && error@ == refusal
                    &&& final(self)@ == old(self)@
                },
                None => if names@.no_duplicates() {
                    &&& r == Ok::<JobId, SwarmError>(job_id)
                    &&& final(self)@.job(job_id).staff().len() > 0
                    &&& exists|depth: nat|
                        {
                            let job = planning(job_id, correlation_id, request@, now);
                            &&& is_depth(planned(job, names@), depth)
                            &&& final(self)@ == old(self)@.with_job(
                                job_id,
                                #[trigger] launched(
                                    planning(job_id, correlation_id, request@, now),
                                    names@,
                                    depth,
                                    now,
                                ),
                            )
                        }
                } else {
                    &&& r matches Err(error) && exists|k: int| #[trigger]
                        first_repeated(names@, k) && error@ == name_taken(names@[k])
                    &&& final(self)@ == old(self)@
                },
            },
    {
        let ghost before = self@;
        let ghost asked = request@;
        match check_admission(&request, &self.config) {
            Ok(()) => {},
            Err(error) => {
                return Err(error);
            },
        }
        let mut job = Job::create(job_id, correlation_id, request, now);
        job.status = JobStatus::Planning;
        let ghost plan = planning(job_id, correlation_id, asked, now);
        assert(job@ =~= plan);
        proof {
            lemma_small_plans_fit(job@);
        }
        let graph = match decompose_named(&job, names) {
            Ok(graph) => graph,
            Err(error) => {
                proof {
                    let k = choose|k: int| #[trigger]
                        first_repeated(names@, k) && error@ == name_taken(names@[k]);
                    lemma_first_repeated(names@, k);
                }
                return Err(error);
            },
        };
        proof {
            lemma_plans_have_tasks(plan, names@);
            assert forall|i: int| 0 <= i < graph@.tasks.len() implies (
            #[trigger] graph@.tasks[i]).attempt < u32::MAX by {
                lemma_all_created(plan, names@, plan_of(plan).len(), i);
            }
        }
        let depth: usize = match graph.layers() {
            Ok(layers) => {
                let depth: usize = layers.len();
                proof {
                    assert forall|n: nat| n < depth implies (#[trigger] graph@.wave(n)).len()
                        > 0 by {
                        assert(layers@[n as int]@ == graph@.wave(n));
                    }
                    assert(is_depth(graph@, depth as nat));
                }
                depth
            },
            Err(_) => 0,
        };
        let total: usize = graph.len();
        let record = JournalRecord::JobPlanned {
            job: Box::new(job.clone()),
            tasks: clone_tasks(graph.nodes()),
        };
        assert(record@ == RecordView::JobPlanned { job: plan, tasks: graph@.tasks });
        let mut handle = JobHandle::new(job, graph);
        handle.note(record);
        handle.emit(
            JobEventKind::JobAdmitted,
            None,
            "admitted".to_owned(),
            Progress { done: 0, total: 1 },
            now,
        );
        let mut text = decimal_text(total as u64);
        text.append(" tasks in ");
        text.append(decimal_text(depth as u64).as_str());
        text.append(" stages");
        handle.emit(JobEventKind::JobPlanned, None, text, Progress { done: 0, total: 1 }, now);
        assert(handle@ == launched(plan, names@, depth as nat, now));
        proof {
            lemma_tasks_need_staff(
                handle@.graph.tasks,
                handle@.job.request.required_capabilities,
            );
        }
        self.check_in(job_id, handle);
        Ok(job_id)
    }

    /// Start a job: it is given its agents and may be scheduled. One that is over answers with
    /// what came of it.
    pub fn begin(&mut self, job_id: JobId, now: Timestamp) -> (r: Result<Start, SwarmError>)
        requires
            old(self).wf(),
            old(self)@.starts(job_id) ==> old(self)@.job(job_id).staff().len() > 0
                || old(self)@.cluster_agents >= old(self)@.config.max_cluster_agents,
        ensures
            final(self).wf(),
            exists|widest: nat, names: Seq<AgentId>|
                {
                    &&& old(self)@.starts(job_id) ==> is_widest(
                        old(self)@.job(job_id).graph,
                        widest,
                    ) && names.len() == old(self)@.wanted(job_id, widest)
                    &&& (final(self)@, start_view(r)) == #[trigger] old(self)@.begun(
                        job_id,
                        widest,
                        names,
                        now,
                    )
                },
    {
        let ghost before = self@;
        let ghost unstarted = before.begun(job_id, 0, seq![], now);
        match self.handle(job_id) {
            Ok(handle) => {
                if handle.job.status.is_finished() {
                    return match &handle.final_result {
                        Some(result) => Ok(Start::Over(Box::new(result.clone()))),
                        None => {
                            let mut text = "job ".to_owned();
                            text.append(handle.job.id.to_string().as_str());
                            text.append(" finished without a result");
                            Err(SwarmError::Internal(text))
                        },
                    };
                }
            },
            Err(error) => {
                return Err(error);
            },
        }
        let mut handle = match self.check_out(job_id) {
            Ok(handle) => handle,
            Err(error) => {
                return Err(error);
            },
        };
        let ghost h = handle@;
        let max_agents: usize = handle.job.request.max_agents;
        match handle.set_status(JobStatus::Running, None, now) {
            Ok(()) => {},
            Err(error) => {
                self.check_in(job_id, handle);
                proof {
                    lemma_put_back(before, job_id);
                    assert(self@ =~= before.with_job(job_id, h));
                }
                return Err(error);
            },
        }
        let ghost running = handle@;
        let mut cluster_agents: usize = self.cluster_agents;
        let started = provision_agents(
            &mut handle,
            &mut cluster_agents,
            self.config.max_cluster_agents,
            self.config.node_id,
            max_agents,
            now,
        );
        self.cluster_agents = cluster_agents;
        let ghost crewed = handle@;
        self.check_in(job_id, handle);
        proof {
            let (widest, names) = choose|widest: nat, names: Seq<AgentId>|
                #![trigger is_widest(running.graph, widest), crew(
                    running.staff(),
                    names,
                    before.config.node_id,
                    running.job.id,
                    now,
                )]
                {
                    let target = headcount(widest, running.staff().len(), max_agents as nat);
                    &&& is_widest(running.graph, widest)
                    &&& names.len() == target
                    &&& match started {
                        Ok(spawned) => {
                            &&& spawned == target
                            &&& before.cluster_agents + target <= before.config.max_cluster_agents
                            &&& cluster_agents == before.cluster_agents + target
                            &&& crewed == running.staffed(
                                crew(
                                    running.staff(),
                                    names,
                                    before.config.node_id,
                                    running.job.id,
                                    now,
                                ),
                                now,
                            )
                        },
                        Err(error) => {
                            &&& before.cluster_agents + target > before.config.max_cluster_agents
                            &&& cluster_agents == before.cluster_agents
                            &&& crewed == running
                            &&& error@ == ErrorView::QuotaExceeded(
                                "cluster has "@ + decimal(before.cluster_agents) + " of "@
                                    + decimal(before.config.max_cluster_agents as nat)
                                    + " agents in use; job needs "@ + decimal(target) + " more"@,
                            )
                        },
                    }
                };
            let expected = before.begun(job_id, widest, names, now);
            assert(self@ =~= expected.0);
        }
        match started {
            Ok(spawned) => Ok(Start::Running(spawned)),
            Err(error) => Err(error),
        }
    }

    /// One round of scheduling for a job that was started: what to do next.
    pub fn tick(&mut self, job_id: JobId, run: &mut Run, now: Timestamp) -> (r: Result<
        Tick,
        SwarmError,
    >)
        requires
            old(self).wf(),
        ensures
            final(self).wf(),
            !old(self)@.has(job_id) ==> {
                &&& final(self)@ == old(self)@
                &&& *final(run) == *old(run)
                &&& tick_view(r) == Err::<TickView, ErrorView>(no_job(job_id))
            },
            old(self)@.has(job_id) ==> exists|chances: Chances<S>|
                {
                    let desk = old(self)@.desk(job_id, *old(run));
                    let (left, outcome_of_tick) = ticked(
                        desk,
                        chances,
                        old(self)@.config,
                        now,
                    );
                    &&& #[trigger] possible(
                        old(self)@.desk(job_id, *old(run)),
                        chances,
                        old(self)@.config,
                        now,
                    )
                    &&& final(self)@ == old(self)@.cleared(job_id, left)
                    &&& *final(run) == left.run
                    &&& tick_view(r) == outcome_of_tick
                },
    {
        let ghost before = self@;
        let ghost entry = *run;
        let mut handle = match self.check_out(job_id) {
            Ok(handle) => handle,
            Err(error) => {
                return Err(error);
            },
        };
        let mut cluster_agents: usize = self.cluster_agents;
        let r = tick(
            &mut handle,
            &mut self.queue,
            &mut self.scheduler,
            &mut cluster_agents,
            run,
            &self.config,
            now,
        );
        self.cluster_agents = cluster_agents;
        let ghost left = Desk {
            handle: handle@,
            queue: self.queue@,
            scheduler: self.scheduler,
            cluster_agents: cluster_agents as nat,
            run: *run,
        };
        self.check_in(job_id, handle);
        proof {
            let desk = before.desk(job_id, entry);
            let chances = choose|chances: Chances<S>|
                {
                    &&& possible(desk, chances, before.config, now)
                    &&& (left, tick_view(r)) == #[trigger] ticked(
                        desk,
                        chances,
                        before.config,
                        now,
                    )
                };
            assert(possible(desk, chances, before.config, now));
            assert(self@ =~= before.cleared(job_id, left));
        }
        r
    }

    /// Book what came of one task that was handed out.
    pub fn settle(
        &mut self,
        job_id: JobId,
        dispatch: &Dispatch,
        outcome_of_run: Outcome,
        estimates: Estimates,
        now: Timestamp,
    ) -> (r: Result<(), SwarmError>)
        requires
            old(self).wf(),
        ensures
            final(self).wf(),
            !old(self)@.has(job_id) ==> final(self)@ == old(self)@ && outcome(r) == Err::<
                (),
                ErrorView,
            >(no_job(job_id)),
            old(self)@.has(job_id) ==> {
                let booked = applied(
                    old(self)@.job(job_id),
                    old(self)@.queue,
                    dispatch@,
                    outcome_of_run@,
                    estimates,
                    coordinator_actor(old(self)@.config),
                    now,
                );
                &&& final(self)@ == (CoordinatorView {
                    queue: booked.queue,
                    scheduler: final(self)@.scheduler,
                    ..old(self)@
                }).with_job(job_id, booked.handle)
                &&& outcome(r) == booked.result
                &&& told(
                    old(self)@.scheduler,
                    lesson(
                        old(self)@.job(job_id),
                        old(self)@.queue,
                        dispatch@,
                        outcome_of_run@,
                        now,
                    ),
                    final(self)@.scheduler,
                )
            },
    {
        let ghost before = self@;
        let mut handle = match self.check_out(job_id) {
            Ok(handle) => handle,
            Err(error) => {
                return Err(error);
            },
        };
        let actor = actor_of(&self.config);
        let r = apply_outcome(
            &mut handle,
            &mut self.queue,
            &mut self.scheduler,
            dispatch,
            outcome_of_run,
            estimates,
            actor.as_str(),
            now,
        );
        let ghost left = handle@;
        let ghost queue = self.queue@;
        self.check_in(job_id, handle);
        assert(self@ =~= CoordinatorView {
            queue,
            scheduler: self@.scheduler,
            ..before
        }.with_job(job_id, left));
        r
    }

    /// Close the books of a job: abandon what is left of one that was cancelled, and take stock.
    pub fn wind_down(
        &mut self,
        job_id: JobId,
        cancelled: bool,
        spawned: usize,
        wall_clock_ms: u64,
        now: Timestamp,
    ) -> (r: Result<(), SwarmError>)
        requires
            old(self).wf(),
        ensures
            final(self).wf(),
            !old(self)@.has(job_id) ==> final(self)@ == old(self)@ && outcome(r) == Err::<
                (),
                ErrorView,
            >(no_job(job_id)),
            old(self)@.has(job_id) ==> {
                let (handle, queue, result) = wound_down(
                    old(self)@.job(job_id),
                    old(self)@.queue,
                    cancelled,
                    spawned as u64,
                    wall_clock_ms,
                    coordinator_actor(old(self)@.config),
                    now,
                );
                &&& final(self)@ == (CoordinatorView { queue, ..old(self)@ }).with_job(
                    job_id,
                    handle,
                )
                &&& outcome(r) == result
            },
    {
        let ghost before = self@;
        let mut handle = match self.check_out(job_id) {
            Ok(handle) => handle,
            Err(error) => {
                return Err(error);
            },
        };
        let actor = actor_of(&self.config);
        let r = wind_down(
            &mut handle,
            &mut self.queue,
            cancelled,
            spawned,
            wall_clock_ms,
            actor.as_str(),
            now,
        );
        let ghost left = handle@;
        let ghost queue = self.queue@;
        self.check_in(job_id, handle);
        assert(self@ =~= CoordinatorView { queue, ..before }.with_job(job_id, left));
        r
    }

    /// Merge the results of a job that was wound down, give it its last status, and free its
    /// agents. The figures have a standing for each cluster of its answers.
    pub fn conclude(
        &mut self,
        job_id: JobId,
        cancelled: bool,
        figures: &Figures,
        cost: &str,
        now: Timestamp,
    ) -> (r: Result<FinalResult, SwarmError>)
        requires
            old(self).wf(),
        ensures
            final(self).wf(),
            match r {
                Ok(result) => {
                    &&& conclusion_refusal(old(self)@, job_id, cancelled, *figures) is None
                    &&& result@ == old(self)@.job(job_id).conclusion(cancelled, *figures)
                    &&& final(self)@ == (CoordinatorView {
                        cluster_agents: reduced(
                            old(self)@.cluster_agents,
                            old(self)@.job(job_id).agents.len(),
                        ),
                        ..old(self)@
                    }).with_job(
                        job_id,
                        old(self)@.job(job_id).concluded(cancelled, *figures, cost@, now),
                    )
                },
                Err(error) => {
                    &&& conclusion_refusal(old(self)@, job_id, cancelled, *figures) == Some(error@)
                    &&& final(self)@ == old(self)@
                },
            },
    {
        let ghost before = self@;
        match self.handle(job_id) {
            Ok(handle) => {
                let survey_of = survey(&handle.graph, handle.results.as_slice());
                assert(survey_of.positions@.len() == int_lists(survey_of.positions@).len());
                if survey_of.positions.len() != figures.standings.len() {
                    return Err(
                        SwarmError::Internal("a position is without its standing".to_owned()),
                    );
                }
            },
            Err(error) => {
                return Err(error);
            },
        }
        let mut handle = match self.check_out(job_id) {
            Ok(handle) => handle,
            Err(error) => {
                return Err(error);
            },
        };
        let mut cluster_agents: usize = self.cluster_agents;
        let r = conclude(&mut handle, &mut cluster_agents, cancelled, figures, cost, now);
        self.cluster_agents = cluster_agents;
        let ghost left = handle@;
        self.check_in(job_id, handle);
        proof {
            if r is Err {
                lemma_put_back(before, job_id);
                assert(self@ =~= before.with_job(job_id, left));
            } else {
                assert(self@ =~= CoordinatorView {
                    cluster_agents: cluster_agents as nat,
                    ..before
                }.with_job(job_id, left));
            }
        }
        r
    }
}

/// Why a job cannot be concluded.
pub open spec fn conclusion_refusal<S>(
    c: CoordinatorView<S>,
    job_id: JobId,
    cancelled: bool,
    figures: Figures,
) -> Option<ErrorView> {
    let handle = c.job(job_id);
    if !c.has(job_id) {
        Some(no_job(job_id))
    } else if figures.standings@.len() != clusters_of(
        answers_of(handle.graph, handle.results),
    ).len() {
        Some(ErrorView::Internal("a position is without its standing"@))
    } else {
        handle.status_refusal(closing_status(cancelled, handle.graph.tasks))
    }
}

/// Whether a number is one of the first `n` of a register.
spec fn is_key_below(jobs: Register<JobHandle>, n: int, key: u128) -> bool {
    exists|j: int| 0 <= j < n && #[trigger] jobs.key(j) == key
}

/// Whether some snapshots are those of every job, newest first. Ids grow with the time of
/// submission.
pub open spec fn lists_jobs<S>(c: CoordinatorView<S>, list: Seq<JobStateView>) -> bool {
    &&& forall|i: int|
        0 <= i < list.len() ==> c.has((#[trigger] list[i]).job_id) && list[i] == c.job(
            list[i].job_id,
        ).state(list[i].job_id)
    &&& forall|i: int, j: int|
        0 <= i < j < list.len() ==> (#[trigger] list[i]).job_id.value > (
        #[trigger] list[j]).job_id.value
    &&& forall|key: u128| #[trigger]
        c.jobs.contains_key(key) ==> exists|i: int|
            0 <= i < list.len() && (#[trigger] list[i]).job_id.value == key
}

/// Whether the task at `i` is listed before the one at `j`: by stage, then by title, then as
/// they stand.
pub open spec fn listed_first(tasks: Seq<TaskView>) -> spec_fn(int, int) -> bool {
    |i: int, j: int|
        {
            ||| tasks[i].stage < tasks[j].stage
            ||| tasks[i].stage == tasks[j].stage && text_before(tasks[i].title, tasks[j].title)
            ||| tasks[i].stage == tasks[j].stage && tasks[i].title == tasks[j].title && i < j
        }
}

/// Whether an order lists all tasks, each once, by stage, then by title, then as they stand.
pub open spec fn is_listing(tasks: Seq<TaskView>, order: Seq<int>) -> bool {
    &&& order.len() == tasks.len()
    &&& forall|k: int| 0 <= k < order.len() ==> 0 <= #[trigger] order[k] < tasks.len()
    &&& in_order(order, listed_first(tasks))
}

/// Whether one task is listed before another: by stage, then by title, then as they stand.
fn goes_first(tasks: &Vec<TaskNode>, i: usize, j: usize) -> (r: bool)
    requires
        i < tasks@.len(),
        j < tasks@.len(),
    ensures
        r == listed_first(task_views(tasks@))(i as int, j as int),
{
    let ghost all = task_views(tasks@);
    assert(all[i as int] == tasks@[i as int]@ && all[j as int] == tasks@[j as int]@);
    let one = &tasks[i];
    let other = &tasks[j];
    if one.stage != other.stage {
        return one.stage < other.stage;
    }
    if comes_before(one.title.as_str(), other.title.as_str()) {
        return true;
    }
    same_text(one.title.as_str(), other.title.as_str()) && i < j
}

/// Listing is a strict order.
proof fn lemma_listing_order(tasks: Seq<TaskView>)
    ensures
        forall|i: int, j: int|
            i != j ==> #[trigger] listed_first(tasks)(i, j) || listed_first(tasks)(j, i),
        forall|i: int, j: int, k: int|
            #[trigger] listed_first(tasks)(i, j) && #[trigger] listed_first(tasks)(j, k)
                ==> listed_first(tasks)(i, k),
{
    assert forall|i: int, j: int| i != j implies #[trigger] listed_first(tasks)(i, j)
        || listed_first(tasks)(j, i) by {
        lemma_text_before_total(tasks[i].title, tasks[j].title);
    }
    assert forall|i: int, j: int, k: int|
        #[trigger] listed_first(tasks)(i, j) && #[trigger] listed_first(tasks)(
            j,
            k,
        ) implies listed_first(tasks)(i, k) by {
        if text_before(tasks[i].title, tasks[j].title) && text_before(
            tasks[j].title,
            tasks[k].title,
        ) {
            lemma_text_before_transitive(tasks[i].title, tasks[j].title, tasks[k].title);
        }
    }
}

/// The tasks of a graph by stage, then by title.
fn sorted_tasks(tasks: &Vec<TaskNode>) -> (r: Vec<TaskNode>)
    ensures
        exists|order: Seq<int>|
            #![trigger is_listing(task_views(tasks@), order)]
            is_listing(task_views(tasks@), order) && task_views(r@) == order.map_values(
                |k: int| task_views(tasks@)[k],
            ),
{
    let ghost all = task_views(tasks@);
    let ghost first = listed_first(all);
    proof {
        lemma_listing_order(all);
    }
    let mut order: Vec<usize> = Vec::new();
    for i in 0..tasks.len()
        invariant
            all == task_views(tasks@),
            first == listed_first(all),
            forall|a: int, b: int|
                a != b ==> #[trigger] first(a, b) || first(b, a),
            forall|a: int, b: int, c: int|
                #[trigger] first(a, b) && #[trigger] first(b, c) ==> first(a, c),
            order@.len() == i,
            forall|k: int| 0 <= k < order@.len() ==> #[trigger] order@[k] < i,
            forall|a: int, b: int|
                0 <= a < b < order@.len() ==> #[trigger] first(order@[a] as int, order@[b] as int),
    {
        let mut at: usize = 0;
        while at < order.len() && goes_first(tasks, order[at], i)
            invariant
                at <= order@.len(),
                i < tasks@.len(),
                all == task_views(tasks@),
                first == listed_first(all),
                forall|k: int| 0 <= k < order@.len() ==> #[trigger] order@[k] < i,
                forall|k: int| 0 <= k < at ==> #[trigger] first(order@[k] as int, i as int),
            ensures
                at <= order@.len(),
                at < order@.len() ==> !first(order@[at as int] as int, i as int),
                forall|k: int| 0 <= k < at ==> #[trigger] first(order@[k] as int, i as int),
            decreases order@.len() - at,
        {
            at = at + 1;
        }
        let ghost before = order@;
        proof {
            assert forall|b: int| at <= b < before.len() implies #[trigger] first(
                i as int,
                before[b] as int,
            ) by {
                assert(before[at as int] as int != i as int);
                assert(first(i as int, before[at as int] as int));
                if b > at {
                    assert(first(before[at as int] as int, before[b] as int));
                }
            }
        }
        order.insert(at, i);
        proof {
            assert forall|a: int, b: int| 0 <= a < b < order@.len() implies #[trigger] first(
                order@[a] as int,
                order@[b] as int,
            ) by {
                let c = if a < at { a } else { a - 1 };
                let d = if b < at { b } else { b - 1 };
                if a != at && b != at {
                    assert(first(before[c] as int, before[d] as int));
                } else if a == at {
                    assert(first(i as int, before[d] as int));
                } else {
                    assert(first(before[c] as int, i as int));
                }
            }
        }
    }
    let mut r: Vec<TaskNode> = Vec::new();
    for k in 0..order.len()
        invariant
            r@.len() == k,
            all == task_views(tasks@),
            order@.len() == tasks@.len(),
            forall|j: int| 0 <= j < order@.len() ==> #[trigger] order@[j] < tasks@.len(),
            forall|j: int| 0 <= j < k ==> (#[trigger] r@[j])@ == all[order@[j] as int],
    {
        assert(order@[k as int] < tasks@.len());
        assert(all[order@[k as int] as int] == tasks@[order@[k as int] as int]@);
        r.push(tasks[order[k]].clone());
    }
    proof {
        let positions = order@.map_values(|k: usize| k as int);
        assert(is_listing(all, positions)) by {
            assert forall|a: int, b: int| 0 <= a < b < positions.len() implies #[trigger] first(
                positions[a],
                positions[b],
            ) by {
                assert(first(order@[a] as int, order@[b] as int));
            }
        }
        assert(task_views(r@) =~= positions.map_values(|k: int| all[k]));
    }
    r
}

impl<S: Scheduler> Coordinator<S> {
    /// A snapshot of the job's progress.
    pub fn state(&self, job_id: JobId) -> (r: Result<JobStateView, SwarmError>)
        requires
            self.wf(),
        ensures
            match r {
                Ok(state) => self@.has(job_id) && state == self@.job(job_id).state(job_id),
                Err(error) => !self@.has(job_id) && error@ == no_job(job_id),
            },
    {
        let handle = match self.handle(job_id) {
            Ok(handle) => handle,
            Err(error) => {
                return Err(error);
            },
        };
        let ghost h = handle@;
        let counts = handle.graph.counts();
        assert(counts == counts_of(h.graph.tasks));
        Ok(
            JobStateView {
                job_id,
                status: handle.job.status,
                execution_strategy: handle.job.request.execution_strategy,
                counts,
                progress: handle.progress(),
                active_agents: handle.agents.len(),
                tokens_used: handle.statistics.tokens_in.saturating_add(
                    handle.statistics.tokens_out,
                ),
                cost_usd: handle.statistics.cost_usd,
                created_at: handle.job.created_at,
                finished_at: handle.job.finished_at,
            },
        )
    }

    /// A snapshot of every job this coordinator knows about, newest first.
    pub fn list_jobs(&self) -> (r: Vec<JobStateView>)
        requires
            self.wf(),
        ensures
            lists_jobs(self@, r@),
    {
        proof {
            self.jobs.lemma_wf();
        }
        let mut keys: Vec<u128> = Vec::new();
        let count: usize = self.jobs.count();
        for i in 0..count
            invariant
                self.wf(),
                count == self.jobs.size(),
                forall|k: int|
                    0 <= k < self.jobs.size() ==> self.jobs@.contains_key(
                        #[trigger] self.jobs.key(k),
                    ),
                forall|a: int, b: int|
                    0 <= a < self.jobs.size() && 0 <= b < self.jobs.size()
                        && #[trigger] self.jobs.key(a) == #[trigger] self.jobs.key(b) ==> a == b,
                forall|k: int|
                    0 <= k < keys@.len() ==> is_key_below(self.jobs, i as int, #[trigger] keys@[k]),
                forall|j: int|
                    0 <= j < i ==> keys@.contains(#[trigger] self.jobs.key(j)),
                forall|a: int, b: int|
                    0 <= a < b < keys@.len() ==> #[trigger] keys@[a] > #[trigger] keys@[b],
        {
            let key: u128 = self.jobs.key_of(i);
            let mut at: usize = 0;
            while at < keys.len() && keys[at] > key
                invariant
                    at <= keys@.len(),
                    forall|k: int| 0 <= k < at ==> #[trigger] keys@[k] > key,
                ensures
                    at <= keys@.len(),
                    at < keys@.len() ==> keys@[at as int] <= key,
                    forall|k: int| 0 <= k < at ==> #[trigger] keys@[k] > key,
                decreases keys@.len() - at,
            {
                at = at + 1;
            }
            let ghost before = keys@;
            proof {
                assert forall|k: int| 0 <= k < before.len() implies #[trigger] before[k] != key by {
                    assert(is_key_below(self.jobs, i as int, before[k]));
                    let j = choose|j: int| 0 <= j < i && #[trigger] self.jobs.key(j) == before[k];
                    assert(self.jobs.key(j) != self.jobs.key(i as int));
                }
            }
            keys.insert(at, key);
            proof {
                assert forall|k: int| 0 <= k < keys@.len() implies is_key_below(
                    self.jobs,
                    i + 1,
                    #[trigger] keys@[k],
                ) by {
                    if k == at {
                        assert(self.jobs.key(i as int) == keys@[k]);
                    } else {
                        let old_k = if k < at { k } else { k - 1 };
                        assert(keys@[k] == before[old_k]);
                        assert(is_key_below(self.jobs, i as int, before[old_k]));
                        let j = choose|j: int|
                            0 <= j < i && #[trigger] self.jobs.key(j) == before[old_k];
                        assert(self.jobs.key(j) == keys@[k]);
                    }
                }
                assert forall|j: int| 0 <= j < i + 1 implies keys@.contains(
                    #[trigger] self.jobs.key(j),
                ) by {
                    if j == i {
                        assert(keys@[at as int] == key);
                    } else {
                        let k = before.index_of(self.jobs.key(j));
                        assert(before[k] == self.jobs.key(j));
                        assert(keys@[if k < at { k } else { k + 1 }] == before[k]);
                    }
                }
                assert forall|a: int, b: int| 0 <= a < b < keys@.len() implies #[trigger] keys@[a]
                    > #[trigger] keys@[b] by {
                    let c = if a < at { a } else { a - 1 };
                    let d = if b < at { b } else { b - 1 };
                    if a != at {
                        assert(keys@[a] == before[c]);
                    }
                    if b != at {
                        assert(keys@[b] == before[d]);
                    }
                    if a == at && b > at + 1 {
                        assert(before[at as int] > before[d]);
                    }
                }
            }
        }
        let mut r: Vec<JobStateView> = Vec::new();
        for k in 0..keys.len()
            invariant
                self.wf(),
                r@.len() == k,
                forall|i: int| 0 <= i < keys@.len() ==> self@.jobs.contains_key(#[trigger] keys@[i]),
                forall|i: int|
                    0 <= i < k ==> (#[trigger] r@[i]).job_id.value == keys@[i] && r@[i]
                        == self@.job(r@[i].job_id).state(r@[i].job_id),
        {
            assert(self@.jobs.contains_key(keys@[k as int]));
            match self.state(JobId { value: keys[k] }) {
                Ok(state) => {
                    r.push(state);
                },
                Err(_) => {},
            }
        }
        proof {
            assert forall|key: u128| #[trigger] self@.jobs.contains_key(key) implies exists|i: int|
                0 <= i < r@.len() && (#[trigger] r@[i]).job_id.value == key by {
                assert(self.jobs@.contains_key(key));
                let j = choose|j: int| 0 <= j < self.jobs.size() && #[trigger] self.jobs.key(j)
                    == key;
                assert(keys@.contains(self.jobs.key(j)));
                let i = keys@.index_of(key);
                assert(r@[i].job_id.value == keys@[i]);
            }
            assert forall|i: int| 0 <= i < r@.len() implies self@.has((#[trigger] r@[i]).job_id) by {
                assert(self@.jobs.contains_key(keys@[i]));
            }
            assert forall|i: int, j: int| 0 <= i < j < r@.len() implies (
            #[trigger] r@[i]).job_id.value > (#[trigger] r@[j]).job_id.value by {
                assert(keys@[i] > keys@[j]);
            }
        }
        r
    }

    /// The job's task graph, as a flat list of nodes, by stage, then by title.
    pub fn task_graph(&self, job_id: JobId) -> (r: Result<Vec<TaskNode>, SwarmError>)
        requires
            self.wf(),
        ensures
            match r {
                Ok(nodes) => self@.has(job_id) && exists|order: Seq<int>|
                    #![trigger is_listing(self@.job(job_id).graph.tasks, order)]
                    is_listing(self@.job(job_id).graph.tasks, order) && task_views(nodes@)
                        == order.map_values(|k: int| self@.job(job_id).graph.tasks[k]),
                Err(error) => !self@.has(job_id) && error@ == no_job(job_id),
            },
    {
        match self.handle(job_id) {
            Ok(handle) => Ok(sorted_tasks(handle.graph.nodes())),
            Err(error) => Err(error),
        }
    }

    /// Results produced so far, including for a job still running.
    pub fn intermediate_results(&self, job_id: JobId) -> (r: Result<&Vec<TaskResult>, SwarmError>)
        requires
            self.wf(),
        ensures
            match r {
                Ok(results) => self@.has(job_id) && result_views(results@) == self@.job(
                    job_id,
                ).results,
                Err(error) => !self@.has(job_id) && error@ == no_job(job_id),
            },
    {
        match self.handle(job_id) {
            Ok(handle) => Ok(&handle.results),
            Err(error) => Err(error),
        }
    }

    /// Every failed attempt, for the failure inspection API.
    pub fn failures(&self, job_id: JobId) -> (r: Result<&Vec<TaskFailure>, SwarmError>)
        requires
            self.wf(),
        ensures
            match r {
                Ok(failures) => self@.has(job_id) && failure_views(failures@) == self@.job(
                    job_id,
                ).failures,
                Err(error) => !self@.has(job_id) && error@ == no_job(job_id),
            },
    {
        match self.handle(job_id) {
            Ok(handle) => Ok(&handle.failures),
            Err(error) => Err(error),
        }
    }

    /// The audit trail of task state transitions.
    pub fn transitions(&self, job_id: JobId) -> (r: Result<&Vec<Transition<TaskState>>, SwarmError>)
        requires
            self.wf(),
        ensures
            match r {
                Ok(list) => self@.has(job_id) && transition_views(list@) == self@.job(
                    job_id,
                ).transitions,
                Err(error) => !self@.has(job_id) && error@ == no_job(job_id),
            },
    {
        match self.handle(job_id) {
            Ok(handle) => Ok(&handle.transitions),
            Err(error) => Err(error),
        }
    }

    /// The final result, once the job has finished.
    pub fn final_result(&self, job_id: JobId) -> (r: Result<&Option<FinalResult>, SwarmError>)
        requires
            self.wf(),
        ensures
            match r {
                Ok(result) => self@.has(job_id) && merged_view(*result) == self@.job(
                    job_id,
                ).final_result,
                Err(error) => !self@.has(job_id) && error@ == no_job(job_id),
            },
    {
        match self.handle(job_id) {
            Ok(handle) => Ok(&handle.final_result),
            Err(error) => Err(error),
        }
    }

    /// The agents allocated to a job.
    pub fn agents(&self, job_id: JobId) -> (r: Result<&Vec<Agent>, SwarmError>)
        requires
            self.wf(),
        ensures
            match r {
                Ok(agents) => self@.has(job_id) && pool_views(agents@) == self@.job(job_id).agents,
                Err(error) => !self@.has(job_id) && error@ == no_job(job_id),
            },
    {
        match self.handle(job_id) {
            Ok(handle) => Ok(&handle.agents),
            Err(error) => Err(error),
        }
    }
}

/// The jobs once the first `n` that come back are in place.
pub open spec fn brought_back(
    jobs: Map<u128, HandleView>,
    list: Seq<(JobId, Recovering)>,
    costs: Seq<Real64>,
    n: nat,
) -> Map<u128, HandleView>
    decreases n,
{
    if n == 0 {
        jobs
    } else {
        let last = n - 1;
        brought_back(jobs, list, costs, last as nat).insert(
            list[last].0.value,
            list[last].1@.recovered(costs[last])->Ok_0,
        )
    }
}

/// Build the jobs that come back, last first.
fn build_all(replay: Replay, costs: &Vec<Real64>) -> (r: Result<
    Vec<(JobId, JobHandle)>,
    SwarmError,
>)
    requires
        costs@.len() == replay.jobs@.len(),
        forall|k: int|
            0 <= k < replay.jobs@.len() ==> (#[trigger] replay.jobs@[k]).1@.fits()
                && replay.jobs@[k].1@.startable(),
    ensures
        match r {
            Ok(built) => {
                &&& built@.len() == replay.jobs@.len()
                &&& forall|j: int|
                    0 <= j < built@.len() ==> {
                        let k = replay.jobs@.len() - 1 - j;
                        &&& (#[trigger] built@[j]).1.wf()
                        &&& built@[j].0 == replay.jobs@[k].0
                        &&& replay.jobs@[k].1@.recovered(costs@[k]) == Ok::<HandleView, ErrorView>(
                            built@[j].1@,
                        )
                    }
            },
            Err(error) => exists|k: int|
                0 <= k < replay.jobs@.len() && (#[trigger] replay.jobs@[k]).1@.recovered(
                    costs@[k],
                ) == Err::<HandleView, ErrorView>(error@),
        },
{
    let ghost list = replay.jobs@;
    let mut left = replay.jobs;
    let mut built: Vec<(JobId, JobHandle)> = Vec::new();
    while left.len() > 0
        invariant
            list == replay.jobs@,
            costs@.len() == list.len(),
            left@.len() + built@.len() == list.len(),
            left@ == list.take(left@.len() as int),
            forall|k: int|
                0 <= k < list.len() ==> (#[trigger] list[k]).1@.fits() && list[k].1@.startable(),
            forall|j: int|
                0 <= j < built@.len() ==> {
                    let k = list.len() - 1 - j;
                    &&& (#[trigger] built@[j]).1.wf()
                    &&& built@[j].0 == list[k].0
                    &&& list[k].1@.recovered(costs@[k]) == Ok::<HandleView, ErrorView>(
                        built@[j].1@,
                    )
                },
        decreases left@.len(),
    {
        let k: usize = left.len() - 1;
        assert(left@[k as int] == list[k as int]);
        match left.pop() {
            Some((job_id, known)) => {
                assert(left@ =~= list.take(k as int));
                assert(known == list[k as int].1);
                match known.build(costs[k]) {
                    Ok(handle) => {
                        built.push((job_id, handle));
                    },
                    Err(error) => {
                        assert(list[k as int].1@.recovered(costs@[k as int]) == Err::<
                            HandleView,
                            ErrorView,
                        >(error@));
                        return Err(error);
                    },
                }
            },
            None => {},
        }
    }
    Ok(built)
}

impl<S: Scheduler> Coordinator<S> {
    /// The jobs of the journal, each with what the journal says of it.
    pub fn replay(&self) -> (r: Result<Replay, SwarmError>)
        ensures
            r matches Ok(replay) && replay.covers(self@.journal, self@.journal.len()),
    {
        match self.journal.replay() {
            Ok(records) => Ok(replay_records(records)),
            Err(error) => Err(error),
        }
    }

    /// Bring back the jobs of a journal, each in place of what was known of it. Every one of
    /// them comes back, or none does. The costs are what the results of each job cost in all.
    pub fn recover(&mut self, replay: Replay, costs: &Vec<Real64>) -> (r: Result<usize, SwarmError>)
        requires
            old(self).wf(),
            costs@.len() == replay.jobs@.len(),
            forall|k: int|
                0 <= k < replay.jobs@.len() ==> (#[trigger] replay.jobs@[k]).1@.fits()
                    && replay.jobs@[k].1@.startable(),
        ensures
            final(self).wf(),
            match r {
                Ok(count) => {
                    &&& count == replay.jobs@.len()
                    &&& forall|k: int|
                        0 <= k < replay.jobs@.len() ==> (#[trigger] replay.jobs@[k]).1@.recovered(
                            costs@[k],
                        ) is Ok
                    &&& final(self)@ == (CoordinatorView {
                        jobs: brought_back(
                            old(self)@.jobs,
                            replay.jobs@,
                            costs@,
                            replay.jobs@.len(),
                        ),
                        ..old(self)@
                    })
                },
                Err(error) => {
                    &&& exists|k: int|
                        0 <= k < replay.jobs@.len() && (#[trigger] replay.jobs@[k]).1@.recovered(
                            costs@[k],
                        ) == Err::<HandleView, ErrorView>(error@)
                    &&& final(self)@ == old(self)@
                },
            },
    {
        let ghost before = self@;
        let ghost list = replay.jobs@;
        let count: usize = replay.jobs.len();
        let mut built = match build_all(replay, costs) {
            Ok(built) => built,
            Err(error) => {
                return Err(error);
            },
        };
        proof {
            assert forall|k: int| 0 <= k < list.len() implies (#[trigger] list[k]).1@.recovered(
                costs@[k],
            ) is Ok by {
                let j = list.len() - 1 - k;
                assert(built@[j].0 == list[k].0);
            }
        }
        let ghost all = built@;
        while built.len() > 0
            invariant
                self.wf(),
                count == list.len(),
                all.len() == list.len(),
                built@ == all.take(built@.len() as int),
                built@.len() <= all.len(),
                forall|j: int|
                    0 <= j < all.len() ==> {
                        let k = list.len() - 1 - j;
                        &&& (#[trigger] all[j]).1.wf()
                        &&& all[j].0 == list[k].0
                        &&& list[k].1@.recovered(costs@[k]) == Ok::<HandleView, ErrorView>(
                            all[j].1@,
                        )
                    },
                self@ == (CoordinatorView {
                    jobs: brought_back(
                        before.jobs,
                        list,
                        costs@,
                        (list.len() - built@.len()) as nat,
                    ),
                    ..before
                }),
            decreases built@.len(),
        {
            let ghost j = built@.len() - 1;
            let ghost k = list.len() - 1 - j;
            let ghost earlier = self@;
            assert(built@[j] == all[j]);
            let (job_id, handle) = match built.pop() {
                Some(entry) => entry,
                None => {
                    return Ok(count);
                },
            };
            assert(built@ =~= all.take(j));
            let ghost h = handle@;
            assert(h.records =~= seq![]);
            self.check_in(job_id, handle);
            proof {
                assert(h.handed_over() =~= h);
                assert(earlier.journal + h.records =~= earlier.journal);
                assert(self@.jobs == earlier.jobs.insert(job_id.value, h));
                assert(brought_back(before.jobs, list, costs@, (k + 1) as nat) == brought_back(
                    before.jobs,
                    list,
                    costs@,
                    k as nat,
                ).insert(job_id.value, h));
            }
        }
        Ok(count)
    }
}

/// Putting back what became of one job leaves the record of every other as it was: its plan, its
/// agents, its results, and its status. The queue itself is shared between jobs.
pub proof fn law_other_jobs_keep_their_records<S>(
    c: CoordinatorView<S>,
    job_id: JobId,
    handle: HandleView,
    other: JobId,
)
    requires
        other.value != job_id.value,
    ensures
        c.with_job(job_id, handle).has(other) == c.has(other),
        c.with_job(job_id, handle).job(other) == c.job(other),
{
}

/// The journal is only ever added to: what was written stays, in its order.
pub proof fn law_the_journal_only_grows<S>(
    c: CoordinatorView<S>,
    job_id: JobId,
    handle: HandleView,
)
    ensures
        c.journal.len() <= c.with_job(job_id, handle).journal.len(),
        c.with_job(job_id, handle).journal.take(c.journal.len() as int) == c.journal,
{
    assert(c.with_job(job_id, handle).journal.take(c.journal.len() as int) =~= c.journal);
}

/// A job over the cluster's quota is never admitted.
pub proof fn law_admission_respects_the_quota(request: JobRequestView, config: CoordinatorConfig)
    requires
        admission_refusal(request, config) is None,
    ensures
        1 <= request.max_agents <= config.max_cluster_agents,
{
}

/// Starting a job never takes the cluster over its limit.
pub proof fn law_the_cluster_limit_holds<S>(
    c: CoordinatorView<S>,
    job_id: JobId,
    widest: nat,
    names: Seq<AgentId>,
    now: Timestamp,
)
    requires
        c.cluster_agents <= c.config.max_cluster_agents,
    ensures
        c.begun(job_id, widest, names, now).0.cluster_agents <= c.config.max_cluster_agents,
{
}

/// Why a job cannot be paused or resumed.
pub open spec fn steering_refusal<S>(c: CoordinatorView<S>, job_id: JobId) -> ErrorView {
    if !c.has(job_id) {
        no_job(job_id)
    } else {
        ErrorView::Cancelled("job "@ + job_id.text() + " is cancelled"@)
    }
}

} // verus!
