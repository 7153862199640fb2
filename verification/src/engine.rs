//! The execution engine: the decisions of the loop that turns a task graph into a finished
//! job.
//!
//! Each tick promotes newly-ready tasks into the queue, recovers expired leases, leases work
//! back out for idle agents, and applies the outcomes. Whoever runs the loop executes the
//! tasks, sleeps, and hands back what came of it.

use crate::aggregate::{aggregate, answers_of, clusters_of, merged, standing_views, Figures};
use crate::clock::Timestamp;
use crate::error::{outcome, ErrorView, SwarmError};
use crate::figures::{Real64, INFINITY_BITS_64};
use crate::graph::{group_of, tally, GraphView, TaskGroup};
use crate::handle::{Control, HandleView, JobEventKind, JobHandle};
use crate::ids::TaskId;
use crate::job::{
    at_most, law_percentiles_split_the_samples, percentile_of, ExecutionStatistics, FinalResult,
    FinalResultView, JobStatus,
};
use crate::journal::{JournalRecord, RecordView};
use crate::queue::{InMemoryQueue, QueueView};
use crate::staff::reduced;
use crate::state::StateMachine;
use crate::task::{TaskState, TaskView};
use crate::text::{decimal, decimal_text, option_view};
use vstd::prelude::*;
use vstd::string::*;

verus! {

/// A job, and whether an operation on it went through.
#[verifier::ext_equal]
pub struct Swept {
    /// The job.
    pub handle: HandleView,
    /// Whether the operation went through.
    pub result: Result<(), ErrorView>,
}

/// The state a task has to pass through before it can be cancelled: one that waits for another
/// turn goes back to the queue first.
pub open spec fn way_out(state: TaskState) -> Option<TaskState> {
    if state == TaskState::RetryScheduled || state == TaskState::Preempted {
        Some(TaskState::Queued)
    } else {
        None
    }
}

/// A job after one of its tasks was taken to its end, through another state where one is given.
pub open spec fn abandoned(
    h: HandleView,
    id: TaskId,
    through: Option<TaskState>,
    end: TaskState,
    actor: Seq<char>,
    reason: Seq<char>,
    now: Timestamp,
) -> Swept {
    let first = match through {
        Some(state) => state,
        None => end,
    };
    match h.graph.state_refusal(id, first) {
        Some(error) => Swept { handle: h, result: Err(error) },
        None => {
            let moved = h.advanced(id, first, actor, reason, now);
            Swept {
                handle: match through {
                    Some(_) => moved.advanced(id, end, actor, reason, now),
                    None => moved,
                },
                result: Ok(()),
            }
        },
    }
}

/// Take a task to its end, through another state where one is given.
fn abandon(
    handle: &mut JobHandle,
    id: TaskId,
    through: Option<TaskState>,
    end: TaskState,
    actor: &str,
    reason: &str,
    now: Timestamp,
) -> (r: Result<(), SwarmError>)
    requires
        old(handle).wf(),
        !end.unqueued(),
        through matches Some(state) ==> !state.unqueued() && state.edges().contains(end),
    ensures
        final(handle).wf(),
        (Swept { handle: final(handle)@, result: outcome(r) }) == abandoned(
            old(handle)@,
            id,
            through,
            end,
            actor@,
            reason@,
            now,
        ),
{
    let ghost before = handle@;
    proof {
        handle.graph.lemma_wf();
    }
    if let Some(state) = through {
        match handle.advance(id, state, actor, reason, now) {
            Ok(_) => {},
            Err(error) => {
                return Err(error);
            },
        }
        proof {
            handle.graph.lemma_wf();
            crate::dispatch::lemma_state_elsewhere(before.graph, id, state);
        }
    }
    handle.advance(id, end, actor, reason, now)
}

/// A task that was taken to its end stands there, and nothing else changed.
proof fn lemma_abandoned(
    h: HandleView,
    id: TaskId,
    through: Option<TaskState>,
    end: TaskState,
    actor: Seq<char>,
    reason: Seq<char>,
    now: Timestamp,
)
    requires
        h.graph.distinct(),
        abandoned(h, id, through, end, actor, reason, now).result is Ok,
    ensures
        ({
            let after = abandoned(h, id, through, end, actor, reason, now).handle.graph;
            &&& h.graph.has(id)
            &&& after.distinct()
            &&& after.tasks.len() == h.graph.tasks.len()
            &&& forall|i: int|
                0 <= i < after.tasks.len() ==> (#[trigger] after.tasks[i]).id
                    == h.graph.tasks[i].id
            &&& after.tasks[h.graph.at(id)].state == end
            &&& forall|i: int|
                0 <= i < after.tasks.len() && i != h.graph.at(id) ==> #[trigger] after.tasks[i]
                    == h.graph.tasks[i]
        }),
{
    let at = h.graph.at(id);
    assert(h.graph.stands(id, at));
    match through {
        Some(state) => {
            crate::dispatch::lemma_state_elsewhere(h.graph, id, state);
            crate::dispatch::lemma_state_elsewhere(h.graph.with_state(id, state), id, end);
        },
        None => {
            crate::dispatch::lemma_state_elsewhere(h.graph, id, end);
        },
    }
}

/// A job after the first `n` of some tasks were cancelled because the work they wait for was
/// abandoned.
pub open spec fn stranded_cancelled(
    h: HandleView,
    list: Seq<TaskId>,
    n: nat,
    actor: Seq<char>,
    now: Timestamp,
) -> Swept
    decreases n,
{
    if n == 0 {
        Swept { handle: h, result: Ok(()) }
    } else {
        let before = stranded_cancelled(h, list, (n - 1) as nat, actor, now);
        let id = list[n - 1];
        if before.result is Err {
            before
        } else {
            let dropped = abandoned(
                before.handle,
                id,
                way_out(before.handle.graph.task(id).state),
                TaskState::Cancelled,
                actor,
                "upstream_abandoned"@,
                now,
            );
            if dropped.result is Err {
                dropped
            } else {
                Swept {
                    handle: dropped.handle.emitted(
                        JobEventKind::TaskCancelled,
                        Some(id),
                        "upstream task was abandoned"@,
                        dropped.handle.progress(),
                        now,
                    ),
                    ..dropped
                }
            }
        }
    }
}

/// Whether a list holds the tasks that can never run because a task upstream was given up,
/// each once.
pub open spec fn is_stranded_list(g: GraphView, list: Seq<TaskId>) -> bool {
    &&& forall|id: TaskId| #[trigger]
        list.contains(id) <==> g.has(id) && g.stranded(g.at(id))
    &&& list.no_duplicates()
}

/// The state a task has to pass through before it can be cancelled. A task that is not there
/// cannot be cancelled either way.
fn step_out(handle: &JobHandle, id: TaskId) -> (r: Option<TaskState>)
    requires
        handle.wf(),
    ensures
        handle@.graph.has(id) ==> r == way_out(handle@.graph.task(id).state),
        r matches Some(state) ==> state == TaskState::Queued && state.edges().contains(
            TaskState::Cancelled,
        ),
{
    assert(TaskState::Queued.edges()[1] == TaskState::Cancelled);
    match handle.graph.get(id) {
        Some(node) => match node.state {
            TaskState::RetryScheduled | TaskState::Preempted => Some(TaskState::Queued),
            _ => None,
        },
        None => None,
    }
}

/// Decide whether waiting another tick could possibly change anything.
///
/// Without this a job whose remaining work is unreachable — because an upstream task
/// dead-lettered — would spin until the tick budget ran out.
pub fn make_progress_possible(
    handle: &mut JobHandle,
    queue: &InMemoryQueue,
    actor: &str,
    now: Timestamp,
) -> (r: Result<bool, SwarmError>)
    requires
        old(handle).wf(),
    ensures
        final(handle).wf(),
        queue@.ready.len() + queue@.leases.len() > 0 ==> r == Ok::<bool, SwarmError>(true)
            && final(handle)@ == old(handle)@,
        queue@.ready.len() + queue@.leases.len() == 0 ==> exists|list: Seq<TaskId>|
            {
                &&& is_stranded_list(old(handle)@.graph, list)
                &&& (Swept {
                    handle: final(handle)@,
                    result: match r {
                        Ok(_) => Ok(()),
                        Err(error) => Err(error@),
                    },
                }) == #[trigger] stranded_cancelled(
                    old(handle)@,
                    list,
                    list.len(),
                    actor@,
                    now,
                )
                &&& r matches Ok(possible) ==> possible == (list.len() > 0)
            },
{
    let ghost entry = handle@;
    let stats = queue.stats_at(now);
    if stats.ready > 0 || stats.delayed > 0 || stats.leased > 0 {
        // Work is waiting on a retry backoff or a lease that has not expired yet.
        return Ok(true);
    }
    let stranded = handle.graph.blocked_by_abandoned();
    let ghost list = stranded@;
    assert(is_stranded_list(entry.graph, list));
    let mut n: usize = 0;
    while n < stranded.len()
        invariant
            handle.wf(),
            entry == old(handle)@,
            list == stranded@,
            n <= list.len(),
            is_stranded_list(entry.graph, list),
            queue@.ready.len() + queue@.leases.len() == 0,
            stranded_cancelled(entry, list, n as nat, actor@, now) == (Swept {
                handle: handle@,
                result: Ok(()),
            }),
        decreases list.len() - n,
    {
        let task_id = stranded[n];
        let through = step_out(handle, task_id);
        match abandon(
            handle,
            task_id,
            through,
            TaskState::Cancelled,
            actor,
            "upstream_abandoned",
            now,
        ) {
            Ok(_) => {},
            Err(error) => {
                proof {
                    assert(stranded_cancelled(entry, list, (n + 1) as nat, actor@, now) == (Swept {
                        handle: handle@,
                        result: Err(error@),
                    }));
                    lemma_sweep_stops(entry, list, (n + 1) as nat, list.len(), actor@, now);
                }
                return Err(error);
            },
        }
        let progress = handle.progress();
        handle.emit(
            JobEventKind::TaskCancelled,
            Some(task_id),
            "upstream task was abandoned".to_owned(),
            progress,
            now,
        );
        n = n + 1;
    }
    Ok(stranded.len() > 0)
}

/// A sweep that was refused goes no further.
proof fn lemma_sweep_stops(
    h: HandleView,
    list: Seq<TaskId>,
    n: nat,
    m: nat,
    actor: Seq<char>,
    now: Timestamp,
)
    requires
        n <= m,
        stranded_cancelled(h, list, n, actor, now).result is Err,
    ensures
        stranded_cancelled(h, list, m, actor, now) == stranded_cancelled(h, list, n, actor, now),
    decreases m - n,
{
    if n < m {
        lemma_sweep_stops(h, list, n, (m - 1) as nat, actor, now);
    }
}

/// The names of the tasks that are not terminal, in the order of the graph.
pub open spec fn pending(tasks: Seq<TaskView>) -> Seq<TaskId>
    decreases tasks.len(),
{
    if tasks.len() == 0 {
        seq![]
    } else if tasks.last().state.finished() {
        pending(tasks.drop_last())
    } else {
        pending(tasks.drop_last()).push(tasks.last().id)
    }
}

/// The state a task passes through when its job is cancelled. A running task fails on the way,
/// since work on it was begun.
pub open spec fn last_stop(state: TaskState) -> Option<TaskState> {
    if state == TaskState::Running {
        Some(TaskState::Failed)
    } else {
        way_out(state)
    }
}

/// Where a task ends when its job is cancelled: work that was begun is given up, the rest is
/// cancelled.
pub open spec fn ending(state: TaskState) -> TaskState {
    if state == TaskState::Running {
        TaskState::DeadLettered
    } else {
        TaskState::Cancelled
    }
}

/// A job after the first `n` of some tasks were abandoned because the job was cancelled.
pub open spec fn torn_down(
    h: HandleView,
    list: Seq<TaskId>,
    n: nat,
    actor: Seq<char>,
    now: Timestamp,
) -> Swept
    decreases n,
{
    if n == 0 {
        Swept { handle: h, result: Ok(()) }
    } else {
        let before = torn_down(h, list, (n - 1) as nat, actor, now);
        let id = list[n - 1];
        let state = before.handle.graph.task(id).state;
        if before.result is Err {
            before
        } else {
            abandoned(
                before.handle,
                id,
                last_stop(state),
                ending(state),
                actor,
                "job_cancelled"@,
                now,
            )
        }
    }
}

/// A teardown that was refused goes no further.
proof fn lemma_teardown_stops(
    h: HandleView,
    list: Seq<TaskId>,
    n: nat,
    m: nat,
    actor: Seq<char>,
    now: Timestamp,
)
    requires
        n <= m,
        torn_down(h, list, n, actor, now).result is Err,
    ensures
        torn_down(h, list, m, actor, now) == torn_down(h, list, n, actor, now),
    decreases m - n,
{
    if n < m {
        lemma_teardown_stops(h, list, n, (m - 1) as nat, actor, now);
    }
}

/// The names of the tasks that are not terminal.
fn pending_tasks(handle: &JobHandle) -> (r: Vec<TaskId>)
    ensures
        r@ == pending(handle@.graph.tasks),
{
    let nodes = handle.graph.nodes();
    let ghost all = handle@.graph.tasks;
    let mut r: Vec<TaskId> = Vec::new();
    assert(all.take(0) =~= seq![]);
    assert(r@ =~= pending(all.take(0)));
    for i in 0..nodes.len()
        invariant
            all == crate::task::task_views(nodes@),
            r@ == pending(all.take(i as int)),
    {
        assert(all.take(i + 1).drop_last() =~= all.take(i as int));
        assert(all.take(i + 1).last() == nodes@[i as int]@);
        if !nodes[i].is_terminal() {
            r.push(nodes[i].id);
        }
    }
    assert(all.take(all.len() as int) =~= all);
    r
}

/// Abandon every task that is not terminal, because the job was cancelled.
pub fn tear_down(handle: &mut JobHandle, actor: &str, now: Timestamp) -> (r: Result<
    (),
    SwarmError,
>)
    requires
        old(handle).wf(),
    ensures
        final(handle).wf(),
        (Swept { handle: final(handle)@, result: outcome(r) }) == torn_down(
            old(handle)@,
            pending(old(handle)@.graph.tasks),
            pending(old(handle)@.graph.tasks).len(),
            actor@,
            now,
        ),
{
    let ghost entry = handle@;
    let ids = pending_tasks(handle);
    let ghost list = ids@;
    let mut n: usize = 0;
    while n < ids.len()
        invariant
            handle.wf(),
            entry == old(handle)@,
            list == ids@,
            list == pending(entry.graph.tasks),
            n <= list.len(),
            torn_down(entry, list, n as nat, actor@, now) == (Swept {
                handle: handle@,
                result: Ok(()),
            }),
        decreases list.len() - n,
    {
        let task_id = ids[n];
        let ghost before = handle@;
        proof {
            handle.graph.lemma_wf();
        }
        let running = match handle.graph.get(task_id) {
            Some(node) => matches!(node.state, TaskState::Running),
            None => false,
        };
        assert(TaskState::Failed.edges()[1] == TaskState::DeadLettered);
        let through = if running {
            Some(TaskState::Failed)
        } else {
            step_out(handle, task_id)
        };
        let end = if running {
            TaskState::DeadLettered
        } else {
            TaskState::Cancelled
        };
        match abandon(handle, task_id, through, end, actor, "job_cancelled", now) {
            Ok(_) => {},
            Err(error) => {
                proof {
                    assert(torn_down(entry, list, (n + 1) as nat, actor@, now) == (Swept {
                        handle: handle@,
                        result: Err(error@),
                    }));
                    lemma_teardown_stops(entry, list, (n + 1) as nat, list.len(), actor@, now);
                }
                return Err(error);
            },
        }
        n = n + 1;
    }
    Ok(())
}

/// The status a job ends in.
pub open spec fn closing_status(cancelled: bool, tasks: Seq<TaskView>) -> JobStatus {
    let completed = tally(tasks, TaskGroup::Completed);
    if cancelled {
        JobStatus::Cancelled
    } else if tally(tasks, TaskGroup::Abandoned) == 0 && completed == tasks.len() {
        JobStatus::Completed
    } else if completed > 0 {
        JobStatus::PartiallyCompleted
    } else {
        JobStatus::Failed
    }
}

impl HandleView {
    /// With the closing figures in its statistics.
    pub open spec fn measured(self, spawned: u64, wall_clock_ms: u64) -> HandleView {
        let s = ExecutionStatistics {
            wall_clock_ms,
            tasks_total: self.graph.tasks.len() as usize,
            agents_spawned: if self.statistics.agents_spawned > spawned {
                self.statistics.agents_spawned
            } else {
                spawned
            },
            ..self.statistics
        };
        HandleView {
            statistics: if self.latencies.len() == 0 {
                s
            } else {
                ExecutionStatistics {
                    median_task_latency_ms: percentile_of(self.latencies, 50),
                    p95_task_latency_ms: percentile_of(self.latencies, 95),
                    p99_task_latency_ms: percentile_of(self.latencies, 99),
                    ..s
                }
            },
            ..self
        }
    }

    /// The result a job comes to.
    pub open spec fn conclusion(self, cancelled: bool, figures: Figures) -> FinalResultView {
        merged(
            self.job,
            self.graph,
            self.results,
            closing_status(cancelled, self.graph.tasks),
            self.statistics,
            standing_views(figures.standings@),
            figures.confidence,
        )
    }

    /// With its result in place and its end announced. The cost comes in dollars, written out
    /// to four places.
    pub open spec fn concluded(
        self,
        cancelled: bool,
        figures: Figures,
        cost: Seq<char>,
        now: Timestamp,
    ) -> HandleView {
        let result = self.conclusion(cancelled, figures);
        let status = closing_status(cancelled, self.graph.tasks);
        let closed = self.with_status(status, closing_reason(result), now);
        HandleView { final_result: Some(result), ..closed }.noted(
            RecordView::JobFinished { job_id: self.job.id, result },
        ).emitted(
            JobEventKind::JobFinished,
            None,
            status.label() + ": "@ + decimal(tally(self.graph.tasks, TaskGroup::Completed)) + "/"@
                + decimal(self.graph.tasks.len()) + " tasks completed, $"@ + cost,
            self.progress(),
            now,
        )
    }
}

/// Why a job ended as it did, where it left conflicts behind.
pub open spec fn closing_reason(result: FinalResultView) -> Option<Seq<char>> {
    if result.unresolved_conflicts.len() > 0 {
        Some(decimal(result.unresolved_conflicts.len()) + " unresolved conflicts"@)
    } else {
        None
    }
}

/// What winding a job down comes to: the job, the queue, and whether it went through.
pub open spec fn wound_down(
    h: HandleView,
    q: QueueView,
    cancelled: bool,
    spawned: u64,
    wall_clock_ms: u64,
    actor: Seq<char>,
    now: Timestamp,
) -> (HandleView, QueueView, Result<(), ErrorView>) {
    if cancelled {
        let list = pending(h.graph.tasks);
        let swept = torn_down(h, list, list.len(), actor, now);
        match swept.result {
            Err(error) => (swept.handle, q, Err(error)),
            Ok(_) => (swept.handle.measured(spawned, wall_clock_ms), q.purged(h.job.id), Ok(())),
        }
    } else {
        let measured = h.measured(spawned, wall_clock_ms);
        match measured.status_refusal(JobStatus::Aggregating) {
            Some(error) => (measured, q, Err(error)),
            None => (measured.with_status(JobStatus::Aggregating, None, now), q, Ok(())),
        }
    }
}

/// Tearing a job down leaves its record alone.
proof fn lemma_teardown_keeps_job(
    h: HandleView,
    list: Seq<TaskId>,
    n: nat,
    actor: Seq<char>,
    now: Timestamp,
)
    ensures
        torn_down(h, list, n, actor, now).handle.job == h.job,
    decreases n,
{
    if n > 0 {
        lemma_teardown_keeps_job(h, list, (n - 1) as nat, actor, now);
    }
}

/// Bring a job to its end: abandon what is left of a cancelled one, take stock, and start
/// merging the results of the others.
pub fn wind_down(
    handle: &mut JobHandle,
    queue: &mut InMemoryQueue,
    cancelled: bool,
    spawned: usize,
    wall_clock_ms: u64,
    actor: &str,
    now: Timestamp,
) -> (r: Result<(), SwarmError>)
    requires
        old(handle).wf(),
        old(queue)@.wf(),
    ensures
        final(handle).wf(),
        final(queue)@.wf(),
        (final(handle)@, final(queue)@, outcome(r)) == wound_down(
            old(handle)@,
            old(queue)@,
            cancelled,
            spawned as u64,
            wall_clock_ms,
            actor@,
            now,
        ),
{
    let ghost entry = handle@;
    if cancelled {
        match tear_down(handle, actor, now) {
            Ok(_) => {},
            Err(error) => {
                return Err(error);
            },
        }
        let job_id = handle.job.id;
        proof {
            let list = pending(entry.graph.tasks);
            lemma_teardown_keeps_job(entry, list, list.len(), actor@, now);
        }
        let _ = queue.purge_job(job_id);
    }
    let ghost settled = handle@;
    let total: usize = handle.graph.len();
    handle.statistics.wall_clock_ms = wall_clock_ms;
    handle.statistics.tasks_total = total;
    if handle.statistics.agents_spawned <= spawned as u64 {
        handle.statistics.agents_spawned = spawned as u64;
    }
    handle.statistics.set_latency_percentiles(handle.latencies.as_slice());
    assert(handle@ =~= settled.measured(spawned as u64, wall_clock_ms));
    if !cancelled {
        match handle.set_status(JobStatus::Aggregating, None, now) {
            Ok(_) => {},
            Err(error) => {
                return Err(error);
            },
        }
    }
    Ok(())
}

/// Produce the final result of a job that was wound down, and free its agents back to the
/// cluster.
pub fn conclude(
    handle: &mut JobHandle,
    cluster_agents: &mut usize,
    cancelled: bool,
    figures: &Figures,
    cost: &str,
    now: Timestamp,
) -> (r: Result<FinalResult, SwarmError>)
    requires
        old(handle).wf(),
        figures.standings@.len() == clusters_of(
            answers_of(old(handle)@.graph, old(handle)@.results),
        ).len(),
    ensures
        final(handle).wf(),
        ({
            let status = closing_status(cancelled, old(handle)@.graph.tasks);
            match r {
                Ok(result) => {
                    &&& old(handle)@.status_refusal(status) is None
                    &&& result@ == old(handle)@.conclusion(cancelled, *figures)
                    &&& final(handle)@ == old(handle)@.concluded(cancelled, *figures, cost@, now)
                    &&& *final(cluster_agents) == reduced(
                        *old(cluster_agents) as nat,
                        old(handle)@.agents.len(),
                    )
                },
                Err(error) => {
                    &&& old(handle)@.status_refusal(status) == Some(error@)
                    &&& final(handle)@ == old(handle)@
                    &&& *final(cluster_agents) == *old(cluster_agents)
                },
            }
        }),
{
    let ghost entry = handle@;
    let counts = handle.graph.counts();
    let status = if cancelled {
        JobStatus::Cancelled
    } else if counts.abandoned == 0 && counts.completed == counts.total {
        JobStatus::Completed
    } else if counts.completed > 0 {
        JobStatus::PartiallyCompleted
    } else {
        JobStatus::Failed
    };
    assert(status == closing_status(cancelled, entry.graph.tasks));
    let result = aggregate(
        &handle.job,
        &handle.graph,
        handle.results.as_slice(),
        status,
        handle.statistics,
        figures,
    );
    let conflicts: usize = result.unresolved_conflicts.len();
    assert(conflicts == result@.unresolved_conflicts.len());
    let reason = if conflicts > 0 {
        let mut text = decimal_text(conflicts as u64);
        text.append(" unresolved conflicts");
        Some(text)
    } else {
        None
    };
    assert(option_view(reason) == closing_reason(result@));
    match handle.set_status(status, reason, now) {
        Ok(_) => {},
        Err(error) => {
            return Err(error);
        },
    }
    let ghost closed = handle@;
    handle.final_result = Some(result.clone());
    let job_id = handle.job.id;
    handle.note(JournalRecord::JobFinished { job_id, result: Box::new(result.clone()) });
    let released: usize = handle.agents.len();
    *cluster_agents = (*cluster_agents).saturating_sub(released);
    let mut detail = status.as_str().to_owned();
    detail.append(": ");
    detail.append(decimal_text(counts.completed as u64).as_str());
    detail.append("/");
    detail.append(decimal_text(counts.total as u64).as_str());
    detail.append(" tasks completed, $");
    detail.append(cost);
    let progress = handle.progress();
    handle.emit(JobEventKind::JobFinished, None, detail, progress, now);
    assert(handle@ =~= entry.concluded(cancelled, *figures, cost@, now));
    Ok(result)
}

/// How the loop over a job stands.
#[derive(Clone, Copy, Debug, PartialEq, Eq, Structural)]
pub struct Run {
    /// Ticks begun.
    pub ticks: u64,
    /// Whether the job was found paused at the last tick.
    pub paused: bool,
}

/// What a tick begins with.
#[derive(Clone, Copy, Debug, PartialEq, Eq, Structural)]
pub enum Gate {
    /// The job is cancelled: finish it.
    Cancelled,
    /// The job is paused: wait until the operator says otherwise.
    Paused,
    /// The job has run out of time or money: finish with what there is.
    Spent,
    /// Scheduling goes on.
    Open,
}

/// Whether a job has spent what it may spend.
pub open spec fn over_cost(h: HandleView) -> bool {
    match h.job.request.max_cost {
        Some(limit) => h.statistics.cost_usd.reaches(limit),
        None => false,
    }
}

/// Whether a job may not go on: its deadline has passed, or its money is spent.
pub open spec fn is_spent(h: HandleView, now: Timestamp) -> bool {
    h.job.past_deadline(now) || over_cost(h)
}

/// What the begin of a tick comes to: the job, the loop, and what to do, or why not.
pub open spec fn gated(h: HandleView, run: Run, max_ticks: u64, now: Timestamp) -> (
    HandleView,
    Run,
    Result<Gate, ErrorView>,
) {
    if run.ticks >= max_ticks {
        (
            h,
            run,
            Err(
                ErrorView::Internal(
                    "job "@ + h.job.id.text() + " exceeded its scheduling tick budget"@,
                ),
            ),
        )
    } else {
        let begun = Run { ticks: (run.ticks + 1) as u64, ..run };
        match h.control {
            Control::Cancelled => (h, begun, Ok(Gate::Cancelled)),
            Control::Paused => if run.paused {
                (h, begun, Ok(Gate::Paused))
            } else {
                match h.status_refusal(JobStatus::Paused) {
                    Some(error) => (h, begun, Err(error)),
                    None => (
                        h.with_status(JobStatus::Paused, Some("operator paused"@), now),
                        Run { paused: true, ..begun },
                        Ok(Gate::Paused),
                    ),
                }
            },
            Control::Running => {
                let (resumed, on) = if run.paused {
                    (h.with_status(JobStatus::Running, None, now), Run { paused: false, ..begun })
                } else {
                    (h, begun)
                };
                if run.paused && h.status_refusal(JobStatus::Running) is Some {
                    (h, begun, Err(h.status_refusal(JobStatus::Running)->0))
                } else if resumed.job.past_deadline(now) {
                    (
                        resumed.emitted(
                            JobEventKind::JobFinished,
                            None,
                            "deadline exceeded"@,
                            resumed.progress(),
                            now,
                        ),
                        on,
                        Ok(Gate::Spent),
                    )
                } else if over_cost(resumed) {
                    (
                        resumed.emitted(
                            JobEventKind::JobFinished,
                            None,
                            "budget exhausted"@,
                            resumed.progress(),
                            now,
                        ),
                        on,
                        Ok(Gate::Spent),
                    )
                } else {
                    (resumed, on, Ok(Gate::Open))
                }
            },
        }
    }
}

/// Begin a tick: whether scheduling goes on.
pub fn begin_tick(handle: &mut JobHandle, run: &mut Run, max_ticks: u64, now: Timestamp) -> (r:
    Result<Gate, SwarmError>)
    requires
        old(handle).wf(),
    ensures
        final(handle).wf(),
        (final(handle)@, *final(run), outcome(r)) == gated(old(handle)@, *old(run), max_ticks, now),
{
    let ghost entry = handle@;
    if run.ticks >= max_ticks {
        let mut text = "job ".to_owned();
        text.append(handle.job.id.to_string().as_str());
        text.append(" exceeded its scheduling tick budget");
        return Err(SwarmError::Internal(text));
    }
    run.ticks = run.ticks + 1;
    match handle.control {
        Control::Cancelled => {
            return Ok(Gate::Cancelled);
        },
        Control::Paused => {
            if !run.paused {
                match handle.set_status(
                    JobStatus::Paused,
                    Some("operator paused".to_owned()),
                    now,
                ) {
                    Ok(_) => {},
                    Err(error) => {
                        return Err(error);
                    },
                }
                run.paused = true;
            }
            return Ok(Gate::Paused);
        },
        Control::Running => {
            if run.paused {
                match handle.set_status(JobStatus::Running, None, now) {
                    Ok(_) => {},
                    Err(error) => {
                        return Err(error);
                    },
                }
                run.paused = false;
            }
        },
    }
    if handle.job.is_past_deadline(now) {
        let progress = handle.progress();
        handle.emit(
            JobEventKind::JobFinished,
            None,
            "deadline exceeded".to_owned(),
            progress,
            now,
        );
        return Ok(Gate::Spent);
    }
    let spent = match handle.job.request.max_cost {
        Some(limit) => handle.statistics.cost_usd.at_least(limit),
        None => false,
    };
    if spent {
        let progress = handle.progress();
        handle.emit(
            JobEventKind::JobFinished,
            None,
            "budget exhausted".to_owned(),
            progress,
            now,
        );
        return Ok(Gate::Spent);
    }
    Ok(Gate::Open)
}

/// A paused, cancelled, overdue, or overspent job starts nothing: only an open gate lets
/// scheduling go on.
pub proof fn law_the_gate_holds(h: HandleView, run: Run, max_ticks: u64, now: Timestamp)
    ensures
        gated(h, run, max_ticks, now).2 == Ok::<Gate, ErrorView>(Gate::Open) ==> h.control
            == Control::Running && !is_spent(h, now) && run.ticks < max_ticks,
{
}

/// The loop over a job ends: every tick that begins uses one of the ticks the job is given.
pub proof fn law_ticks_run_out(h: HandleView, run: Run, max_ticks: u64, now: Timestamp)
    ensures
        gated(h, run, max_ticks, now).2 is Ok ==> run.ticks < gated(h, run, max_ticks, now).1.ticks
            <= max_ticks,
{
}

/// Every task that is not terminal is pending.
proof fn lemma_pending(tasks: Seq<TaskView>, i: int)
    requires
        0 <= i < tasks.len(),
        !tasks[i].state.finished(),
    ensures
        pending(tasks).contains(tasks[i].id),
    decreases tasks.len(),
{
    let before = pending(tasks.drop_last());
    if i == tasks.len() - 1 {
        assert(pending(tasks).last() == tasks[i].id);
    } else {
        lemma_pending(tasks.drop_last(), i);
        let k = choose|k: int| 0 <= k < before.len() && before[k] == tasks[i].id;
        assert(pending(tasks)[k] == tasks[i].id);
    }
}

/// Whatever was torn down is terminal, and nothing else changed.
proof fn lemma_torn_down(h: HandleView, list: Seq<TaskId>, n: nat, actor: Seq<char>, now: Timestamp)
    requires
        h.graph.distinct(),
        n <= list.len(),
        torn_down(h, list, n, actor, now).result is Ok,
    ensures
        ({
            let after = torn_down(h, list, n, actor, now).handle.graph;
            &&& after.distinct()
            &&& after.tasks.len() == h.graph.tasks.len()
            &&& forall|i: int|
                0 <= i < after.tasks.len() ==> (#[trigger] after.tasks[i]).id
                    == h.graph.tasks[i].id
            &&& forall|i: int|
                0 <= i < after.tasks.len() && list.take(n as int).contains(h.graph.tasks[i].id)
                    ==> (#[trigger] after.tasks[i]).state.finished()
            &&& forall|i: int|
                0 <= i < after.tasks.len() && !list.take(n as int).contains(h.graph.tasks[i].id)
                    ==> (#[trigger] after.tasks[i]).state == h.graph.tasks[i].state
        }),
    decreases n,
{
    if n > 0 {
        lemma_torn_down(h, list, (n - 1) as nat, actor, now);
        let before = torn_down(h, list, (n - 1) as nat, actor, now).handle.graph;
        let after = torn_down(h, list, n, actor, now).handle.graph;
        let id = list[n - 1];
        let state = before.task(id).state;
        let at = before.at(id);
        lemma_abandoned(
            torn_down(h, list, (n - 1) as nat, actor, now).handle,
            id,
            last_stop(state),
            ending(state),
            actor,
            "job_cancelled"@,
            now,
        );
        assert(before.stands(id, at));
        let shorter = list.take(n - 1);
        let longer = list.take(n as int);
        assert(longer =~= shorter.push(id));
        assert forall|i: int| 0 <= i < after.tasks.len() && longer.contains(
            h.graph.tasks[i].id,
        ) implies (#[trigger] after.tasks[i]).state.finished() by {
            if i != at {
                assert(before.tasks[i].id != before.tasks[at].id);
                let k = choose|k: int| 0 <= k < longer.len() && longer[k] == h.graph.tasks[i].id;
                assert(k < n - 1);
                assert(shorter[k] == h.graph.tasks[i].id);
                assert(before.tasks[i].state.finished());
            }
        }
        assert forall|i: int| 0 <= i < after.tasks.len() && !longer.contains(
            h.graph.tasks[i].id,
        ) implies (#[trigger] after.tasks[i]).state == h.graph.tasks[i].state by {
            assert(longer[n - 1] == id);
            assert(i != at);
            if shorter.contains(h.graph.tasks[i].id) {
                let k = choose|k: int| 0 <= k < shorter.len() && shorter[k] == h.graph.tasks[i].id;
                assert(longer[k] == h.graph.tasks[i].id);
            }
            assert(before.tasks[i].state == h.graph.tasks[i].state);
        }
    } else {
        assert(list.take(0) =~= seq![]);
    }
}

/// Every pending name is that of one task that is not terminal, and no name comes up twice.
proof fn lemma_pending_names(tasks: Seq<TaskView>)
    requires
        forall|i: int, j: int|
            0 <= i < j < tasks.len() ==> (#[trigger] tasks[i]).id != (#[trigger] tasks[j]).id,
    ensures
        pending(tasks).no_duplicates(),
        forall|k: int|
            0 <= k < pending(tasks).len() ==> exists|i: int|
                0 <= i < tasks.len() && (#[trigger] tasks[i]).id == #[trigger] pending(tasks)[k]
                    && !tasks[i].state.finished(),
    decreases tasks.len(),
{
    if tasks.len() > 0 {
        let front = tasks.drop_last();
        let before = pending(front);
        let last = tasks.last();
        assert forall|i: int, j: int| 0 <= i < j < front.len() implies (#[trigger] front[i]).id != (
        #[trigger] front[j]).id by {
            assert(tasks[i].id != tasks[j].id);
        }
        lemma_pending_names(front);
        assert forall|k: int| 0 <= k < before.len() implies #[trigger] before[k] != last.id by {
            let i = choose|i: int|
                0 <= i < front.len() && (#[trigger] front[i]).id == before[k]
                    && !front[i].state.finished();
            assert(tasks[i].id != tasks[tasks.len() - 1].id);
        }
        assert forall|k: int| 0 <= k < pending(tasks).len() implies exists|i: int|
            0 <= i < tasks.len() && (#[trigger] tasks[i]).id == #[trigger] pending(tasks)[k]
                && !tasks[i].state.finished() by {
            if k < before.len() {
                let i = choose|i: int|
                    0 <= i < front.len() && (#[trigger] front[i]).id == before[k]
                        && !front[i].state.finished();
                assert(tasks[i].id == pending(tasks)[k]);
            } else {
                assert(tasks[tasks.len() - 1].id == pending(tasks)[k]);
            }
        }
    }
}

/// Nothing stands in the way of abandoning tasks none of which has just failed.
proof fn lemma_teardown_goes_through(h: HandleView, n: nat, actor: Seq<char>, now: Timestamp)
    requires
        h.graph.distinct(),
        n <= pending(h.graph.tasks).len(),
        forall|i: int|
            0 <= i < h.graph.tasks.len() ==> (#[trigger] h.graph.tasks[i]).state
                != TaskState::Failed && h.graph.tasks[i].state != TaskState::TimedOut,
    ensures
        torn_down(h, pending(h.graph.tasks), n, actor, now).result is Ok,
    decreases n,
{
    let list = pending(h.graph.tasks);
    if n > 0 {
        lemma_teardown_goes_through(h, (n - 1) as nat, actor, now);
        lemma_torn_down(h, list, (n - 1) as nat, actor, now);
        lemma_pending_names(h.graph.tasks);
        let before = torn_down(h, list, (n - 1) as nat, actor, now).handle.graph;
        let id = list[n - 1];
        let i = choose|i: int|
            0 <= i < h.graph.tasks.len() && (#[trigger] h.graph.tasks[i]).id == id
                && !h.graph.tasks[i].state.finished();
        let shorter = list.take(n - 1);
        if shorter.contains(id) {
            let k = choose|k: int| 0 <= k < shorter.len() && shorter[k] == id;
            assert(list[k] == list[n - 1]);
        }
        assert(before.tasks[i].state == h.graph.tasks[i].state);
        assert(before.stands(id, i));
        let at = before.at(id);
        assert(before.stands(id, at));
        assert(at == i);
        let state = before.task(id).state;
        let edges = state.edges();
        let first = match last_stop(state) {
            Some(through) => through,
            None => ending(state),
        };
        assert(edges.contains(first)) by {
            match state {
                TaskState::Created => {
                    assert(edges[2] == TaskState::Cancelled);
                },
                TaskState::WaitingForDependency => {
                    assert(edges[1] == TaskState::Cancelled);
                },
                TaskState::Queued => {
                    assert(edges[1] == TaskState::Cancelled);
                },
                TaskState::Leased => {
                    assert(edges[2] == TaskState::Cancelled);
                },
                TaskState::Running => {
                    assert(edges[1] == TaskState::Failed);
                },
                _ => {
                    assert(edges[0] == TaskState::Queued);
                },
            }
        }
    }
}

/// Cancellation leaves every task in a terminal state. It goes through wherever no task stands
/// at a failure that nobody has decided on yet.
pub proof fn law_cancellation_ends_every_task(h: HandleView, actor: Seq<char>, now: Timestamp)
    requires
        h.graph.distinct(),
    ensures
        ({
            let list = pending(h.graph.tasks);
            let swept = torn_down(h, list, list.len(), actor, now);
            &&& swept.result is Ok ==> forall|i: int|
                0 <= i < swept.handle.graph.tasks.len() ==> (
                #[trigger] swept.handle.graph.tasks[i]).state.finished()
            &&& (forall|i: int|
                0 <= i < h.graph.tasks.len() ==> (#[trigger] h.graph.tasks[i]).state
                    != TaskState::Failed && h.graph.tasks[i].state != TaskState::TimedOut)
                ==> swept.result is Ok
        }),
{
    let list = pending(h.graph.tasks);
    let swept = torn_down(h, list, list.len(), actor, now);
    if swept.result is Ok {
        lemma_torn_down(h, list, list.len(), actor, now);
        assert(list.take(list.len() as int) =~= list);
        assert forall|i: int| 0 <= i < swept.handle.graph.tasks.len() implies (
        #[trigger] swept.handle.graph.tasks[i]).state.finished() by {
            if !h.graph.tasks[i].state.finished() {
                lemma_pending(h.graph.tasks, i);
            }
        }
    }
    if forall|i: int|
        0 <= i < h.graph.tasks.len() ==> (#[trigger] h.graph.tasks[i]).state != TaskState::Failed
            && h.graph.tasks[i].state != TaskState::TimedOut {
        lemma_teardown_goes_through(h, list.len(), actor, now);
    }
}

/// A group that takes in as many tasks as there are takes in all of them.
proof fn lemma_tally_all(tasks: Seq<TaskView>, group: TaskGroup)
    ensures
        tally(tasks, group) <= tasks.len(),
        tally(tasks, group) == tasks.len() <==> forall|i: int|
            0 <= i < tasks.len() ==> group_of((#[trigger] tasks[i]).state) == group,
    decreases tasks.len(),
{
    if tasks.len() > 0 {
        let front = tasks.drop_last();
        lemma_tally_all(front, group);
        if tally(tasks, group) == tasks.len() {
            assert forall|i: int| 0 <= i < tasks.len() implies group_of(
                (#[trigger] tasks[i]).state,
            ) == group by {
                if i < front.len() {
                    assert(front[i] == tasks[i]);
                }
            }
        } else if forall|i: int|
            0 <= i < tasks.len() ==> group_of((#[trigger] tasks[i]).state) == group {
            assert forall|i: int| 0 <= i < front.len() implies group_of(
                (#[trigger] front[i]).state,
            ) == group by {
                assert(front[i] == tasks[i]);
            }
            assert(tasks.last() == tasks[tasks.len() - 1]);
        }
    }
}

/// Two groups of tasks have no task in common.
proof fn lemma_tally_disjoint(tasks: Seq<TaskView>, one: TaskGroup, other: TaskGroup)
    requires
        one != other,
    ensures
        tally(tasks, one) + tally(tasks, other) <= tasks.len(),
    decreases tasks.len(),
{
    if tasks.len() > 0 {
        lemma_tally_disjoint(tasks.drop_last(), one, other);
    }
}

/// A job that was not cancelled ends completed exactly when every one of its tasks did.
pub proof fn law_completed_means_every_task_completed(tasks: Seq<TaskView>)
    ensures
        closing_status(false, tasks) == JobStatus::Completed <==> forall|i: int|
            0 <= i < tasks.len() ==> (#[trigger] tasks[i]).state == TaskState::Completed,
{
    lemma_tally_all(tasks, TaskGroup::Completed);
    lemma_tally_disjoint(tasks, TaskGroup::Completed, TaskGroup::Abandoned);
    assert forall|i: int| 0 <= i < tasks.len() implies (group_of((#[trigger] tasks[i]).state)
        == TaskGroup::Completed) == (tasks[i].state == TaskState::Completed) by {}
}

/// Event numbers only grow: the next event carries the number after the last one's, as long
/// as there are numbers left.
pub proof fn law_event_numbers_grow(
    h: HandleView,
    kind: JobEventKind,
    task_id: Option<TaskId>,
    detail: Seq<char>,
    progress: crate::handle::Progress,
    now: Timestamp,
)
    requires
        h.sequence < u64::MAX,
    ensures
        ({
            let after = h.emitted(kind, task_id, detail, progress, now);
            &&& after.events.last().sequence_number == h.sequence
            &&& after.sequence == h.sequence + 1
        }),
{
}

/// Some task belongs to a group exactly where its count is above zero.
proof fn lemma_tally_some(tasks: Seq<TaskView>, group: TaskGroup)
    ensures
        tally(tasks, group) > 0 <==> exists|i: int|
            0 <= i < tasks.len() && group_of((#[trigger] tasks[i]).state) == group,
    decreases tasks.len(),
{
    if tasks.len() > 0 {
        let front = tasks.drop_last();
        lemma_tally_some(front, group);
        assert(tasks[tasks.len() - 1] == tasks.last());
        if tally(front, group) > 0 {
            let i = choose|i: int|
                0 <= i < front.len() && group_of((#[trigger] front[i]).state) == group;
            assert(tasks[i] == front[i]);
        }
        if exists|i: int| 0 <= i < tasks.len() && group_of((#[trigger] tasks[i]).state) == group {
            let i = choose|i: int|
                0 <= i < tasks.len() && group_of((#[trigger] tasks[i]).state) == group;
            if i < front.len() {
                assert(front[i] == tasks[i]);
            }
        }
    }
}

/// A job that was cancelled ends cancelled; one of whose tasks some completed but not all ends
/// partially completed; one of whose tasks none completed, though there were some, has failed.
pub proof fn law_a_job_ends_as_its_tasks_did(tasks: Seq<TaskView>)
    ensures
        closing_status(true, tasks) == JobStatus::Cancelled,
        closing_status(false, tasks) != JobStatus::Cancelled,
        closing_status(false, tasks) == JobStatus::PartiallyCompleted <==> (exists|i: int|
            0 <= i < tasks.len() && (#[trigger] tasks[i]).state == TaskState::Completed) && (exists|
            i: int,
        |
            0 <= i < tasks.len() && (#[trigger] tasks[i]).state != TaskState::Completed),
        closing_status(false, tasks) == JobStatus::Failed <==> tasks.len() > 0 && forall|i: int|
            0 <= i < tasks.len() ==> (#[trigger] tasks[i]).state != TaskState::Completed,
{
    law_completed_means_every_task_completed(tasks);
    lemma_tally_some(tasks, TaskGroup::Completed);
    assert forall|i: int| 0 <= i < tasks.len() implies (group_of((#[trigger] tasks[i]).state)
        == TaskGroup::Completed) == (tasks[i].state == TaskState::Completed) by {}
    if exists|i: int| 0 <= i < tasks.len() && (#[trigger] tasks[i]).state == TaskState::Completed {
        let i = choose|i: int|
            0 <= i < tasks.len() && (#[trigger] tasks[i]).state == TaskState::Completed;
        assert(group_of(tasks[i].state) == TaskGroup::Completed);
    } else if tasks.len() > 0 {
        assert(tasks[0].state != TaskState::Completed);
    }
}

/// What is pending are exactly the tasks that have neither completed nor been given up.
pub proof fn law_pending_tasks_are_unfinished(tasks: Seq<TaskView>, id: TaskId)
    ensures
        pending(tasks).contains(id) <==> exists|i: int|
            0 <= i < tasks.len() && (#[trigger] tasks[i]).id == id && tasks[i].state
                != TaskState::Completed && tasks[i].state != TaskState::Cancelled && tasks[i].state
                != TaskState::DeadLettered,
    decreases tasks.len(),
{
    let all = pending(tasks);
    if tasks.len() > 0 {
        let front = tasks.drop_last();
        let rest = pending(front);
        law_pending_tasks_are_unfinished(front, id);
        let last = tasks.len() - 1;
        assert(tasks[last] == tasks.last());
        if rest.contains(id) {
            let k = rest.index_of(id);
            assert(all[k] == id);
            let i = choose|i: int|
                0 <= i < front.len() && (#[trigger] front[i]).id == id && front[i].state
                    != TaskState::Completed && front[i].state != TaskState::Cancelled
                    && front[i].state != TaskState::DeadLettered;
            assert(tasks[i] == front[i]);
        }
        if all.contains(id) {
            let k = all.index_of(id);
            if k < rest.len() {
                assert(rest[k] == id);
            }
        }
        if !tasks.last().state.finished() {
            assert(all[rest.len() as int] == tasks.last().id);
        }
        if exists|i: int|
            0 <= i < tasks.len() && (#[trigger] tasks[i]).id == id && tasks[i].state
                != TaskState::Completed && tasks[i].state != TaskState::Cancelled && tasks[i].state
                != TaskState::DeadLettered {
            let i = choose|i: int|
                0 <= i < tasks.len() && (#[trigger] tasks[i]).id == id && tasks[i].state
                    != TaskState::Completed && tasks[i].state != TaskState::Cancelled
                    && tasks[i].state != TaskState::DeadLettered;
            if i < last {
                assert(front[i] == tasks[i]);
            }
        }
    }
}

/// The latencies of a job are summed up by what half of its results did not exceed, and what
/// ninety-five and ninety-nine of a hundred did not.
pub proof fn law_latencies_are_measured(h: HandleView, spawned: u64, wall_clock_ms: u64)
    requires
        h.latencies.len() > 0,
        h.graph.tasks.len() <= usize::MAX,
    ensures
        ({
            let s = h.measured(spawned, wall_clock_ms).statistics;
            let n = h.latencies.len();
            &&& h.latencies.contains(s.median_task_latency_ms)
            &&& 100 * at_most(h.latencies, s.median_task_latency_ms) >= 50 * n
            &&& s.median_task_latency_ms > 0 ==> 100 * at_most(
                h.latencies,
                (s.median_task_latency_ms - 1) as u64,
            ) < 50 * n
            &&& 100 * at_most(h.latencies, s.p95_task_latency_ms) >= 95 * n
            &&& s.p95_task_latency_ms > 0 ==> 100 * at_most(
                h.latencies,
                (s.p95_task_latency_ms - 1) as u64,
            ) < 95 * n
            &&& 100 * at_most(h.latencies, s.p99_task_latency_ms) >= 99 * n
            &&& s.p99_task_latency_ms > 0 ==> 100 * at_most(
                h.latencies,
                (s.p99_task_latency_ms - 1) as u64,
            ) < 99 * n
            &&& s.wall_clock_ms == wall_clock_ms
            &&& s.tasks_total == h.graph.tasks.len()
            &&& s.agents_spawned >= spawned
            &&& s.agents_spawned >= h.statistics.agents_spawned
        }),
{
    let s = h.measured(spawned, wall_clock_ms).statistics;
    law_percentiles_split_the_samples(
        h.latencies,
        50,
        if s.median_task_latency_ms > 0 {
            (s.median_task_latency_ms - 1) as u64
        } else {
            0
        },
    );
    law_percentiles_split_the_samples(
        h.latencies,
        95,
        if s.p95_task_latency_ms > 0 {
            (s.p95_task_latency_ms - 1) as u64
        } else {
            0
        },
    );
    law_percentiles_split_the_samples(
        h.latencies,
        99,
        if s.p99_task_latency_ms > 0 {
            (s.p99_task_latency_ms - 1) as u64
        } else {
            0
        },
    );
}

/// A job is stopped by its cost from the amount that reaches its limit on, and never without a
/// limit.
pub proof fn law_the_cost_limit_stops_the_job(h: HandleView, now: Timestamp, limit: Real64)
    requires
        h.job.request.max_cost == Some(limit),
        limit.bits <= INFINITY_BITS_64,
        h.statistics.cost_usd.bits <= INFINITY_BITS_64,
    ensures
        h.statistics.cost_usd.bits >= limit.bits ==> is_spent(h, now),
        h.statistics.cost_usd.bits < limit.bits ==> (is_spent(h, now) <==> h.job.past_deadline(
            now,
        )),
{
}

} // verus!
