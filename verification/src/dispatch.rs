//! Getting work to agents: moving ready tasks into the queue, leasing them back out, and
//! pairing each with an agent.

use crate::agent::{AgentDescriptor, AgentStatus, AgentView};
use crate::clock::Timestamp;
use crate::error::SwarmError;
use crate::figures::{Real32, ONE_BITS};
use crate::graph::{lemma_same_names, queued_before, GraphView};
use crate::handle::{pool_views, HandleView, JobEventKind, JobHandle};
use crate::ids::{AgentId, JobId, LeaseId, NodeId, TaskId};
use crate::queue::{leased_by_other_job, lemma_lease_unique, named_otherwise, InMemoryQueue,
    LeaseView, QueueView, QueuedTask, QueuedView, TaskLease};
use crate::runtime::{agent_type_for, type_for, upstream_views, Agent, ContextView, TaskContext,
    UpstreamOutput, UpstreamView};
use crate::schedule::{agent_views, places, unplaceable, Scheduler};
use crate::staff::{count_idle, idle_count, new_pool_agent, pool_agent};
use crate::state::StateMachine;
use crate::task::{result_views, TaskNode, TaskResult, TaskResultView, TaskState, TaskView};
use crate::text::{clone_option, decimal, decimal_text};
use vstd::prelude::*;
use vstd::string::*;

verus! {

/// Whether a list holds the tasks that are ready, each once, in the order in which they are
/// queued.
pub open spec fn is_ready_list(g: GraphView, list: Seq<TaskId>) -> bool {
    &&& forall|id: TaskId| #[trigger]
        list.contains(id) <==> g.has(id) && g.is_ready(g.at(id))
    &&& forall|i: int, j: int|
        0 <= i < j < list.len() ==> queued_before(
            g.task(#[trigger] list[i]),
            g.task(#[trigger] list[j]),
        )
}

/// A job and the queue after the first `n` of some tasks were moved into the queue.
pub open spec fn promoted(
    h: HandleView,
    q: QueueView,
    list: Seq<TaskId>,
    n: nat,
    actor: Seq<char>,
    lease_ms: u64,
    now: Timestamp,
) -> (HandleView, QueueView)
    decreases n,
{
    if n == 0 {
        (h, q)
    } else {
        let (before, waiting) = promoted(h, q, list, (n - 1) as nat, actor, lease_ms, now);
        let id = list[n - 1];
        let moved = before.advanced(id, TaskState::Queued, actor, "dependencies_satisfied"@, now);
        let task = moved.graph.task(id);
        (
            moved.emitted(JobEventKind::TaskQueued, Some(id), task.title, moved.progress(), now),
            waiting.enqueued(QueuedView::of(task, h.job.request.priority, lease_ms, now)),
        )
    }
}

/// Changing the state of one task leaves the others as they are.
pub proof fn lemma_state_elsewhere(g: GraphView, id: TaskId, state: TaskState)
    requires
        g.distinct(),
        g.has(id),
    ensures
        g.with_state(id, state).distinct(),
        g.with_state(id, state).tasks.len() == g.tasks.len(),
        g.with_state(id, state).has(id),
        g.with_state(id, state).at(id) == g.at(id),
        g.with_state(id, state).task(id) == (TaskView { state, ..g.task(id) }),
        forall|other: TaskId| #[trigger] g.with_state(id, state).has(other) == g.has(other),
        forall|other: TaskId|
            other != id && g.has(other) ==> #[trigger] g.with_state(id, state).task(other)
                == g.task(other),
{
    let h = g.with_state(id, state);
    assert(g.stands(id, g.at(id)));
    lemma_same_names(g, h);
    assert forall|other: TaskId| other != id && g.has(other) implies #[trigger] h.task(other)
        == g.task(other) by {
        assert(g.stands(other, g.at(other)));
        assert(h.at(other) == g.at(other));
    }
}

/// Changing the attempts of one task leaves the others as they are.
pub proof fn lemma_attempt_elsewhere(g: GraphView, id: TaskId, attempt: u32)
    requires
        g.distinct(),
        g.has(id),
    ensures
        g.with_attempt(id, attempt).distinct(),
        g.with_attempt(id, attempt).has(id),
        g.with_attempt(id, attempt).at(id) == g.at(id),
        g.with_attempt(id, attempt).task(id) == (TaskView { attempt, ..g.task(id) }),
{
    let h = g.with_attempt(id, attempt);
    assert(g.stands(id, g.at(id)));
    lemma_same_names(g, h);
}

/// A ready task can be queued.
proof fn lemma_ready_can_queue(state: TaskState)
    requires
        state.unqueued(),
    ensures
        state.edges().contains(TaskState::Queued),
{
    if state == TaskState::Created {
        assert(state.edges()[0] == TaskState::Queued);
    } else if state == TaskState::WaitingForDependency {
        assert(state.edges()[0] == TaskState::Queued);
    } else {
        assert(state.edges()[0] == TaskState::Queued);
    }
}

/// Move every ready task into the queue: how many there were.
pub fn promote_ready(
    handle: &mut JobHandle,
    queue: &mut InMemoryQueue,
    actor: &str,
    lease_ms: u64,
    now: Timestamp,
) -> (r: Result<usize, SwarmError>)
    requires
        old(handle).wf(),
        old(queue)@.wf(),
    ensures
        final(handle).wf(),
        final(queue)@.wf(),
        r matches Ok(count) && exists|list: Seq<TaskId>|
            {
                &&& is_ready_list(old(handle)@.graph, list)
                &&& count == list.len()
                &&& (final(handle)@, final(queue)@) == #[trigger] promoted(
                    old(handle)@,
                    old(queue)@,
                    list,
                    list.len(),
                    actor@,
                    lease_ms,
                    now,
                )
            },
{
    let ghost entry = handle@;
    let ghost lined = queue@;
    let ready = handle.graph.ready();
    let priority = handle.job.request.priority;
    let ghost list = ready@;
    proof {
        handle.graph.lemma_wf();
        assert(is_ready_list(entry.graph, list));
        assert forall|k: int| 0 <= k < list.len() implies entry.graph.has(#[trigger] list[k])
            && entry.graph.task(list[k]).state.unqueued() by {
            assert(list.contains(list[k]));
        }
        assert forall|a: int, b: int| 0 <= a < b < list.len() implies #[trigger] list[a]
            != #[trigger] list[b] by {
            assert(queued_before(entry.graph.task(list[a]), entry.graph.task(list[b])));
        }
    }
    for n in 0..ready.len()
        invariant
            handle.wf(),
            queue@.wf(),
            list == ready@,
            priority == entry.job.request.priority,
            handle@.job == entry.job,
            (handle@, queue@) == promoted(entry, lined, list, n as nat, actor@, lease_ms, now),
            forall|a: int, b: int|
                0 <= a < b < list.len() ==> #[trigger] list[a] != #[trigger] list[b],
            forall|k: int|
                n <= k < list.len() ==> handle@.graph.has(#[trigger] list[k])
                    && handle@.graph.task(list[k]).state.unqueued(),
    {
        let task_id = ready[n];
        let ghost before = handle@;
        proof {
            handle.graph.lemma_wf();
            assert(before.graph.stands(task_id, before.graph.at(task_id)));
            lemma_ready_can_queue(before.graph.task(task_id).state);
            lemma_state_elsewhere(before.graph, task_id, TaskState::Queued);
        }
        match handle.advance(task_id, TaskState::Queued, actor, "dependencies_satisfied", now) {
            Ok(_) => {},
            Err(error) => {
                return Err(error);
            },
        }
        let task = match handle.graph.get(task_id) {
            Some(node) => node.clone(),
            None => {
                return Err(SwarmError::NotFound { kind: "task", id: task_id.to_string() });
            },
        };
        let _ = queue.enqueue(QueuedTask::entering_at(&task, priority, lease_ms, now));
        let progress = handle.progress();
        handle.emit(JobEventKind::TaskQueued, Some(task_id), task.title.clone(), progress, now);
    }
    Ok(ready.len())
}

/// The position of the first agent that goes by a name, from `from` on.
pub open spec fn first_named(agents: Seq<AgentView>, id: AgentId, from: nat) -> Option<nat>
    decreases agents.len() - from,
{
    if from >= agents.len() {
        None
    } else if agents[from as int].id == id {
        Some(from)
    } else {
        first_named(agents, id, from + 1)
    }
}

/// The position of the first agent that goes by a name.
pub fn find_agent(agents: &Vec<Agent>, id: AgentId) -> (r: Option<usize>)
    ensures
        match r {
            Some(at) => first_named(pool_views(agents@), id, 0) == Some(at as nat) && at
                < agents@.len() && agents@[at as int]@.id == id,
            None => first_named(pool_views(agents@), id, 0) is None,
        },
{
    let ghost all = pool_views(agents@);
    for i in 0..agents.len()
        invariant
            all == pool_views(agents@),
            first_named(all, id, 0) == first_named(all, id, i as nat),
    {
        assert(all[i as int] == agents@[i as int]@);
        if agents[i].descriptor.id == id {
            return Some(i);
        }
    }
    None
}

impl AgentView {
    /// The agent with a task to run.
    pub open spec fn busy(self, task: TaskId, now: Timestamp) -> AgentView {
        AgentView {
            status: AgentStatus::Running,
            current_task: Some(task),
            current_load: Real32 { bits: ONE_BITS },
            last_active_at: now,
            ..self
        }
    }
}

/// The pool, and the agent in it, after the agent of that name was given a task. Nothing,
/// where there is none or it cannot take one.
pub open spec fn given(
    agents: Seq<AgentView>,
    id: Option<AgentId>,
    task: TaskId,
    now: Timestamp,
) -> Option<(Seq<AgentView>, AgentView)> {
    match id {
        Some(id) => match first_named(agents, id, 0) {
            Some(at) => if agents[at as int].available() {
                Some(
                    (
                        agents.update(at as int, agents[at as int].busy(task, now)),
                        agents[at as int].busy(task, now),
                    ),
                )
            } else {
                None
            },
            None => None,
        },
        None => None,
    }
}

/// Whether a pick is one a scheduler may make: an agent that can take the task, or nobody
/// when there is none.
pub open spec fn is_pick(agents: Seq<AgentView>, task: TaskView, pick: Option<AgentId>) -> bool {
    match pick {
        Some(id) => places(agents, task, id),
        None => unplaceable(agents, task),
    }
}

/// Whether an answer is one this scheduler gives when it is asked for an agent.
pub open spec fn is_answer<S: Scheduler>(
    scheduler: S,
    agents: Seq<AgentView>,
    task: TaskView,
    answer: Answer<S>,
) -> bool {
    &&& is_pick(agents, task, answer.pick)
    &&& S::selects(scheduler, task, agents, answer.pick, answer.after)
}

/// The position of the first agent that can take work, from `from` on.
pub open spec fn first_idle(agents: Seq<AgentView>, from: nat) -> Option<nat>
    decreases agents.len() - from,
{
    if from >= agents.len() {
        None
    } else if agents[from as int].available() {
        Some(from)
    } else {
        first_idle(agents, from + 1)
    }
}

/// The pool with its first idle agent replaced by a new one.
pub open spec fn respecialised(agents: Seq<AgentView>, replacement: AgentView) -> Option<
    Seq<AgentView>,
> {
    match first_idle(agents, 0) {
        Some(at) => Some(agents.update(at as int, replacement)),
        None => None,
    }
}

/// What a scheduler answered, and how it stands after that.
pub struct Answer<S> {
    /// The agent it named, if any.
    pub pick: Option<AgentId>,
    /// The scheduler once it has answered.
    pub after: S,
}

/// What the scheduler answered: to the first question, and to the second where one was
/// asked.
pub struct Picks<S> {
    /// The first answer.
    pub first: Answer<S>,
    /// The second answer.
    pub second: Answer<S>,
}

/// The pool, and the agent found, after looking for an agent for a task. Where nobody can be
/// given the task, an idle agent is replaced by one of the type the task needs.
pub open spec fn acquired<S>(
    agents: Seq<AgentView>,
    task: TaskView,
    picks: Picks<S>,
    replacement: AgentView,
    now: Timestamp,
) -> (Seq<AgentView>, Option<AgentView>) {
    match given(agents, picks.first.pick, task.id, now) {
        Some((pool, agent)) => (pool, Some(agent)),
        None => match respecialised(agents, replacement) {
            None => (agents, None),
            Some(pool) => match given(pool, picks.second.pick, task.id, now) {
                Some((changed, agent)) => (changed, Some(agent)),
                None => (pool, None),
            },
        },
    }
}

/// The scheduler after looking for an agent for a task: it was asked again where nobody it
/// named could be given the task and an idle agent was replaced.
pub open spec fn consulted<S>(
    agents: Seq<AgentView>,
    task: TaskView,
    picks: Picks<S>,
    replacement: AgentView,
    now: Timestamp,
) -> S {
    if given(agents, picks.first.pick, task.id, now) is None && respecialised(
        agents,
        replacement,
    ) is Some {
        picks.second.after
    } else {
        picks.first.after
    }
}

/// Whether picks are the scheduler's own answers on the way, each from where the one before
/// left it.
pub open spec fn are_picks<S: Scheduler>(
    scheduler: S,
    agents: Seq<AgentView>,
    task: TaskView,
    picks: Picks<S>,
    replacement: AgentView,
    now: Timestamp,
) -> bool {
    &&& is_answer(scheduler, agents, task, picks.first)
    &&& given(agents, picks.first.pick, task.id, now) is None ==> match respecialised(
        agents,
        replacement,
    ) {
        Some(pool) => is_answer(picks.first.after, pool, task, picks.second),
        None => true,
    }
}

/// Ask the scheduler for an agent and mark it busy.
///
/// Finds nobody when no capable agent is free, which the caller treats as "give the task
/// back" rather than "fail the task".
fn assign<S: Scheduler>(
    agents: &mut Vec<Agent>,
    task: &TaskNode,
    scheduler: &mut S,
    now: Timestamp,
) -> (r: (Option<Agent>, Ghost<Option<AgentId>>))
    ensures
        is_answer(
            *old(scheduler),
            pool_views(old(agents)@),
            task@,
            Answer { pick: r.1@, after: *final(scheduler) },
        ),
        match r.0 {
            Some(agent) => given(pool_views(old(agents)@), r.1@, task@.id, now) == Some(
                (pool_views(final(agents)@), agent@),
            ),
            None => given(pool_views(old(agents)@), r.1@, task@.id, now) is None && pool_views(
                final(agents)@,
            ) == pool_views(old(agents)@),
        },
{
    let ghost entry = pool_views(agents@);
    let mut descriptors: Vec<AgentDescriptor> = Vec::new();
    for i in 0..agents.len()
        invariant
            descriptors@.len() == i,
            forall|k: int| 0 <= k < i ==> (#[trigger] descriptors@[k])@ == agents@[k]@,
    {
        descriptors.push(agents[i].descriptor.clone());
    }
    assert(agent_views(descriptors@) =~= entry);
    let chosen = match scheduler.select(task, descriptors.as_slice()) {
        Some(chosen) => chosen,
        None => {
            return (None, Ghost(None));
        },
    };
    let at: usize = match find_agent(agents, chosen) {
        Some(at) => at,
        None => {
            return (None, Ghost(Some(chosen)));
        },
    };
    assert(entry[at as int] == agents@[at as int]@);
    // One that is registered and was never idle turns idle on the way.
    if !agents[at].descriptor.is_available() {
        return (None, Ghost(Some(chosen)));
    }
    let mut agent = agents[at].clone();
    agent.descriptor.status = AgentStatus::Running;
    agent.descriptor.current_task = Some(task.id);
    agent.descriptor.current_load = Real32::one();
    agent.descriptor.last_active_at = now;
    let copy = agent.clone();
    agents.set(at, agent);
    assert(pool_views(agents@) =~= entry.update(at as int, entry[at as int].busy(task@.id, now)));
    (Some(copy), Ghost(Some(chosen)))
}

/// Replace an idle agent with one of the type a task needs: whether there was one.
///
/// Agents are cheap — a capability list and a model config — so an idle Research agent with
/// no research left is worth more as the Merger the job is now waiting on. This is what lets
/// a job whose budget is smaller than its number of task kinds still make progress, instead
/// of deadlocking on a capability nobody has.
fn respecialise(agents: &mut Vec<Agent>, replacement: Agent) -> (r: bool)
    ensures
        match respecialised(pool_views(old(agents)@), replacement@) {
            Some(pool) => r && pool_views(final(agents)@) == pool,
            None => !r && pool_views(final(agents)@) == pool_views(old(agents)@),
        },
{
    let ghost entry = pool_views(agents@);
    let mut i: usize = 0;
    while i < agents.len()
        invariant
            i <= agents@.len(),
            entry == pool_views(agents@),
            agents@ == old(agents)@,
            first_idle(entry, 0) == first_idle(entry, i as nat),
        decreases agents@.len() - i,
    {
        assert(entry[i as int] == agents@[i as int]@);
        if agents[i].descriptor.is_available() {
            agents.set(i, replacement);
            assert(pool_views(agents@) =~= entry.update(i as int, replacement@));
            return true;
        }
        i = i + 1;
    }
    false
}

/// Find an agent for a task, re-specialising an idle one if nothing fits.
fn acquire_agent<S: Scheduler>(
    agents: &mut Vec<Agent>,
    task: &TaskNode,
    scheduler: &mut S,
    replacement: Agent,
    now: Timestamp,
) -> (r: (Option<Agent>, Ghost<Picks<S>>))
    ensures
        are_picks(
            *old(scheduler),
            pool_views(old(agents)@),
            task@,
            r.1@,
            replacement@,
            now,
        ),
        consulted(pool_views(old(agents)@), task@, r.1@, replacement@, now) == *final(scheduler),
        acquired(pool_views(old(agents)@), task@, r.1@, replacement@, now) == (
            pool_views(final(agents)@),
            match r.0 {
                Some(agent) => Some(agent@),
                None => None,
            },
        ),
{
    let (found, Ghost(pick)) = assign(agents, task, scheduler, now);
    let ghost first = Answer { pick, after: *scheduler };
    if let Some(agent) = found {
        return (Some(agent), Ghost(Picks { first, second: first }));
    }
    if !respecialise(agents, replacement) {
        return (None, Ghost(Picks { first, second: first }));
    }
    let (found, Ghost(again)) = assign(agents, task, scheduler, now);
    (found, Ghost(Picks { first, second: Answer { pick: again, after: *scheduler } }))
}

/// The first result of a task among some results.
pub open spec fn result_for(results: Seq<TaskResultView>, task: TaskId) -> Option<TaskResultView>
    decreases results.len(),
{
    if results.len() == 0 {
        None
    } else if results[0].task_id == task {
        Some(results[0])
    } else {
        result_for(results.skip(1), task)
    }
}

/// What some tasks produced, as it is handed on.
pub open spec fn outputs_of(results: Seq<TaskResultView>, tasks: Seq<TaskId>) -> Seq<UpstreamView>
    decreases tasks.len(),
{
    if tasks.len() == 0 {
        seq![]
    } else {
        let before = outputs_of(results, tasks.drop_last());
        match result_for(results, tasks.last()) {
            Some(result) => before.push(
                UpstreamView {
                    task_id: result.task_id,
                    title: result.title,
                    output: result.output,
                },
            ),
            None => before,
        }
    }
}

/// The first result of a task among some results.
fn find_result(results: &Vec<TaskResult>, task: TaskId) -> (r: Option<usize>)
    ensures
        match r {
            Some(at) => at < results@.len() && result_for(result_views(results@), task) == Some(
                results@[at as int]@,
            ),
            None => result_for(result_views(results@), task) is None,
        },
{
    let ghost all = result_views(results@);
    assert(all.skip(0) =~= all);
    for i in 0..results.len()
        invariant
            all == result_views(results@),
            result_for(all, task) == result_for(all.skip(i as int), task),
    {
        assert(all.skip(i as int)[0] == results@[i as int]@);
        assert(all.skip(i as int).skip(1) =~= all.skip(i + 1));
        if results[i].task_id == task {
            return Some(i);
        }
    }
    None
}

impl HandleView {
    /// What the tasks that a task depends on produced.
    pub open spec fn upstream(self, task: TaskId) -> Seq<UpstreamView> {
        outputs_of(
            self.results,
            if self.graph.has(task) {
                self.graph.task(task).dependencies.reverse()
            } else {
                seq![]
            },
        )
    }
}

/// Outputs of the tasks this one depends on.
pub fn upstream_outputs(handle: &JobHandle, task: TaskId) -> (r: Vec<UpstreamOutput>)
    requires
        handle.wf(),
    ensures
        upstream_views(r@) == handle@.upstream(task),
{
    let dependencies = handle.graph.dependencies(task);
    let ghost ids = dependencies@;
    let ghost all = result_views(handle.results@);
    let mut r: Vec<UpstreamOutput> = Vec::new();
    assert(ids.take(0) =~= seq![]);
    assert(upstream_views(r@) =~= outputs_of(all, ids.take(0)));
    for i in 0..dependencies.len()
        invariant
            ids == dependencies@,
            all == result_views(handle.results@),
            upstream_views(r@) == outputs_of(all, ids.take(i as int)),
    {
        assert(ids.take(i + 1).drop_last() =~= ids.take(i as int));
        assert(ids.take(i + 1).last() == ids[i as int]);
        let ghost before = upstream_views(r@);
        if let Some(at) = find_result(&handle.results, dependencies[i]) {
            r.push(
                UpstreamOutput {
                    task_id: handle.results[at].task_id,
                    title: handle.results[at].title.clone(),
                    output: handle.results[at].output.clone(),
                },
            );
            assert(upstream_views(r@) =~= before.push(r@.last()@));
        }
    }
    assert(ids.take(ids.len() as int) =~= ids);
    r
}

/// One task, matched with the agent that will run it.
#[derive(Debug)]
pub struct Dispatch {
    /// The claim on the task.
    pub lease: TaskLease,
    /// The agent that will run it.
    pub agent: Agent,
    /// The task.
    pub task: TaskNode,
    /// What the agent is told.
    pub context: TaskContext,
    /// How long the task sat in the queue.
    pub queue_wait_ms: u64,
}

/// What a dispatch holds.
#[verifier::ext_equal]
pub struct DispatchView {
    /// The claim on the task.
    pub lease: LeaseView,
    /// The agent that will run it.
    pub agent: AgentView,
    /// The task.
    pub task: TaskView,
    /// What the agent is told.
    pub context: ContextView,
    /// How long the task sat in the queue.
    pub queue_wait_ms: u64,
}

impl View for Dispatch {
    type V = DispatchView;

    open spec fn view(&self) -> DispatchView {
        DispatchView {
            lease: self.lease@,
            agent: self.agent@,
            task: self.task@,
            context: self.context@,
            queue_wait_ms: self.queue_wait_ms,
        }
    }
}

/// What some dispatches hold.
pub open spec fn dispatch_views(list: Seq<Dispatch>) -> Seq<DispatchView> {
    list.map_values(|dispatch: Dispatch| dispatch@)
}

/// Whether a task can be leased: it is waiting to run.
pub open spec fn leasable(g: GraphView, id: TaskId) -> bool {
    g.has(id) && (g.task(id).state == TaskState::Queued || g.task(id).state
        == TaskState::RetryScheduled)
}

impl HandleView {
    /// With a task started by the agent it was given to.
    pub open spec fn started(
        self,
        agents: Seq<AgentView>,
        lease: LeaseView,
        actor: Seq<char>,
        now: Timestamp,
    ) -> HandleView {
        let id = lease.task.payload.id;
        let counted = HandleView {
            agents,
            graph: self.graph.with_attempt(id, lease.task.attempt),
            ..self
        };
        let queued = if self.graph.task(id).state == TaskState::RetryScheduled {
            counted.advanced(id, TaskState::Queued, actor, "backoff_elapsed"@, now)
        } else {
            counted
        };
        let running = queued.advanced(
            id,
            TaskState::Leased,
            actor,
            "leased_to_agent"@,
            now,
        ).advanced(id, TaskState::Running, actor, "agent_started"@, now);
        running.emitted(
            JobEventKind::TaskStarted,
            Some(id),
            lease.task.payload.title + " (attempt "@ + decimal(lease.task.attempt as nat) + ")"@,
            running.progress(),
            now,
        )
    }

    /// The dispatch of a task to the agent it was given to.
    pub open spec fn dispatch(self, lease: LeaseView, agent: AgentView) -> DispatchView {
        DispatchView {
            lease,
            agent,
            task: TaskView { attempt: lease.task.attempt, ..lease.task.payload },
            context: ContextView {
                objective: self.job.request.objective,
                context: self.job.request.context,
                upstream: self.upstream(lease.task.payload.id),
                allowed_tools: seq![],
            },
            queue_wait_ms: lease.granted_at.millis_after(lease.task.enqueued_at) as u64,
        }
    }
}

/// Where the collection of dispatches stands.
#[verifier::ext_equal]
pub struct Round<S> {
    /// The job.
    pub handle: HandleView,
    /// The queue.
    pub queue: QueueView,
    /// The scheduler.
    pub scheduler: S,
    /// The dispatches made.
    pub made: Seq<DispatchView>,
    /// Whether there is nothing more to hand out.
    pub over: bool,
}

/// Where the collection of dispatches begins.
pub open spec fn opening<S>(handle: HandleView, queue: QueueView, scheduler: S) -> Round<S> {
    Round { handle, queue, scheduler, made: seq![], over: false }
}

/// The agent of the type a task needs that takes an idle one's place.
pub open spec fn stand_in(
    h: HandleView,
    task: TaskView,
    id: AgentId,
    node_id: NodeId,
    now: Timestamp,
) -> AgentView {
    pool_agent(id, type_for(task.kind), node_id, h.job.id, now)
}

impl<S: Scheduler> Round<S> {
    /// The job, the queue, the scheduler, and the dispatches made.
    pub open spec fn parts(self) -> (HandleView, QueueView, S, Seq<DispatchView>) {
        (self.handle, self.queue, self.scheduler, self.made)
    }

    /// The claim that is handed out next. The queue is shared between jobs, so only an entry of
    /// this job is asked for: the others' are theirs to run.
    pub open spec fn claimed(self, actor: Seq<char>, lease_id: LeaseId, now: Timestamp) -> (
        QueueView,
        Option<LeaseView>,
    ) {
        self.queue.dequeued(actor, Some(self.handle.job.id), seq![], seq![], lease_id, now)
    }

    /// After one more turn: a task is leased and given to an agent. A duplicate delivery of
    /// work that is already running or already finished is acknowledged, since the task is
    /// accounted for elsewhere. A task for which nobody is free is given back.
    #[verifier::opaque]
    pub open spec fn turned(
        self,
        picks: Picks<S>,
        actor: Seq<char>,
        lease_id: LeaseId,
        agent_id: AgentId,
        node_id: NodeId,
        now: Timestamp,
    ) -> Round<S> {
        match self.claimed(actor, lease_id, now) {
            (_, None) => Round { over: true, ..self },
            (queue, Some(lease)) => {
                let task = lease.task.payload;
                if !leasable(self.handle.graph, task.id) {
                    Round { queue: queue.acknowledged(lease_id, now).0, ..self }
                } else {
                    let replacement = stand_in(self.handle, task, agent_id, node_id, now);
                    let scheduler = consulted(self.handle.agents, task, picks, replacement, now);
                    match acquired(self.handle.agents, task, picks, replacement, now) {
                        (agents, None) => Round {
                            handle: HandleView { agents, ..self.handle },
                            queue: queue.released(lease_id, now).0,
                            scheduler,
                            over: true,
                            ..self
                        },
                        (agents, Some(agent)) => {
                            let handle = self.handle.started(agents, lease, actor, now);
                            Round {
                                handle,
                                queue,
                                scheduler,
                                made: self.made.push(handle.dispatch(lease, agent)),
                                ..self
                            }
                        },
                    }
                }
            },
        }
    }

    /// Whether picks are what the scheduler answers in the next turn.
    #[verifier::opaque]
    pub open spec fn allows(
        self,
        picks: Picks<S>,
        actor: Seq<char>,
        lease_id: LeaseId,
        agent_id: AgentId,
        node_id: NodeId,
        now: Timestamp,
    ) -> bool {
        match self.claimed(actor, lease_id, now).1 {
            None => true,
            Some(lease) => {
                let task = lease.task.payload;
                leasable(self.handle.graph, task.id) ==> are_picks(
                    self.scheduler,
                    self.handle.agents,
                    task,
                    picks,
                    stand_in(self.handle, task, agent_id, node_id, now),
                    now,
                )
            },
        }
    }
}

/// Where the collection of dispatches stands after `n` turns.
pub open spec fn rounds<S: Scheduler>(
    start: Round<S>,
    n: nat,
    picks: Seq<Picks<S>>,
    actor: Seq<char>,
    lease_ids: Seq<LeaseId>,
    agent_ids: Seq<AgentId>,
    node_id: NodeId,
    now: Timestamp,
) -> Round<S>
    decreases n,
{
    if n == 0 {
        start
    } else {
        let before = rounds(
            start,
            (n - 1) as nat,
            picks,
            actor,
            lease_ids,
            agent_ids,
            node_id,
            now,
        );
        if before.over {
            before
        } else {
            before.turned(
                picks[n - 1],
                actor,
                lease_ids[n - 1],
                agent_ids[n - 1],
                node_id,
                now,
            )
        }
    }
}

/// Whether all picks on the way are the scheduler's own answers.
pub open spec fn fair<S: Scheduler>(
    start: Round<S>,
    n: nat,
    picks: Seq<Picks<S>>,
    actor: Seq<char>,
    lease_ids: Seq<LeaseId>,
    agent_ids: Seq<AgentId>,
    node_id: NodeId,
    now: Timestamp,
) -> bool {
    forall|k: int|
        0 <= k < n && !(#[trigger] rounds(
            start,
            k as nat,
            picks,
            actor,
            lease_ids,
            agent_ids,
            node_id,
            now,
        )).over ==> rounds(
            start,
            k as nat,
            picks,
            actor,
            lease_ids,
            agent_ids,
            node_id,
            now,
        ).allows(picks[k], actor, lease_ids[k], agent_ids[k], node_id, now)
}

/// Later picks make no difference to earlier rounds.
proof fn lemma_rounds_prefix<S: Scheduler>(
    start: Round<S>,
    n: nat,
    picks: Seq<Picks<S>>,
    more: Seq<Picks<S>>,
    actor: Seq<char>,
    lease_ids: Seq<LeaseId>,
    agent_ids: Seq<AgentId>,
    node_id: NodeId,
    now: Timestamp,
)
    requires
        n <= picks.len() <= more.len(),
        forall|k: int| 0 <= k < picks.len() ==> picks[k] == more[k],
    ensures
        rounds(start, n, picks, actor, lease_ids, agent_ids, node_id, now) == rounds(
            start,
            n,
            more,
            actor,
            lease_ids,
            agent_ids,
            node_id,
            now,
        ),
    decreases n,
{
    if n > 0 {
        lemma_rounds_prefix(
            start,
            (n - 1) as nat,
            picks,
            more,
            actor,
            lease_ids,
            agent_ids,
            node_id,
            now,
        );
    }
}

/// Start a task on the agent it was given to.
fn start_task(handle: &mut JobHandle, lease: &TaskLease, task: &TaskNode, actor: &str, now: Timestamp)
    requires
        old(handle).wf(),
        task@ == lease@.task.payload,
        leasable(old(handle)@.graph, task@.id),
    ensures
        final(handle).wf(),
        final(handle)@ == old(handle)@.started(old(handle)@.agents, lease@, actor@, now),
{
    let ghost entry = handle@;
    let ghost id = task@.id;
    let ghost attempt = lease@.task.attempt;
    proof {
        handle.graph.lemma_wf();
        lemma_attempt_elsewhere(entry.graph, id, attempt);
    }
    let task_id = task.id;
    // Reflect the queue's authoritative attempt count in the graph.
    let _ = handle.graph.set_attempt(task_id, lease.task.attempt);
    let ghost counted = handle@;
    proof {
        assert(counted.graph == entry.graph.with_attempt(id, attempt));
        let at = entry.graph.at(id);
        assert(entry.graph.stands(id, at));
        assert forall|i: int|
            0 <= i < counted.graph.tasks.len() && (
            #[trigger] counted.graph.tasks[i]).state.unqueued() implies counted.graph.tasks[i].attempt
            < u32::MAX by {
            if i != at {
                assert(counted.graph.tasks[i] == entry.graph.tasks[i]);
            }
        }
        assert(counted =~= HandleView {
            graph: entry.graph.with_attempt(id, attempt),
            ..entry
        });
        lemma_state_elsewhere(counted.graph, id, TaskState::Queued);
    }
    let awaiting_retry = match handle.graph.get(task_id) {
        Some(node) => matches!(node.state, TaskState::RetryScheduled),
        None => false,
    };
    if awaiting_retry {
        assert(TaskState::RetryScheduled.edges()[0] == TaskState::Queued);
        let _ = handle.advance(task_id, TaskState::Queued, actor, "backoff_elapsed", now);
    }
    let ghost queued = handle@;
    proof {
        handle.graph.lemma_wf();
        assert(queued.graph.task(id).state == TaskState::Queued);
        assert(TaskState::Queued.edges()[0] == TaskState::Leased);
        lemma_state_elsewhere(queued.graph, id, TaskState::Leased);
    }
    let _ = handle.advance(task_id, TaskState::Leased, actor, "leased_to_agent", now);
    proof {
        handle.graph.lemma_wf();
        assert(TaskState::Leased.edges()[0] == TaskState::Running);
    }
    let _ = handle.advance(task_id, TaskState::Running, actor, "agent_started", now);
    let mut detail = task.title.clone();
    detail.append(" (attempt ");
    detail.append(decimal_text(lease.task.attempt as u64).as_str());
    detail.append(")");
    let progress = handle.progress();
    handle.emit(JobEventKind::TaskStarted, Some(task_id), detail, progress, now);
}

/// What came of a turn.
enum Turn {
    /// The queue had nothing to hand out.
    Drained,
    /// A duplicate delivery was dropped.
    Dropped,
    /// Nobody was free for the task.
    Returned,
    /// A task was started.
    Started(Dispatch),
}

/// Lease one task and pair it with an agent.
fn take_turn<S: Scheduler>(
    handle: &mut JobHandle,
    queue: &mut InMemoryQueue,
    scheduler: &mut S,
    actor: &str,
    lease_id: LeaseId,
    agent_id: AgentId,
    node_id: NodeId,
    now: Timestamp,
    Ghost(made): Ghost<Seq<DispatchView>>,
) -> (r: (Turn, Ghost<Picks<S>>))
    requires
        old(handle).wf(),
        old(queue)@.wf(),
    ensures
        final(handle).wf(),
        final(queue)@.wf(),
        ({
            let before = Round {
                handle: old(handle)@,
                queue: old(queue)@,
                scheduler: *old(scheduler),
                made,
                over: false,
            };
            &&& before.allows(r.1@, actor@, lease_id, agent_id, node_id, now)
            &&& before.turned(r.1@, actor@, lease_id, agent_id, node_id, now) == (Round {
                handle: final(handle)@,
                queue: final(queue)@,
                scheduler: *final(scheduler),
                made: match r.0 {
                    Turn::Started(dispatch) => made.push(dispatch@),
                    _ => made,
                },
                over: r.0 is Drained || r.0 is Returned,
            })
        }),
{
    let ghost entry = handle@;
    let ghost lined = queue@;
    let ghost before = Round {
        handle: entry,
        queue: lined,
        scheduler: *scheduler,
        made,
        over: false,
    };
    let ghost unasked = Answer { pick: None, after: *scheduler };
    proof {
        reveal(Round::turned);
        reveal(Round::allows);
    }
    // The queue is shared: only this job's entries are asked for. No capability filter is
    // applied: this pool can re-specialise, so every capability is reachable.
    let any_queue: Vec<String> = Vec::new();
    let offered: Vec<crate::agent::Capability> = Vec::new();
    let lease = match queue.dequeue_at(
        actor.to_owned(),
        Some(handle.job.id),
        any_queue.as_slice(),
        offered.as_slice(),
        lease_id,
        now,
    ) {
        Some(lease) => lease,
        None => {
            proof {
                assert(crate::text::views(any_queue@) =~= seq![]);
                assert(offered@ =~= seq![]);
            }
            return (Turn::Drained, Ghost(Picks { first: unasked, second: unasked }));
        },
    };
    let ghost granted = queue@;
    proof {
        assert(crate::text::views(any_queue@) =~= seq![]);
        assert(offered@ =~= seq![]);
        assert(before.claimed(actor@, lease_id, now) == (granted, Some(lease@)));
        let last = granted.leases.len() - 1;
        assert(granted.leases[last] == lease@);
        assert(granted.holds_at(lease_id, last));
        lemma_lease_unique(granted, lease_id, last);
    }
    let task = lease.task.payload.clone();
    let waiting = match handle.graph.get(task.id) {
        Some(node) => matches!(node.state, TaskState::Queued | TaskState::RetryScheduled),
        None => false,
    };
    if !waiting {
        let _ = queue.acknowledge_at(lease_id, now);
        return (Turn::Dropped, Ghost(Picks { first: unasked, second: unasked }));
    }
    let replacement = new_pool_agent(
        agent_id,
        agent_type_for(task.kind),
        node_id,
        handle.job.id,
        now,
    );
    let (found, Ghost(picks)) = acquire_agent(
        &mut handle.agents,
        &task,
        scheduler,
        replacement,
        now,
    );
    let ghost pooled = handle@;
    assert(pooled =~= HandleView { agents: pooled.agents, ..entry });
    match found {
        None => {
            // No capable agent is free after all: give the task back without spending one of
            // its attempts.
            let _ = queue.release_at(lease_id, now);
            (Turn::Returned, Ghost(picks))
        },
        Some(agent) => {
            start_task(handle, &lease, &task, actor, now);
            proof {
                assert(handle@ =~= entry.started(pooled.agents, lease@, actor@, now));
            }
            let upstream = upstream_outputs(handle, task.id);
            let queue_wait_ms: u64 = lease.granted_at.millis_since(lease.task.enqueued_at);
            let context = TaskContext {
                objective: handle.job.request.objective.clone(),
                context: clone_option(&handle.job.request.context),
                upstream,
                allowed_tools: Vec::new(),
            };
            assert(context@.allowed_tools =~= seq![]);
            let mut task = task;
            task.attempt = lease.task.attempt;
            let dispatch = Dispatch { lease, agent, task, context, queue_wait_ms };
            assert(dispatch@ =~= handle@.dispatch(lease@, agent@));
            (Turn::Started(dispatch), Ghost(picks))
        },
    }
}

/// Lease as much work as there are idle agents to run it, and pair the two up. The claims and
/// the agents that take an idle one's place go by the given names.
pub fn collect_dispatches<S: Scheduler>(
    handle: &mut JobHandle,
    queue: &mut InMemoryQueue,
    scheduler: &mut S,
    actor: &str,
    lease_ids: &Vec<LeaseId>,
    agent_ids: &Vec<AgentId>,
    node_id: NodeId,
    now: Timestamp,
) -> (r: Vec<Dispatch>)
    requires
        old(handle).wf(),
        old(queue)@.wf(),
        lease_ids@.len() >= idle_count(old(handle)@.agents),
        agent_ids@.len() >= idle_count(old(handle)@.agents),
    ensures
        final(handle).wf(),
        final(queue)@.wf(),
        exists|picks: Seq<Picks<S>>|
            {
                &&& fair(
                    opening(old(handle)@, old(queue)@, *old(scheduler)),
                    idle_count(old(handle)@.agents),
                    picks,
                    actor@,
                    lease_ids@,
                    agent_ids@,
                    node_id,
                    now,
                )
                &&& (final(handle)@, final(queue)@, *final(scheduler), dispatch_views(r@)) == (
                #[trigger] rounds(
                    opening(old(handle)@, old(queue)@, *old(scheduler)),
                    idle_count(old(handle)@.agents),
                    picks,
                    actor@,
                    lease_ids@,
                    agent_ids@,
                    node_id,
                    now,
                )).parts()
            },
{
    let idle: usize = count_idle(&handle.agents);
    let ghost start = opening(handle@, queue@, *scheduler);
    let mut dispatches: Vec<Dispatch> = Vec::new();
    let ghost mut picks: Seq<Picks<S>> = seq![];
    let ghost mut over = false;
    let mut turn: usize = 0;
    let mut going = true;
    assert(dispatch_views(dispatches@) =~= seq![]);
    while going && turn < idle
        invariant
            handle.wf(),
            queue@.wf(),
            turn <= idle <= lease_ids@.len(),
            idle <= agent_ids@.len(),
            picks.len() == turn,
            over == !going,
            rounds(start, turn as nat, picks, actor@, lease_ids@, agent_ids@, node_id, now) == (
            Round {
                handle: handle@,
                queue: queue@,
                scheduler: *scheduler,
                made: dispatch_views(dispatches@),
                over,
            }),
            fair(start, turn as nat, picks, actor@, lease_ids@, agent_ids@, node_id, now),
        decreases idle - turn,
    {
        let ghost made = dispatch_views(dispatches@);
        let ghost earlier = picks;
        let ghost before = Round {
            handle: handle@,
            queue: queue@,
            scheduler: *scheduler,
            made,
            over: false,
        };
        let (outcome, Ghost(answer)) = take_turn(
            handle,
            queue,
            scheduler,
            actor,
            lease_ids[turn],
            agent_ids[turn],
            node_id,
            now,
            Ghost(made),
        );
        proof {
            picks = picks.push(answer);
            assert forall|k: int| 0 <= k <= turn implies rounds(
                start,
                k as nat,
                earlier,
                actor@,
                lease_ids@,
                agent_ids@,
                node_id,
                now,
            ) == #[trigger] rounds(
                start,
                k as nat,
                picks,
                actor@,
                lease_ids@,
                agent_ids@,
                node_id,
                now,
            ) by {
                lemma_rounds_prefix(
                    start,
                    k as nat,
                    earlier,
                    picks,
                    actor@,
                    lease_ids@,
                    agent_ids@,
                    node_id,
                    now,
                );
            }
            assert(rounds(
                start,
                turn as nat,
                picks,
                actor@,
                lease_ids@,
                agent_ids@,
                node_id,
                now,
            ) == before);
            assert(rounds(
                start,
                (turn + 1) as nat,
                picks,
                actor@,
                lease_ids@,
                agent_ids@,
                node_id,
                now,
            ) == before.turned(
                answer,
                actor@,
                lease_ids@[turn as int],
                agent_ids@[turn as int],
                node_id,
                now,
            ));
        }
        turn = turn + 1;
        match outcome {
            Turn::Drained => {
                going = false;
            },
            Turn::Dropped => {},
            Turn::Returned => {
                going = false;
            },
            Turn::Started(dispatch) => {
                dispatches.push(dispatch);
                assert(dispatch_views(dispatches@) =~= made.push(dispatch@));
            },
        }
        proof {
            over = !going;
        }
    }
    proof {
        lemma_rounds_stop(
            start,
            turn as nat,
            idle as nat,
            picks,
            actor@,
            lease_ids@,
            agent_ids@,
            node_id,
            now,
        );
        assert(fair(
            start,
            idle as nat,
            picks,
            actor@,
            lease_ids@,
            agent_ids@,
            node_id,
            now,
        ));
        let end = rounds(
            start,
            idle as nat,
            picks,
            actor@,
            lease_ids@,
            agent_ids@,
            node_id,
            now,
        );
        assert(end == rounds(
            start,
            turn as nat,
            picks,
            actor@,
            lease_ids@,
            agent_ids@,
            node_id,
            now,
        ));
        assert(end.parts() == (handle@, queue@, *scheduler, dispatch_views(dispatches@)));
    }
    dispatches
}

/// Once it is over, nothing changes any more.
proof fn lemma_rounds_stop<S: Scheduler>(
    start: Round<S>,
    n: nat,
    m: nat,
    picks: Seq<Picks<S>>,
    actor: Seq<char>,
    lease_ids: Seq<LeaseId>,
    agent_ids: Seq<AgentId>,
    node_id: NodeId,
    now: Timestamp,
)
    requires
        n <= m,
        n < m ==> rounds(start, n, picks, actor, lease_ids, agent_ids, node_id, now).over,
    ensures
        forall|k: int|
            n <= k <= m ==> #[trigger] rounds(
                start,
                k as nat,
                picks,
                actor,
                lease_ids,
                agent_ids,
                node_id,
                now,
            ) == rounds(start, n, picks, actor, lease_ids, agent_ids, node_id, now),
    decreases m - n,
{
    if n < m {
        assert(rounds(start, n + 1, picks, actor, lease_ids, agent_ids, node_id, now) == rounds(
            start,
            n,
            picks,
            actor,
            lease_ids,
            agent_ids,
            node_id,
            now,
        ));
        lemma_rounds_stop(start, n + 1, m, picks, actor, lease_ids, agent_ids, node_id, now);
    }
}

/// The agent found by name goes by that name.
proof fn lemma_first_named(agents: Seq<AgentView>, id: AgentId, from: nat)
    requires
        first_named(agents, id, from) is Some,
    ensures
        first_named(agents, id, from)->0 < agents.len(),
        agents[first_named(agents, id, from)->0 as int].id == id,
    decreases agents.len() - from,
{
    if agents[from as int].id != id {
        lemma_first_named(agents, id, from + 1);
    }
}

/// A task goes where the scheduler puts it: the agent that runs it is the one the scheduler
/// named when it was asked, or when it was asked again after an idle agent had been replaced by
/// one of the type the task needs.
pub proof fn law_tasks_go_where_the_scheduler_puts_them<S: Scheduler>(
    round: Round<S>,
    picks: Picks<S>,
    actor: Seq<char>,
    lease_id: LeaseId,
    agent_id: AgentId,
    node_id: NodeId,
    now: Timestamp,
)
    requires
        round.allows(picks, actor, lease_id, agent_id, node_id, now),
        round.turned(picks, actor, lease_id, agent_id, node_id, now).made.len()
            == round.made.len() + 1,
    ensures
        ({
            let next = round.turned(picks, actor, lease_id, agent_id, node_id, now);
            let chosen = Some(next.made.last().agent.id);
            let agents = round.handle.agents;
            let task = next.made.last().lease.task.payload;
            let replacement = stand_in(round.handle, task, agent_id, node_id, now);
            ||| S::selects(round.scheduler, task, agents, chosen, next.scheduler)
            ||| {
                let first = picks.first;
                &&& S::selects(round.scheduler, task, agents, first.pick, first.after)
                &&& respecialised(agents, replacement) matches Some(pool) && S::selects(
                    first.after,
                    task,
                    pool,
                    chosen,
                    next.scheduler,
                )
            }
        }),
{
    reveal(Round::turned);
    reveal(Round::allows);
    let agents = round.handle.agents;
    if let Some(lease) = round.claimed(actor, lease_id, now).1 {
        let task = lease.task.payload;
        let replacement = stand_in(round.handle, task, agent_id, node_id, now);
        match given(agents, picks.first.pick, task.id, now) {
            Some(_) => {
                lemma_first_named(agents, picks.first.pick->0, 0);
            },
            None => {
                if let Some(pool) = respecialised(agents, replacement) {
                    if given(pool, picks.second.pick, task.id, now) is Some {
                        lemma_first_named(pool, picks.second.pick->0, 0);
                    }
                }
            },
        }
    }
}

/// Whether two queues hold the same of every job but one: the same entries waiting, and the same
/// claims in the same order.
pub open spec fn same_elsewhere(job: JobId, one: QueueView, other: QueueView) -> bool {
    &&& forall|task: QueuedView|
        task.job_id != job ==> #[trigger] one.ready.to_multiset().count(task)
            == other.ready.to_multiset().count(task)
    &&& one.leases.filter(leased_by_other_job(job)) == other.leases.filter(
        leased_by_other_job(job),
    )
}

/// Whether no claim of another job goes by that name.
pub open spec fn unclaimed_elsewhere(q: QueueView, job: JobId, id: LeaseId) -> bool {
    forall|i: int|
        0 <= i < q.leases.len() && (#[trigger] q.leases[i]).task.job_id != job
            ==> q.leases[i].lease_id != id
}

/// Dropping claims of a name that only this job uses drops no claim of another job.
proof fn lemma_forget_own(leases: Seq<LeaseView>, job: JobId, id: LeaseId)
    requires
        forall|i: int|
            0 <= i < leases.len() && (#[trigger] leases[i]).task.job_id != job
                ==> leases[i].lease_id != id,
    ensures
        leases.filter(named_otherwise(id)).filter(leased_by_other_job(job)) == leases.filter(
            leased_by_other_job(job),
        ),
    decreases leases.len(),
{
    reveal(Seq::filter);
    if leases.len() > 0 {
        let front = leases.drop_last();
        let last = leases.last();
        lemma_forget_own(front, job, id);
        let kept = front.filter(named_otherwise(id));
        assert(kept.push(last).drop_last() =~= kept);
        assert(leases[leases.len() - 1] == last);
    }
}

/// The others' claims are still free of a name that they were free of.
proof fn lemma_still_unclaimed(one: QueueView, other: QueueView, job: JobId, id: LeaseId)
    requires
        same_elsewhere(job, one, other),
        unclaimed_elsewhere(one, job, id),
    ensures
        unclaimed_elsewhere(other, job, id),
{
    broadcast use vstd::seq_lib::group_filter_ensures;

    let keep = leased_by_other_job(job);
    assert forall|i: int|
        0 <= i < other.leases.len() && (
        #[trigger] other.leases[i]).task.job_id != job implies other.leases[i].lease_id != id by {
        let lease = other.leases[i];
        assert(keep(lease));
        assert(other.leases.filter(keep).contains(lease));
        let k = one.leases.filter(keep).index_of(lease);
        assert(one.leases.filter(keep)[k] == lease);
        one.leases.lemma_filter_contains_rev(keep, lease);
        assert(one.leases.contains(lease));
        let j = one.leases.index_of(lease);
        assert(one.leases[j] == lease);
    }
}

/// Jobs that share a queue do not interfere: a turn for one job leaves the entries and the
/// claims of every other as they were. The name of its claim is one that no other job uses.
pub proof fn law_a_turn_leaves_other_jobs_alone<S: Scheduler>(
    round: Round<S>,
    picks: Picks<S>,
    actor: Seq<char>,
    lease_id: LeaseId,
    agent_id: AgentId,
    node_id: NodeId,
    now: Timestamp,
)
    requires
        unclaimed_elsewhere(round.queue, round.handle.job.id, lease_id),
    ensures
        ({
            let next = round.turned(picks, actor, lease_id, agent_id, node_id, now);
            &&& next.handle.job.id == round.handle.job.id
            &&& same_elsewhere(round.handle.job.id, round.queue, next.queue)
        }),
{
    broadcast use vstd::seq_lib::group_to_multiset_ensures;

    reveal(Round::turned);
    let q = round.queue;
    let job = round.handle.job.id;
    let other = leased_by_other_job(job);
    if let Some(i) = q.next(Some(job), seq![], seq![], now) {
        assert(q.is_next(i, Some(job), seq![], seq![], now));
        let claim = q.claim(i, actor, lease_id, now);
        let granted = q.granted(i, actor, lease_id, now);
        let kept = q.leases.filter(named_otherwise(lease_id));
        let waiting = q.ready.update(i, q.ready.last()).drop_last();
        lemma_taken_out(q.ready, i);
        lemma_forget_own(q.leases, job, lease_id);
        lemma_claimed_last(q.leases, claim);
        let last = granted.leases.len() - 1;
        assert(granted.leases[last] == claim);
        assert(granted.holds_at(lease_id, last));
        assert(granted.lease_at(lease_id) == last);
        assert(granted.leases.remove(last) =~= kept);
        assert(kept.push(claim).filter(other) == kept.filter(other)) by {
            reveal(Seq::filter);
            assert(kept.push(claim).drop_last() =~= kept);
        }
        assert(granted.settled(lease_id).leases == kept);
        assert(claim.task.job_id == job);
    }
}

/// Taking an entry out of a list, the last one in its place, leaves the others.
proof fn lemma_taken_out(ready: Seq<QueuedView>, i: int)
    requires
        0 <= i < ready.len(),
    ensures
        forall|task: QueuedView|
            task.job_id != ready[i].job_id ==> #[trigger] ready.update(
                i,
                ready.last(),
            ).drop_last().to_multiset().count(task) == ready.to_multiset().count(task),
{
    broadcast use vstd::seq_lib::group_to_multiset_ensures;

    let last = ready.last();
    let rest = ready.drop_last();
    assert(ready =~= rest.push(last));
    if i == ready.len() - 1 {
        assert(ready.update(i, last).drop_last() =~= rest);
    } else {
        assert(ready.update(i, last).drop_last() =~= rest.update(i, last));
    }
}

/// The claim that was just granted is the only one of its name.
proof fn lemma_claimed_last(leases: Seq<LeaseView>, claim: LeaseView)
    ensures
        ({
            let after = leases.filter(named_otherwise(claim.lease_id)).push(claim);
            forall|i: int|
                0 <= i < after.len() && (#[trigger] after[i]).lease_id == claim.lease_id ==> i
                    == after.len() - 1
        }),
{
    broadcast use vstd::seq_lib::group_filter_ensures;

    let keep = named_otherwise(claim.lease_id);
    let kept = leases.filter(keep);
    let after = kept.push(claim);
    assert forall|i: int|
        0 <= i < after.len() && (#[trigger] after[i]).lease_id == claim.lease_id implies i
        == after.len() - 1 by {
        if i < kept.len() {
            assert(after[i] == kept[i]);
            assert(keep(kept[i]));
        }
    }
}

/// Jobs that share a queue do not interfere: handing out the work of one job leaves the entries
/// and the claims of every other as they were.
pub proof fn law_handing_out_work_leaves_other_jobs_alone<S: Scheduler>(
    start: Round<S>,
    n: nat,
    picks: Seq<Picks<S>>,
    actor: Seq<char>,
    lease_ids: Seq<LeaseId>,
    agent_ids: Seq<AgentId>,
    node_id: NodeId,
    now: Timestamp,
)
    requires
        forall|k: int|
            0 <= k < n ==> unclaimed_elsewhere(
                start.queue,
                start.handle.job.id,
                #[trigger] lease_ids[k],
            ),
    ensures
        ({
            let end = rounds(start, n, picks, actor, lease_ids, agent_ids, node_id, now);
            &&& end.handle.job.id == start.handle.job.id
            &&& same_elsewhere(start.handle.job.id, start.queue, end.queue)
        }),
    decreases n,
{
    if n > 0 {
        let last = (n - 1) as nat;
        law_handing_out_work_leaves_other_jobs_alone(
            start,
            last,
            picks,
            actor,
            lease_ids,
            agent_ids,
            node_id,
            now,
        );
        let before = rounds(start, last, picks, actor, lease_ids, agent_ids, node_id, now);
        if !before.over {
            lemma_still_unclaimed(
                start.queue,
                before.queue,
                start.handle.job.id,
                lease_ids[n - 1],
            );
            law_a_turn_leaves_other_jobs_alone(
                before,
                picks[n - 1],
                actor,
                lease_ids[n - 1],
                agent_ids[n - 1],
                node_id,
                now,
            );
        }
    }
}

/// A duplicate delivery of a task that is already running or over starts nothing: the job is
/// left as it was, the scheduler is not asked, and the claim is settled.
pub proof fn law_a_duplicate_delivery_starts_nothing<S: Scheduler>(
    round: Round<S>,
    picks: Picks<S>,
    actor: Seq<char>,
    lease_id: LeaseId,
    agent_id: AgentId,
    node_id: NodeId,
    now: Timestamp,
)
    requires
        round.claimed(actor, lease_id, now).1 matches Some(lease) && !leasable(
            round.handle.graph,
            lease.task.payload.id,
        ),
    ensures
        ({
            let next = round.turned(picks, actor, lease_id, agent_id, node_id, now);
            &&& next.handle == round.handle
            &&& next.made == round.made
            &&& next.scheduler == round.scheduler
            &&& next.queue == round.claimed(actor, lease_id, now).0.acknowledged(lease_id, now).0
        }),
{
    reveal(Round::turned);
}

/// A task that was started runs, and cannot be started again from another delivery.
pub proof fn law_a_started_task_is_not_started_again(
    h: HandleView,
    agents: Seq<AgentView>,
    lease: LeaseView,
    actor: Seq<char>,
    now: Timestamp,
)
    requires
        h.graph.distinct(),
        leasable(h.graph, lease.task.payload.id),
    ensures
        h.started(agents, lease, actor, now).graph.task(lease.task.payload.id).state
            == TaskState::Running,
        !leasable(h.started(agents, lease, actor, now).graph, lease.task.payload.id),
{
    let id = lease.task.payload.id;
    let counted = h.graph.with_attempt(id, lease.task.attempt);
    lemma_attempt_elsewhere(h.graph, id, lease.task.attempt);
    let queued = if h.graph.task(id).state == TaskState::RetryScheduled {
        lemma_state_elsewhere(counted, id, TaskState::Queued);
        counted.with_state(id, TaskState::Queued)
    } else {
        counted
    };
    lemma_state_elsewhere(queued, id, TaskState::Leased);
    lemma_state_elsewhere(queued.with_state(id, TaskState::Leased), id, TaskState::Running);
}

/// The result found for a task is the first one on the books that is of it.
proof fn lemma_result_found(results: Seq<TaskResultView>, task: TaskId)
    ensures
        result_for(results, task) matches Some(result) ==> result.task_id == task
            && results.contains(result),
        result_for(results, task) is None <==> forall|i: int|
            0 <= i < results.len() ==> (#[trigger] results[i]).task_id != task,
    decreases results.len(),
{
    if results.len() > 0 {
        let rest = results.skip(1);
        lemma_result_found(rest, task);
        assert forall|i: int| 0 <= i < rest.len() implies #[trigger] rest[i] == results[i + 1] by {}
        if results[0].task_id == task {
            assert(results.contains(results[0]));
        } else {
            if let Some(result) = result_for(rest, task) {
                let i = rest.index_of(result);
                assert(results[i + 1] == result);
            } else {
                assert forall|i: int| 0 <= i < results.len() implies (
                #[trigger] results[i]).task_id != task by {
                    if i > 0 {
                        assert(rest[i - 1].task_id != task);
                    }
                }
            }
        }
    }
}

/// A task that has a result hands its title and its output on, at the place that is given.
pub proof fn law_results_are_handed_on(
    results: Seq<TaskResultView>,
    tasks: Seq<TaskId>,
    k: int,
    i: int,
) -> (m: int)
    requires
        0 <= k < tasks.len(),
        0 <= i < results.len(),
        results[i].task_id == tasks[k],
        forall|j: int|
            0 <= j < results.len() && (#[trigger] results[j]).task_id == tasks[k] ==> j == i,
    ensures
        0 <= m < outputs_of(results, tasks).len(),
        outputs_of(results, tasks)[m].task_id == tasks[k],
        outputs_of(results, tasks)[m].title == results[i].title,
        outputs_of(results, tasks)[m].output == results[i].output,
    decreases tasks.len(),
{
    let front = tasks.drop_last();
    if k < front.len() {
        assert(front[k] == tasks[k]);
        law_results_are_handed_on(results, front, k, i)
    } else {
        lemma_result_found(results, tasks.last());
        let result = result_for(results, tasks.last())->0;
        let j = results.index_of(result);
        assert(results[j].task_id == tasks[k]);
        outputs_of(results, front).len() as int
    }
}

/// Only tasks that were waited for hand anything on, and none more than once for each time it
/// was waited for.
pub proof fn law_nothing_else_is_handed_on(
    results: Seq<TaskResultView>,
    tasks: Seq<TaskId>,
    m: int,
)
    requires
        0 <= m < outputs_of(results, tasks).len(),
    ensures
        tasks.contains(outputs_of(results, tasks)[m].task_id),
        outputs_of(results, tasks).len() <= tasks.len(),
    decreases tasks.len(),
{
    let front = tasks.drop_last();
    let rest = outputs_of(results, front);
    lemma_result_found(results, tasks.last());
    if rest.len() > 0 {
        law_nothing_else_is_handed_on(results, front, if m < rest.len() { m } else { 0 });
    }
    if m < rest.len() {
        let k = front.index_of(rest[m].task_id);
        assert(tasks[k] == rest[m].task_id);
    } else {
        assert(tasks[tasks.len() - 1] == tasks.last());
    }
}

/// Giving a task to an agent makes that agent busy with it, so that it is not free for another,
/// and touches nobody else.
pub proof fn law_a_given_task_keeps_its_agent_busy(
    agents: Seq<AgentView>,
    id: AgentId,
    task: TaskId,
    now: Timestamp,
    i: int,
)
    requires
        0 <= i < agents.len(),
    ensures
        given(agents, Some(id), task, now) matches Some((pool, agent)) ==> {
            &&& agent.id == id
            &&& agent.current_task == Some(task)
            &&& !agent.available()
            &&& agent.last_active_at == now
            &&& pool.len() == agents.len()
            &&& pool.contains(agent)
            &&& agents[i].id != id ==> pool[i] == agents[i]
        },
        given(agents, None, task, now) is None,
{
    lemma_name_found(agents, id, 0);
    if let Some((pool, agent)) = given(agents, Some(id), task, now) {
        let at = first_named(agents, id, 0)->0;
        assert(pool[at as int] == agent);
    }
}

/// The position found for a name is one that goes by it.
proof fn lemma_name_found(agents: Seq<AgentView>, id: AgentId, from: nat)
    ensures
        first_named(agents, id, from) matches Some(at) ==> from <= at < agents.len()
            && agents[at as int].id == id,
    decreases agents.len() - from,
{
    if from < agents.len() && agents[from as int].id != id {
        lemma_name_found(agents, id, from + 1);
    }
}

/// Tasks that became ready are queued, each of them and nothing else, and each is known to the
/// queue from then on.
pub proof fn law_ready_tasks_are_queued(
    h: HandleView,
    q: QueueView,
    list: Seq<TaskId>,
    n: nat,
    actor: Seq<char>,
    lease_ms: u64,
    now: Timestamp,
)
    requires
        h.graph.distinct(),
        n <= list.len(),
        forall|i: int| 0 <= i < n ==> h.graph.has(#[trigger] list[i]),
    ensures
        ({
            let (after, queue) = promoted(h, q, list, n, actor, lease_ms, now);
            &&& after.graph.distinct()
            &&& forall|id: TaskId| #[trigger] after.graph.has(id) == h.graph.has(id)
            &&& forall|i: int|
                0 <= i < n ==> after.graph.task(#[trigger] list[i]).state == TaskState::Queued
            &&& forall|id: TaskId|
                h.graph.has(id) && !list.take(n as int).contains(id) ==> #[trigger] after.graph.task(
                    id,
                ) == h.graph.task(id)
            &&& queue.leases == q.leases
            &&& queue.dead == q.dead
            &&& q.ready.len() <= queue.ready.len() <= q.ready.len() + n
            &&& after.results == h.results
            &&& after.agents == h.agents
            &&& after.events.len() == h.events.len() + n
        }),
    decreases n,
{
    if n > 0 {
        let m = (n - 1) as nat;
        law_ready_tasks_are_queued(h, q, list, m, actor, lease_ms, now);
        let (before, waiting) = promoted(h, q, list, m, actor, lease_ms, now);
        let (after, queue) = promoted(h, q, list, n, actor, lease_ms, now);
        let last = list[n - 1];
        assert(h.graph.has(last));
        lemma_state_elsewhere(before.graph, last, TaskState::Queued);
        assert forall|i: int| 0 <= i < n implies after.graph.task(#[trigger] list[i]).state
            == TaskState::Queued by {
            if list[i] != last {
                assert(i < m);
                assert(before.graph.has(list[i]));
            }
        }
        assert forall|id: TaskId|
            h.graph.has(id) && !list.take(n as int).contains(id) implies #[trigger] after.graph.task(
            id,
        ) == h.graph.task(id) by {
            assert(list.take(n as int)[n - 1] == last);
            assert(id != last);
            if list.take(m as int).contains(id) {
                let i = list.take(m as int).index_of(id);
                assert(list.take(n as int)[i] == id);
            }
            assert(before.graph.has(id));
        }
    }
}

} // verus!
