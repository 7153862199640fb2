//! How a job is staffed: which agents it is given, and when the pool grows or shrinks.

use crate::agent::{count_one, counted, default_model_config, AgentDescriptor, AgentStatus,
    AgentType, AgentView, Capability, ModelConfig};
use crate::clock::{signed_millis, to_signed_millis, Timestamp};
use crate::error::{ErrorView, SwarmError};
use crate::graph::{at_depth, lemma_longest_chain_unique, shorter_than, GraphView, TaskGraph};
use crate::handle::{no_progress, pool_views, HandleView, JobEventKind, JobHandle, Progress};
use crate::ids::{AgentId, JobId, NodeId};
use crate::job::ExecutionStatistics;
use crate::order::{descending, is_descending, lemma_descending_complete, lemma_descending_exists,
    sort_descending, whole};
use crate::queue::{InMemoryQueue, QueueView};
use crate::runtime::{agent_type_for, type_for, Agent};
use crate::state::StateMachine;
use crate::task::{task_views, TaskNode, TaskState, TaskView};
use crate::text::{decimal, decimal_text, lemma_filter_push, text_before};
use crate::topology::{ints, is_topological};
use vstd::prelude::*;
use vstd::string::*;

verus! {

/// The agent types in the order of their labels.
pub open spec fn by_name() -> Seq<AgentType> {
    seq![
        AgentType::Coding,
        AgentType::Critic,
        AgentType::DataAnalysis,
        AgentType::General,
        AgentType::Planner,
        AgentType::Research,
        AgentType::ResultMerger,
        AgentType::SecurityReview,
        AgentType::Summarization,
        AgentType::ToolUse,
        AgentType::Verification,
    ]
}

/// Where a type stands in the order of labels.
pub open spec fn name_rank(agent_type: AgentType) -> int {
    match agent_type {
        AgentType::Coding => 0,
        AgentType::Critic => 1,
        AgentType::DataAnalysis => 2,
        AgentType::General => 3,
        AgentType::Planner => 4,
        AgentType::Research => 5,
        AgentType::ResultMerger => 6,
        AgentType::SecurityReview => 7,
        AgentType::Summarization => 8,
        AgentType::ToolUse => 9,
        AgentType::Verification => 10,
    }
}

/// Every type stands where its label puts it.
pub proof fn lemma_by_name()
    ensures
        by_name().len() == 11,
        forall|t: AgentType| by_name()[#[trigger] name_rank(t)] == t && 0 <= name_rank(t) < 11,
        forall|k: int| 0 <= k < 11 ==> name_rank(#[trigger] by_name()[k]) == k,
{
}

/// The order of the types is the order of their labels.
pub proof fn law_types_are_ranked_by_name(one: AgentType, other: AgentType)
    requires
        name_rank(one) < name_rank(other),
    ensures
        text_before(one.label(), other.label()),
{
    reveal_with_fuel(text_before, 5);
    reveal_strlit("planner");
    reveal_strlit("research");
    reveal_strlit("coding");
    reveal_strlit("critic");
    reveal_strlit("verification");
    reveal_strlit("summarization");
    reveal_strlit("tool_use");
    reveal_strlit("data_analysis");
    reveal_strlit("security_review");
    reveal_strlit("result_merger");
    reveal_strlit("general");
    let a = one.label();
    let b = other.label();
    if a[0] == b[0] {
        assert(a.skip(1)[0] == a[1] && b.skip(1)[0] == b[1]);
        if a[1] == b[1] {
            assert(a.skip(1).skip(1)[0] == a[2] && b.skip(1).skip(1)[0] == b[2]);
        }
    }
}

/// Whether a task is waiting to run.
pub open spec fn is_waiting(task: TaskView) -> bool {
    task.state == TaskState::Queued || task.state == TaskState::RetryScheduled
}

/// How many of some tasks an agent type serves best; only those waiting to run, where
/// `waiting` says so.
pub open spec fn demand(tasks: Seq<TaskView>, agent_type: AgentType, waiting: bool) -> int
    decreases tasks.len(),
{
    if tasks.len() == 0 {
        0
    } else {
        let task = tasks.last();
        demand(tasks.drop_last(), agent_type, waiting) + if type_for(task.kind) == agent_type && (
        !waiting || is_waiting(task)) {
            1int
        } else {
            0int
        }
    }
}

/// Whether one of some capabilities is served by an agent type.
pub open spec fn asked_for(capabilities: Seq<Capability>, agent_type: AgentType) -> bool {
    exists|i: int|
        0 <= i < capabilities.len() && AgentType::serving(#[trigger] capabilities[i]) == agent_type
}

/// How much a job needs an agent type: once for each task, and at least once where it asks
/// for a capability the type serves.
pub open spec fn need(
    tasks: Seq<TaskView>,
    capabilities: Seq<Capability>,
    agent_type: AgentType,
) -> int {
    let count = demand(tasks, agent_type, false);
    if count == 0 && asked_for(capabilities, agent_type) {
        1
    } else {
        count
    }
}

/// How much a job needs each agent type, by the order of labels.
pub open spec fn needs(tasks: Seq<TaskView>, capabilities: Seq<Capability>) -> Seq<int> {
    Seq::new(11, |k: int| need(tasks, capabilities, by_name()[k]))
}

/// Whether a count is more than nothing.
pub open spec fn some_at(counts: Seq<int>) -> spec_fn(int) -> bool {
    |k: int| counts[k] > 0
}

/// The agent types with a count of more than nothing, highest count first, equal counts by
/// label.
pub open spec fn ranked(counts: Seq<int>) -> Seq<AgentType> {
    descending(counts).filter(some_at(counts)).map_values(|k: int| by_name()[k])
}

/// The agent types a job needs: most needed first, ties broken by name.
pub open spec fn staff(tasks: Seq<TaskView>, capabilities: Seq<Capability>) -> Seq<AgentType> {
    ranked(needs(tasks, capabilities))
}

/// A job with a task needs an agent type.
pub proof fn lemma_tasks_need_staff(tasks: Seq<TaskView>, capabilities: Seq<Capability>)
    requires
        tasks.len() > 0,
    ensures
        staff(tasks, capabilities).len() > 0,
{
    let agent_type = type_for(tasks.last().kind);
    lemma_demand_is_a_count(tasks.drop_last(), agent_type, false);
    assert(demand(tasks, agent_type, false) > 0);
    lemma_by_name();
    let k = name_rank(agent_type);
    let counts = needs(tasks, capabilities);
    assert(counts[k] > 0);
    lemma_descending_exists(counts);
    lemma_descending_complete(counts, descending(counts), k);
    descending(counts).lemma_filter_contains_rev(some_at(counts), k);
    assert(descending(counts).filter(some_at(counts)).contains(k));
}

/// A demand is never less than nothing.
proof fn lemma_demand_is_a_count(tasks: Seq<TaskView>, agent_type: AgentType, waiting: bool)
    ensures
        demand(tasks, agent_type, waiting) >= 0,
    decreases tasks.len(),
{
    if tasks.len() > 0 {
        lemma_demand_is_a_count(tasks.drop_last(), agent_type, waiting);
    }
}

/// How much the tasks waiting to run need each agent type, by the order of labels.
pub open spec fn waiting_needs(tasks: Seq<TaskView>) -> Seq<int> {
    Seq::new(11, |k: int| demand(tasks, by_name()[k], true))
}

/// The agent type most in demand among tasks waiting to run, ties broken by name.
pub open spec fn most_needed(tasks: Seq<TaskView>) -> Option<AgentType> {
    let list = ranked(waiting_needs(tasks));
    if list.len() > 0 {
        Some(list[0])
    } else {
        None
    }
}

/// The type at a place in the order of labels.
fn type_at(k: usize) -> (r: AgentType)
    requires
        k < 11,
    ensures
        r == by_name()[k as int],
{
    match k {
        0 => AgentType::Coding,
        1 => AgentType::Critic,
        2 => AgentType::DataAnalysis,
        3 => AgentType::General,
        4 => AgentType::Planner,
        5 => AgentType::Research,
        6 => AgentType::ResultMerger,
        7 => AgentType::SecurityReview,
        8 => AgentType::Summarization,
        9 => AgentType::ToolUse,
        _ => AgentType::Verification,
    }
}

/// How many of some tasks an agent type serves best.
fn count_demand(tasks: &Vec<TaskNode>, agent_type: AgentType, waiting: bool) -> (r: i128)
    ensures
        r == demand(task_views(tasks@), agent_type, waiting),
        0 <= r <= tasks@.len(),
{
    let ghost all = task_views(tasks@);
    let mut count: i128 = 0;
    assert(all.take(0) =~= seq![]);
    for i in 0..tasks.len()
        invariant
            all == task_views(tasks@),
            count == demand(all.take(i as int), agent_type, waiting),
            0 <= count <= i,
    {
        assert(all.take(i + 1).drop_last() =~= all.take(i as int));
        assert(all.take(i + 1).last() == tasks@[i as int]@);
        let queued = matches!(tasks[i].state, TaskState::Queued | TaskState::RetryScheduled);
        if agent_type_for(tasks[i].kind) == agent_type && (!waiting || queued) {
            count = count + 1;
        }
    }
    assert(all.take(all.len() as int) =~= all);
    count
}

/// Whether one of some capabilities is served by an agent type.
fn is_asked_for(capabilities: &Vec<Capability>, agent_type: AgentType) -> (r: bool)
    ensures
        r == asked_for(capabilities@, agent_type),
{
    for i in 0..capabilities.len()
        invariant
            forall|k: int|
                0 <= k < i ==> AgentType::serving(#[trigger] capabilities@[k]) != agent_type,
    {
        if AgentType::for_capability(capabilities[i]) == agent_type {
            return true;
        }
    }
    false
}

/// The agent types with a count of more than nothing, highest count first, equal counts by
/// label.
fn rank_types(counts: &Vec<i128>) -> (r: Vec<AgentType>)
    requires
        counts@.len() == 11,
    ensures
        r@ == ranked(whole(counts@)),
{
    let order = sort_descending(counts);
    let ghost all = whole(counts@);
    let ghost listing = ints(order@);
    let mut r: Vec<AgentType> = Vec::new();
    proof {
        reveal(Seq::filter);
        assert(listing.take(0) =~= seq![]);
        assert(r@ =~= listing.take(0).filter(some_at(all)).map_values(|k: int| by_name()[k]));
    }
    for i in 0..order.len()
        invariant
            counts@.len() == 11,
            all == whole(counts@),
            listing == ints(order@),
            is_descending(all, listing),
            r@ == listing.take(i as int).filter(some_at(all)).map_values(|k: int| by_name()[k]),
    {
        let k: usize = order[i];
        let ghost before = listing.take(i as int);
        proof {
            assert(listing[i as int] == k as int);
            assert(listing.take(i + 1) =~= before.push(k as int));
            lemma_filter_push(before, k as int, some_at(all));
        }
        if counts[k] > 0 {
            r.push(type_at(k));
            assert(before.filter(some_at(all)).push(k as int).map_values(|k: int| by_name()[k])
                =~= before.filter(some_at(all)).map_values(|k: int| by_name()[k]).push(
                by_name()[k as int],
            ));
        }
    }
    assert(listing.take(listing.len() as int) =~= listing);
    r
}

/// The agent types a job needs: most needed first, ties broken by name.
///
/// A job-level capability requirement calls for an agent that offers it; it is not added to
/// every task, which would make tasks needing two scarce skills unschedulable.
pub fn types_needed(tasks: &Vec<TaskNode>, capabilities: &Vec<Capability>) -> (r: Vec<AgentType>)
    ensures
        r@ == staff(task_views(tasks@), capabilities@),
{
    let ghost all = task_views(tasks@);
    let mut counts: Vec<i128> = Vec::new();
    for k in 0..11usize
        invariant
            all == task_views(tasks@),
            counts@.len() == k,
            forall|j: int| 0 <= j < k ==> #[trigger] counts@[j] == needs(all, capabilities@)[j],
    {
        let agent_type = type_at(k);
        let count: i128 = count_demand(tasks, agent_type, false);
        if count == 0 && is_asked_for(capabilities, agent_type) {
            counts.push(1);
        } else {
            counts.push(count);
        }
    }
    assert(whole(counts@) =~= needs(all, capabilities@));
    rank_types(&counts)
}

/// The agent type most in demand among tasks waiting to run.
pub fn most_needed_type(tasks: &Vec<TaskNode>) -> (r: Option<AgentType>)
    ensures
        r == most_needed(task_views(tasks@)),
{
    let ghost all = task_views(tasks@);
    let mut counts: Vec<i128> = Vec::new();
    for k in 0..11usize
        invariant
            all == task_views(tasks@),
            counts@.len() == k,
            forall|j: int| 0 <= j < k ==> #[trigger] counts@[j] == waiting_needs(all)[j],
    {
        counts.push(count_demand(tasks, type_at(k), true));
    }
    assert(whole(counts@) =~= waiting_needs(all));
    let list = rank_types(&counts);
    if list.len() > 0 {
        Some(list[0])
    } else {
        None
    }
}

/// Whether `width` is the size of the largest wave of a graph; one, where there is none.
pub open spec fn is_widest(g: GraphView, width: nat) -> bool {
    &&& width >= 1
    &&& forall|n: nat| (#[trigger] g.wave(n)).len() <= width
    &&& width > 1 ==> exists|n: nat| (#[trigger] g.wave(n)).len() == width
}

/// The size of the largest wave of a graph: how many tasks can run at once.
pub fn widest_wave(graph: &TaskGraph) -> (r: usize)
    requires
        graph.wf(),
    ensures
        is_widest(graph@, r as nat),
{
    let layers = match graph.layers() {
        Ok(layers) => layers,
        Err(_) => Vec::new(),
    };
    let ghost g = graph@;
    let mut widest: usize = 1;
    let ghost mut best: int = 0;
    for n in 0..layers.len()
        invariant
            g == graph@,
            forall|k: int|
                0 <= k < layers@.len() ==> (#[trigger] layers@[k])@ == g.wave(k as nat)
                    && layers@[k]@.len() > 0,
            forall|k: int| 0 <= k < n ==> (#[trigger] layers@[k])@.len() <= widest,
            widest >= 1,
            widest > 1 ==> 0 <= best < n && layers@[best]@.len() == widest,
    {
        if layers[n].len() > widest {
            widest = layers[n].len();
            proof {
                best = n as int;
            }
        }
    }
    proof {
        assert forall|n: nat| (#[trigger] g.wave(n)).len() <= widest by {
            if n < layers@.len() {
                assert(layers@[n as int]@ == g.wave(n));
            } else {
                lemma_no_wave_beyond(g, layers@.len(), n);
            }
        }
        if widest > 1 {
            assert(g.wave(best as nat).len() == widest);
        }
    }
    widest
}

/// Past the depth of a graph there are no waves.
proof fn lemma_no_wave_beyond(g: GraphView, depth: nat, n: nat)
    requires
        n >= depth,
        is_topological(g.order(), g.tasks.len(), g.edges),
        forall|v: int| 0 <= v < g.tasks.len() ==> #[trigger] shorter_than(g.edges, v, depth),
    ensures
        g.wave(n).len() == 0,
{
    let keep = at_depth(g.edges, n);
    let list = g.order().filter(keep);
    if list.len() > 0 {
        g.order().lemma_filter_contains_rev(keep, list[0]);
        g.order().filter_lemma(keep);
        let v = list[0];
        assert(g.order().contains(v));
        assert(keep(v));
        let k = g.order().index_of(v);
        assert(0 <= g.order()[k] < g.tasks.len());
        assert(shorter_than(g.edges, v, depth));
        let m = choose|m: nat| m < depth && #[trigger] crate::graph::longest_chain(g.edges, v, m);
        lemma_longest_chain_unique(g.edges, v, n, m);
    }
}

/// An idle agent of a job's pool.
pub open spec fn pool_agent(
    id: AgentId,
    agent_type: AgentType,
    node_id: NodeId,
    job_id: JobId,
    now: Timestamp,
) -> AgentView {
    AgentView {
        job_id: Some(job_id),
        status: AgentStatus::Idle,
        ..AgentView::fresh(id, agent_type, node_id, default_model_config(), now)
    }
}

/// A new agent for a job's pool, registered and idle.
pub fn new_pool_agent(
    id: AgentId,
    agent_type: AgentType,
    node_id: NodeId,
    job_id: JobId,
    now: Timestamp,
) -> (r: Agent)
    ensures
        r@ == pool_agent(id, agent_type, node_id, job_id, now),
{
    let mut descriptor = AgentDescriptor::create(
        id,
        agent_type,
        node_id,
        ModelConfig::default(),
        now,
    );
    descriptor.job_id = Some(job_id);
    descriptor.status = AgentStatus::Idle;
    Agent { descriptor }
}

/// What is said of an agent that was created.
pub open spec fn introduction(agent_type: AgentType, id: AgentId) -> Seq<char> {
    agent_type.label() + " agent "@ + id.text()
}

/// The agents a job is given: the types in turn, under the given names.
pub open spec fn crew(
    types: Seq<AgentType>,
    ids: Seq<AgentId>,
    node_id: NodeId,
    job_id: JobId,
    now: Timestamp,
) -> Seq<AgentView> {
    Seq::new(
        ids.len(),
        |i: int| pool_agent(ids[i], types[i % types.len() as int], node_id, job_id, now),
    )
}

impl HandleView {
    /// With the first `n` of some agents announced.
    pub open spec fn introduced(self, agents: Seq<AgentView>, n: nat, now: Timestamp) -> HandleView
        decreases n,
    {
        if n == 0 {
            self
        } else {
            let agent = agents[n - 1];
            self.introduced(agents, (n - 1) as nat, now).emitted(
                JobEventKind::AgentSpawned,
                None,
                introduction(agent.agent_type, agent.id),
                no_progress(),
                now,
            )
        }
    }

    /// With a crew in place.
    pub open spec fn staffed(self, agents: Seq<AgentView>, now: Timestamp) -> HandleView {
        let told = self.introduced(agents, agents.len(), now);
        HandleView {
            agents,
            statistics: ExecutionStatistics {
                agents_spawned: agents.len() as u64,
                ..told.statistics
            },
            ..told
        }
    }

    /// The agent types the job needs.
    pub open spec fn staff(self) -> Seq<AgentType> {
        staff(self.graph.tasks, self.job.request.required_capabilities)
    }
}

/// How many agents a job is given: enough for its widest wave and one of each type it needs,
/// but no more than its ceiling, and at least one.
pub open spec fn headcount(widest: nat, types: nat, max_agents: nat) -> nat {
    let wanted = if widest > types {
        widest
    } else {
        types
    };
    if max_agents == 0 {
        1
    } else if wanted > max_agents {
        max_agents
    } else if wanted == 0 {
        1
    } else {
        wanted
    }
}

/// Announcing agents changes nothing but the event stream.
proof fn lemma_introduced(h: HandleView, agents: Seq<AgentView>, n: nat, now: Timestamp)
    ensures
        ({
            let told = h.introduced(agents, n, now);
            &&& told.job == h.job
            &&& told.graph == h.graph
            &&& told.agents == h.agents
        }),
    decreases n,
{
    if n > 0 {
        lemma_introduced(h, agents, (n - 1) as nat, now);
    }
}

/// Put a crew of the given types and names in place.
pub fn place_crew(
    handle: &mut JobHandle,
    types: &Vec<AgentType>,
    ids: &Vec<AgentId>,
    node_id: NodeId,
    now: Timestamp,
)
    requires
        old(handle).wf(),
        types@.len() > 0,
    ensures
        final(handle).wf(),
        final(handle)@ == old(handle)@.staffed(
            crew(types@, ids@, node_id, old(handle)@.job.id, now),
            now,
        ),
{
    let ghost entry = handle@;
    let job_id = handle.job.id;
    let ghost all = crew(types@, ids@, node_id, job_id, now);
    let mut agents: Vec<Agent> = Vec::new();
    for index in 0..ids.len()
        invariant
            handle.wf(),
            types@.len() > 0,
            job_id == entry.job.id,
            all == crew(types@, ids@, node_id, job_id, now),
            handle@ == entry.introduced(all, index as nat, now),
            agents@.len() == index,
            forall|k: int| 0 <= k < index ==> (#[trigger] agents@[k])@ == all[k],
    {
        let agent_type = types[index % types.len()];
        let agent = new_pool_agent(ids[index], agent_type, node_id, job_id, now);
        assert(agent@ == all[index as int]);
        let mut detail = agent_type.as_str().to_owned();
        detail.append(" agent ");
        detail.append(ids[index].to_string().as_str());
        handle.emit(
            JobEventKind::AgentSpawned,
            None,
            detail,
            Progress { done: 0, total: 1 },
            now,
        );
        agents.push(agent);
    }
    let spawned: usize = agents.len();
    handle.agents = agents;
    handle.statistics.agents_spawned = spawned as u64;
    proof {
        assert(pool_views(handle.agents@) =~= all);
        lemma_introduced(entry, all, all.len(), now);
        assert(handle@ =~= entry.staffed(all, now));
    }
}

/// Create the agents a job needs, respecting both its own and the cluster's ceiling. The
/// names are fresh; everything else is decided by the job. A job that needs no type of agent
/// at all can only be turned away.
///
/// A ceiling smaller than the number of task kinds is fine: idle agents re-specialise on
/// demand.
pub fn provision_agents(
    handle: &mut JobHandle,
    cluster_agents: &mut usize,
    max_cluster_agents: usize,
    node_id: NodeId,
    max_agents: usize,
    now: Timestamp,
) -> (r: Result<usize, SwarmError>)
    requires
        old(handle).wf(),
        old(handle)@.staff().len() > 0 || *old(cluster_agents) >= max_cluster_agents,
    ensures
        final(handle).wf(),
        exists|widest: nat, ids: Seq<AgentId>|
            #![trigger is_widest(old(handle)@.graph, widest), crew(
                old(handle)@.staff(),
                ids,
                node_id,
                old(handle)@.job.id,
                now,
            )]
            {
                let target = headcount(widest, old(handle)@.staff().len(), max_agents as nat);
                &&& is_widest(old(handle)@.graph, widest)
                &&& ids.len() == target
                &&& match r {
                    Ok(spawned) => {
                        &&& spawned == target
                        &&& *old(cluster_agents) + target <= max_cluster_agents
                        &&& *final(cluster_agents) == *old(cluster_agents) + target
                        &&& final(handle)@ == old(handle)@.staffed(
                            crew(old(handle)@.staff(), ids, node_id, old(handle)@.job.id, now),
                            now,
                        )
                    },
                    Err(error) => {
                        &&& *old(cluster_agents) + target > max_cluster_agents
                        &&& *final(cluster_agents) == *old(cluster_agents)
                        &&& final(handle)@ == old(handle)@
                        &&& error@ == ErrorView::QuotaExceeded(
                            "cluster has "@ + decimal(*old(cluster_agents) as nat) + " of "@
                                + decimal(max_cluster_agents as nat)
                                + " agents in use; job needs "@ + decimal(target) + " more"@,
                        )
                    },
                }
            },
{
    let ghost entry = handle@;
    let types = types_needed(handle.graph.nodes(), &handle.job.request.required_capabilities);
    assert(types@ == entry.staff());
    let widest: usize = widest_wave(&handle.graph);
    let wanted: usize = if widest > types.len() {
        widest
    } else {
        types.len()
    };
    let capped: usize = if wanted > max_agents {
        max_agents
    } else {
        wanted
    };
    let target: usize = if capped == 0 {
        1
    } else {
        capped
    };
    assert(target == headcount(widest as nat, types@.len(), max_agents as nat));
    let claimed: usize = *cluster_agents;
    let mut ids: Vec<AgentId> = Vec::new();
    for k in 0..target
        invariant
            ids@.len() == k,
    {
        ids.push(AgentId::new());
    }
    let ghost named = crew(types@, ids@, node_id, entry.job.id, now);
    if claimed as u128 + target as u128 > max_cluster_agents as u128 {
        let mut text = "cluster has ".to_owned();
        text.append(decimal_text(claimed as u64).as_str());
        text.append(" of ");
        text.append(decimal_text(max_cluster_agents as u64).as_str());
        text.append(" agents in use; job needs ");
        text.append(decimal_text(target as u64).as_str());
        text.append(" more");
        return Err(SwarmError::QuotaExceeded(text));
    }
    *cluster_agents = claimed + target;
    place_crew(handle, &types, &ids, node_id, now);
    Ok(target)
}

/// How many of some agents can take work.
pub open spec fn idle_count(agents: Seq<AgentView>) -> nat
    decreases agents.len(),
{
    if agents.len() == 0 {
        0
    } else {
        idle_count(agents.drop_last()) + if agents.last().available() {
            1nat
        } else {
            0nat
        }
    }
}

/// How many of some agents can take work.
pub fn count_idle(agents: &Vec<Agent>) -> (r: usize)
    ensures
        r == idle_count(pool_views(agents@)),
        r <= agents@.len(),
{
    let ghost all = pool_views(agents@);
    let mut count: usize = 0;
    assert(all.take(0) =~= seq![]);
    for i in 0..agents.len()
        invariant
            all == pool_views(agents@),
            count == idle_count(all.take(i as int)),
            count <= i,
    {
        assert(all.take(i + 1).drop_last() =~= all.take(i as int));
        assert(all.take(i + 1).last() == agents@[i as int]@);
        if agents[i].descriptor.is_available() {
            count = count + 1;
        }
    }
    assert(all.take(all.len() as int) =~= all);
    count
}

/// Whether an agent has been idle since before `cutoff`.
pub open spec fn is_cold(agent: AgentView, cutoff: Timestamp) -> bool {
    agent.available() && agent.last_active_at.nanos < cutoff.nanos
}

/// The position of the first cold agent from `from` on.
pub open spec fn first_cold(agents: Seq<AgentView>, cutoff: Timestamp, from: nat) -> Option<nat>
    decreases agents.len() - from,
{
    if from >= agents.len() {
        None
    } else if is_cold(agents[from as int], cutoff) {
        Some(from)
    } else {
        first_cold(agents, cutoff, from + 1)
    }
}

/// A first cold agent stands in the list.
proof fn lemma_first_cold(agents: Seq<AgentView>, cutoff: Timestamp, from: nat)
    ensures
        first_cold(agents, cutoff, from) matches Some(at) ==> from <= at < agents.len() && is_cold(
            agents[at as int],
            cutoff,
        ),
        first_cold(agents, cutoff, from) is None ==> forall|i: int|
            from <= i < agents.len() ==> !is_cold(#[trigger] agents[i], cutoff),
    decreases agents.len() - from,
{
    if from < agents.len() && !is_cold(agents[from as int], cutoff) {
        lemma_first_cold(agents, cutoff, from + 1);
    }
}

/// The agents left when the cold ones are let go, oldest first, as long as one is kept so
/// that a late task still has somewhere to run.
pub open spec fn warm(agents: Seq<AgentView>, cutoff: Timestamp) -> Seq<AgentView>
    decreases agents.len(),
{
    if agents.len() <= 1 {
        agents
    } else {
        match first_cold(agents, cutoff, 0) {
            Some(at) => if at < agents.len() {
                warm(agents.remove(at as int), cutoff)
            } else {
                agents
            },
            None => agents,
        }
    }
}

/// The position of the first cold agent.
fn find_cold(agents: &Vec<Agent>, cutoff: Timestamp) -> (r: Option<usize>)
    ensures
        match r {
            Some(at) => first_cold(pool_views(agents@), cutoff, 0) == Some(at as nat) && at
                < agents@.len(),
            None => first_cold(pool_views(agents@), cutoff, 0) is None,
        },
{
    let ghost all = pool_views(agents@);
    for i in 0..agents.len()
        invariant
            all == pool_views(agents@),
            first_cold(all, cutoff, 0) == first_cold(all, cutoff, i as nat),
    {
        assert(all[i as int] == agents@[i as int]@);
        if agents[i].descriptor.is_available() && agents[i].descriptor.last_active_at.before(
            cutoff,
        ) {
            return Some(i);
        }
    }
    None
}

/// Let the cold agents go: how many went.
fn let_go(agents: &mut Vec<Agent>, cutoff: Timestamp) -> (r: usize)
    ensures
        pool_views(final(agents)@) == warm(pool_views(old(agents)@), cutoff),
        r == old(agents)@.len() - final(agents)@.len(),
{
    let ghost entry = pool_views(agents@);
    let start: usize = agents.len();
    let mut gone: usize = 0;
    let mut looking = true;
    while looking && agents.len() > 1
        invariant
            warm(entry, cutoff) == warm(pool_views(agents@), cutoff),
            gone == start - agents@.len(),
            gone <= start,
            !looking ==> first_cold(pool_views(agents@), cutoff, 0) is None,
        decreases agents@.len() + (if looking {
            1int
        } else {
            0int
        }),
    {
        let ghost before = pool_views(agents@);
        match find_cold(agents, cutoff) {
            Some(at) => {
                let _ = agents.remove(at);
                gone = gone + 1;
                assert(pool_views(agents@) =~= before.remove(at as int));
            },
            None => {
                looking = false;
            },
        }
    }
    gone
}

/// Where nobody goes, the pool stays as it is.
proof fn lemma_warm(agents: Seq<AgentView>, cutoff: Timestamp)
    ensures
        warm(agents, cutoff).len() <= agents.len(),
        warm(agents, cutoff).len() == agents.len() ==> warm(agents, cutoff) == agents,
    decreases agents.len(),
{
    if agents.len() > 1 {
        if let Some(at) = first_cold(agents, cutoff, 0) {
            if at < agents.len() {
                lemma_warm(agents.remove(at as int), cutoff);
            }
        }
    }
}

/// Letting agents go leaves at least one.
pub proof fn law_an_agent_is_kept(agents: Seq<AgentView>, cutoff: Timestamp)
    requires
        agents.len() > 0,
    ensures
        0 < warm(agents, cutoff).len() <= agents.len(),
    decreases agents.len(),
{
    if agents.len() > 1 {
        lemma_first_cold(agents, cutoff, 0);
        if let Some(at) = first_cold(agents, cutoff, 0) {
            law_an_agent_is_kept(agents.remove(at as int), cutoff);
        }
    }
}

/// Whether the pool of a job grows: work is queueing up, neither the job nor the cluster is
/// at its ceiling, and some type is in demand.
pub open spec fn grows(
    h: HandleView,
    q: QueueView,
    cluster_agents: nat,
    max_cluster_agents: nat,
    max_agents: nat,
    now: Timestamp,
) -> bool {
    &&& q.stats(now).ready > idle_count(h.agents)
    &&& h.agents.len() < max_agents
    &&& cluster_agents < max_cluster_agents
    &&& most_needed(h.graph.tasks) is Some
}

impl HandleView {
    /// With one more agent in the pool.
    pub open spec fn grown(self, id: AgentId, node_id: NodeId, now: Timestamp) -> HandleView {
        let agent_type = most_needed(self.graph.tasks)->0;
        let told = self.emitted(
            JobEventKind::AgentSpawned,
            None,
            "scaled up: "@ + introduction(agent_type, id),
            self.progress(),
            now,
        );
        HandleView {
            agents: told.agents.push(pool_agent(id, agent_type, node_id, self.job.id, now)),
            statistics: ExecutionStatistics {
                agents_spawned: counted(told.statistics.agents_spawned),
                ..told.statistics
            },
            ..told
        }
    }

    /// With the cold agents let go.
    pub open spec fn cooled(self, cutoff: Timestamp, now: Timestamp) -> HandleView {
        let kept = warm(self.agents, cutoff);
        let gone = self.agents.len() - kept.len();
        if gone > 0 {
            HandleView { agents: kept, ..self }.emitted(
                JobEventKind::AgentTerminated,
                None,
                "reclaimed "@ + decimal(gone as nat) + " idle agents"@,
                self.progress(),
                now,
            )
        } else {
            self
        }
    }
}

/// Since when an agent must have been idle at `now` to be let go.
pub open spec fn cold_since(now: Timestamp, idle_timeout_ms: u64) -> Timestamp {
    let ms = signed_millis(idle_timeout_ms);
    if ms == i64::MIN {
        now.shifted(i64::MAX as int)
    } else {
        now.shifted(-ms)
    }
}

/// Less `gone`, but never below zero.
pub open spec fn reduced(count: nat, gone: nat) -> nat {
    if count > gone {
        (count - gone) as nat
    } else {
        0
    }
}

/// What the upkeep of a job's pool comes to: the handle after it, and the number of agents in
/// the cluster.
pub open spec fn upkept(
    h: HandleView,
    q: QueueView,
    cluster_agents: nat,
    max_cluster_agents: nat,
    max_agents: nat,
    id: AgentId,
    node_id: NodeId,
    idle_timeout_ms: u64,
    now: Timestamp,
) -> (HandleView, nat) {
    let grow = grows(h, q, cluster_agents, max_cluster_agents, max_agents, now);
    let (larger, more) = if grow {
        (h.grown(id, node_id, now), cluster_agents + 1)
    } else {
        (h, cluster_agents)
    };
    if q.ready.len() == 0 && q.leases.len() == 0 {
        let after = larger.cooled(cold_since(now, idle_timeout_ms), now);
        (after, reduced(more, (larger.agents.len() - after.agents.len()) as nat))
    } else {
        (larger, more)
    }
}

/// Grow the pool when work is queueing up; reclaim agents that have gone cold. A new agent
/// goes by the name `id`.
pub fn maintain_agent_pool(
    handle: &mut JobHandle,
    queue: &InMemoryQueue,
    cluster_agents: &mut usize,
    max_cluster_agents: usize,
    max_agents: usize,
    id: AgentId,
    node_id: NodeId,
    idle_timeout_ms: u64,
    now: Timestamp,
)
    requires
        old(handle).wf(),
    ensures
        final(handle).wf(),
        (final(handle)@, *final(cluster_agents) as nat) == upkept(
            old(handle)@,
            queue@,
            *old(cluster_agents) as nat,
            max_cluster_agents as nat,
            max_agents as nat,
            id,
            node_id,
            idle_timeout_ms,
            now,
        ),
{
    let ghost entry = handle@;
    let stats = queue.stats_at(now);
    let total: usize = handle.agents.len();
    let idle: usize = count_idle(&handle.agents);
    if stats.ready > idle && total < max_agents && *cluster_agents < max_cluster_agents {
        if let Some(agent_type) = most_needed_type(handle.graph.nodes()) {
            *cluster_agents = *cluster_agents + 1;
            let job_id = handle.job.id;
            let mut detail = "scaled up: ".to_owned();
            detail.append(agent_type.as_str());
            detail.append(" agent ");
            detail.append(id.to_string().as_str());
            let progress = handle.progress();
            assert(detail@ =~= "scaled up: "@ + introduction(agent_type, id));
            handle.emit(JobEventKind::AgentSpawned, None, detail, progress, now);
            handle.agents.push(new_pool_agent(id, agent_type, node_id, job_id, now));
            handle.statistics.agents_spawned = count_one(handle.statistics.agents_spawned);
            assert(handle@ =~= entry.grown(id, node_id, now));
        }
    }
    let ghost larger = handle@;
    if stats.ready == 0 && stats.delayed == 0 && stats.leased == 0 {
        let ms: i64 = to_signed_millis(idle_timeout_ms);
        let back: i64 = if ms == i64::MIN {
            i64::MAX
        } else {
            -ms
        };
        let cutoff = now.plus_millis(back);
        assert(cutoff == cold_since(now, idle_timeout_ms));
        let gone: usize = let_go(&mut handle.agents, cutoff);
        proof {
            lemma_warm(larger.agents, cutoff);
        }
        if gone > 0 {
            *cluster_agents = (*cluster_agents).saturating_sub(gone);
            let mut detail = "reclaimed ".to_owned();
            detail.append(decimal_text(gone as u64).as_str());
            detail.append(" idle agents");
            let progress = handle.progress();
            handle.emit(JobEventKind::AgentTerminated, None, detail, progress, now);
            assert(handle@ =~= larger.cooled(cutoff, now));
        } else {
            assert(handle@ =~= larger.cooled(cutoff, now));
        }
    }
}

/// A type is asked for by some task exactly where the count of its tasks is above zero.
proof fn lemma_demand(tasks: Seq<TaskView>, agent_type: AgentType, waiting: bool)
    ensures
        0 <= demand(tasks, agent_type, waiting) <= tasks.len(),
        demand(tasks, agent_type, waiting) > 0 <==> exists|i: int|
            0 <= i < tasks.len() && type_for((#[trigger] tasks[i]).kind) == agent_type && (!waiting
                || tasks[i].state == TaskState::Queued || tasks[i].state
                == TaskState::RetryScheduled),
    decreases tasks.len(),
{
    if tasks.len() > 0 {
        let front = tasks.drop_last();
        lemma_demand(front, agent_type, waiting);
        if demand(front, agent_type, waiting) > 0 {
            let i = choose|i: int|
                0 <= i < front.len() && type_for((#[trigger] front[i]).kind) == agent_type && (
                !waiting || front[i].state == TaskState::Queued || front[i].state
                    == TaskState::RetryScheduled);
            assert(tasks[i] == front[i]);
        }
        if exists|i: int|
            0 <= i < tasks.len() && type_for((#[trigger] tasks[i]).kind) == agent_type && (!waiting
                || tasks[i].state == TaskState::Queued || tasks[i].state
                == TaskState::RetryScheduled) {
            let i = choose|i: int|
                0 <= i < tasks.len() && type_for((#[trigger] tasks[i]).kind) == agent_type && (
                !waiting || tasks[i].state == TaskState::Queued || tasks[i].state
                    == TaskState::RetryScheduled);
            if i < front.len() {
                assert(front[i] == tasks[i]);
            } else {
                assert(tasks[i] == tasks.last());
            }
        } else {
            assert(tasks[tasks.len() - 1] == tasks.last());
        }
    }
}

/// Every type stands in the list of names once, where its rank says.
proof fn lemma_named_place(agent_type: AgentType)
    ensures
        0 <= name_rank(agent_type) < 11,
        by_name()[name_rank(agent_type)] == agent_type,
        by_name().len() == 11,
        forall|k: int| 0 <= k < 11 ==> name_rank(#[trigger] by_name()[k]) == k,
{
}

/// What the ranking of some counts lists: the types counted above zero, the highest count first.
proof fn lemma_ranked(counts: Seq<int>)
    requires
        counts.len() == 11,
    ensures
        forall|t: AgentType| #[trigger] ranked(counts).contains(t) <==> counts[name_rank(t)] > 0,
        forall|a: int, b: int|
            0 <= a < b < ranked(counts).len() ==> counts[name_rank(#[trigger] ranked(counts)[a])]
                >= counts[name_rank(#[trigger] ranked(counts)[b])],
{
    let order = descending(counts);
    lemma_descending_exists(counts);
    let some = some_at(counts);
    let kept = order.filter(some);
    let list = ranked(counts);
    lemma_filtered_descending(counts, order);
    assert forall|t: AgentType| #[trigger] list.contains(t) <==> counts[name_rank(t)] > 0 by {
        lemma_named_place(t);
        let k = name_rank(t);
        lemma_descending_complete(counts, order, k);
        if counts[k] > 0 {
            assert(some(k));
            assert(kept.contains(k));
            let at = kept.index_of(k);
            assert(list[at] == t);
        }
        if list.contains(t) {
            let at = list.index_of(t);
            assert(list[at] == by_name()[kept[at]]);
            assert(kept.contains(kept[at]));
            assert(some(kept[at]));
            assert(order.contains(kept[at]));
            assert(0 <= kept[at] < 11);
        }
    }
    assert forall|a: int, b: int| 0 <= a < b < list.len() implies counts[name_rank(
        #[trigger] list[a],
    )] >= counts[name_rank(#[trigger] list[b])] by {
        lemma_named_place(list[a]);
        assert(list[a] == by_name()[kept[a]] && list[b] == by_name()[kept[b]]);
        assert(order.contains(kept[a]) && order.contains(kept[b]));
        assert(counts[kept[a]] >= counts[kept[b]]);
    }
}

/// Leaving positions out of a descending order keeps it descending.
proof fn lemma_filtered_descending(counts: Seq<int>, order: Seq<int>)
    requires
        forall|a: int, b: int|
            0 <= a < b < order.len() ==> counts[#[trigger] order[a]] >= counts[#[trigger] order[b]],
    ensures
        ({
            let kept = order.filter(some_at(counts));
            &&& forall|k: int| 0 <= k < kept.len() ==> order.contains(#[trigger] kept[k]) && counts[kept[k]] > 0
            &&& forall|a: int, b: int|
                0 <= a < b < kept.len() ==> counts[#[trigger] kept[a]] >= counts[#[trigger] kept[b]]
        }),
    decreases order.len(),
{
    reveal(Seq::filter);
    if order.len() > 0 {
        let front = order.drop_last();
        lemma_filtered_descending(counts, front);
        let rest = front.filter(some_at(counts));
        let kept = order.filter(some_at(counts));
        assert forall|k: int| 0 <= k < kept.len() implies order.contains(#[trigger] kept[k])
            && counts[kept[k]] > 0 by {
            if k < rest.len() {
                assert(kept[k] == rest[k]);
                let i = front.index_of(rest[k]);
                assert(order[i] == rest[k]);
            } else {
                assert(order[order.len() - 1] == kept[k]);
            }
        }
        assert forall|a: int, b: int| 0 <= a < b < kept.len() implies counts[#[trigger] kept[a]]
            >= counts[#[trigger] kept[b]] by {
            assert(kept[a] == rest[a]);
            if b < rest.len() {
                assert(kept[b] == rest[b]);
            } else {
                let i = front.index_of(rest[a]);
                assert(order[i] == rest[a]);
                assert(kept[b] == order[order.len() - 1]);
            }
        }
    }
}

/// A job is staffed with exactly the types that some task of it calls for or that some asked-for
/// capability is served by, and a type that more tasks call for comes before one that fewer do.
pub proof fn law_the_staff_meets_the_needs(
    tasks: Seq<TaskView>,
    capabilities: Seq<Capability>,
    t: AgentType,
)
    ensures
        staff(tasks, capabilities).contains(t) <==> (exists|i: int|
            0 <= i < tasks.len() && type_for((#[trigger] tasks[i]).kind) == t) || (exists|i: int|
            0 <= i < capabilities.len() && AgentType::serving(#[trigger] capabilities[i]) == t),
        forall|a: int, b: int|
            0 <= a < b < staff(tasks, capabilities).len() ==> need(
                tasks,
                capabilities,
                #[trigger] staff(tasks, capabilities)[a],
            ) >= need(tasks, capabilities, #[trigger] staff(tasks, capabilities)[b]),
{
    let counts = needs(tasks, capabilities);
    lemma_ranked(counts);
    lemma_named_place(t);
    lemma_demand(tasks, t, false);
    if exists|i: int| 0 <= i < tasks.len() && type_for((#[trigger] tasks[i]).kind) == t {
        let i = choose|i: int| 0 <= i < tasks.len() && type_for((#[trigger] tasks[i]).kind) == t;
        assert(demand(tasks, t, false) > 0);
    }
    assert(counts[name_rank(t)] == need(tasks, capabilities, t));
    let list = staff(tasks, capabilities);
    assert forall|a: int, b: int| 0 <= a < b < list.len() implies need(
        tasks,
        capabilities,
        #[trigger] list[a],
    ) >= need(tasks, capabilities, #[trigger] list[b]) by {
        lemma_named_place(list[a]);
        lemma_named_place(list[b]);
    }
}

/// The type that a pool grows by is one that some waiting task calls for, and no type is called
/// for by more of them; there is none only where nothing waits.
pub proof fn law_the_pool_grows_where_work_waits(tasks: Seq<TaskView>, other: AgentType)
    ensures
        most_needed(tasks) is None <==> forall|i: int|
            0 <= i < tasks.len() ==> (#[trigger] tasks[i]).state != TaskState::Queued
                && tasks[i].state != TaskState::RetryScheduled,
        most_needed(tasks) matches Some(t) ==> demand(tasks, t, true) > 0 && demand(tasks, t, true)
            >= demand(tasks, other, true),
{
    let counts = waiting_needs(tasks);
    let list = ranked(counts);
    lemma_ranked(counts);
    lemma_named_place(other);
    lemma_demand(tasks, other, true);
    if list.len() > 0 {
        let t = list[0];
        assert(list.contains(t));
        lemma_named_place(t);
        lemma_demand(tasks, t, true);
        assert(counts[name_rank(t)] == demand(tasks, t, true));
        assert(counts[name_rank(other)] == demand(tasks, other, true));
        if demand(tasks, other, true) > 0 {
            assert(list.contains(other));
            let k = list.index_of(other);
            if k > 0 {
                assert(counts[name_rank(list[0])] >= counts[name_rank(list[k])]);
            }
        }
    } else {
        assert forall|i: int| 0 <= i < tasks.len() implies (#[trigger] tasks[i]).state
            != TaskState::Queued && tasks[i].state != TaskState::RetryScheduled by {
            let t = type_for(tasks[i].kind);
            lemma_named_place(t);
            lemma_demand(tasks, t, true);
            assert(!list.contains(t));
            assert(counts[name_rank(t)] == demand(tasks, t, true));
        }
    }
}

/// A pool starts with at least one agent, with no more than it may have, and with enough for
/// the widest wave and for one of each type as far as that limit lets it.
pub proof fn law_pools_are_sized_within_the_limit(widest: nat, types: nat, max_agents: nat)
    ensures
        headcount(widest, types, max_agents) >= 1,
        max_agents >= 1 ==> headcount(widest, types, max_agents) <= max_agents,
        headcount(widest, types, max_agents) >= widest || headcount(widest, types, max_agents)
            >= max_agents,
        headcount(widest, types, max_agents) >= types || headcount(widest, types, max_agents)
            >= max_agents,
        headcount(widest, types, max_agents) <= 1 || headcount(widest, types, max_agents) <= widest
            || headcount(widest, types, max_agents) <= types,
{
}

/// A crew has one agent for each name, all idle and of the job; with as many names as types
/// every type is there.
pub proof fn law_a_crew_has_every_type(
    types: Seq<AgentType>,
    ids: Seq<AgentId>,
    node_id: NodeId,
    job_id: JobId,
    now: Timestamp,
)
    requires
        types.len() > 0,
    ensures
        crew(types, ids, node_id, job_id, now).len() == ids.len(),
        forall|i: int|
            0 <= i < ids.len() ==> ({
                let agent = #[trigger] crew(types, ids, node_id, job_id, now)[i];
                &&& agent.id == ids[i]
                &&& agent.available()
                &&& agent.job_id == Some(job_id)
                &&& agent.node_id == node_id
                &&& types.contains(agent.agent_type)
                &&& agent.capabilities == agent.agent_type.offers()
                &&& i < types.len() ==> agent.agent_type == types[i]
            }),
{
    assert forall|i: int| 0 <= i < ids.len() implies types.contains(
        (#[trigger] crew(types, ids, node_id, job_id, now)[i]).agent_type,
    ) && (i < types.len() ==> crew(types, ids, node_id, job_id, now)[i].agent_type == types[i]) by {
        let k = i % types.len() as int;
        assert(0 <= k < types.len());
        assert(types[k] == crew(types, ids, node_id, job_id, now)[i].agent_type);
        if i < types.len() {
            assert(k == i) by (nonlinear_arith)
                requires
                    0 <= i < types.len(),
                    k == i % types.len() as int,
            ;
        }
    }
}

/// Reclaiming idle agents takes none that works or was active since the cutoff, and leaves no
/// idle one but the last.
pub proof fn law_only_cold_agents_are_reclaimed(agents: Seq<AgentView>, cutoff: Timestamp)
    ensures
        forall|a: AgentView| #[trigger]
            agents.contains(a) && (!a.available() || a.last_active_at.nanos >= cutoff.nanos)
                ==> warm(agents, cutoff).contains(a),
        forall|a: AgentView| #[trigger] warm(agents, cutoff).contains(a) ==> agents.contains(a),
        warm(agents, cutoff).len() > 1 ==> forall|a: AgentView| #[trigger]
            warm(agents, cutoff).contains(a) ==> !a.available() || a.last_active_at.nanos
                >= cutoff.nanos,
    decreases agents.len(),
{
    lemma_first_cold(agents, cutoff, 0);
    if agents.len() > 1 {
        match first_cold(agents, cutoff, 0) {
            Some(at) => {
                let fewer = agents.remove(at as int);
                law_only_cold_agents_are_reclaimed(fewer, cutoff);
                assert forall|a: AgentView| #[trigger]
                    agents.contains(a) && (!a.available() || a.last_active_at.nanos
                        >= cutoff.nanos) implies warm(agents, cutoff).contains(a) by {
                    let i = agents.index_of(a);
                    assert(agents[i] == a);
                    assert(i != at);
                    if i < at {
                        assert(fewer[i] == a);
                    } else {
                        assert(fewer[i - 1] == a);
                    }
                    assert(fewer.contains(a));
                }
                assert forall|a: AgentView| #[trigger]
                    warm(agents, cutoff).contains(a) implies agents.contains(a) by {
                    assert(fewer.contains(a));
                    let i = fewer.index_of(a);
                    assert(fewer[i] == a);
                    if i < at {
                        assert(agents[i] == a);
                    } else {
                        assert(agents[i + 1] == a);
                    }
                }
            },
            None => {
                assert forall|a: AgentView| #[trigger] agents.contains(a) implies !a.available()
                    || a.last_active_at.nanos >= cutoff.nanos by {
                    let i = agents.index_of(a);
                    assert(agents[i] == a);
                    assert(!is_cold(agents[i], cutoff));
                }
            },
        }
    }
}

/// An agent has gone cold once it has been idle for longer than the timeout.
pub proof fn law_agents_cool_after_the_timeout(
    agent: AgentView,
    now: Timestamp,
    idle_timeout_ms: u64,
)
    requires
        idle_timeout_ms <= i64::MAX,
        now.nanos - idle_timeout_ms * 1_000_000 >= i128::MIN,
    ensures
        is_cold(agent, cold_since(now, idle_timeout_ms)) <==> agent.available() && now.nanos
            - agent.last_active_at.nanos > idle_timeout_ms * 1_000_000,
{
}

/// Upkeep respects both ceilings: a pool or a cluster within its limit stays within it.
pub proof fn law_upkeep_respects_the_ceilings(
    h: HandleView,
    q: QueueView,
    cluster_agents: nat,
    max_cluster_agents: nat,
    max_agents: nat,
    id: AgentId,
    node_id: NodeId,
    idle_timeout_ms: u64,
    now: Timestamp,
)
    requires
        h.agents.len() <= max_agents,
        cluster_agents <= max_cluster_agents,
    ensures
        ({
            let (after, count) = upkept(
                h,
                q,
                cluster_agents,
                max_cluster_agents,
                max_agents,
                id,
                node_id,
                idle_timeout_ms,
                now,
            );
            &&& after.agents.len() <= max_agents
            &&& count <= max_cluster_agents
            &&& h.agents.len() > 0 ==> after.agents.len() > 0
            &&& q.leases.len() > 0 ==> after.agents.len() >= h.agents.len()
            &&& q.leases.len() > 0 ==> count - cluster_agents == after.agents.len()
                - h.agents.len()
        }),
{
    let grow = grows(h, q, cluster_agents, max_cluster_agents, max_agents, now);
    let larger = if grow {
        h.grown(id, node_id, now)
    } else {
        h
    };
    if larger.agents.len() > 0 {
        law_an_agent_is_kept(larger.agents, cold_since(now, idle_timeout_ms));
    }
}

} // verus!
