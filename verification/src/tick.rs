//! One tick of the loop over a job.

use crate::clock::Timestamp;
use crate::config::CoordinatorConfig;
use crate::dispatch::{collect_dispatches, dispatch_views, fair, is_ready_list, opening,
    promote_ready, promoted, rounds, Dispatch, DispatchView, Picks, Round};
use crate::engine::{begin_tick, gated, is_stranded_list, make_progress_possible,
    stranded_cancelled, Gate, Run};
use crate::error::{ErrorView, SwarmError};
use crate::handle::{HandleView, JobHandle};
use crate::ids::{AgentId, LeaseId, TaskId};
use crate::queue::{InMemoryQueue, QueueView};
use crate::schedule::Scheduler;
use crate::staff::{count_idle, idle_count, maintain_agent_pool, upkept};
use vstd::prelude::*;

verus! {

/// What the loop over a job does next.
#[derive(Debug)]
pub enum Tick {
    /// Finish the job; whether it was cancelled.
    Finish(bool),
    /// Wait until the operator resumes or cancels the job.
    AwaitResume,
    /// Wait so many milliseconds.
    Sleep(u64),
    /// Run these tasks.
    Execute(Vec<Dispatch>),
}

/// What a tick comes to.
pub enum TickView {
    /// Finish the job; whether it was cancelled.
    Finish(bool),
    /// Wait until the operator resumes or cancels the job.
    AwaitResume,
    /// Wait so many milliseconds.
    Sleep(u64),
    /// Run these tasks.
    Execute(Seq<DispatchView>),
}

impl View for Tick {
    type V = TickView;

    open spec fn view(&self) -> TickView {
        match self {
            Tick::Finish(cancelled) => TickView::Finish(*cancelled),
            Tick::AwaitResume => TickView::AwaitResume,
            Tick::Sleep(ms) => TickView::Sleep(*ms),
            Tick::Execute(dispatches) => TickView::Execute(dispatch_views(dispatches@)),
        }
    }
}

/// The result of a tick, taken by its view.
pub open spec fn tick_view(r: Result<Tick, SwarmError>) -> Result<TickView, ErrorView> {
    match r {
        Ok(tick) => Ok(tick@),
        Err(error) => Err(error@),
    }
}

/// Everything a tick works on.
#[verifier::ext_equal]
pub struct Desk<S> {
    /// The job.
    pub handle: HandleView,
    /// The queue.
    pub queue: QueueView,
    /// The scheduler.
    pub scheduler: S,
    /// Agents in the cluster.
    pub cluster_agents: nat,
    /// How the loop stands.
    pub run: Run,
}

/// What a tick does not decide itself: the order of equals, the answers of the scheduler, and
/// fresh names.
pub struct Chances<S> {
    /// The ready tasks, in the order in which they are queued.
    pub ready: Seq<TaskId>,
    /// The name of an agent the pool grows by.
    pub spare: AgentId,
    /// The answers of the scheduler.
    pub picks: Seq<Picks<S>>,
    /// The names of the claims.
    pub lease_ids: Seq<LeaseId>,
    /// The names of agents that take an idle one's place.
    pub agent_ids: Seq<AgentId>,
    /// The stranded tasks, in the order in which they are cancelled.
    pub stranded: Seq<TaskId>,
}

/// Who the coordinator on a node is in the audit trail.
pub open spec fn coordinator_actor(config: CoordinatorConfig) -> Seq<char> {
    "coordinator:"@ + config.node_id.text()
}

/// The desk after ready tasks were queued, lapsed claims were swept up, and the pool was seen
/// to.
pub open spec fn prepared<S>(
    desk: Desk<S>,
    chances: Chances<S>,
    config: CoordinatorConfig,
    now: Timestamp,
) -> Desk<S> {
    let (handle, queue) = promoted(
        desk.handle,
        desk.queue,
        chances.ready,
        chances.ready.len(),
        coordinator_actor(config),
        config.lease_ms,
        now,
    );
    let swept = queue.swept(now);
    let (kept, cluster_agents) = upkept(
        handle,
        swept,
        desk.cluster_agents,
        config.max_cluster_agents as nat,
        handle.job.request.max_agents as nat,
        chances.spare,
        config.node_id,
        config.agent_idle_timeout_ms,
        now,
    );
    Desk { handle: kept, queue: swept, cluster_agents, ..desk }
}

/// How far handing out work gets at a prepared desk.
pub open spec fn handed_out<S: Scheduler>(
    desk: Desk<S>,
    chances: Chances<S>,
    config: CoordinatorConfig,
    now: Timestamp,
) -> Round<S> {
    rounds(
        opening(desk.handle, desk.queue, desk.scheduler),
        idle_count(desk.handle.agents),
        chances.picks,
        coordinator_actor(config),
        chances.lease_ids,
        chances.agent_ids,
        config.node_id,
        now,
    )
}

/// What scheduling comes to, once nothing holds the job back.
pub open spec fn scheduled<S: Scheduler>(
    desk: Desk<S>,
    chances: Chances<S>,
    config: CoordinatorConfig,
    now: Timestamp,
) -> (Desk<S>, Result<TickView, ErrorView>) {
    let ready = prepared(desk, chances, config, now);
    let round = handed_out(ready, chances, config, now);
    let after = Desk {
        handle: round.handle,
        queue: round.queue,
        scheduler: round.scheduler,
        ..ready
    };
    if round.made.len() > 0 {
        (after, Ok(TickView::Execute(round.made)))
    } else if round.handle.graph.is_complete() {
        (after, Ok(TickView::Finish(false)))
    } else if chances.ready.len() > 0 {
        (after, Ok(TickView::Sleep(config.tick_ms)))
    } else if round.queue.ready.len() + round.queue.leases.len() > 0 {
        (after, Ok(TickView::Sleep(config.tick_ms)))
    } else {
        let swept = stranded_cancelled(
            round.handle,
            chances.stranded,
            chances.stranded.len(),
            coordinator_actor(config),
            now,
        );
        (
            Desk { handle: swept.handle, ..after },
            match swept.result {
                Err(error) => Err(error),
                Ok(_) => if chances.stranded.len() > 0 {
                    Ok(TickView::Sleep(config.tick_ms))
                } else {
                    Ok(TickView::Finish(false))
                },
            },
        )
    }
}

/// Whether chances are ones that can come up.
pub open spec fn can_come_up<S: Scheduler>(
    desk: Desk<S>,
    chances: Chances<S>,
    config: CoordinatorConfig,
    now: Timestamp,
) -> bool {
    let ready = prepared(desk, chances, config, now);
    &&& is_ready_list(desk.handle.graph, chances.ready)
    &&& fair(
        opening(ready.handle, ready.queue, ready.scheduler),
        idle_count(ready.handle.agents),
        chances.picks,
        coordinator_actor(config),
        chances.lease_ids,
        chances.agent_ids,
        config.node_id,
        now,
    )
    &&& {
        let round = handed_out(ready, chances, config, now);
        round.made.len() == 0 && !round.handle.graph.is_complete() && chances.ready.len() == 0
            && round.queue.ready.len() + round.queue.leases.len() == 0 ==> is_stranded_list(
            round.handle.graph,
            chances.stranded,
        )
    }
}

/// The desk once a tick has begun.
pub open spec fn begun<S>(
    desk: Desk<S>,
    config: CoordinatorConfig,
    now: Timestamp,
) -> Desk<S> {
    let (handle, run, _) = gated(desk.handle, desk.run, config.max_ticks, now);
    Desk { handle, run, ..desk }
}

/// What a tick comes to.
#[verifier::opaque]
pub open spec fn ticked<S: Scheduler>(
    desk: Desk<S>,
    chances: Chances<S>,
    config: CoordinatorConfig,
    now: Timestamp,
) -> (Desk<S>, Result<TickView, ErrorView>) {
    let at = begun(desk, config, now);
    match gated(desk.handle, desk.run, config.max_ticks, now).2 {
        Err(error) => (at, Err(error)),
        Ok(Gate::Cancelled) => (at, Ok(TickView::Finish(true))),
        Ok(Gate::Paused) => (at, Ok(TickView::AwaitResume)),
        Ok(Gate::Spent) => (at, Ok(TickView::Finish(false))),
        Ok(Gate::Open) => scheduled(at, chances, config, now),
    }
}

/// Whether chances are ones that can come up in a tick.
#[verifier::opaque]
pub open spec fn possible<S: Scheduler>(
    desk: Desk<S>,
    chances: Chances<S>,
    config: CoordinatorConfig,
    now: Timestamp,
) -> bool {
    gated(desk.handle, desk.run, config.max_ticks, now).2 == Ok::<Gate, ErrorView>(Gate::Open)
        ==> can_come_up(begun(desk, config, now), chances, config, now)
}

/// Who the coordinator on a node is in the audit trail.
pub fn actor_of(config: &CoordinatorConfig) -> (r: String)
    ensures
        r@ == coordinator_actor(*config),
{
    let mut r = "coordinator:".to_owned();
    r.append(config.node_id.to_string().as_str());
    r
}

/// The chances of a tick in which nothing was left to chance.
spec fn no_chances<S>() -> Chances<S> {
    Chances {
        ready: seq![],
        spare: AgentId { value: 0 },
        picks: seq![],
        lease_ids: seq![],
        agent_ids: seq![],
        stranded: seq![],
    }
}

/// Queue what is ready, sweep up lapsed claims, see to the pool, and hand out work: what to do
/// next.
fn schedule<S: Scheduler>(
    handle: &mut JobHandle,
    queue: &mut InMemoryQueue,
    scheduler: &mut S,
    cluster_agents: &mut usize,
    config: &CoordinatorConfig,
    now: Timestamp,
    Ghost(run): Ghost<Run>,
) -> (r: (Result<Tick, SwarmError>, Ghost<Chances<S>>))
    requires
        old(handle).wf(),
        old(queue)@.wf(),
    ensures
        final(handle).wf(),
        final(queue)@.wf(),
        ({
            let desk = Desk {
                handle: old(handle)@,
                queue: old(queue)@,
                scheduler: *old(scheduler),
                cluster_agents: *old(cluster_agents) as nat,
                run,
            };
            &&& can_come_up(desk, r.1@, *config, now)
            &&& scheduled(desk, r.1@, *config, now) == (
                Desk {
                    handle: final(handle)@,
                    queue: final(queue)@,
                    scheduler: *final(scheduler),
                    cluster_agents: *final(cluster_agents) as nat,
                    run,
                },
                tick_view(r.0),
            )
        }),
{
    let ghost desk = Desk {
        handle: handle@,
        queue: queue@,
        scheduler: *scheduler,
        cluster_agents: *cluster_agents as nat,
        run,
    };
    let actor = actor_of(config);
    let ghost mut chances = no_chances();
    let promoted_count: usize = match promote_ready(
        handle,
        queue,
        actor.as_str(),
        config.lease_ms,
        now,
    ) {
        Ok(count) => count,
        Err(error) => {
            return (Err(error), Ghost(chances));
        },
    };
    proof {
        let list = choose|list: Seq<TaskId>|
            {
                &&& is_ready_list(desk.handle.graph, list)
                &&& promoted_count == list.len()
                &&& (handle@, queue@) == #[trigger] promoted(
                    desk.handle,
                    desk.queue,
                    list,
                    list.len(),
                    actor@,
                    config.lease_ms,
                    now,
                )
            };
        chances = Chances { ready: list, ..chances };
    }
    let _ = queue.requeue_expired_at(now);
    let spare = AgentId::new();
    let max_agents: usize = handle.job.request.max_agents;
    maintain_agent_pool(
        handle,
        queue,
        cluster_agents,
        config.max_cluster_agents,
        max_agents,
        spare,
        config.node_id,
        config.agent_idle_timeout_ms,
        now,
    );
    let idle: usize = count_idle(&handle.agents);
    let mut lease_ids: Vec<LeaseId> = Vec::new();
    let mut agent_ids: Vec<AgentId> = Vec::new();
    for k in 0..idle
        invariant
            lease_ids@.len() == k,
            agent_ids@.len() == k,
    {
        lease_ids.push(LeaseId::new());
        agent_ids.push(AgentId::new());
    }
    proof {
        chances = Chances { spare, lease_ids: lease_ids@, agent_ids: agent_ids@, ..chances };
    }
    let ghost ready = Desk {
        handle: handle@,
        queue: queue@,
        scheduler: *scheduler,
        cluster_agents: *cluster_agents as nat,
        run,
    };
    assert(ready =~= prepared(desk, chances, *config, now));
    let dispatches = collect_dispatches(
        handle,
        queue,
        scheduler,
        actor.as_str(),
        &lease_ids,
        &agent_ids,
        config.node_id,
        now,
    );
    proof {
        let picks = choose|picks: Seq<Picks<S>>|
            {
                &&& fair(
                    opening(ready.handle, ready.queue, ready.scheduler),
                    idle_count(ready.handle.agents),
                    picks,
                    actor@,
                    lease_ids@,
                    agent_ids@,
                    config.node_id,
                    now,
                )
                &&& (handle@, queue@, *scheduler, dispatch_views(dispatches@)) == (
                #[trigger] rounds(
                    opening(ready.handle, ready.queue, ready.scheduler),
                    idle_count(ready.handle.agents),
                    picks,
                    actor@,
                    lease_ids@,
                    agent_ids@,
                    config.node_id,
                    now,
                )).parts()
            };
        chances = Chances { picks, ..chances };
        assert(prepared(desk, chances, *config, now) == ready);
        assert(handed_out(ready, chances, *config, now).parts() == (
            handle@,
            queue@,
            *scheduler,
            dispatch_views(dispatches@),
        ));
    }
    if dispatches.len() > 0 {
        assert(dispatch_views(dispatches@).len() > 0);
        return (Ok(Tick::Execute(dispatches)), Ghost(chances));
    }
    assert(dispatch_views(dispatches@).len() == 0);
    if handle.graph.is_complete() {
        return (Ok(Tick::Finish(false)), Ghost(chances));
    }
    if promoted_count > 0 {
        return (Ok(Tick::Sleep(config.tick_ms)), Ghost(chances));
    }
    let ghost stuck = handle@;
    let going = make_progress_possible(handle, queue, actor.as_str(), now);
    proof {
        if queue@.ready.len() + queue@.leases.len() == 0 {
            let stranded = choose|list: Seq<TaskId>|
                {
                    &&& is_stranded_list(stuck.graph, list)
                    &&& (crate::engine::Swept {
                        handle: handle@,
                        result: match going {
                            Ok(_) => Ok(()),
                            Err(error) => Err(error@),
                        },
                    }) == #[trigger] stranded_cancelled(stuck, list, list.len(), actor@, now)
                    &&& going matches Ok(possible) ==> possible == (list.len() > 0)
                };
            chances = Chances { stranded, ..chances };
            assert(prepared(desk, chances, *config, now) == ready);
        }
    }
    match going {
        Ok(possible) => if possible {
            (Ok(Tick::Sleep(config.tick_ms)), Ghost(chances))
        } else {
            (Ok(Tick::Finish(false)), Ghost(chances))
        },
        Err(error) => (Err(error), Ghost(chances)),
    }
}

/// One tick of the loop over a job: what to do next. Which of equals goes first and what new
/// claims and agents are called is left open. Tasks go where the scheduler puts them, and the
/// rest is decided by where things stand.
pub fn tick<S: Scheduler>(
    handle: &mut JobHandle,
    queue: &mut InMemoryQueue,
    scheduler: &mut S,
    cluster_agents: &mut usize,
    run: &mut Run,
    config: &CoordinatorConfig,
    now: Timestamp,
) -> (r: Result<Tick, SwarmError>)
    requires
        old(handle).wf(),
        old(queue)@.wf(),
    ensures
        final(handle).wf(),
        final(queue)@.wf(),
        exists|chances: Chances<S>|
            {
                &&& possible(
                    Desk {
                        handle: old(handle)@,
                        queue: old(queue)@,
                        scheduler: *old(scheduler),
                        cluster_agents: *old(cluster_agents) as nat,
                        run: *old(run),
                    },
                    chances,
                    *config,
                    now,
                )
                &&& (
                    Desk {
                        handle: final(handle)@,
                        queue: final(queue)@,
                        scheduler: *final(scheduler),
                        cluster_agents: *final(cluster_agents) as nat,
                        run: *final(run),
                    },
                    tick_view(r),
                ) == #[trigger] ticked(
                    Desk {
                        handle: old(handle)@,
                        queue: old(queue)@,
                        scheduler: *old(scheduler),
                        cluster_agents: *old(cluster_agents) as nat,
                        run: *old(run),
                    },
                    chances,
                    *config,
                    now,
                )
            },
{
    proof {
        reveal(ticked);
        reveal(possible);
    }
    let ghost desk = Desk {
        handle: handle@,
        queue: queue@,
        scheduler: *scheduler,
        cluster_agents: *cluster_agents as nat,
        run: *run,
    };
    let gate = begin_tick(handle, run, config.max_ticks, now);
    let ghost at = begun(desk, *config, now);
    let ghost open = ticked(desk, no_chances::<S>(), *config, now);
    match gate {
        Err(error) => Err(error),
        Ok(Gate::Cancelled) => Ok(Tick::Finish(true)),
        Ok(Gate::Paused) => Ok(Tick::AwaitResume),
        Ok(Gate::Spent) => Ok(Tick::Finish(false)),
        Ok(Gate::Open) => {
            let (r, Ghost(chances)) = schedule(
                handle,
                queue,
                scheduler,
                cluster_agents,
                config,
                now,
                Ghost(*run),
            );
            assert(possible(desk, chances, *config, now));
            assert(ticked(desk, chances, *config, now) == scheduled(at, chances, *config, now));
            r
        },
    }
}

/// Only a tick whose gate is open starts anything: a paused, cancelled, overdue, or overspent
/// job runs no task.
pub proof fn law_a_held_job_starts_nothing<S: Scheduler>(
    desk: Desk<S>,
    chances: Chances<S>,
    config: CoordinatorConfig,
    now: Timestamp,
)
    requires
        ticked(desk, chances, config, now).1 matches Ok(tick) && tick is Execute,
    ensures
        desk.handle.control == crate::handle::Control::Running,
        !crate::engine::is_spent(desk.handle, now),
{
    reveal(ticked);
    crate::engine::law_the_gate_holds(desk.handle, desk.run, config.max_ticks, now);
}

/// Work that can be handed out is executed before anything else; a job is only finished without
/// having been cancelled where nothing was handed out and its tasks are done, or where none is
/// ready, queued, or claimed.
pub proof fn law_a_job_finishes_only_when_done<S: Scheduler>(
    desk: Desk<S>,
    chances: Chances<S>,
    config: CoordinatorConfig,
    now: Timestamp,
)
    ensures
        ({
            let ready = prepared(desk, chances, config, now);
            let round = handed_out(ready, chances, config, now);
            let next = scheduled(desk, chances, config, now).1;
            &&& round.made.len() > 0 ==> next == Ok::<TickView, ErrorView>(
                TickView::Execute(round.made),
            )
            &&& next == Ok::<TickView, ErrorView>(TickView::Finish(false)) ==> round.made.len() == 0
                && (round.handle.graph.is_complete() || (chances.ready.len() == 0
                && round.queue.ready.len() == 0 && round.queue.leases.len() == 0
                && chances.stranded.len() == 0))
            &&& next != Ok::<TickView, ErrorView>(TickView::Finish(true))
        }),
{
}

} // verus!
