//! Placing tasks on agents.
//!
//! Four strategies share one trait so they can be swapped per deployment and compared
//! head-to-head in the benchmark suite. Every strategy filters to agents that are
//! *available* and *capable* first; they differ only in how they rank what is left. Two of
//! them rank by a weighted score: computing it is left to the program around this library,
//! and [`highest_scored`] makes the choice.

use crate::agent::{covers, AgentDescriptor, AgentStatus, AgentView, Capability};
use crate::figures::{Real32, HALF_BITS, ONE_BITS};
use crate::ids::AgentId;
use crate::task::{TaskNode, TaskView};
use vstd::prelude::*;

verus! {

/// Which scheduling strategy a coordinator runs.
#[derive(Clone, Copy, Debug, PartialEq, Eq, Structural)]
pub enum SchedulerKind {
    /// Even distribution, ignoring load and history.
    RoundRobin,
    /// Whichever capable agent is least busy.
    LeastLoaded,
    /// Weighted mix of load, reliability, latency, and capability fit.
    CapabilityWeighted,
    /// Capability-weighted, with weights tuned from observed outcomes.
    Adaptive,
}

impl Default for SchedulerKind {
    fn default() -> (r: Self)
        ensures
            r == SchedulerKind::CapabilityWeighted,
    {
        SchedulerKind::CapabilityWeighted
    }
}

impl SchedulerKind {
    /// Every strategy.
    pub open spec fn listed() -> Seq<SchedulerKind> {
        seq![
            SchedulerKind::RoundRobin,
            SchedulerKind::LeastLoaded,
            SchedulerKind::CapabilityWeighted,
            SchedulerKind::Adaptive,
        ]
    }

    /// Strategy name, for metrics and reports.
    pub open spec fn label(self) -> Seq<char> {
        match self {
            SchedulerKind::RoundRobin => "round_robin"@,
            SchedulerKind::LeastLoaded => "least_loaded"@,
            SchedulerKind::CapabilityWeighted => "capability_weighted"@,
            SchedulerKind::Adaptive => "adaptive"@,
        }
    }

    /// Every strategy, for CLI help and comparative benchmarks.
    pub fn all() -> (r: &'static [Self])
        ensures
            r@ == Self::listed(),
    {
        let r: &'static [Self] = &[
            Self::RoundRobin,
            Self::LeastLoaded,
            Self::CapabilityWeighted,
            Self::Adaptive,
        ];
        assert(r@ =~= Self::listed());
        r
    }

    /// Strategy name, for metrics and reports.
    pub fn name(self) -> (r: &'static str)
        ensures
            r@ == self.label(),
    {
        match self {
            SchedulerKind::RoundRobin => "round_robin",
            SchedulerKind::LeastLoaded => "least_loaded",
            SchedulerKind::CapabilityWeighted => "capability_weighted",
            SchedulerKind::Adaptive => "adaptive",
        }
    }
}

/// Every strategy is listed, and each goes by a name of its own.
pub proof fn law_every_strategy_is_listed(kind: SchedulerKind, other: SchedulerKind)
    ensures
        SchedulerKind::listed().contains(kind),
        kind.label() == other.label() ==> kind == other,
{
    let all = SchedulerKind::listed();
    assert(all[0] == SchedulerKind::RoundRobin);
    assert(all[1] == SchedulerKind::LeastLoaded);
    assert(all[2] == SchedulerKind::CapabilityWeighted);
    assert(all[3] == SchedulerKind::Adaptive);
    reveal_strlit("round_robin");
    reveal_strlit("least_loaded");
    reveal_strlit("capability_weighted");
    reveal_strlit("adaptive");
    assert("round_robin"@.len() == 11);
    assert("least_loaded"@.len() == 12);
    assert("capability_weighted"@.len() == 19);
    assert("adaptive"@.len() == 8);
}

/// What actually happened after a placement, fed back to adaptive strategies.
#[derive(Clone, Copy, Debug, PartialEq, Eq, Structural)]
pub struct SchedulingOutcome {
    /// Agent that ran the task.
    pub agent_id: AgentId,
    /// Whether it produced a valid result.
    pub succeeded: bool,
    /// How long execution took.
    pub latency_ms: u64,
    /// How long the task sat in the queue first.
    pub queue_wait_ms: u64,
}

/// Relative importance of each placement signal.
#[derive(Clone, Copy, Debug, PartialEq, Eq, Structural)]
pub struct Weights {
    /// Preference for idle agents.
    pub load: Real32,
    /// Preference for historically successful agents.
    pub reliability: Real32,
    /// Preference for fast agents.
    pub latency: Real32,
    /// Preference for specialists over generalists.
    pub specificity: Real32,
}

/// The weights nobody has tuned: load and reliability count twice as much as latency and
/// specificity.
pub open spec fn untuned() -> Weights {
    Weights {
        load: Real32 { bits: ONE_BITS },
        reliability: Real32 { bits: ONE_BITS },
        latency: Real32 { bits: HALF_BITS },
        specificity: Real32 { bits: HALF_BITS },
    }
}

impl Default for Weights {
    fn default() -> (r: Self)
        ensures
            r == untuned(),
    {
        Weights {
            load: Real32 { bits: ONE_BITS },
            reliability: Real32 { bits: ONE_BITS },
            latency: Real32 { bits: HALF_BITS },
            specificity: Real32 { bits: HALF_BITS },
        }
    }
}

/// The agents of a list.
pub open spec fn agent_views(agents: Seq<AgentDescriptor>) -> Seq<AgentView> {
    Seq::new(agents.len(), |i: int| agents[i]@)
}

/// Whether an agent is both free and capable of running a task.
pub open spec fn can_take(agent: AgentView, task: TaskView) -> bool {
    agent.available() && covers(agent.capabilities, task.required_capabilities)
}

/// The positions, among the first `n` agents, of those that can take a task.
pub open spec fn takers(agents: Seq<AgentView>, task: TaskView, n: nat) -> Seq<int>
    decreases n,
{
    if n == 0 {
        seq![]
    } else {
        let rest = takers(agents, task, (n - 1) as nat);
        if can_take(agents[n - 1], task) {
            rest.push(n - 1)
        } else {
            rest
        }
    }
}

/// The positions of the agents that can take a task.
pub open spec fn candidate_positions(agents: Seq<AgentView>, task: TaskView) -> Seq<int> {
    takers(agents, task, agents.len())
}

/// The candidates are exactly the agents that can take the task, in order.
pub proof fn lemma_takers(agents: Seq<AgentView>, task: TaskView, n: nat)
    requires
        n <= agents.len(),
    ensures
        forall|k: int|
            0 <= k < takers(agents, task, n).len() ==> 0 <= #[trigger] takers(agents, task, n)[k]
                < n && can_take(agents[takers(agents, task, n)[k]], task),
        forall|i: int|
            0 <= i < n && can_take(agents[i], task) ==> #[trigger] takers(
                agents,
                task,
                n,
            ).contains(i),
        takers(agents, task, n).len() <= n,
    decreases n,
{
    if n > 0 {
        let m = (n - 1) as nat;
        lemma_takers(agents, task, m);
        let rest = takers(agents, task, m);
        let all = takers(agents, task, n);
        assert forall|i: int| 0 <= i < n && can_take(agents[i], task) implies #[trigger] all.contains(
            i,
        ) by {
            if i < m {
                assert(rest.contains(i));
                let k = rest.index_of(i);
                assert(all[k] == i);
            } else {
                assert(all[rest.len() as int] == i);
            }
        }
    }
}

/// Agents that are both free and capable of running `task`, by position.
pub fn candidates(task: &TaskNode, agents: &[AgentDescriptor]) -> (r: Vec<usize>)
    ensures
        r@.len() == candidate_positions(agent_views(agents@), task@).len(),
        forall|k: int|
            0 <= k < r@.len() ==> #[trigger] r@[k] == candidate_positions(
                agent_views(agents@),
                task@,
            )[k],
{
    let ghost views = agent_views(agents@);
    let mut r: Vec<usize> = Vec::new();
    for i in 0..agents.len()
        invariant
            views == agent_views(agents@),
            r@.len() == takers(views, task@, i as nat).len(),
            forall|k: int|
                0 <= k < r@.len() ==> #[trigger] r@[k] == takers(views, task@, i as nat)[k],
    {
        assert(views[i as int] == agents@[i as int]@);
        if agents[i].is_available() && agents[i].supports(task.required_capabilities.as_slice()) {
            r.push(i);
        }
    }
    r
}

/// Whether some agent that can take the task goes by that name.
pub open spec fn places(agents: Seq<AgentView>, task: TaskView, id: AgentId) -> bool {
    exists|i: int|
        0 <= i < agents.len() && #[trigger] can_take(agents[i], task) && agents[i].id == id
}

/// Whether no agent can take the task.
pub open spec fn unplaceable(agents: Seq<AgentView>, task: TaskView) -> bool {
    forall|i: int| 0 <= i < agents.len() ==> !#[trigger] can_take(agents[i], task)
}

/// Chooses which agent runs a task.
pub trait Scheduler: Sized {
    /// Whether a scheduler that stands at `before` may answer `pick`, and then stands at
    /// `after`. A strategy that says no more of itself may name any agent that will do.
    open spec fn selects(
        before: Self,
        task: TaskView,
        agents: Seq<AgentView>,
        pick: Option<AgentId>,
        after: Self,
    ) -> bool {
        true
    }

    /// Whether a scheduler that stands at `before` may stand at `after` once it was told how a
    /// placement turned out. A strategy that says no more of itself may draw any lesson.
    open spec fn learns(before: Self, outcome: SchedulingOutcome, after: Self) -> bool {
        true
    }

    /// Strategy name, for metrics and reports.
    fn name(&self) -> &'static str;

    /// Pick an agent for `task`, or `None` if none of `agents` can take it.
    fn select(&mut self, task: &TaskNode, agents: &[AgentDescriptor]) -> (r: Option<AgentId>)
        ensures
            match r {
                Some(id) => places(agent_views(agents@), task@, id),
                None => unplaceable(agent_views(agents@), task@),
            },
            Self::selects(*old(self), task@, agent_views(agents@), r, *final(self)),
    ;

    /// Learn from a completed placement. Stateless strategies stay as they are.
    fn observe(&mut self, outcome: SchedulingOutcome)
        ensures
            Self::learns(*old(self), outcome, *final(self)),
    ;

    /// Current tuning weights, exposed for the dashboard and benchmark reports.
    fn weights(&self) -> (r: Weights)
        default_ensures
            r == untuned(),
    {
        Weights::default()
    }
}

/// Hands tasks out in rotation. The baseline every other strategy is measured against.
#[derive(Debug)]
pub struct RoundRobin {
    next: u64,
}

impl Default for RoundRobin {
    fn default() -> (r: Self)
        ensures
            r.turn() == 0,
    {
        RoundRobin { next: 0 }
    }
}

impl RoundRobin {
    /// How many tasks were handed out. The count starts over after the largest number.
    pub closed spec fn turn(&self) -> u64 {
        self.next
    }
}

impl Scheduler for RoundRobin {
    /// The next candidate in rotation, and the turn passes on.
    open spec fn selects(
        before: Self,
        task: TaskView,
        agents: Seq<AgentView>,
        pick: Option<AgentId>,
        after: Self,
    ) -> bool {
        let list = candidate_positions(agents, task);
        if list.len() == 0 {
            pick is None && after == before
        } else {
            let k = before.turn() as usize as int % list.len() as int;
            &&& pick == Some(agents[list[k]].id)
            &&& after.turn() == if before.turn() == u64::MAX {
                0
            } else {
                before.turn() + 1
            }
        }
    }

    open spec fn learns(before: Self, outcome: SchedulingOutcome, after: Self) -> bool {
        after == before
    }

    fn name(&self) -> (r: &'static str)
        ensures
            r@ == SchedulerKind::RoundRobin.label(),
    {
        "round_robin"
    }

    /// The next candidate in rotation.
    fn select(&mut self, task: &TaskNode, agents: &[AgentDescriptor]) -> (r: Option<AgentId>) {
        let ghost views = agent_views(agents@);
        proof {
            lemma_takers(views, task@, views.len());
        }
        let list = candidates(task, agents);
        if list.len() == 0 {
            assert forall|i: int| 0 <= i < views.len() implies !#[trigger] can_take(
                views[i],
                task@,
            ) by {
                if can_take(views[i], task@) {
                    assert(candidate_positions(views, task@).contains(i));
                }
            }
            return None;
        }
        let index: usize = self.next as usize % list.len();
        self.next = if self.next == u64::MAX {
            0
        } else {
            self.next + 1
        };
        let chosen: usize = list[index];
        proof {
            assert(chosen == candidate_positions(views, task@)[index as int]);
            assert(can_take(views[chosen as int], task@));
            assert(views[chosen as int] == agents@[chosen as int]@);
        }
        Some(agents[chosen].id)
    }

    fn observe(&mut self, outcome: SchedulingOutcome) {
    }
}

/// Picks the least busy capable agent, breaking ties on latency.
#[derive(Debug)]
pub struct LeastLoaded;

/// Whether one agent is busier than another: by load, then by latency.
pub open spec fn busier(one: AgentView, other: AgentView) -> bool {
    one.current_load.rank() > other.current_load.rank() || (one.current_load.rank()
        == other.current_load.rank() && one.average_latency_ms > other.average_latency_ms)
}

/// Whether the agent at `i` is the first of the least busy ones that can take the task.
pub open spec fn is_least_busy(agents: Seq<AgentView>, task: TaskView, i: int) -> bool {
    &&& 0 <= i < agents.len()
    &&& can_take(agents[i], task)
    &&& forall|j: int|
        0 <= j < agents.len() && #[trigger] can_take(agents[j], task) ==> !busier(
            agents[i],
            agents[j],
        ) && (j < i ==> busier(agents[j], agents[i]))
}

impl Scheduler for LeastLoaded {
    /// The first of the least busy candidates, whatever came before.
    open spec fn selects(
        before: Self,
        task: TaskView,
        agents: Seq<AgentView>,
        pick: Option<AgentId>,
        after: Self,
    ) -> bool {
        &&& after == before
        &&& match pick {
            Some(id) => exists|i: int| #[trigger]
                is_least_busy(agents, task, i) && agents[i].id == id,
            None => unplaceable(agents, task),
        }
    }

    open spec fn learns(before: Self, outcome: SchedulingOutcome, after: Self) -> bool {
        after == before
    }

    fn name(&self) -> (r: &'static str)
        ensures
            r@ == SchedulerKind::LeastLoaded.label(),
    {
        "least_loaded"
    }

    /// The first of the least busy candidates.
    fn select(&mut self, task: &TaskNode, agents: &[AgentDescriptor]) -> (r: Option<AgentId>) {
        let ghost views = agent_views(agents@);
        let mut best: Option<usize> = None;
        for i in 0..agents.len()
            invariant
                views == agent_views(agents@),
                match best {
                    Some(b) => {
                        &&& b < i
                        &&& can_take(views[b as int], task@)
                        &&& forall|j: int|
                            0 <= j < i && #[trigger] can_take(views[j], task@) ==> !busier(
                                views[b as int],
                                views[j],
                            ) && (j < b ==> busier(views[j], views[b as int]))
                    },
                    None => forall|j: int|
                        0 <= j < i ==> !#[trigger] can_take(views[j], task@),
                },
        {
            assert(views[i as int] == agents@[i as int]@);
            if agents[i].is_available() && agents[i].supports(
                task.required_capabilities.as_slice(),
            ) {
                assert(can_take(views[i as int], task@));
                let take = match best {
                    Some(b) => {
                        assert(views[b as int] == agents@[b as int]@);
                        let held: i64 = agents[b].current_load.position();
                        let offered: i64 = agents[i].current_load.position();
                        held > offered || (held == offered && agents[b].average_latency_ms
                            > agents[i].average_latency_ms)
                    },
                    None => true,
                };
                if take {
                    best = Some(i);
                }
            } else {
                assert(!can_take(views[i as int], task@));
            }
        }
        match best {
            Some(b) => {
                proof {
                    assert(views[b as int] == agents@[b as int]@);
                    assert(is_least_busy(views, task@, b as int));
                }
                Some(agents[b].id)
            },
            None => None,
        }
    }

    fn observe(&mut self, outcome: SchedulingOutcome) {
    }
}

/// Whether the agent at `i` is the last of the highest scored ones that can take the task.
pub open spec fn is_highest_scored(
    agents: Seq<AgentView>,
    scores: Seq<Real32>,
    task: TaskView,
    i: int,
) -> bool {
    &&& 0 <= i < agents.len()
    &&& can_take(agents[i], task)
    &&& forall|j: int|
        0 <= j < agents.len() && #[trigger] can_take(agents[j], task) ==> scores[j].rank()
            <= scores[i].rank() && (j > i ==> scores[j].rank() < scores[i].rank())
}

/// The capable and free agent with the highest score, given the score of every agent.
pub fn highest_scored(task: &TaskNode, agents: &[AgentDescriptor], scores: &[Real32]) -> (r:
    Option<AgentId>)
    requires
        scores@.len() == agents@.len(),
    ensures
        match r {
            Some(id) => exists|i: int| #[trigger]
                is_highest_scored(agent_views(agents@), scores@, task@, i) && agents@[i].id == id,
            None => unplaceable(agent_views(agents@), task@),
        },
{
    let ghost views = agent_views(agents@);
    let mut best: Option<usize> = None;
    for i in 0..agents.len()
        invariant
            views == agent_views(agents@),
            scores@.len() == agents@.len(),
            match best {
                Some(b) => {
                    &&& b < i
                    &&& can_take(views[b as int], task@)
                    &&& forall|j: int|
                        0 <= j < i && #[trigger] can_take(views[j], task@) ==> scores@[j].rank()
                            <= scores@[b as int].rank() && (j > b ==> scores@[j].rank()
                            < scores@[b as int].rank())
                },
                None => forall|j: int| 0 <= j < i ==> !#[trigger] can_take(views[j], task@),
            },
    {
        assert(views[i as int] == agents@[i as int]@);
        if agents[i].is_available() && agents[i].supports(task.required_capabilities.as_slice()) {
            assert(can_take(views[i as int], task@));
            let take = match best {
                Some(b) => scores[b].position() <= scores[i].position(),
                None => true,
            };
            if take {
                best = Some(i);
            }
        } else {
            assert(!can_take(views[i as int], task@));
        }
    }
    match best {
        Some(b) => {
            proof {
                assert(views[b as int] == agents@[b as int]@);
                assert(is_highest_scored(views, scores@, task@, b as int));
            }
            Some(agents[b].id)
        },
        None => None,
    }
}

/// Rotation visits every candidate in turn: over as many calls as there are candidates, each
/// position comes up once.
pub proof fn law_rotation_is_even(turn: int, count: int, step: int, other: int)
    requires
        turn >= 0,
        count > 0,
        0 <= step < other < count,
    ensures
        (turn + step) % count != (turn + other) % count,
{
    vstd::arithmetic::div_mod::lemma_fundamental_div_mod(turn + step, count);
    vstd::arithmetic::div_mod::lemma_fundamental_div_mod(turn + other, count);
    if (turn + step) % count == (turn + other) % count {
        let a = (turn + step) / count;
        let b = (turn + other) / count;
        assert(count * b - count * a == other - step);
        assert(count * b - count * a == count * (b - a)) by (nonlinear_arith);
        assert(b > a) by (nonlinear_arith)
            requires
                count * (b - a) > 0,
                count > 0,
        ;
        assert(count * (b - a) >= count) by (nonlinear_arith)
            requires
                b - a >= 1,
                count > 0,
        ;
    }
}

/// The candidates for a task are exactly the agents that are idle or registered and offer every
/// capability that the task asks for, in their order.
pub proof fn law_candidates_are_free_and_able(agents: Seq<AgentView>, task: TaskView)
    ensures
        forall|i: int|
            0 <= i < agents.len() ==> (candidate_positions(agents, task).contains(i) <==> ((
            #[trigger] agents[i]).status == AgentStatus::Idle || agents[i].status
                == AgentStatus::Registered) && forall|c: Capability| #[trigger]
                task.required_capabilities.contains(c) ==> agents[i].capabilities.contains(c)),
        forall|k: int|
            0 <= k < candidate_positions(agents, task).len() ==> 0
                <= #[trigger] candidate_positions(agents, task)[k] < agents.len(),
        forall|a: int, b: int|
            0 <= a < b < candidate_positions(agents, task).len() ==> #[trigger] candidate_positions(
                agents,
                task,
            )[a] < #[trigger] candidate_positions(agents, task)[b],
{
    lemma_takers_listed(agents, task, agents.len());
    assert forall|i: int| 0 <= i < agents.len() implies (candidate_positions(agents, task).contains(
        i,
    ) <==> ((#[trigger] agents[i]).status == AgentStatus::Idle || agents[i].status
        == AgentStatus::Registered) && forall|c: Capability| #[trigger]
        task.required_capabilities.contains(c) ==> agents[i].capabilities.contains(c)) by {
        law_an_able_agent_offers_everything(agents[i], task);
        assert(candidate_positions(agents, task).contains(i) <==> can_take(agents[i], task));
    }
}

/// An agent can take a task exactly where it is idle or registered and offers every capability
/// that the task asks for.
pub proof fn law_an_able_agent_offers_everything(agent: AgentView, task: TaskView)
    ensures
        can_take(agent, task) <==> (agent.status == AgentStatus::Idle || agent.status
            == AgentStatus::Registered) && forall|c: Capability| #[trigger]
            task.required_capabilities.contains(c) ==> agent.capabilities.contains(c),
{
    if covers(agent.capabilities, task.required_capabilities) {
        assert forall|c: Capability| #[trigger]
            task.required_capabilities.contains(c) implies agent.capabilities.contains(c) by {
            let k = task.required_capabilities.index_of(c);
            assert(agent.capabilities.contains(task.required_capabilities[k]));
        }
    }
    if forall|c: Capability| #[trigger]
        task.required_capabilities.contains(c) ==> agent.capabilities.contains(c) {
        assert forall|k: int|
            0 <= k < task.required_capabilities.len() implies agent.capabilities.contains(
            #[trigger] task.required_capabilities[k],
        ) by {
            assert(task.required_capabilities.contains(task.required_capabilities[k]));
        }
    }
}

/// The first takers are those among the first agents, in their order.
proof fn lemma_takers_listed(agents: Seq<AgentView>, task: TaskView, n: nat)
    requires
        n <= agents.len(),
    ensures
        forall|i: int|
            0 <= i < n ==> (#[trigger] takers(agents, task, n).contains(i) <==> can_take(
                agents[i],
                task,
            )),
        forall|k: int|
            0 <= k < takers(agents, task, n).len() ==> 0 <= #[trigger] takers(agents, task, n)[k]
                < n,
        forall|a: int, b: int|
            0 <= a < b < takers(agents, task, n).len() ==> #[trigger] takers(agents, task, n)[a]
                < #[trigger] takers(agents, task, n)[b],
    decreases n,
{
    if n > 0 {
        lemma_takers_listed(agents, task, (n - 1) as nat);
        let rest = takers(agents, task, (n - 1) as nat);
        let all = takers(agents, task, n);
        assert forall|i: int| 0 <= i < n implies (#[trigger] all.contains(i) <==> can_take(
            agents[i],
            task,
        )) by {
            if i == n - 1 {
                if can_take(agents[i], task) {
                    assert(all[rest.len() as int] == i);
                }
            } else {
                if rest.contains(i) {
                    let k = rest.index_of(i);
                    assert(all[k] == i);
                }
                if all.contains(i) {
                    let k = all.index_of(i);
                    assert(all[k] == i && k < rest.len());
                    assert(rest[k] == i);
                }
            }
        }
    }
}

/// Taking the least loaded agent means that no free and able agent carries less load, and that
/// none of those that carry as little answers faster; nobody is taken only where nobody can be.
pub proof fn law_the_least_loaded_agent_is_taken(
    before: LeastLoaded,
    task: TaskView,
    agents: Seq<AgentView>,
    pick: Option<AgentId>,
    after: LeastLoaded,
    j: int,
)
    requires
        LeastLoaded::selects(before, task, agents, pick, after),
        0 <= j < agents.len(),
        agents[j].status == AgentStatus::Idle || agents[j].status == AgentStatus::Registered,
        forall|c: Capability| #[trigger]
            task.required_capabilities.contains(c) ==> agents[j].capabilities.contains(c),
    ensures
        pick matches Some(id) && exists|i: int|
            {
                &&& 0 <= i < agents.len()
                &&& (#[trigger] agents[i]).id == id
                &&& agents[i].current_load.rank() <= agents[j].current_load.rank()
                &&& agents[i].current_load.rank() == agents[j].current_load.rank()
                    ==> agents[i].average_latency_ms <= agents[j].average_latency_ms
            },
{
    law_an_able_agent_offers_everything(agents[j], task);
    assert(can_take(agents[j], task));
    let id = pick->0;
    let i = choose|i: int| #[trigger] is_least_busy(agents, task, i) && agents[i].id == id;
    assert(is_least_busy(agents, task, i));
    assert(agents[i].id == id);
}

/// Rotation gives two tasks in a row to two different candidates, where there are two.
pub proof fn law_rotation_moves_on(
    before: RoundRobin,
    between: RoundRobin,
    after: RoundRobin,
    task: TaskView,
    agents: Seq<AgentView>,
    first: Option<AgentId>,
    second: Option<AgentId>,
)
    requires
        RoundRobin::selects(before, task, agents, first, between),
        RoundRobin::selects(between, task, agents, second, after),
        candidate_positions(agents, task).len() >= 2,
        before.turn() < u64::MAX,
        before.turn() < usize::MAX,
        forall|a: int, b: int|
            0 <= a < b < agents.len() ==> (#[trigger] agents[a]).id != (#[trigger] agents[b]).id,
    ensures
        first is Some,
        second is Some,
        first != second,
{
    let list = candidate_positions(agents, task);
    law_candidates_are_free_and_able(agents, task);
    let t = before.turn() as int;
    let n = list.len() as int;
    law_rotation_is_even(t, n, 0, 1);
    assert(before.turn() as usize == t);
    assert(between.turn() as usize == t + 1);
    let a = t % n;
    let b = (t + 1) % n;
    assert(0 <= a < n && 0 <= b < n);
    if a < b {
        assert(list[a] < list[b]);
    } else {
        assert(list[b] < list[a]);
    }
}

/// The highest score wins: no free and able agent scores higher than the one that is taken.
pub proof fn law_the_highest_score_wins(
    agents: Seq<AgentView>,
    scores: Seq<Real32>,
    task: TaskView,
    i: int,
    j: int,
)
    requires
        is_highest_scored(agents, scores, task, i),
        0 <= j < agents.len(),
        agents[j].status == AgentStatus::Idle || agents[j].status == AgentStatus::Registered,
        forall|c: Capability| #[trigger]
            task.required_capabilities.contains(c) ==> agents[j].capabilities.contains(c),
    ensures
        agents[i].status == AgentStatus::Idle || agents[i].status == AgentStatus::Registered,
        scores[j].rank() <= scores[i].rank(),
        scores[j].rank() == scores[i].rank() ==> j <= i,
{
    law_an_able_agent_offers_everything(agents[j], task);
    law_an_able_agent_offers_everything(agents[i], task);
    assert(can_take(agents[j], task));
}

} // verus!
