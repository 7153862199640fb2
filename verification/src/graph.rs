//! The task dependency graph.
//!
//! A job's work is a DAG. This type owns both the topology (petgraph) and the task
//! records, keeps them consistent, and refuses any mutation that would introduce a
//! cycle — including dynamic edges added while the job is already running.

use crate::clock::Timestamp;
use crate::error::{ErrorView, SwarmError};
use crate::ids::{CorrelationId, JobId, TaskId};
use crate::state::{apply_at, transition_record, StateMachine, Transition};
use crate::task::{
    copy_ids, has_task, task_views, TaskNode, TaskState, TaskView,
};
use crate::text::option_view;
use crate::topology::{
    add_edge, add_node, apart_from, clone_graph, fan_in, graph_edges, graph_labels, in_range,
    ints, is_topological, leads_elsewhere, lemma_edge_closes_cycle, lemma_filter_concat,
    lemma_filter_everything, lemma_filter_nothing, lemma_no_sources, lemma_reaches_step,
    lemma_sortable_is_acyclic, lemma_sortable_new_node, lemma_sortable_subset,
    lemma_sources_contains, lemma_sources_fan_in, lemma_sources_push, lemma_targets_contains,
    lemma_walk_joins, lemma_walk_push, neighbors, new_graph, not_into, on_cycle, reaches,
    remove_edge, remove_node, sortable, sources, stays_apart, targets, toposort, toposort_of,
    walk, without_youngest,
};
use std::collections::HashMap;
use vstd::prelude::*;

verus! {

broadcast use vstd::std_specs::hash::group_hash_axioms;

/// Task counts by lifecycle group, for progress reporting and scheduling decisions.
#[derive(Clone, Copy, Debug, PartialEq, Eq, Structural)]
pub struct GraphCounts {
    /// Tasks in the graph.
    pub total: usize,
    /// Not yet eligible or waiting on upstream work.
    pub pending: usize,
    /// In the queue.
    pub queued: usize,
    /// Leased or running.
    pub in_flight: usize,
    /// Completed successfully.
    pub completed: usize,
    /// Awaiting a retry.
    pub retrying: usize,
    /// Dead-lettered or cancelled.
    pub abandoned: usize,
}

impl GraphCounts {
    /// Whether the groups add up to the total.
    pub open spec fn adds_up(self) -> bool {
        self.pending + self.queued + self.in_flight + self.completed + self.retrying
            + self.abandoned == self.total
    }

    /// Tasks that will never change state again.
    pub fn terminal(&self) -> (r: usize)
        requires
            self.completed + self.abandoned <= usize::MAX,
        ensures
            r == self.completed + self.abandoned,
    {
        self.completed + self.abandoned
    }
}

/// A lifecycle group of tasks.
pub enum TaskGroup {
    /// Not yet eligible or waiting on upstream work.
    Pending,
    /// In the queue.
    Queued,
    /// Leased or running.
    InFlight,
    /// Completed successfully.
    Completed,
    /// Awaiting a retry.
    Retrying,
    /// Dead-lettered or cancelled.
    Abandoned,
}

/// The group a state belongs to.
pub open spec fn group_of(state: TaskState) -> TaskGroup {
    match state {
        TaskState::Created | TaskState::WaitingForDependency | TaskState::Preempted =>
            TaskGroup::Pending,
        TaskState::Queued => TaskGroup::Queued,
        TaskState::Leased | TaskState::Running => TaskGroup::InFlight,
        TaskState::Completed => TaskGroup::Completed,
        TaskState::Failed | TaskState::TimedOut | TaskState::RetryScheduled =>
            TaskGroup::Retrying,
        TaskState::Cancelled | TaskState::DeadLettered => TaskGroup::Abandoned,
    }
}

/// How many of some tasks belong to a group.
pub open spec fn tally(tasks: Seq<TaskView>, group: TaskGroup) -> nat
    decreases tasks.len(),
{
    if tasks.len() == 0 {
        0
    } else {
        tally(tasks.drop_last(), group) + if group_of(tasks.last().state) == group {
            1nat
        } else {
            0nat
        }
    }
}

/// Whether some chain of exactly `n` dependencies ends at `v`.
pub open spec fn ends_chain(edges: Seq<(int, int)>, v: int, n: nat) -> bool {
    exists|a: int| #[trigger] walk(edges, a, v, n)
}

/// Whether the longest chain of dependencies that ends at `v` has length `n`.
pub open spec fn longest_chain(edges: Seq<(int, int)>, v: int, n: nat) -> bool {
    ends_chain(edges, v, n) && !ends_chain(edges, v, n + 1)
}

/// Whether the longest chain of dependencies that ends at `v` is shorter than `n`.
pub open spec fn shorter_than(edges: Seq<(int, int)>, v: int, n: nat) -> bool {
    exists|m: nat| m < n && #[trigger] longest_chain(edges, v, m)
}

/// Whether the longest chain of dependencies that ends at a node has length `n`.
pub open spec fn at_depth(edges: Seq<(int, int)>, n: nat) -> spec_fn(int) -> bool {
    |v: int| longest_chain(edges, v, n)
}

/// Whether one ready task is queued before another: by stage, then by name.
pub open spec fn queued_before(a: TaskView, b: TaskView) -> bool {
    a.stage < b.stage || (a.stage == b.stage && a.id.value < b.id.value)
}

/// The tasks of a job, in the order in which they were added, and the edges between their
/// positions, each from a dependency to the task that waits for it, oldest edge first.
pub struct GraphView {
    /// The job the graph belongs to.
    pub job_id: JobId,
    /// The tasks.
    pub tasks: Seq<TaskView>,
    /// The edges.
    pub edges: Seq<(int, int)>,
}

impl GraphView {
    /// A graph without tasks.
    pub open spec fn empty(job_id: JobId) -> GraphView {
        GraphView { job_id, tasks: seq![], edges: seq![] }
    }

    /// Whether position `i` holds the task called `id`.
    pub open spec fn stands(self, id: TaskId, i: int) -> bool {
        0 <= i < self.tasks.len() && self.tasks[i].id == id
    }

    /// Whether the graph has a task called `id`.
    pub open spec fn has(self, id: TaskId) -> bool {
        exists|i: int| #[trigger] self.stands(id, i)
    }

    /// The position of the task called `id`.
    pub open spec fn at(self, id: TaskId) -> int {
        choose|i: int| #[trigger] self.stands(id, i)
    }

    /// The task called `id`.
    pub open spec fn task(self, id: TaskId) -> TaskView {
        self.tasks[self.at(id)]
    }

    /// The names of the tasks at some positions.
    pub open spec fn ids_of(self, positions: Seq<int>) -> Seq<TaskId> {
        Seq::new(positions.len(), |k: int| self.tasks[positions[k]].id)
    }

    /// The positions of some tasks.
    pub open spec fn positions_of(self, ids: Seq<TaskId>) -> Seq<int> {
        Seq::new(ids.len(), |k: int| self.at(ids[k]))
    }

    /// Whether the graph has all of some tasks.
    pub open spec fn has_all(self, ids: Seq<TaskId>) -> bool {
        forall|k: int| 0 <= k < ids.len() ==> self.has(#[trigger] ids[k])
    }

    /// Whether no two tasks share a name.
    pub open spec fn distinct(self) -> bool {
        forall|i: int, j: int|
            #![trigger self.tasks[i], self.tasks[j]]
            0 <= i < j < self.tasks.len() ==> self.tasks[i].id != self.tasks[j].id
    }

    /// Whether every task's list of dependencies is what the edges into it say.
    pub open spec fn dependencies_agree(self) -> bool {
        forall|i: int|
            0 <= i < self.tasks.len() ==> (#[trigger] self.tasks[i]).dependencies == self.ids_of(
                sources(self.edges, i),
            )
    }

    /// What holds of every graph: names are unique, edges join tasks of the graph and agree
    /// with the dependency lists, and the tasks can be listed dependencies first.
    pub open spec fn consistent(self) -> bool {
        &&& self.distinct()
        &&& in_range(self.tasks.len(), self.edges)
        &&& self.dependencies_agree()
        &&& sortable(self.tasks.len(), self.edges)
    }

    /// Whether the index types have room for one more task with so many dependencies.
    pub open spec fn has_room(self, dependencies: nat) -> bool {
        self.tasks.len() < u32::MAX && self.edges.len() + dependencies <= u32::MAX
    }

    /// The graph with one more task, which waits for its dependencies.
    pub open spec fn inserted(self, task: TaskView) -> GraphView {
        GraphView {
            tasks: self.tasks.push(task),
            edges: self.edges + fan_in(
                self.positions_of(task.dependencies),
                self.tasks.len() as int,
            ),
            ..self
        }
    }

    /// The first of `ids` that the graph lacks.
    pub open spec fn first_missing(self, ids: Seq<TaskId>) -> Option<TaskId>
        decreases ids.len(),
    {
        if ids.len() == 0 {
            None
        } else {
            match self.first_missing(ids.drop_last()) {
                Some(id) => Some(id),
                None => if self.has(ids.last()) {
                    None
                } else {
                    Some(ids.last())
                },
            }
        }
    }

    /// Why a task cannot be inserted: its name is taken, or a dependency is missing.
    pub open spec fn insert_refusal(self, task: TaskView) -> Option<ErrorView> {
        if self.has(task.id) {
            Some(
                ErrorView::Internal("task "@ + task.id.text() + " is already in the graph"@),
            )
        } else {
            match self.first_missing(task.dependencies) {
                Some(dependency) => Some(
                    ErrorView::UnknownDependency {
                        task: task.id.text(),
                        dependency: dependency.text(),
                    },
                ),
                None => None,
            }
        }
    }

    /// The graph in which the task at `t` also waits for the task at `d`.
    pub open spec fn linked(self, t: int, d: int) -> GraphView {
        GraphView {
            tasks: self.tasks.update(
                t,
                TaskView {
                    dependencies: self.tasks[t].dependencies.push(self.tasks[d].id),
                    ..self.tasks[t]
                },
            ),
            edges: self.edges.push((d, t)),
            ..self
        }
    }

    /// The graph in which `task` also waits for `depends_on`; a dependency that is already
    /// there changes nothing.
    pub open spec fn with_dependency(self, task: TaskId, depends_on: TaskId) -> GraphView {
        if self.task(task).dependencies.contains(depends_on) {
            self
        } else {
            self.linked(self.at(task), self.at(depends_on))
        }
    }

    /// Why a dependency cannot be added: a task is missing, or the edge would close a cycle.
    pub open spec fn dependency_refusal(self, task: TaskId, depends_on: TaskId) -> Option<
        ErrorView,
    > {
        if !self.has(task) {
            Some(ErrorView::NotFound { kind: "task"@, id: task.text() })
        } else if !self.has(depends_on) {
            Some(ErrorView::NotFound { kind: "task"@, id: depends_on.text() })
        } else if task == depends_on {
            Some(ErrorView::CyclicGraph { task: task.text() })
        } else if self.task(task).dependencies.contains(depends_on) {
            None
        } else {
            match toposort_of(
                self.tasks.len(),
                self.edges.push((self.at(depends_on), self.at(task))),
            ) {
                Ok(_) => None,
                Err(n) => Some(ErrorView::CyclicGraph { task: self.tasks[n].id.text() }),
            }
        }
    }

    /// Whether `task` waits for `upstream`, directly or through other tasks.
    pub open spec fn waits_for(self, task: TaskId, upstream: TaskId) -> bool {
        reaches(self.edges, self.at(upstream), self.at(task))
    }

    /// The graph in which each of `ids` in turn also waits for `depends_on`, or the first
    /// refusal on the way.
    pub open spec fn link_each(self, ids: Seq<TaskId>, depends_on: TaskId) -> Result<
        GraphView,
        ErrorView,
    >
        decreases ids.len(),
    {
        if ids.len() == 0 {
            Ok(self)
        } else {
            match self.link_each(ids.drop_last(), depends_on) {
                Err(error) => Err(error),
                Ok(g) => match g.dependency_refusal(ids.last(), depends_on) {
                    Some(error) => Err(error),
                    None => Ok(g.with_dependency(ids.last(), depends_on)),
                },
            }
        }
    }

    /// The graph in which the task at `t` waits for nothing.
    pub open spec fn detached(self, t: int) -> GraphView {
        GraphView {
            tasks: self.tasks.update(t, TaskView { dependencies: seq![], ..self.tasks[t] }),
            edges: not_into(self.edges, t),
            ..self
        }
    }

    /// The graph in which `task` also waits for each of `children`, new tasks that wait for
    /// `inherited`; and the first refusal on the way, which leaves the rest undone.
    pub open spec fn joined_by(
        self,
        task: TaskId,
        inherited: Seq<TaskId>,
        children: Seq<TaskView>,
    ) -> (GraphView, Option<ErrorView>)
        decreases children.len(),
    {
        if children.len() == 0 {
            (self, None)
        } else {
            let (g, refusal) = self.joined_by(task, inherited, children.drop_last());
            let child = TaskView { dependencies: inherited, ..children.last() };
            if refusal is Some {
                (g, refusal)
            } else {
                match g.insert_refusal(child) {
                    Some(error) => (g, Some(error)),
                    None => (g.inserted(child).with_dependency(task, child.id), None),
                }
            }
        }
    }

    /// What splitting `task` into `children` makes of the graph: the children take over what
    /// the task waited for, and the task waits for the children.
    pub open spec fn split_into(self, task: TaskId, children: Seq<TaskView>) -> (
        GraphView,
        Option<ErrorView>,
    ) {
        self.detached(self.at(task)).joined_by(
            task,
            self.task(task).dependencies.reverse(),
            children,
        )
    }

    /// The order in which the tasks are listed, dependencies first.
    pub open spec fn order(self) -> Seq<int> {
        toposort_of(self.tasks.len(), self.edges)->Ok_0
    }

    /// The tasks whose longest dependency chain has length `n`, in listing order.
    pub open spec fn wave(self, n: nat) -> Seq<TaskId> {
        self.ids_of(self.order().filter(at_depth(self.edges, n)))
    }

    /// Whether the task at `i` waits to be queued and everything it waits for is complete.
    pub open spec fn is_ready(self, i: int) -> bool {
        &&& self.tasks[i].state.unqueued()
        &&& forall|k: int|
            0 <= k < self.tasks[i].dependencies.len() ==> self.completed(
                #[trigger] self.tasks[i].dependencies[k],
            )
    }

    /// Whether the task called `id` is complete.
    pub open spec fn completed(self, id: TaskId) -> bool {
        self.has(id) && self.task(id).state == TaskState::Completed
    }

    /// Whether the task at `v` was given up, or (after `steps` steps) is unfinished and waits
    /// for one that is so cut off.
    pub open spec fn cut_off(self, v: int, steps: nat) -> bool
        decreases steps,
    {
        if steps == 0 {
            self.tasks[v].state.given_up()
        } else {
            &&& !self.tasks[v].state.finished()
            &&& exists|u: int| #[trigger]
                self.edges.contains((u, v)) && self.cut_off(u, (steps - 1) as nat)
        }
    }

    /// Whether the task at `v` can never run because a task upstream of it was given up.
    pub open spec fn stranded(self, v: int) -> bool {
        exists|steps: nat| steps >= 1 && #[trigger] self.cut_off(v, steps)
    }

    /// The graph with the task called `id` in another state.
    pub open spec fn with_state(self, id: TaskId, state: TaskState) -> GraphView {
        GraphView {
            tasks: self.tasks.update(self.at(id), TaskView { state, ..self.task(id) }),
            ..self
        }
    }

    /// Why a lookup of `id` fails where there is no such task.
    pub open spec fn no_task(self, id: TaskId) -> ErrorView {
        ErrorView::NotFound { kind: "task"@, id: id.text() }
    }

    /// Why the task called `id` may not move to state `to`.
    pub open spec fn state_refusal(self, id: TaskId, to: TaskState) -> Option<ErrorView> {
        if !self.has(id) {
            Some(self.no_task(id))
        } else if !self.task(id).state.edges().contains(to) {
            Some(
                ErrorView::InvalidTransition {
                    entity: TaskState::ENTITY@,
                    from: self.task(id).state.spelled(),
                    to: to.spelled(),
                },
            )
        } else {
            None
        }
    }

    /// Whether every task has reached a terminal state, where there is any task.
    pub open spec fn is_complete(self) -> bool {
        &&& self.tasks.len() > 0
        &&& forall|i: int| 0 <= i < self.tasks.len() ==> (#[trigger] self.tasks[i]).state.finished()
    }

    /// The graph with another number of attempts for the task called `id`.
    pub open spec fn with_attempt(self, id: TaskId, attempt: u32) -> GraphView {
        GraphView {
            tasks: self.tasks.update(self.at(id), TaskView { attempt, ..self.task(id) }),
            ..self
        }
    }

    /// The graph with one more task that each of `dependents` waits for, or the first refusal
    /// on the way.
    pub open spec fn inserted_before(self, task: TaskView, dependents: Seq<TaskId>) -> Result<
        GraphView,
        ErrorView,
    > {
        match self.insert_refusal(task) {
            Some(error) => Err(error),
            None => self.inserted(task).link_each(dependents, task.id),
        }
    }
}

/// Only one position holds a task of a given name.
pub proof fn lemma_at_unique(g: GraphView, id: TaskId, i: int)
    requires
        g.distinct(),
        g.stands(id, i),
    ensures
        g.has(id),
        g.at(id) == i,
{
    let j = g.at(id);
    assert(g.stands(id, j));
    if i < j {
        assert(g.tasks[i].id != g.tasks[j].id);
    } else if j < i {
        assert(g.tasks[j].id != g.tasks[i].id);
    }
}

/// The sources of a node are positions of the graph.
pub proof fn lemma_sources_in_range(g: GraphView, n: int)
    requires
        in_range(g.tasks.len(), g.edges),
    ensures
        forall|k: int|
            0 <= k < sources(g.edges, n).len() ==> 0 <= #[trigger] sources(g.edges, n)[k]
                < g.tasks.len(),
{
    let list = sources(g.edges, n);
    assert forall|k: int| 0 <= k < list.len() implies 0 <= #[trigger] list[k] < g.tasks.len() by {
        assert(list.contains(list[k]));
        lemma_sources_contains(g.edges, n, list[k]);
        let j = choose|j: int| 0 <= j < g.edges.len() && g.edges[j] == (list[k], n);
        assert(0 <= g.edges[j].0 < g.tasks.len());
    }
}

/// The targets of a node are positions of the graph.
pub proof fn lemma_targets_in_range(g: GraphView, n: int)
    requires
        in_range(g.tasks.len(), g.edges),
    ensures
        forall|k: int|
            0 <= k < targets(g.edges, n).len() ==> 0 <= #[trigger] targets(g.edges, n)[k]
                < g.tasks.len(),
{
    let list = targets(g.edges, n);
    assert forall|k: int| 0 <= k < list.len() implies 0 <= #[trigger] list[k] < g.tasks.len() by {
        assert(list.contains(list[k]));
        lemma_targets_contains(g.edges, n, list[k]);
        let j = choose|j: int| 0 <= j < g.edges.len() && g.edges[j] == (n, list[k]);
        assert(0 <= g.edges[j].1 < g.tasks.len());
    }
}

/// No dependency is missing exactly when all are there.
pub proof fn lemma_first_missing(g: GraphView, ids: Seq<TaskId>)
    ensures
        g.first_missing(ids) is None <==> g.has_all(ids),
        g.first_missing(ids) matches Some(id) ==> ids.contains(id) && !g.has(id),
    decreases ids.len(),
{
    if ids.len() > 0 {
        lemma_first_missing(g, ids.drop_last());
        assert(ids.last() == ids[ids.len() - 1]);
        if g.has_all(ids.drop_last()) && g.has(ids.last()) {
            assert forall|k: int| 0 <= k < ids.len() implies g.has(#[trigger] ids[k]) by {
                if k < ids.len() - 1 {
                    assert(ids.drop_last()[k] == ids[k]);
                }
            }
        }
        if g.has_all(ids) {
            assert forall|k: int| 0 <= k < ids.len() - 1 implies g.has(
                #[trigger] ids.drop_last()[k],
            ) by {
                assert(ids.drop_last()[k] == ids[k]);
            }
        }
        if let Some(id) = g.first_missing(ids.drop_last()) {
            let k = choose|k: int| 0 <= k < ids.drop_last().len() && ids.drop_last()[k] == id;
            assert(ids[k] == id);
        }
    }
}

/// Once a task is missing, it stays the first one however the list goes on.
proof fn lemma_first_missing_stays(g: GraphView, ids: Seq<TaskId>, k: int)
    requires
        0 <= k <= ids.len(),
        g.first_missing(ids.take(k)) is Some,
    ensures
        g.first_missing(ids) == g.first_missing(ids.take(k)),
    decreases ids.len() - k,
{
    if k == ids.len() {
        assert(ids.take(k) =~= ids);
    } else {
        assert(ids.take(k + 1).drop_last() =~= ids.take(k));
        lemma_first_missing_stays(g, ids, k + 1);
    }
}

/// Inserting a task keeps the graph consistent.
pub proof fn lemma_inserted_consistent(g: GraphView, task: TaskView)
    requires
        g.consistent(),
        !g.has(task.id),
        g.has_all(task.dependencies),
    ensures
        g.inserted(task).consistent(),
        forall|id: TaskId| #[trigger] g.inserted(task).has(id) <==> g.has(id) || id == task.id,
        forall|id: TaskId| g.has(id) ==> #[trigger] g.inserted(task).at(id) == g.at(id),
        g.inserted(task).at(task.id) == g.tasks.len(),
{
    let n = g.tasks.len() as int;
    let from = g.positions_of(task.dependencies);
    let h = g.inserted(task);
    assert forall|k: int| 0 <= k < from.len() implies 0 <= #[trigger] from[k] < n by {
        assert(g.has(task.dependencies[k]));
        assert(g.stands(task.dependencies[k], g.at(task.dependencies[k])));
    }
    lemma_sortable_new_node(n as nat, g.edges, from);
    assert forall|i: int, j: int|
        #![trigger h.tasks[i], h.tasks[j]]
        0 <= i < j < h.tasks.len() implies h.tasks[i].id != h.tasks[j].id by {
        if j < n {
            assert(g.tasks[i].id != g.tasks[j].id);
        } else {
            assert(g.stands(g.tasks[i].id, i));
        }
    }
    assert forall|i: int| 0 <= i < h.tasks.len() implies (#[trigger] h.tasks[i]).dependencies
        == h.ids_of(sources(h.edges, i)) by {
        lemma_sources_fan_in(g.edges, from, n, i);
        lemma_sources_in_range(g, i);
        if i < n {
            assert(h.tasks[i] == g.tasks[i]);
            assert(h.ids_of(sources(h.edges, i)) =~= g.ids_of(sources(g.edges, i)));
        } else {
            lemma_no_sources(g.edges, n);
            assert(sources(h.edges, n) =~= from);
            assert(h.ids_of(from) =~= task.dependencies) by {
                assert forall|k: int| 0 <= k < from.len() implies #[trigger] h.ids_of(from)[k]
                    == task.dependencies[k] by {
                    assert(g.has(task.dependencies[k]));
                    assert(g.stands(task.dependencies[k], g.at(task.dependencies[k])));
                    assert(h.tasks[from[k]] == g.tasks[from[k]]);
                }
            }
        }
    }
    assert(h.consistent());
    assert forall|id: TaskId| #[trigger] h.has(id) <==> g.has(id) || id == task.id by {
        if g.has(id) {
            assert(g.stands(id, g.at(id)));
            assert(h.stands(id, g.at(id)));
        }
        assert(h.stands(task.id, n));
        if h.has(id) {
            let i = h.at(id);
            assert(h.stands(id, i));
            if i < n {
                assert(g.stands(id, i));
            }
        }
    }
    assert forall|id: TaskId| g.has(id) implies #[trigger] h.at(id) == g.at(id) by {
        assert(g.stands(id, g.at(id)));
        assert(h.stands(id, g.at(id)));
        lemma_at_unique(h, id, g.at(id));
    }
    assert(h.stands(task.id, n));
    lemma_at_unique(h, task.id, n);
}

/// Changing a task without its name leaves every name where it was.
pub proof fn lemma_same_names(g: GraphView, h: GraphView)
    requires
        g.tasks.len() == h.tasks.len(),
        forall|i: int| 0 <= i < g.tasks.len() ==> (#[trigger] h.tasks[i]).id == g.tasks[i].id,
    ensures
        forall|id: TaskId, i: int| #[trigger] h.stands(id, i) == g.stands(id, i),
        forall|id: TaskId| #[trigger] h.has(id) == g.has(id),
        g.distinct() ==> h.distinct(),
        g.distinct() ==> forall|id: TaskId| g.has(id) ==> #[trigger] h.at(id) == g.at(id),
        forall|positions: Seq<int>|
            (forall|k: int|
                0 <= k < positions.len() ==> 0 <= #[trigger] positions[k] < g.tasks.len())
                ==> #[trigger] h.ids_of(positions) == g.ids_of(positions),
{
    assert forall|id: TaskId, i: int| #[trigger] h.stands(id, i) == g.stands(id, i) by {
        if 0 <= i < g.tasks.len() {
            assert(h.tasks[i].id == g.tasks[i].id);
        }
    }
    assert forall|id: TaskId| #[trigger] h.has(id) == g.has(id) by {
        if g.has(id) {
            assert(g.stands(id, g.at(id)));
            assert(h.stands(id, g.at(id)));
        }
        if h.has(id) {
            assert(h.stands(id, h.at(id)));
            assert(g.stands(id, h.at(id)));
        }
    }
    if g.distinct() {
        assert forall|i: int, j: int|
            #![trigger h.tasks[i], h.tasks[j]]
            0 <= i < j < h.tasks.len() implies h.tasks[i].id != h.tasks[j].id by {
            assert(g.tasks[i].id != g.tasks[j].id);
        }
        assert forall|id: TaskId| g.has(id) implies #[trigger] h.at(id) == g.at(id) by {
            assert(g.stands(id, g.at(id)));
            assert(h.stands(id, g.at(id)));
            lemma_at_unique(h, id, g.at(id));
        }
    }
    assert forall|positions: Seq<int>|
        (forall|k: int|
            0 <= k < positions.len() ==> 0 <= #[trigger] positions[k] < g.tasks.len())
        implies #[trigger] h.ids_of(positions) == g.ids_of(positions) by {
        assert(h.ids_of(positions) =~= g.ids_of(positions)) by {
            assert forall|k: int| 0 <= k < positions.len() implies #[trigger] h.ids_of(
                positions,
            )[k] == g.ids_of(positions)[k] by {
                assert(0 <= positions[k] < g.tasks.len());
                assert(h.tasks[positions[k]].id == g.tasks[positions[k]].id);
            }
        }
    }
}

/// Linking two tasks keeps the graph consistent, as long as it stays sortable.
pub proof fn lemma_linked_consistent(g: GraphView, t: int, d: int)
    requires
        g.consistent(),
        0 <= t < g.tasks.len(),
        0 <= d < g.tasks.len(),
        sortable(g.tasks.len(), g.edges.push((d, t))),
    ensures
        g.linked(t, d).consistent(),
{
    let h = g.linked(t, d);
    assert forall|i: int| 0 <= i < g.tasks.len() implies (#[trigger] h.tasks[i]).id
        == g.tasks[i].id by {
        if i == t {
            assert(h.tasks[t].id == g.tasks[t].id);
        }
    }
    lemma_same_names(g, h);
    assert forall|k: int| 0 <= k < h.edges.len() implies 0 <= (#[trigger] h.edges[k]).0
        < h.tasks.len() && 0 <= h.edges[k].1 < h.tasks.len() by {
        if k < g.edges.len() {
            assert(h.edges[k] == g.edges[k]);
        }
    }
    assert forall|i: int| 0 <= i < h.tasks.len() implies (#[trigger] h.tasks[i]).dependencies
        == h.ids_of(sources(h.edges, i)) by {
        lemma_sources_push(g.edges, (d, t), i);
        lemma_sources_in_range(g, i);
        assert(g.tasks[i].dependencies == g.ids_of(sources(g.edges, i)));
        assert(h.ids_of(sources(g.edges, i)) == g.ids_of(sources(g.edges, i)));
        if i == t {
            assert(h.ids_of(sources(h.edges, i)) =~= g.ids_of(sources(g.edges, i)).push(
                g.tasks[d].id,
            )) by {
                assert(h.tasks[d].id == g.tasks[d].id);
                assert forall|k: int| 0 <= k < sources(h.edges, i).len() implies #[trigger] h.ids_of(
                    sources(h.edges, i),
                )[k] == g.ids_of(sources(g.edges, i)).push(g.tasks[d].id)[k] by {
                    if k < sources(g.edges, i).len() {
                        assert(h.ids_of(sources(g.edges, i))[k] == g.ids_of(
                            sources(g.edges, i),
                        )[k]);
                    }
                }
            }
        } else {
            assert(h.tasks[i] == g.tasks[i]);
        }
    }
}

/// A dependency is an edge.
proof fn lemma_dependency_is_edge(g: GraphView, t: int, d: int)
    requires
        g.consistent(),
        0 <= t < g.tasks.len(),
        0 <= d < g.tasks.len(),
        g.tasks[t].dependencies.contains(g.tasks[d].id),
    ensures
        g.edges.contains((d, t)),
{
    let list = sources(g.edges, t);
    let name = g.tasks[d].id;
    assert(g.tasks[t].dependencies == g.ids_of(list));
    let k = choose|k: int|
        0 <= k < g.tasks[t].dependencies.len() && g.tasks[t].dependencies[k] == name;
    lemma_sources_in_range(g, t);
    assert(g.tasks[list[k]].id == name);
    assert(g.stands(name, list[k]));
    assert(g.stands(name, d));
    lemma_at_unique(g, name, list[k]);
    lemma_at_unique(g, name, d);
    assert(list.contains(d));
    lemma_sources_contains(g.edges, t, d);
}

/// Where an edge leads, no way leads back.
proof fn lemma_no_way_back(g: GraphView, t: int, d: int)
    requires
        g.consistent(),
        g.edges.contains((d, t)),
    ensures
        !reaches(g.edges, t, d),
{
    if reaches(g.edges, t, d) {
        let steps = choose|steps: nat| #[trigger] walk(g.edges, t, d, steps);
        assert(walk(g.edges, d, d, steps + 1)) by {
            assert(g.edges.contains((d, t)) && walk(g.edges, t, d, steps));
        }
        assert(on_cycle(g.edges, d));
        lemma_sortable_is_acyclic(g.tasks.len(), g.edges, d);
    }
}

/// One more edge between tasks of the graph stays in range.
proof fn lemma_linked_in_range(g: GraphView, t: int, d: int)
    requires
        g.consistent(),
        0 <= t < g.tasks.len(),
        0 <= d < g.tasks.len(),
    ensures
        in_range(g.tasks.len(), g.edges.push((d, t))),
{
    let more = g.edges.push((d, t));
    assert forall|k: int| 0 <= k < more.len() implies 0 <= (#[trigger] more[k]).0 < g.tasks.len()
        && 0 <= more[k].1 < g.tasks.len() by {
        if k < g.edges.len() {
            assert(more[k] == g.edges[k]);
        }
    }
}

/// Once linking fails, it fails the same way however the list goes on.
proof fn lemma_link_failure_stays(g: GraphView, ids: Seq<TaskId>, depends_on: TaskId, k: int)
    requires
        0 <= k <= ids.len(),
        g.link_each(ids.take(k), depends_on) is Err,
    ensures
        g.link_each(ids, depends_on) == g.link_each(ids.take(k), depends_on),
    decreases ids.len() - k,
{
    if k == ids.len() {
        assert(ids.take(k) =~= ids);
    } else {
        assert(ids.take(k + 1).drop_last() =~= ids.take(k));
        lemma_link_failure_stays(g, ids, depends_on, k + 1);
    }
}

/// Whether `h` is `g` with one more task called `id` and some tasks of `g` waiting for it.
spec fn grown(g: GraphView, h: GraphView, id: TaskId) -> bool {
    let n = g.tasks.len() as int;
    &&& h.job_id == g.job_id
    &&& h.tasks.len() == n + 1
    &&& h.tasks[n].id == id
    &&& forall|j: int|
        0 <= j < n ==> (#[trigger] h.tasks[j] == g.tasks[j] || h.tasks[j] == (TaskView {
            dependencies: g.tasks[j].dependencies.push(id),
            ..g.tasks[j]
        }))
    &&& h.edges.len() >= g.edges.len()
    &&& forall|m: int| 0 <= m < g.edges.len() ==> #[trigger] h.edges[m] == g.edges[m]
    &&& forall|m: int|
        g.edges.len() <= m < h.edges.len() ==> (#[trigger] h.edges[m]).0 == n || h.edges[m].1 == n
}

/// An inserted task is growth.
proof fn lemma_inserted_is_grown(g: GraphView, task: TaskView)
    ensures
        grown(g, g.inserted(task), task.id),
{
}

/// One more task waiting for the new one is growth.
proof fn lemma_linked_is_grown(g: GraphView, h: GraphView, id: TaskId, dependent: TaskId)
    requires
        g.consistent(),
        h.consistent(),
        !g.has(id),
        grown(g, h, id),
        h.has(dependent),
        dependent != id,
    ensures
        grown(g, h.with_dependency(dependent, id), id),
{
    let n = g.tasks.len() as int;
    assert(h.stands(id, n));
    lemma_at_unique(h, id, n);
    let t = h.at(dependent);
    assert(h.stands(dependent, t));
    assert(t != n);
    if !h.task(dependent).dependencies.contains(id) {
        let k = h.linked(t, n);
        if h.tasks[t] != g.tasks[t] {
            assert(h.tasks[t].dependencies.last() == id);
            assert(h.tasks[t].dependencies.contains(id));
        }
        assert(h.tasks[t] == g.tasks[t]);
        assert forall|j: int| 0 <= j < n implies (#[trigger] k.tasks[j] == g.tasks[j] || k.tasks[j]
            == (TaskView {
            dependencies: g.tasks[j].dependencies.push(id),
            ..g.tasks[j]
        })) by {
            if j != t {
                assert(k.tasks[j] == h.tasks[j]);
            }
        }
        assert forall|m: int| 0 <= m < g.edges.len() implies #[trigger] k.edges[m] == g.edges[m] by {
            assert(k.edges[m] == h.edges[m]);
        }
        assert forall|m: int| g.edges.len() <= m < k.edges.len() implies (#[trigger] k.edges[m]).0
            == n || k.edges[m].1 == n by {
            if m < h.edges.len() {
                assert(k.edges[m] == h.edges[m]);
            }
        }
    }
}

/// No task of a graph waits for a name that the graph does not have.
proof fn lemma_dependencies_are_tasks(g: GraphView, i: int, id: TaskId)
    requires
        g.consistent(),
        0 <= i < g.tasks.len(),
        g.tasks[i].dependencies.contains(id),
    ensures
        g.has(id),
{
    let list = sources(g.edges, i);
    lemma_sources_in_range(g, i);
    assert(g.tasks[i].dependencies == g.ids_of(list));
    let k = choose|k: int| 0 <= k < g.tasks[i].dependencies.len() && g.tasks[i].dependencies[k]
        == id;
    assert(g.stands(id, list[k]));
}

/// The edges apart from the new task are the edges from before.
proof fn lemma_grown_edges(g: GraphView, h: GraphView, id: TaskId)
    requires
        in_range(g.tasks.len(), g.edges),
        grown(g, h, id),
    ensures
        apart_from(h.edges, g.tasks.len() as int) == g.edges,
{
    let n = g.tasks.len() as int;
    let front = h.edges.take(g.edges.len() as int);
    let back = h.edges.skip(g.edges.len() as int);
    assert(front + back =~= h.edges);
    assert(front =~= g.edges);
    lemma_filter_concat(front, back, stays_apart(n));
    assert forall|m: int| 0 <= m < front.len() implies stays_apart(n)(#[trigger] front[m]) by {
        assert(front[m] == g.edges[m]);
        assert(0 <= g.edges[m].0 < n && 0 <= g.edges[m].1 < n);
    }
    assert forall|m: int| 0 <= m < back.len() implies !stays_apart(n)(#[trigger] back[m]) by {
        assert(back[m] == h.edges[m + g.edges.len()]);
    }
    lemma_filter_everything(front, stays_apart(n));
    lemma_filter_nothing(back, stays_apart(n));
    assert(g.edges + Seq::<(int, int)>::empty() =~= g.edges);
}

/// Taking away the edges into one node leaves the edges into the others.
proof fn lemma_sources_not_into(edges: Seq<(int, int)>, t: int, n: int)
    ensures
        sources(not_into(edges, t), n) == if n == t {
            Seq::<int>::empty()
        } else {
            sources(edges, n)
        },
    decreases edges.len(),
{
    reveal(Seq::filter);
    if edges.len() == 0 {
        assert(not_into(edges, t) =~= edges);
        assert(sources(edges, n) =~= Seq::<int>::empty());
    } else {
        let e = edges.last();
        lemma_sources_not_into(edges.drop_last(), t, n);
        lemma_sources_push(edges.drop_last(), e, n);
        lemma_sources_push(not_into(edges.drop_last(), t), e, n);
        assert(edges =~= edges.drop_last().push(e));
        if e.1 != t {
            assert(not_into(edges, t) == not_into(edges.drop_last(), t).push(e));
        } else {
            assert(not_into(edges, t) == not_into(edges.drop_last(), t));
        }
    }
}

/// Removing the youngest edge into a node takes its last source and touches nothing else.
proof fn lemma_remove_youngest_source(edges: Seq<(int, int)>, s: int, t: int)
    requires
        sources(edges, t).len() > 0,
        sources(edges, t).last() == s,
    ensures
        sources(without_youngest(edges, (s, t)), t) == sources(edges, t).drop_last(),
        not_into(without_youngest(edges, (s, t)), t) == not_into(edges, t),
    decreases edges.len(),
{
    reveal(Seq::filter);
    let e = edges.last();
    let front = edges.drop_last();
    lemma_sources_push(front, e, t);
    assert(edges =~= front.push(e));
    if e == (s, t) {
        assert(sources(edges, t).drop_last() =~= sources(front, t));
        assert(not_into(edges, t) == not_into(front, t));
    } else {
        if e.1 == t {
            assert(sources(edges, t).last() == e.0);
            assert(e == (s, t));
        }
        lemma_remove_youngest_source(front, s, t);
        let rest = without_youngest(front, (s, t));
        lemma_sources_push(rest, e, t);
        crate::text::lemma_filter_push(rest, e, leads_elsewhere(t));
        crate::text::lemma_filter_push(front, e, leads_elsewhere(t));
    }
}

/// A task that waits for nothing keeps the graph consistent.
proof fn lemma_detached_consistent(g: GraphView, t: int)
    requires
        g.consistent(),
        0 <= t < g.tasks.len(),
    ensures
        g.detached(t).consistent(),
        forall|id: TaskId| #[trigger] g.detached(t).has(id) == g.has(id),
        forall|id: TaskId| g.has(id) ==> #[trigger] g.detached(t).at(id) == g.at(id),
{
    let h = g.detached(t);
    assert forall|i: int| 0 <= i < g.tasks.len() implies (#[trigger] h.tasks[i]).id
        == g.tasks[i].id by {}
    lemma_same_names(g, h);
    assert forall|k: int| 0 <= k < h.edges.len() implies g.edges.contains(#[trigger] h.edges[k]) by {
        assert(h.edges.contains(h.edges[k]));
        g.edges.lemma_filter_contains_rev(leads_elsewhere(t), h.edges[k]);
    }
    lemma_sortable_subset(g.tasks.len(), g.edges, h.edges);
    assert forall|k: int| 0 <= k < h.edges.len() implies 0 <= (#[trigger] h.edges[k]).0
        < h.tasks.len() && 0 <= h.edges[k].1 < h.tasks.len() by {
        assert(g.edges.contains(h.edges[k]));
        let j = choose|j: int| 0 <= j < g.edges.len() && g.edges[j] == h.edges[k];
        assert(0 <= g.edges[j].0 < g.tasks.len() && 0 <= g.edges[j].1 < g.tasks.len());
    }
    assert forall|i: int| 0 <= i < h.tasks.len() implies (#[trigger] h.tasks[i]).dependencies
        == h.ids_of(sources(h.edges, i)) by {
        lemma_sources_not_into(g.edges, t, i);
        lemma_sources_in_range(g, i);
        assert(g.tasks[i].dependencies == g.ids_of(sources(g.edges, i)));
        if i == t {
            assert(h.ids_of(Seq::<int>::empty()) =~= seq![]);
        }
    }
}

/// A walk ends with an edge into its end.
proof fn lemma_last_step(edges: Seq<(int, int)>, a: int, b: int, steps: nat)
    requires
        walk(edges, a, b, steps),
        steps >= 1,
    ensures
        exists|p: int| #[trigger]
            edges.contains((p, b)) && walk(edges, a, p, (steps - 1) as nat),
    decreases steps,
{
    let c = choose|c: int| #[trigger]
        edges.contains((a, c)) && walk(edges, c, b, (steps - 1) as nat);
    if steps == 1 {
        assert(c == b);
        assert(walk(edges, a, a, 0));
        assert(edges.contains((a, b)));
    } else {
        lemma_last_step(edges, c, b, (steps - 1) as nat);
        let p = choose|p: int| #[trigger]
            edges.contains((p, b)) && walk(edges, c, p, (steps - 2) as nat);
        assert(edges.contains((a, c)) && walk(edges, c, p, (steps - 2) as nat));
        assert(walk(edges, a, p, (steps - 1) as nat));
        assert(edges.contains((p, b)));
    }
}

/// A walk that does not end at a new node avoids it, when nothing leads out of it.
proof fn lemma_walk_avoids_new(
    edges: Seq<(int, int)>,
    from: Seq<int>,
    c: int,
    a: int,
    b: int,
    steps: nat,
)
    requires
        walk(edges + fan_in(from, c), a, b, steps),
        b != c,
        c != a,
        forall|k: int| 0 <= k < edges.len() ==> (#[trigger] edges[k]).0 != c && edges[k].1 != c,
        forall|k: int| 0 <= k < from.len() ==> #[trigger] from[k] != c,
    ensures
        walk(edges, a, b, steps),
    decreases steps,
{
    let more = edges + fan_in(from, c);
    if steps > 0 {
        let x = choose|x: int| #[trigger]
            more.contains((a, x)) && walk(more, x, b, (steps - 1) as nat);
        let k = choose|k: int| 0 <= k < more.len() && more[k] == (a, x);
        if k < edges.len() {
            assert(edges[k] == (a, x));
            assert(edges.contains((a, x)));
            lemma_walk_avoids_new(edges, from, c, x, b, (steps - 1) as nat);
        } else {
            assert(x == c);
            if steps > 1 {
                let y = choose|y: int| #[trigger]
                    more.contains((c, y)) && walk(more, y, b, (steps - 2) as nat);
                let m = choose|m: int| 0 <= m < more.len() && more[m] == (c, y);
                if m < edges.len() {
                    assert(edges[m].0 == c);
                } else {
                    assert(from[m - edges.len()] == c);
                }
            }
        }
    }
}

/// Whether the task at `t` reaches none of the tasks called `ids`.
spec fn reaches_none(g: GraphView, t: int, ids: Seq<TaskId>) -> bool {
    forall|k: int| 0 <= k < ids.len() ==> !reaches(g.edges, t, #[trigger] g.at(ids[k]))
}

/// A task that reaches none of the tasks a new one waits for does not reach the new one, so it
/// may wait for it; and it still reaches none of them then.
proof fn lemma_child_joins(g: GraphView, t: int, child: TaskView)
    requires
        g.consistent(),
        0 <= t < g.tasks.len(),
        !g.has(child.id),
        g.has_all(child.dependencies),
        reaches_none(g, t, child.dependencies),
    ensures
        !reaches(g.inserted(child).edges, t, g.tasks.len() as int),
        forall|k: int|
            0 <= k < child.dependencies.len() ==> !reaches(
                g.inserted(child).edges.push((g.tasks.len() as int, t)),
                t,
                #[trigger] g.at(child.dependencies[k]),
            ),
{
    let c = g.tasks.len() as int;
    let from = g.positions_of(child.dependencies);
    let h = g.inserted(child);
    assert forall|k: int| 0 <= k < from.len() implies 0 <= #[trigger] from[k] < c && from[k] == g.at(
        child.dependencies[k],
    ) by {
        assert(g.has(child.dependencies[k]));
        assert(g.stands(child.dependencies[k], g.at(child.dependencies[k])));
    }
    assert forall|k: int| 0 <= k < g.edges.len() implies (#[trigger] g.edges[k]).0 != c
        && g.edges[k].1 != c by {
        assert(0 <= g.edges[k].0 < c && 0 <= g.edges[k].1 < c);
    }
    if reaches(h.edges, t, c) {
        let steps = choose|steps: nat| #[trigger] walk(h.edges, t, c, steps);
        assert(steps >= 1);
        lemma_last_step(h.edges, t, c, steps);
        let p = choose|p: int| #[trigger]
            h.edges.contains((p, c)) && walk(h.edges, t, p, (steps - 1) as nat);
        let k = choose|k: int| 0 <= k < h.edges.len() && h.edges[k] == (p, c);
        if k < g.edges.len() {
            assert(g.edges[k] == (p, c));
        }
        let m = k - g.edges.len();
        assert(from[m] == p);
        lemma_walk_avoids_new(g.edges, from, c, t, p, (steps - 1) as nat);
        assert(reaches(g.edges, t, g.at(child.dependencies[m])));
    }
    assert forall|k: int| 0 <= k < child.dependencies.len() implies !reaches(
        h.edges.push((c, t)),
        t,
        #[trigger] g.at(child.dependencies[k]),
    ) by {
        let p = from[k];
        if reaches(h.edges.push((c, t)), t, p) {
            let steps = choose|steps: nat| #[trigger] walk(h.edges.push((c, t)), t, p, steps);
            lemma_walk_push(h.edges, (c, t), t, p, steps);
            assert(walk(h.edges, t, p, steps));
            lemma_walk_avoids_new(g.edges, from, c, t, p, steps);
            assert(reaches(g.edges, t, p));
        }
    }
}

/// Where splitting stops, it stays stopped however the list of children goes on.
proof fn lemma_join_failure_stays(
    g: GraphView,
    task: TaskId,
    inherited: Seq<TaskId>,
    children: Seq<TaskView>,
    k: int,
)
    requires
        0 <= k <= children.len(),
        g.joined_by(task, inherited, children.take(k)).1 is Some,
    ensures
        g.joined_by(task, inherited, children) == g.joined_by(task, inherited, children.take(k)),
    decreases children.len() - k,
{
    if k == children.len() {
        assert(children.take(k) =~= children);
    } else {
        assert(children.take(k + 1).drop_last() =~= children.take(k));
        lemma_join_failure_stays(g, task, inherited, children, k + 1);
    }
}

/// What a detached task waited for is still there, and the task reaches none of it.
proof fn lemma_inherited(g: GraphView, t: int)
    requires
        g.consistent(),
        0 <= t < g.tasks.len(),
    ensures
        g.detached(t).has_all(g.tasks[t].dependencies.reverse()),
        reaches_none(g.detached(t), t, g.tasks[t].dependencies.reverse()),
        g.detached(t).edges.len() <= g.edges.len(),
        g.detached(t).stands(g.tasks[t].id, t),
{
    broadcast use vstd::seq_lib::group_filter_ensures;

    let ids = g.tasks[t].dependencies.reverse();
    let h = g.detached(t);
    lemma_detached_consistent(g, t);
    assert forall|k: int| 0 <= k < ids.len() implies h.has(#[trigger] ids[k]) && !reaches(
        h.edges,
        t,
        h.at(ids[k]),
    ) by {
        assert(g.tasks[t].dependencies.contains(ids[k])) by {
            assert(g.tasks[t].dependencies[ids.len() - 1 - k] == ids[k]);
        }
        lemma_dependencies_are_tasks(g, t, ids[k]);
        let d = g.at(ids[k]);
        assert(g.stands(ids[k], d));
        lemma_dependency_is_edge(g, t, d);
        lemma_no_way_back(g, t, d);
        assert(h.has(ids[k]));
        assert(h.at(ids[k]) == d);
        if reaches(h.edges, t, d) {
            let steps = choose|steps: nat| #[trigger] walk(h.edges, t, d, steps);
            assert forall|e: (int, int)| #[trigger] h.edges.contains(e) implies g.edges.contains(
                e,
            ) by {
                g.edges.lemma_filter_contains_rev(leads_elsewhere(t), e);
            }
            crate::topology::lemma_walk_grows(h.edges, g.edges, t, d, steps);
            assert(reaches(g.edges, t, d));
        }
    }
    assert forall|k: int| 0 <= k < ids.len() implies !reaches(
        h.edges,
        t,
        #[trigger] h.at(ids[k]),
    ) by {
        assert(h.has(ids[k]));
    }
}

/// A child that joined leaves everything in place for the next one.
proof fn lemma_joined_child(
    h: GraphView,
    wide: GraphView,
    after: GraphView,
    t: int,
    task: TaskId,
    child: TaskView,
)
    requires
        h.consistent(),
        0 <= t < h.tasks.len(),
        h.stands(task, t),
        !h.has(child.id),
        h.has_all(child.dependencies),
        reaches_none(h, t, child.dependencies),
        wide == h.inserted(child),
        wide.consistent(),
        after.consistent(),
        after == wide.with_dependency(task, child.id),
    ensures
        after.tasks.len() == h.tasks.len() + 1,
        after.edges.len() == h.edges.len() + child.dependencies.len() + 1,
        after.stands(task, t),
        after.has_all(child.dependencies),
        reaches_none(after, t, child.dependencies),
{
    let c = h.tasks.len() as int;
    let ids = child.dependencies;
    lemma_inserted_consistent(h, child);
    lemma_child_joins(h, t, child);
    assert(wide.stands(task, t));
    lemma_at_unique(wide, task, t);
    assert(wide.tasks[t] == h.tasks[t]);
    if wide.tasks[t].dependencies.contains(child.id) {
        lemma_dependencies_are_tasks(h, t, child.id);
    }
    assert(after == wide.linked(t, c));
    assert forall|i: int| 0 <= i < wide.tasks.len() implies (#[trigger] after.tasks[i]).id
        == wide.tasks[i].id by {}
    lemma_same_names(wide, after);
    assert(after.stands(task, t));
    assert forall|k: int| 0 <= k < ids.len() implies after.has(#[trigger] ids[k]) by {
        assert(h.has(ids[k]));
        assert(wide.has(ids[k]));
    }
    assert forall|k: int| 0 <= k < ids.len() implies !reaches(
        after.edges,
        t,
        #[trigger] after.at(ids[k]),
    ) by {
        assert(h.has(ids[k]));
        assert(wide.has(ids[k]));
        assert(wide.at(ids[k]) == h.at(ids[k]));
        assert(after.at(ids[k]) == wide.at(ids[k]));
        assert(!reaches(wide.edges.push((c, t)), t, h.at(ids[k])));
    }
}

/// A chain has chains of every shorter length behind it.
proof fn lemma_shorter_chain(edges: Seq<(int, int)>, v: int, n: nat, m: nat)
    requires
        ends_chain(edges, v, n),
        m <= n,
    ensures
        ends_chain(edges, v, m),
    decreases n,
{
    if m < n {
        let a = choose|a: int| #[trigger] walk(edges, a, v, n);
        let c = choose|c: int| #[trigger] edges.contains((a, c)) && walk(
            edges,
            c,
            v,
            (n - 1) as nat,
        );
        assert(walk(edges, c, v, (n - 1) as nat));
        lemma_shorter_chain(edges, v, (n - 1) as nat, m);
    }
}

/// A node has only one longest chain length.
pub proof fn lemma_longest_chain_unique(edges: Seq<(int, int)>, v: int, n: nat, m: nat)
    requires
        longest_chain(edges, v, n),
        longest_chain(edges, v, m),
    ensures
        n == m,
{
    if n < m {
        lemma_shorter_chain(edges, v, m, n + 1);
    } else if m < n {
        lemma_shorter_chain(edges, v, n, m + 1);
    }
}

/// A node without dependencies ends only the empty chain.
proof fn lemma_chain_of_root(edges: Seq<(int, int)>, v: int)
    requires
        sources(edges, v).len() == 0,
    ensures
        longest_chain(edges, v, 0),
{
    assert(walk(edges, v, v, 0));
    if ends_chain(edges, v, 1) {
        let a = choose|a: int| #[trigger] walk(edges, a, v, 1);
        lemma_last_step(edges, a, v, 1);
        let p = choose|p: int| #[trigger] edges.contains((p, v)) && walk(edges, a, p, 0);
        lemma_sources_contains(edges, v, p);
    }
}

/// The longest chain that ends at a node is one longer than the longest that ends at one of
/// its dependencies.
proof fn lemma_chain_of_dependent(edges: Seq<(int, int)>, v: int, s: int, deepest: nat)
    requires
        sources(edges, v).contains(s),
        longest_chain(edges, s, deepest),
        forall|p: int|
            #[trigger] sources(edges, v).contains(p) ==> exists|m: nat|
                m <= deepest && #[trigger] longest_chain(edges, p, m),
    ensures
        longest_chain(edges, v, deepest + 1),
{
    lemma_sources_contains(edges, v, s);
    let a = choose|a: int| #[trigger] walk(edges, a, s, deepest);
    assert(walk(edges, v, v, 0));
    assert(edges.contains((s, v)) && walk(edges, v, v, 0));
    assert(walk(edges, s, v, 1));
    crate::topology::lemma_walk_joins(edges, a, s, v, deepest, 1);
    assert(ends_chain(edges, v, deepest + 1));
    if ends_chain(edges, v, deepest + 2) {
        let b = choose|b: int| #[trigger] walk(edges, b, v, deepest + 2);
        lemma_last_step(edges, b, v, deepest + 2);
        let p = choose|p: int| #[trigger]
            edges.contains((p, v)) && walk(edges, b, p, (deepest + 1) as nat);
        lemma_sources_contains(edges, v, p);
        assert(sources(edges, v).contains(p));
        let m = choose|m: nat| m <= deepest && #[trigger] longest_chain(edges, p, m);
        assert(ends_chain(edges, p, (deepest + 1) as nat));
        lemma_shorter_chain(edges, p, (deepest + 1) as nat, m + 1);
    }
}

/// A topological order of the positions lists each task once, after everything it waits for.
proof fn lemma_dependencies_first(g: GraphView, order: Seq<int>)
    requires
        g.consistent(),
        is_topological(order, g.tasks.len(), g.edges),
    ensures
        g.ids_of(order).no_duplicates(),
        forall|id: TaskId| #[trigger] g.ids_of(order).contains(id) <==> g.has(id),
        forall|a: int, b: int|
            #![trigger g.ids_of(order)[a], g.ids_of(order)[b]]
            0 <= a < order.len() && 0 <= b < order.len() && g.task(
                g.ids_of(order)[a],
            ).dependencies.contains(g.ids_of(order)[b]) ==> b < a,
{
    let list = g.ids_of(order);
    assert forall|a: int, b: int| 0 <= a < b < list.len() implies list[a] != list[b] by {
        assert(order[a] != order[b]);
        lemma_at_unique(g, list[a], order[a]);
        lemma_at_unique(g, list[b], order[b]);
    }
    assert forall|id: TaskId| #[trigger] list.contains(id) <==> g.has(id) by {
        if list.contains(id) {
            let k = list.index_of(id);
            lemma_at_unique(g, id, order[k]);
        }
        if g.has(id) {
            let v = g.at(id);
            assert(g.stands(id, v));
            assert(order.contains(v));
            let k = order.index_of(v);
            assert(list[k] == id);
        }
    }
    assert forall|a: int, b: int|
        #![trigger list[a], list[b]]
        0 <= a < order.len() && 0 <= b < order.len() && g.task(list[a]).dependencies.contains(
            list[b],
        ) implies b < a by {
        lemma_at_unique(g, list[a], order[a]);
        lemma_at_unique(g, list[b], order[b]);
        lemma_dependency_is_edge(g, order[a], order[b]);
        let e = g.edges.index_of((order[b], order[a]));
        assert(g.edges[e].0 == order[b] && g.edges[e].1 == order[a]);
    }
}

/// The finished tasks are the completed and the abandoned ones.
pub proof fn lemma_tally_terminal(tasks: Seq<TaskView>)
    ensures
        tally(tasks, TaskGroup::Completed) + tally(tasks, TaskGroup::Abandoned) <= tasks.len(),
        (forall|i: int| 0 <= i < tasks.len() ==> (#[trigger] tasks[i]).state.finished()) <==> tally(
            tasks,
            TaskGroup::Completed,
        ) + tally(tasks, TaskGroup::Abandoned) == tasks.len(),
    decreases tasks.len(),
{
    if tasks.len() > 0 {
        let rest = tasks.drop_last();
        lemma_tally_terminal(rest);
        if tasks.last().state.finished() && (forall|i: int|
            0 <= i < rest.len() ==> (#[trigger] rest[i]).state.finished()) {
            assert forall|i: int| 0 <= i < tasks.len() implies (
            #[trigger] tasks[i]).state.finished() by {
                if i < rest.len() {
                    assert(rest[i] == tasks[i]);
                }
            }
        }
        if forall|i: int| 0 <= i < tasks.len() ==> (#[trigger] tasks[i]).state.finished() {
            assert(tasks[tasks.len() - 1].state.finished());
            assert forall|i: int| 0 <= i < rest.len() implies (
            #[trigger] rest[i]).state.finished() by {
                assert(rest[i] == tasks[i]);
            }
        }
    }
}

/// How many entries are not set.
spec fn unset(flags: Seq<bool>) -> nat
    decreases flags.len(),
{
    if flags.len() == 0 {
        0
    } else {
        unset(flags.drop_last()) + if flags.last() {
            0nat
        } else {
            1nat
        }
    }
}

/// Setting an entry leaves one fewer unset.
proof fn lemma_unset(flags: Seq<bool>, i: int)
    requires
        0 <= i < flags.len(),
        !flags[i],
    ensures
        unset(flags.update(i, true)) + 1 == unset(flags),
    decreases flags.len(),
{
    let after = flags.update(i, true);
    if i == flags.len() - 1 {
        assert(after.drop_last() =~= flags.drop_last());
    } else {
        lemma_unset(flags.drop_last(), i);
        assert(after.drop_last() =~= flags.drop_last().update(i, true));
        assert(after.last() == flags.last());
    }
}

/// Whether the task at `v` was given up or waits, however indirectly, for one that was.
spec fn cut_off_at(g: GraphView, v: int) -> bool {
    exists|steps: nat| #[trigger] g.cut_off(v, steps)
}

/// A task that waits for one that is cut off is stranded.
proof fn lemma_stranded(g: GraphView, u: int, v: int)
    requires
        cut_off_at(g, u),
        g.edges.contains((u, v)),
        !g.tasks[v].state.finished(),
    ensures
        g.stranded(v),
        cut_off_at(g, v),
{
    let steps = choose|steps: nat| #[trigger] g.cut_off(u, steps);
    assert(g.edges.contains((u, v)) && g.cut_off(u, ((steps + 1) - 1) as nat));
    assert(g.cut_off(v, steps + 1));
}

/// Whether the walk from the given-up tasks has reached the one at `v`.
spec fn known(g: GraphView, blocked: Seq<int>, v: int) -> bool {
    g.tasks[v].state.given_up() || blocked.contains(v)
}

/// What holds during the walk from the given-up tasks, while the targets `reach` of
/// `current` are looked at and the first `done` of them have been.
spec fn spread(
    g: GraphView,
    seen: Seq<bool>,
    frontier: Seq<int>,
    blocked: Seq<int>,
    current: int,
    reach: Seq<int>,
    done: int,
) -> bool {
    &&& seen.len() == g.tasks.len()
    &&& forall|k: int|
        0 <= k < frontier.len() ==> 0 <= #[trigger] frontier[k] < g.tasks.len() && cut_off_at(
            g,
            frontier[k],
        )
    &&& forall|k: int|
        0 <= k < blocked.len() ==> 0 <= #[trigger] blocked[k] < g.tasks.len() && seen[blocked[k]]
            && g.stranded(blocked[k])
    &&& blocked.no_duplicates()
    &&& forall|v: int|
        0 <= v < g.tasks.len() && #[trigger] seen[v] && !g.tasks[v].state.finished()
            ==> blocked.contains(v)
    &&& forall|v: int|
        0 <= v < g.tasks.len() && (#[trigger] g.tasks[v]).state.given_up() ==> seen[v]
    &&& forall|v: int, w: int|
        v != current && known(g, blocked, v) && #[trigger] g.edges.contains((v, w))
            ==> frontier.contains(v) || seen[w]
    &&& forall|q: int| 0 <= q < done ==> seen[#[trigger] reach[q]]
}

/// Taking the last entry off the frontier makes it the current one.
proof fn lemma_spread_pop(g: GraphView, seen: Seq<bool>, frontier: Seq<int>, blocked: Seq<int>,
    reach: Seq<int>)
    requires
        spread(g, seen, frontier, blocked, -1, seq![], 0),
        frontier.len() > 0,
        in_range(g.tasks.len(), g.edges),
    ensures
        spread(g, seen, frontier.drop_last(), blocked, frontier.last(), reach, 0),
{
    let rest = frontier.drop_last();
    assert forall|v: int, w: int|
        v != frontier.last() && known(g, blocked, v) && #[trigger] g.edges.contains(
            (v, w),
        ) implies rest.contains(v) || seen[w] by {
        let e = g.edges.index_of((v, w));
        assert(g.edges[e] == (v, w));
        if frontier.contains(v) {
            let k = frontier.index_of(v);
            assert(rest[k] == v);
        }
    }
}

/// Looking at the next target: it is seen, and walked on from unless it is finished or was
/// seen before.
proof fn lemma_spread_step(
    g: GraphView,
    seen: Seq<bool>,
    frontier: Seq<int>,
    blocked: Seq<int>,
    current: int,
    reach: Seq<int>,
    done: int,
)
    requires
        spread(g, seen, frontier, blocked, current, reach, done),
        0 <= done < reach.len(),
        forall|q: int| 0 <= q < reach.len() ==> 0 <= #[trigger] reach[q] < g.tasks.len(),
        g.edges.contains((current, reach[done])),
        cut_off_at(g, current),
        in_range(g.tasks.len(), g.edges),
    ensures
        ({
            let next = reach[done];
            let wider = seen.update(next, true);
            if seen[next] {
                spread(g, seen, frontier, blocked, current, reach, done + 1)
            } else if g.tasks[next].state.finished() {
                spread(g, wider, frontier, blocked, current, reach, done + 1)
            } else {
                spread(
                    g,
                    wider,
                    frontier.push(next),
                    blocked.push(next),
                    current,
                    reach,
                    done + 1,
                )
            }
        }),
{
    let next = reach[done];
    let wider = seen.update(next, true);
    if !seen[next] {
        assert forall|v: int, w: int| #[trigger] g.edges.contains((v, w)) && seen[w] implies wider[w] by {
            let e = g.edges.index_of((v, w));
            assert(g.edges[e] == (v, w));
        }
        if !g.tasks[next].state.finished() {
            lemma_stranded(g, current, next);
            let more = blocked.push(next);
            let ahead = frontier.push(next);
            assert(!blocked.contains(next)) by {
                if blocked.contains(next) {
                    let k = blocked.index_of(next);
                    assert(seen[blocked[k]]);
                }
            }
            assert forall|v: int|
                0 <= v < g.tasks.len() && #[trigger] wider[v]
                    && !g.tasks[v].state.finished() implies more.contains(v) by {
                if v == next {
                    assert(more[blocked.len() as int] == v);
                } else {
                    assert(seen[v]);
                    let k = blocked.index_of(v);
                    assert(more[k] == v);
                }
            }
            assert forall|v: int, w: int|
                v != current && known(g, more, v) && #[trigger] g.edges.contains(
                    (v, w),
                ) implies ahead.contains(v) || wider[w] by {
                if v == next {
                    assert(ahead[frontier.len() as int] == v);
                } else {
                    if more.contains(v) {
                        let k = more.index_of(v);
                        assert(blocked[k] == v);
                    }
                    assert(known(g, blocked, v));
                    if frontier.contains(v) {
                        let k = frontier.index_of(v);
                        assert(ahead[k] == v);
                    }
                }
            }
        }
    }
}

/// Once every target has been looked at, nothing is left open but the frontier.
proof fn lemma_spread_done(
    g: GraphView,
    seen: Seq<bool>,
    frontier: Seq<int>,
    blocked: Seq<int>,
    current: int,
)
    requires
        spread(
            g,
            seen,
            frontier,
            blocked,
            current,
            targets(g.edges, current).reverse(),
            targets(g.edges, current).len() as int,
        ),
    ensures
        spread(g, seen, frontier, blocked, -1, seq![], 0),
{
    let to = targets(g.edges, current);
    assert forall|v: int, w: int|
        v != -1 && known(g, blocked, v) && #[trigger] g.edges.contains(
            (v, w),
        ) implies frontier.contains(v) || seen[w] by {
        if v == current {
            lemma_targets_contains(g.edges, current, w);
            let k = to.index_of(w);
            assert(to[k] == w);
            let q = to.len() - 1 - k;
            assert(to.reverse()[q] == w);
        }
    }
}

/// When the frontier is empty, everything stranded has been found.
proof fn lemma_spread_complete(
    g: GraphView,
    seen: Seq<bool>,
    blocked: Seq<int>,
    v: int,
    steps: nat,
)
    requires
        spread(g, seen, seq![], blocked, -1, seq![], 0),
        in_range(g.tasks.len(), g.edges),
        g.cut_off(v, steps),
        steps >= 1,
    ensures
        blocked.contains(v),
    decreases steps,
{
    let u = choose|u: int| #[trigger]
        g.edges.contains((u, v)) && g.cut_off(u, (steps - 1) as nat);
    let e = g.edges.index_of((u, v));
    assert(g.edges[e] == (u, v));
    if steps > 1 {
        lemma_spread_complete(g, seen, blocked, u, (steps - 1) as nat);
    }
    assert(known(g, blocked, u));
    assert(seen[v]);
}

/// A job's tasks and the dependencies between them.
///
/// Edges point from dependency to dependent, so a topological order yields
/// dependencies first.
pub struct TaskGraph {
    job_id: JobId,
    topology: petgraph::graph::Graph<u128, (), petgraph::Directed, u32>,
    index: HashMap<u128, usize>,
    nodes: Vec<TaskNode>,
}

impl View for TaskGraph {
    type V = GraphView;

    closed spec fn view(&self) -> GraphView {
        GraphView {
            job_id: self.job_id,
            tasks: task_views(self.nodes@),
            edges: graph_edges(self.topology),
        }
    }
}

impl TaskGraph {
    /// Whether the parts of the representation agree with each other.
    closed spec fn agrees(&self) -> bool {
        &&& graph_labels(self.topology).len() == self.nodes@.len() <= u32::MAX
        &&& forall|i: int|
            0 <= i < self.nodes@.len() ==> {
                &&& graph_labels(self.topology)[i] == (#[trigger] self.nodes@[i]).id.value
                &&& self.index@.contains_key(self.nodes@[i].id.value)
                &&& self.index@[self.nodes@[i].id.value] == i
            }
        &&& forall|value: u128| #[trigger]
            self.index@.contains_key(value) ==> self.index@[value] < self.nodes@.len()
                && self.nodes@[self.index@[value] as int].id.value == value
    }

    /// What holds of every graph.
    pub closed spec fn wf(&self) -> bool {
        self.agrees() && self@.consistent()
    }

    /// A well-formed graph is consistent.
    pub proof fn lemma_wf(&self)
        requires
            self.wf(),
        ensures
            self@.consistent(),
            self@.tasks.len() <= u32::MAX,
    {
    }

    /// Replacing one node keeps the graph well-formed as long as its name and dependencies
    /// stay.
    proof fn lemma_replaced(self, after: TaskGraph, i: int, node: TaskNode)
        requires
            self.wf(),
            0 <= i < self.nodes@.len(),
            after.job_id == self.job_id,
            after.topology == self.topology,
            after.index == self.index,
            after.nodes@ == self.nodes@.update(i, node),
        ensures
            after@ == (GraphView { tasks: self@.tasks.update(i, node@), ..self@ }),
            node@.id == self@.tasks[i].id && node@.dependencies == self@.tasks[i].dependencies
                ==> after.wf(),
    {
        assert(after@.tasks =~= self@.tasks.update(i, node@));
        if node@.id == self@.tasks[i].id && node@.dependencies == self@.tasks[i].dependencies {
            assert forall|k: int| 0 <= k < self@.tasks.len() implies (#[trigger] after@.tasks[k]).id
                == self@.tasks[k].id && after@.tasks[k].dependencies
                == self@.tasks[k].dependencies by {}
            lemma_same_names(self@, after@);
            assert forall|k: int| 0 <= k < after@.tasks.len() implies (
            #[trigger] after@.tasks[k]).dependencies == after@.ids_of(
                sources(after@.edges, k),
            ) by {
                lemma_sources_in_range(self@, k);
                assert(self@.tasks[k].dependencies == self@.ids_of(sources(self@.edges, k)));
            }
            assert forall|k: int| 0 <= k < after.nodes@.len() implies {
                &&& graph_labels(after.topology)[k] == (#[trigger] after.nodes@[k]).id.value
                &&& after.index@.contains_key(after.nodes@[k].id.value)
                &&& after.index@[after.nodes@[k].id.value] == k
            } by {
                assert(self@.tasks[k] == self.nodes@[k]@);
                assert(graph_labels(self.topology)[k] == self.nodes@[k].id.value);
            }
            assert forall|value: u128| #[trigger] after.index@.contains_key(value) implies
                after.index@[value] < after.nodes@.len()
                && after.nodes@[after.index@[value] as int].id.value == value by {
                assert(self.index@.contains_key(value));
                assert(self@.tasks[i] == self.nodes@[i]@);
            }
            assert(after.agrees());
        }
    }

    /// An empty graph for `job_id`.
    pub fn new(job_id: JobId) -> (r: Self)
        ensures
            r.wf(),
            r@ == GraphView::empty(job_id),
    {
        let r = TaskGraph {
            job_id,
            topology: new_graph(),
            index: HashMap::new(),
            nodes: Vec::new(),
        };
        proof {
            assert(r@.tasks =~= seq![]);
            assert(r@.edges =~= seq![]);
            assert(is_topological(seq![], 0, r@.edges));
        }
        r
    }

    /// The job this graph belongs to.
    pub fn job_id(&self) -> (r: JobId)
        ensures
            r == self@.job_id,
    {
        self.job_id
    }

    /// Number of tasks.
    pub fn len(&self) -> (r: usize)
        ensures
            r == self@.tasks.len(),
    {
        self.nodes.len()
    }

    /// Whether the graph has no tasks.
    pub fn is_empty(&self) -> (r: bool)
        ensures
            r == (self@.tasks.len() == 0),
    {
        self.nodes.len() == 0
    }

    /// The position of a task.
    fn find(&self, id: TaskId) -> (r: Option<usize>)
        requires
            self.wf(),
        ensures
            match r {
                Some(i) => self@.has(id) && i == self@.at(id) && self@.stands(id, i as int),
                None => !self@.has(id),
            },
    {
        match self.index.get(&id.value) {
            Some(i) => {
                proof {
                    assert(self.nodes@[*i as int].id.value == id.value);
                    assert(self@.tasks[*i as int] == self.nodes@[*i as int]@);
                    assert(self@.stands(id, *i as int));
                    lemma_at_unique(self@, id, *i as int);
                }
                Some(*i)
            },
            None => {
                proof {
                    if self@.has(id) {
                        let i = self@.at(id);
                        assert(self@.stands(id, i));
                        assert(self@.tasks[i] == self.nodes@[i]@);
                        assert(self.index@.contains_key(self.nodes@[i].id.value));
                    }
                }
                None
            },
        }
    }

    /// The position of a task, or a typed error.
    fn index_of(&self, task: TaskId) -> (r: Result<usize, SwarmError>)
        requires
            self.wf(),
        ensures
            match r {
                Ok(i) => self@.has(task) && i == self@.at(task) && self@.stands(task, i as int),
                Err(error) => !self@.has(task) && error@ == (ErrorView::NotFound {
                    kind: "task"@,
                    id: task.text(),
                }),
            },
    {
        match self.find(task) {
            Some(i) => Ok(i),
            None => Err(SwarmError::NotFound { kind: "task", id: task.to_string() }),
        }
    }

    /// Look up a task.
    pub fn get(&self, id: TaskId) -> (r: Option<&TaskNode>)
        requires
            self.wf(),
        ensures
            match r {
                Some(node) => self@.has(id) && node@ == self@.task(id),
                None => !self@.has(id),
            },
    {
        match self.find(id) {
            Some(i) => Some(&self.nodes[i]),
            None => None,
        }
    }

    /// Look up a task, or fail with a typed error.
    pub fn require(&self, id: TaskId) -> (r: Result<&TaskNode, SwarmError>)
        requires
            self.wf(),
        ensures
            match r {
                Ok(node) => self@.has(id) && node@ == self@.task(id),
                Err(error) => !self@.has(id) && error@ == (ErrorView::NotFound {
                    kind: "task"@,
                    id: id.text(),
                }),
            },
    {
        match self.index_of(id) {
            Ok(i) => Ok(&self.nodes[i]),
            Err(error) => Err(error),
        }
    }

    /// Look up a task for mutation of non-lifecycle fields.
    ///
    /// Use [`Self::set_state`] to change `state`; it is the only path that produces an
    /// audit record and validates the transition. The graph stays well-formed as long as the
    /// name and the dependencies of the task stay as they are.
    pub fn get_mut(&mut self, id: TaskId) -> (r: Option<&mut TaskNode>)
        requires
            old(self).wf(),
        ensures
            match r {
                Some(node) => {
                    &&& old(self)@.has(id)
                    &&& node@ == old(self)@.task(id)
                    &&& final(self)@ == (GraphView {
                        tasks: old(self)@.tasks.update(old(self)@.at(id), final(node)@),
                        ..old(self)@
                    })
                    &&& final(node)@.id == id && final(node)@.dependencies == old(self)@.task(
                        id,
                    ).dependencies ==> final(self).wf()
                },
                None => !old(self)@.has(id) && *final(self) == *old(self),
            },
    {
        match self.find(id) {
            Some(i) => {
                let ghost before = *self;
                let node = &mut self.nodes[i];
                proof {
                    before.lemma_replaced(*after_borrow(self), i as int, *final(node));
                }
                Some(node)
            },
            None => None,
        }
    }

    /// All tasks, in the order in which they were added.
    pub fn nodes(&self) -> (r: &Vec<TaskNode>)
        ensures
            task_views(r@) == self@.tasks,
    {
        &self.nodes
    }

    /// Add a task. Every dependency must already be present.
    ///
    /// Requiring dependencies to pre-exist makes a cycle impossible here, which is why
    /// this is the cheap path; [`Self::add_dependency`] is the one that must check.
    pub fn insert(&mut self, node: TaskNode) -> (r: Result<TaskId, SwarmError>)
        requires
            old(self).wf(),
            old(self)@.has_room(node@.dependencies.len()),
        ensures
            final(self).wf(),
            match r {
                Ok(id) => {
                    &&& id == node@.id
                    &&& old(self)@.insert_refusal(node@) is None
                    &&& final(self)@ == old(self)@.inserted(node@)
                },
                Err(error) => {
                    &&& old(self)@.insert_refusal(node@) == Some(error@)
                    &&& final(self)@ == old(self)@
                },
            },
    {
        if self.find(node.id).is_some() {
            let mut message = "task ".to_owned();
            message.append(node.id.to_string().as_str());
            message.append(" is already in the graph");
            return Err(SwarmError::Internal(message));
        }
        let ghost ids = node.dependencies@;
        let ghost g = self@;
        let mut from: Vec<usize> = Vec::new();
        assert(ids.take(0) =~= seq![]);
        for k in 0..node.dependencies.len()
            invariant
                *self == *old(self),
                self.wf(),
                g == self@,
                ids == node.dependencies@,
                !g.has(node.id),
                g.first_missing(ids.take(k as int)) is None,
                from@.len() == k,
                forall|m: int|
                    0 <= m < k ==> (#[trigger] from@[m]) == g.at(ids[m]) && from@[m]
                        < g.tasks.len(),
        {
            assert(ids.take(k + 1).drop_last() =~= ids.take(k as int));
            match self.find(node.dependencies[k]) {
                Some(at) => {
                    from.push(at);
                },
                None => {
                    proof {
                        lemma_first_missing_stays(g, ids, k + 1);
                    }
                    return Err(
                        SwarmError::UnknownDependency {
                            task: node.id.to_string(),
                            dependency: node.dependencies[k].to_string(),
                        },
                    );
                },
            }
        }
        proof {
            assert(ids.take(ids.len() as int) =~= ids);
            lemma_first_missing(g, ids);
            lemma_inserted_consistent(g, node@);
        }
        let id = node.id;
        let ghost before = *self;
        let at: usize = add_node(&mut self.topology, id.value);
        let ghost positions = g.positions_of(ids);
        for k in 0..from.len()
            invariant
                at == g.tasks.len(),
                from@.len() == ids.len() == positions.len(),
                forall|m: int|
                    0 <= m < from@.len() ==> (#[trigger] from@[m]) == positions[m] && from@[m]
                        < g.tasks.len(),
                g.edges.len() + ids.len() <= u32::MAX,
                graph_labels(self.topology) == graph_labels(before.topology).push(id.value),
                graph_labels(self.topology).len() == g.tasks.len() + 1,
                graph_edges(self.topology) =~= g.edges + fan_in(
                    positions.take(k as int),
                    at as int,
                ),
                self.index == before.index,
                self.nodes == before.nodes,
                self.job_id == before.job_id,
        {
            add_edge(&mut self.topology, from[k], at);
        }
        assert(positions.take(positions.len() as int) =~= positions);
        self.index.insert(id.value, at);
        self.nodes.push(node);
        proof {
            assert(self@.tasks =~= g.tasks.push(node@));
            assert(self@ == g.inserted(node@));
            assert forall|i: int| 0 <= i < self.nodes@.len() implies {
                &&& graph_labels(self.topology)[i] == (#[trigger] self.nodes@[i]).id.value
                &&& self.index@.contains_key(self.nodes@[i].id.value)
                &&& self.index@[self.nodes@[i].id.value] == i
            } by {
                if i < at {
                    assert(self.nodes@[i] == before.nodes@[i]);
                    assert(graph_labels(before.topology)[i] == before.nodes@[i].id.value);
                    if before.nodes@[i].id.value == id.value {
                        assert(g.tasks[i] == before.nodes@[i]@);
                        assert(g.stands(id, i));
                    }
                }
            }
            assert forall|value: u128| #[trigger] self.index@.contains_key(value) implies
                self.index@[value] < self.nodes@.len()
                && self.nodes@[self.index@[value] as int].id.value == value by {
                if value != id.value {
                    assert(before.index@.contains_key(value));
                }
            }
            assert(self.agrees());
        }
        Ok(id)
    }

    /// Make `task` depend on `depends_on`, refusing the edge if it would create a cycle.
    ///
    /// This is the edge an agent adds when it discovers work the plan did not
    /// anticipate (Adaptive strategy), so it is also the one place a running job could
    /// deadlock itself. The edge is rolled back before the error is returned.
    pub fn add_dependency(&mut self, task: TaskId, depends_on: TaskId) -> (r: Result<
        (),
        SwarmError,
    >)
        requires
            old(self).wf(),
            old(self)@.edges.len() < u32::MAX,
        ensures
            final(self).wf(),
            match r {
                Ok(()) => {
                    &&& old(self)@.dependency_refusal(task, depends_on) is None
                    &&& final(self)@ == old(self)@.with_dependency(task, depends_on)
                    &&& task != depends_on
                    &&& !old(self)@.waits_for(depends_on, task)
                },
                Err(error) => {
                    &&& old(self)@.dependency_refusal(task, depends_on) == Some(error@)
                    &&& final(self)@ == old(self)@
                    &&& old(self)@.has(task) && old(self)@.has(depends_on) ==> old(
                        self,
                    )@.waits_for(depends_on, task)
                },
            },
    {
        let task_at: usize = match self.index_of(task) {
            Ok(at) => at,
            Err(error) => {
                return Err(error);
            },
        };
        let dependency_at: usize = match self.index_of(depends_on) {
            Ok(at) => at,
            Err(error) => {
                return Err(error);
            },
        };
        let ghost g = self@;
        let ghost t = task_at as int;
        let ghost d = dependency_at as int;
        if task == depends_on {
            proof {
                lemma_reaches_step(g.edges, t, t);
            }
            return Err(SwarmError::CyclicGraph { task: task.to_string() });
        }
        if has_task(&self.nodes[task_at].dependencies, depends_on) {
            proof {
                lemma_dependency_is_edge(g, t, d);
                lemma_no_way_back(g, t, d);
            }
            return Ok(());
        }
        let ghost before = *self;
        add_edge(&mut self.topology, dependency_at, task_at);
        proof {
            lemma_edge_closes_cycle(g.tasks.len(), g.edges, (d, t));
            lemma_linked_in_range(g, t, d);
        }
        match toposort(&self.topology) {
            Ok(order) => {
                proof {
                    assert(is_topological(
                        ints(order@),
                        g.tasks.len(),
                        g.edges.push((d, t)),
                    ));
                    assert(sortable(g.tasks.len(), g.edges.push((d, t))));
                }
            },
            Err(node) => {
                proof {
                    assert(on_cycle(g.edges.push((d, t)), node as int));
                }
                let reported = self.nodes[node].id;
                remove_edge(&mut self.topology, dependency_at, task_at);
                proof {
                    assert(g.edges.push((d, t)).drop_last() =~= g.edges);
                    assert(self@ == g);
                    assert(g.tasks[node as int] == before.nodes@[node as int]@);
                }
                return Err(SwarmError::CyclicGraph { task: reported.to_string() });
            },
        }
        let ghost middle = self.nodes@;
        self.nodes[task_at].dependencies.push(depends_on);
        proof {
            lemma_linked_consistent(g, t, d);
            assert(g.tasks[d].id == depends_on);
            assert(self@.tasks =~= g.linked(t, d).tasks);
            assert(self@ == g.linked(t, d));
            assert forall|i: int| 0 <= i < self.nodes@.len() implies {
                &&& graph_labels(self.topology)[i] == (#[trigger] self.nodes@[i]).id.value
                &&& self.index@.contains_key(self.nodes@[i].id.value)
                &&& self.index@[self.nodes@[i].id.value] == i
            } by {
                assert(graph_labels(before.topology)[i] == before.nodes@[i].id.value);
                assert(self.nodes@[i].id == before.nodes@[i].id);
            }
            assert forall|value: u128| #[trigger] self.index@.contains_key(value) implies
                self.index@[value] < self.nodes@.len()
                && self.nodes@[self.index@[value] as int].id.value == value by {
                assert(before.index@.contains_key(value));
                assert(before.nodes@[before.index@[value] as int].id.value == value);
            }
            assert(self.agrees());
        }
        Ok(())
    }


    /// Insert `node` and make each task in `dependents` wait for it.
    ///
    /// The whole insertion is atomic: if any edge would cycle, the graph is left as it was.
    pub fn insert_dynamic(&mut self, node: TaskNode, dependents: &[TaskId]) -> (r: Result<
        TaskId,
        SwarmError,
    >)
        requires
            old(self).wf(),
            old(self)@.has_room(node@.dependencies.len() + dependents@.len()),
        ensures
            final(self).wf(),
            match r {
                Ok(id) => {
                    &&& id == node@.id
                    &&& old(self)@.inserted_before(node@, dependents@) == Ok::<
                        GraphView,
                        ErrorView,
                    >(final(self)@)
                },
                Err(error) => {
                    &&& old(self)@.inserted_before(node@, dependents@) == Err::<
                        GraphView,
                        ErrorView,
                    >(error@)
                    &&& final(self)@ == old(self)@
                },
            },
    {
        let ghost g = self@;
        let ghost task = node@;
        let id = match self.insert(node) {
            Ok(id) => id,
            Err(error) => {
                return Err(error);
            },
        };
        let ghost first = self@;
        proof {
            lemma_first_missing(g, task.dependencies);
            lemma_inserted_is_grown(g, task);
            assert(dependents@.take(0) =~= seq![]);
        }
        for k in 0..dependents.len()
            invariant
                self.wf(),
                g.consistent(),
                task == node@,
                id == task.id,
                !g.has(id),
                g == old(self)@,
                first == g.inserted(task),
                g.insert_refusal(task) is None,
                first.link_each(dependents@.take(k as int), id) == Ok::<GraphView, ErrorView>(
                    self@,
                ),
                grown(g, self@, id),
                self@.edges.len() <= g.edges.len() + task.dependencies.len() + k,
                g.edges.len() + task.dependencies.len() + dependents@.len() <= u32::MAX,
        {
            let ghost h = self@;
            let dependent = dependents[k];
            proof {
                assert(dependents@.take(k + 1).drop_last() =~= dependents@.take(k as int));
                assert(dependents@.take(k + 1).last() == dependent);
            }
            match self.add_dependency(dependent, id) {
                Ok(()) => {
                    proof {
                        lemma_linked_is_grown(g, h, id, dependent);
                    }
                },
                Err(error) => {
                    proof {
                        lemma_link_failure_stays(first, dependents@, id, k + 1);
                    }
                    self.forget_last(id, Ghost(g));
                    return Err(error);
                },
            }
        }
        assert(dependents@.take(dependents@.len() as int) =~= dependents@);
        Ok(id)
    }

    /// Take back the task that was added last, and every edge to and from it.
    fn forget_last(&mut self, id: TaskId, Ghost(g): Ghost<GraphView>)
        requires
            old(self).wf(),
            g.consistent(),
            !g.has(id),
            grown(g, old(self)@, id),
        ensures
            final(self).wf(),
            final(self)@ == g,
    {
        let ghost before = *self;
        let n: usize = self.nodes.len() - 1;
        for i in 0..n
            invariant
                g.consistent(),
                !g.has(id),
                grown(g, before@, id),
                n == g.tasks.len(),
                before.nodes@.len() == n + 1,
                self.nodes@.len() == n + 1,
                self.job_id == before.job_id,
                self.topology == before.topology,
                self.index == before.index,
                forall|j: int| 0 <= j < i ==> (#[trigger] self.nodes@[j])@ == g.tasks[j],
                forall|j: int| i <= j <= n ==> #[trigger] self.nodes@[j] == before.nodes@[j],
        {
            assert(self.nodes@[i as int] == before.nodes@[i as int]);
            assert(before@.tasks[i as int] == before.nodes@[i as int]@);
            let count: usize = self.nodes[i].dependencies.len();
            if count > 0 && self.nodes[i].dependencies[count - 1] == id {
                proof {
                    if before@.tasks[i as int] == g.tasks[i as int] {
                        assert(g.tasks[i as int].dependencies.last() == id);
                        assert(g.tasks[i as int].dependencies.contains(id));
                        lemma_dependencies_are_tasks(g, i as int, id);
                    }
                }
                let ghost longer = self.nodes@[i as int].dependencies@;
                self.nodes[i].dependencies.pop();
                proof {
                    assert(self.nodes@[i as int].dependencies@ =~= longer.drop_last());
                    assert(longer =~= g.tasks[i as int].dependencies.push(id));
                    assert(longer.drop_last() =~= g.tasks[i as int].dependencies);
                    assert(self.nodes@[i as int]@ == g.tasks[i as int]);
                }
            } else {
                proof {
                    if before@.tasks[i as int] != g.tasks[i as int] {
                        assert(self.nodes@[i as int].dependencies@.last() == id);
                    }
                }
            }
        }
        self.nodes.pop();
        self.index.remove(&id.value);
        remove_node(&mut self.topology, n);
        proof {
            lemma_grown_edges(g, before@, id);
            assert(self@.tasks =~= g.tasks);
            assert(before@.tasks[n as int] == before.nodes@[n as int]@);
            assert forall|i: int| 0 <= i < self.nodes@.len() implies {
                &&& graph_labels(self.topology)[i] == (#[trigger] self.nodes@[i]).id.value
                &&& self.index@.contains_key(self.nodes@[i].id.value)
                &&& self.index@[self.nodes@[i].id.value] == i
            } by {
                assert(graph_labels(before.topology)[i] == before.nodes@[i].id.value);
                assert(before@.tasks[i] == before.nodes@[i]@);
                assert(self.nodes@[i]@ == g.tasks[i]);
                if self.nodes@[i].id == id {
                    assert(g.stands(id, i));
                }
            }
            assert forall|value: u128| #[trigger] self.index@.contains_key(value) implies
                self.index@[value] < self.nodes@.len()
                && self.nodes@[self.index@[value] as int].id.value == value by {
                assert(before.index@.contains_key(value));
                let i = before.index@[value] as int;
                assert(before@.tasks[i] == before.nodes@[i]@);
                if i < n {
                    assert(self.nodes@[i]@ == g.tasks[i]);
                }
            }
            assert(self.agrees());
        }
    }

    /// Detach a task from everything it waits for, and say what that was, youngest edge
    /// first.
    fn detach(&mut self, at: usize) -> (r: Vec<TaskId>)
        requires
            old(self).wf(),
            at < old(self)@.tasks.len(),
        ensures
            final(self).wf(),
            final(self)@ == old(self)@.detached(at as int),
            r@ == old(self)@.tasks[at as int].dependencies.reverse(),
    {
        let ghost before = *self;
        let ghost g = self@;
        let ghost t = at as int;
        let incoming = neighbors(&self.topology, at, true);
        let mut inherited: Vec<TaskId> = Vec::new();
        let ghost list = sources(g.edges, t);
        proof {
            lemma_sources_in_range(g, t);
            assert(ints(incoming@).len() == incoming@.len());
            assert(g.tasks[t].dependencies == g.ids_of(list));
            assert(list.take(list.len() as int) =~= list);
        }
        for k in 0..incoming.len()
            invariant
                g == before@,
                before.wf(),
                self.nodes == before.nodes,
                self.index == before.index,
                self.job_id == before.job_id,
                graph_labels(self.topology) == graph_labels(before.topology),
                t == at < g.tasks.len(),
                list == sources(g.edges, t),
                ints(incoming@) == list.reverse(),
                incoming@.len() == list.len(),
                forall|m: int| 0 <= m < list.len() ==> 0 <= #[trigger] list[m] < g.tasks.len(),
                inherited@.len() == k,
                forall|m: int|
                    0 <= m < k ==> #[trigger] inherited@[m] == g.tasks[list[list.len() - 1
                        - m]].id,
                sources(graph_edges(self.topology), t) == list.take(list.len() - k),
                not_into(graph_edges(self.topology), t) == not_into(g.edges, t),
        {
            proof {
                assert(ints(incoming@)[k as int] == list[list.len() - 1 - k]);
                assert(list.take(list.len() - k).last() == list[list.len() - 1 - k]);
                assert(list.take(list.len() - k).drop_last() =~= list.take(list.len() - k - 1));
                lemma_remove_youngest_source(
                    graph_edges(self.topology),
                    list[list.len() - 1 - k],
                    t,
                );
                assert(g.tasks[incoming@[k as int] as int]
                    == self.nodes@[incoming@[k as int] as int]@);
            }
            inherited.push(self.nodes[incoming[k]].id);
            remove_edge(&mut self.topology, incoming[k], at);
        }
        self.nodes[at].dependencies = Vec::new();
        proof {
            let left = graph_edges(self.topology);
            assert(list.take(0) =~= Seq::<int>::empty());
            assert forall|m: int| 0 <= m < left.len() implies leads_elsewhere(t)(
                #[trigger] left[m],
            ) by {
                if left[m].1 == t {
                    assert(left.contains((left[m].0, t)));
                    lemma_sources_contains(left, t, left[m].0);
                }
            }
            lemma_filter_everything(left, leads_elsewhere(t));
            assert(self.nodes@[t].dependencies@ =~= seq![]);
            assert(self@.tasks =~= g.detached(t).tasks);
            assert(self@ == g.detached(t));
            lemma_detached_consistent(g, t);
            assert forall|i: int| 0 <= i < self.nodes@.len() implies {
                &&& graph_labels(self.topology)[i] == (#[trigger] self.nodes@[i]).id.value
                &&& self.index@.contains_key(self.nodes@[i].id.value)
                &&& self.index@[self.nodes@[i].id.value] == i
            } by {
                assert(graph_labels(before.topology)[i] == before.nodes@[i].id.value);
                assert(self.nodes@[i].id == before.nodes@[i].id);
            }
            assert forall|value: u128| #[trigger] self.index@.contains_key(value) implies
                self.index@[value] < self.nodes@.len()
                && self.nodes@[self.index@[value] as int].id.value == value by {
                assert(before.index@.contains_key(value));
                assert(before.nodes@[before.index@[value] as int].id.value == value);
            }
            assert(self.agrees());
            assert(inherited@ =~= g.tasks[t].dependencies.reverse());
        }
        inherited
    }

    /// Replace `task`'s work with `children`, turning `task` into their join point.
    ///
    /// Used when a task turns out to be too large: the children inherit the original's
    /// dependencies, and the original now depends on the children. This preserves both
    /// acyclicity and every downstream edge, so the rest of the DAG is untouched. A child
    /// whose name is taken stops the split where it stands.
    pub fn split(&mut self, task: TaskId, children: Vec<TaskNode>) -> (r: Result<
        Vec<TaskId>,
        SwarmError,
    >)
        requires
            old(self).wf(),
            old(self)@.tasks.len() + children@.len() <= u32::MAX,
            old(self)@.has(task) ==> old(self)@.edges.len() + children@.len() * (old(self)@.task(
                task,
            ).dependencies.len() + 1) <= u32::MAX,
        ensures
            final(self).wf(),
            children@.len() == 0 ==> final(self)@ == old(self)@ && (r matches Err(error)
                && error@ == ErrorView::Validation(
                "splitting a task requires at least one child"@,
            )),
            children@.len() > 0 && !old(self)@.has(task) ==> final(self)@ == old(self)@ && (
            r matches Err(error) && error@ == (ErrorView::NotFound {
                kind: "task"@,
                id: task.text(),
            })),
            children@.len() > 0 && old(self)@.has(task) ==> {
                let (after, refusal) = old(self)@.split_into(task, task_views(children@));
                &&& final(self)@ == after
                &&& match r {
                    Ok(ids) => refusal is None && ids@ == Seq::new(
                        children@.len(),
                        |k: int| children@[k].id,
                    ),
                    Err(error) => refusal == Some(error@),
                }
            },
    {
        if children.len() == 0 {
            return Err(
                SwarmError::Validation("splitting a task requires at least one child".to_owned()),
            );
        }
        let at: usize = match self.index_of(task) {
            Ok(at) => at,
            Err(error) => {
                return Err(error);
            },
        };
        let ghost g = self@;
        let ghost t = at as int;
        let inherited = self.detach(at);
        let ghost first = self@;
        let ghost plan = task_views(children@);
        let ghost m = inherited@.len();
        let total: usize = children.len();
        proof {
            lemma_detached_consistent(g, t);
            lemma_inherited(g, t);
            assert(plan.take(0) =~= seq![]);
        }
        let mut child_ids: Vec<TaskId> = Vec::new();
        let mut rest = children;
        let mut k: usize = 0;
        while k < total
            invariant
                k <= total,
                total == plan.len() == children@.len(),
                plan == task_views(children@),
                g == old(self)@,
                g.has(task),
                t == g.at(task),
                first == g.detached(t),
                inherited@ == g.task(task).dependencies.reverse(),
                m == inherited@.len(),
                self.wf(),
                0 <= t < self@.tasks.len(),
                self@.stands(task, t),
                self@.has_all(inherited@),
                reaches_none(self@, t, inherited@),
                first.joined_by(task, inherited@, plan.take(k as int)) == (
                    self@,
                    None::<ErrorView>,
                ),
                self@.tasks.len() == g.tasks.len() + k,
                self@.edges.len() <= g.edges.len() + k * (m + 1),
                g.tasks.len() + total <= u32::MAX,
                g.edges.len() + total * (m + 1) <= u32::MAX,
                child_ids@.len() == k,
                forall|j: int| 0 <= j < k ==> #[trigger] child_ids@[j] == children@[j].id,
                rest@ == children@.skip(k as int),
            decreases total - k,
        {
            let ghost h = self@;
            let mut child = rest.remove(0);
            proof {
                assert(rest@ =~= children@.skip(k + 1));
                assert(plan[k as int] == children@[k as int]@);
                assert(plan.take(k + 1).drop_last() =~= plan.take(k as int));
                assert(plan.take(k + 1).last() == plan[k as int]);
                assert((k + 1) * (m + 1) == k * (m + 1) + m + 1) by (nonlinear_arith);
                assert((k + 1) * (m + 1) <= total * (m + 1)) by (nonlinear_arith)
                    requires
                        k + 1 <= total,
                ;
            }
            child.dependencies = copy_ids(&inherited);
            let ghost entry = child@;
            assert(entry == (TaskView { dependencies: inherited@, ..plan[k as int] }));
            let child_id = match self.insert(child) {
                Ok(id) => id,
                Err(error) => {
                    proof {
                        lemma_join_failure_stays(first, task, inherited@, plan, k + 1);
                    }
                    return Err(error);
                },
            };
            proof {
                lemma_first_missing(h, entry.dependencies);
                lemma_inserted_consistent(h, entry);
                lemma_child_joins(h, t, entry);
                assert(self@.stands(task, t));
                lemma_at_unique(self@, task, t);
            }
            let ghost wide = self@;
            match self.add_dependency(task, child_id) {
                Ok(()) => {},
                Err(error) => {
                    assert(false);
                    return Err(error);
                },
            }
            proof {
                lemma_joined_child(h, wide, self@, t, task, entry);
            }
            child_ids.push(child_id);
            k += 1;
        }
        proof {
            assert(plan.take(total as int) =~= plan);
            assert(child_ids@ =~= Seq::new(children@.len(), |j: int| children@[j].id));
        }
        Ok(child_ids)
    }

    /// The tasks at some positions.
    fn names(&self, positions: &Vec<usize>) -> (r: Vec<TaskId>)
        requires
            forall|k: int|
                0 <= k < positions@.len() ==> #[trigger] positions@[k] < self@.tasks.len(),
        ensures
            r@ == self@.ids_of(ints(positions@)),
    {
        let mut r: Vec<TaskId> = Vec::new();
        for k in 0..positions.len()
            invariant
                forall|m: int|
                    0 <= m < positions@.len() ==> #[trigger] positions@[m] < self@.tasks.len(),
                r@.len() == k,
                forall|m: int|
                    0 <= m < k ==> #[trigger] r@[m] == self@.tasks[positions@[m] as int].id,
        {
            assert(positions@[k as int] < self@.tasks.len());
            assert(self@.tasks[positions@[k as int] as int]
                == self.nodes@[positions@[k as int] as int]@);
            r.push(self.nodes[positions[k]].id);
        }
        assert(r@ =~= self@.ids_of(ints(positions@)));
        r
    }

    /// Direct dependencies of `task`, the one added last first.
    pub fn dependencies(&self, task: TaskId) -> (r: Vec<TaskId>)
        requires
            self.wf(),
        ensures
            r@ == if self@.has(task) {
                self@.task(task).dependencies.reverse()
            } else {
                seq![]
            },
    {
        match self.find(task) {
            Some(at) => {
                let list = neighbors(&self.topology, at, true);
                proof {
                    lemma_sources_in_range(self@, at as int);
                    let from = sources(self@.edges, at as int);
                    assert(ints(list@).len() == list@.len());
                    assert forall|k: int| 0 <= k < list@.len() implies #[trigger] list@[k]
                        < self@.tasks.len() by {
                        assert(ints(list@)[k] == from.reverse()[k]);
                        assert(from.reverse()[k] == from[from.len() - 1 - k]);
                    }
                    assert(self@.tasks[at as int].dependencies == self@.ids_of(from));
                    assert(self@.ids_of(from.reverse()) =~= self@.ids_of(from).reverse());
                }
                self.names(&list)
            },
            None => {
                let r: Vec<TaskId> = Vec::new();
                assert(r@ =~= seq![]);
                r
            },
        }
    }

    /// Tasks that depend directly on `task`, the one that came to depend on it last first.
    pub fn dependents(&self, task: TaskId) -> (r: Vec<TaskId>)
        requires
            self.wf(),
        ensures
            r@ == if self@.has(task) {
                self@.ids_of(targets(self@.edges, self@.at(task)).reverse())
            } else {
                seq![]
            },
    {
        match self.find(task) {
            Some(at) => {
                let list = neighbors(&self.topology, at, false);
                proof {
                    lemma_targets_in_range(self@, at as int);
                    let to = targets(self@.edges, at as int);
                    assert(ints(list@).len() == list@.len());
                    assert forall|k: int| 0 <= k < list@.len() implies #[trigger] list@[k]
                        < self@.tasks.len() by {
                        assert(ints(list@)[k] == to.reverse()[k]);
                        assert(to.reverse()[k] == to[to.len() - 1 - k]);
                    }
                }
                self.names(&list)
            },
            None => {
                let r: Vec<TaskId> = Vec::new();
                assert(r@ =~= seq![]);
                r
            },
        }
    }

    /// The positions of the tasks in dependency-first order.
    fn sorted_positions(&self) -> (r: Result<Vec<usize>, SwarmError>)
        requires
            self.wf(),
        ensures
            r matches Ok(order) && ints(order@) == self@.order() && is_topological(
                self@.order(),
                self@.tasks.len(),
                self@.edges,
            ),
    {
        match toposort(&self.topology) {
            Ok(order) => Ok(order),
            Err(node) => {
                proof {
                    lemma_sortable_is_acyclic(self@.tasks.len(), self@.edges, node as int);
                }
                Err(SwarmError::CyclicGraph { task: self.nodes[node].id.to_string() })
            },
        }
    }

    /// Fail if the graph contains a cycle, which no graph built here does.
    ///
    /// Called before a job is scheduled and after every dynamic edge.
    pub fn assert_acyclic(&self) -> (r: Result<(), SwarmError>)
        requires
            self.wf(),
        ensures
            r is Ok,
            forall|v: int| !#[trigger] on_cycle(self@.edges, v),
    {
        proof {
            assert forall|v: int| !#[trigger] on_cycle(self@.edges, v) by {
                lemma_sortable_is_acyclic(self@.tasks.len(), self@.edges, v);
            }
        }
        match self.sorted_positions() {
            Ok(_) => Ok(()),
            Err(error) => Err(error),
        }
    }

    /// Tasks in dependency-first order: each task once, after everything it waits for.
    pub fn topological_order(&self) -> (r: Result<Vec<TaskId>, SwarmError>)
        requires
            self.wf(),
        ensures
            is_topological(self@.order(), self@.tasks.len(), self@.edges),
            r matches Ok(list) && {
                &&& list@ == self@.ids_of(self@.order())
                &&& list@.no_duplicates()
                &&& forall|id: TaskId| #[trigger] list@.contains(id) <==> self@.has(id)
                &&& forall|a: int, b: int|
                    0 <= a < list@.len() && 0 <= b < list@.len() && self@.task(
                        #[trigger] list@[a],
                    ).dependencies.contains(#[trigger] list@[b]) ==> b < a
            },
    {
        match self.sorted_positions() {
            Ok(order) => {
                proof {
                    lemma_dependencies_first(self@, self@.order());
                    assert forall|k: int| 0 <= k < order@.len() implies #[trigger] order@[k]
                        < self@.tasks.len() by {
                        assert(ints(order@)[k] == order@[k]);
                    }
                }
                Ok(self.names(&order))
            },
            Err(error) => Err(error),
        }
    }

    /// Tasks grouped into waves that can each run fully in parallel.
    ///
    /// Wave `n` contains every task whose longest dependency chain has length `n`.
    /// The number of waves is the critical path, and the widest wave is the most
    /// parallelism the job can ever use — both inputs to agent-count admission.
    pub fn layers(&self) -> (r: Result<Vec<Vec<TaskId>>, SwarmError>)
        requires
            self.wf(),
        ensures
            r matches Ok(layers) && {
                &&& forall|n: int|
                    0 <= n < layers@.len() ==> (#[trigger] layers@[n])@ == self@.wave(n as nat)
                        && layers@[n]@.len() > 0
                &&& forall|v: int|
                    0 <= v < self@.tasks.len() ==> #[trigger] shorter_than(
                        self@.edges,
                        v,
                        layers@.len(),
                    )
            },
            is_topological(self@.order(), self@.tasks.len(), self@.edges),
    {
        let order = match self.sorted_positions() {
            Ok(order) => order,
            Err(error) => {
                return Err(error);
            },
        };
        let ghost g = self@;
        let ghost listing = g.order();
        let ghost edges = g.edges;
        let mut depth: Vec<usize> = Vec::new();
        while depth.len() < self.nodes.len()
            invariant
                depth@.len() <= self.nodes@.len(),
            decreases self.nodes.len() - depth.len(),
        {
            depth.push(0);
        }
        let mut layers: Vec<Vec<TaskId>> = Vec::new();
        for k in 0..order.len()
            invariant
                self.wf(),
                g == self@,
                edges == g.edges,
                listing == g.order(),
                ints(order@) == listing,
                is_topological(listing, g.tasks.len(), edges),
                depth@.len() == g.tasks.len(),
                layers@.len() <= k,
                forall|j: int|
                    0 <= j < k ==> longest_chain(
                        edges,
                        #[trigger] listing[j],
                        depth@[listing[j]] as nat,
                    ) && depth@[listing[j]] < layers@.len(),
                forall|n: int|
                    0 <= n < layers@.len() ==> (#[trigger] layers@[n])@ == g.ids_of(
                        listing.take(k as int).filter(at_depth(edges, n as nat)),
                    ) && layers@[n]@.len() > 0,
        {
            let v: usize = order[k];
            let ghost vi = v as int;
            proof {
                assert(ints(order@)[k as int] == vi);
                assert(listing[k as int] == vi);
            }
            let incoming = neighbors(&self.topology, v, true);
            let ghost from = sources(edges, vi);
            proof {
                assert(ints(incoming@).len() == incoming@.len());
                assert forall|m: int| 0 <= m < incoming@.len() implies from.contains(
                    #[trigger] incoming@[m] as int,
                ) && incoming@[m] < g.tasks.len() && exists|j: int|
                    0 <= j < k && #[trigger] listing[j] == incoming@[m] by {
                    assert(ints(incoming@)[m] == from.reverse()[m]);
                    assert(from.reverse()[m] == from[from.len() - 1 - m]);
                    lemma_sources_in_range(g, vi);
                    let p = incoming@[m] as int;
                    lemma_sources_contains(edges, vi, p);
                    let e = choose|e: int| 0 <= e < edges.len() && edges[e] == (p, vi);
                    assert(listing.contains(p));
                    let j = listing.index_of(p);
                    assert(listing[j] == p);
                    assert(edges[e].0 == listing[j] && edges[e].1 == listing[k as int]);
                    assert(j < k);
                }
            }
            let mut task_depth: usize = 0;
            let ghost mut deepest: int = -1;
            for m in 0..incoming.len()
                invariant
                    depth@.len() == g.tasks.len(),
                    layers@.len() <= k,
                    forall|q: int|
                        0 <= q < incoming@.len() ==> from.contains(#[trigger] incoming@[q] as int)
                            && incoming@[q] < g.tasks.len() && exists|j: int|
                            0 <= j < k && #[trigger] listing[j] == incoming@[q],
                    forall|j: int|
                        0 <= j < k ==> longest_chain(
                            edges,
                            #[trigger] listing[j],
                            depth@[listing[j]] as nat,
                        ) && depth@[listing[j]] < layers@.len(),
                    m == 0 ==> task_depth == 0,
                    m > 0 ==> 0 <= deepest < m && task_depth == depth@[incoming@[deepest] as int]
                        + 1,
                    forall|q: int|
                        0 <= q < m ==> depth@[#[trigger] incoming@[q] as int] < task_depth,
                    task_depth <= layers@.len(),
                    k < usize::MAX,
            {
                let p: usize = incoming[m];
                proof {
                    assert(from.contains(incoming@[m as int] as int));
                    let j = choose|j: int| 0 <= j < k && #[trigger] listing[j] == incoming@[m as int];
                    assert(depth@[listing[j]] < layers@.len());
                }
                if depth[p] + 1 > task_depth {
                    task_depth = depth[p] + 1;
                    proof {
                        deepest = m as int;
                    }
                }
            }
            proof {
                if incoming@.len() == 0 {
                    assert(from.reverse().len() == 0);
                    lemma_chain_of_root(edges, vi);
                } else {
                    let s = incoming@[deepest] as int;
                    let top = (task_depth - 1) as nat;
                    let js = choose|j: int| 0 <= j < k && #[trigger] listing[j] == incoming@[deepest];
                    assert(longest_chain(edges, listing[js], depth@[listing[js]] as nat));
                    assert forall|p: int| #[trigger] from.contains(p) implies exists|q: nat|
                        q <= top && #[trigger] longest_chain(edges, p, q) by {
                        let i = choose|i: int| 0 <= i < from.len() && from[i] == p;
                        let m = from.len() - 1 - i;
                        assert(ints(incoming@)[m] == from.reverse()[m]);
                        assert(incoming@[m] == p);
                        let j = choose|j: int| 0 <= j < k && #[trigger] listing[j] == incoming@[m];
                        assert(longest_chain(edges, listing[j], depth@[listing[j]] as nat));
                        assert(depth@[incoming@[m] as int] < task_depth);
                    }
                    lemma_chain_of_dependent(edges, vi, s, top);
                }
                assert(longest_chain(edges, vi, task_depth as nat));
            }
            let ghost old_depth = depth@;
            depth.set(v, task_depth);
            proof {
                assert forall|j: int| 0 <= j < k implies #[trigger] listing[j] != vi by {
                    assert(listing[k as int] == vi);
                }
            }
            let ghost old_layers = layers@;
            if layers.len() <= task_depth {
                let fresh: Vec<TaskId> = Vec::new();
                layers.push(fresh);
                proof {
                    assert(fresh@ =~= g.ids_of(
                        listing.take(k as int).filter(at_depth(edges, task_depth as nat)),
                    )) by {
                        let taken = listing.take(k as int);
                        assert forall|j: int| 0 <= j < taken.len() implies !at_depth(
                            edges,
                            task_depth as nat,
                        )(#[trigger] taken[j]) by {
                            assert(taken[j] == listing[j]);
                            assert(longest_chain(edges, listing[j], old_depth[listing[j]] as nat));
                            if longest_chain(edges, listing[j], task_depth as nat) {
                                lemma_longest_chain_unique(
                                    edges,
                                    listing[j],
                                    old_depth[listing[j]] as nat,
                                    task_depth as nat,
                                );
                            }
                        }
                        lemma_filter_nothing(taken, at_depth(edges, task_depth as nat));
                    }
                }
            }
            let ghost wide_layers = layers@;
            layers[task_depth].push(self.nodes[v].id);
            proof {
                assert(g.tasks[vi] == self.nodes@[vi]@);
                let taken = listing.take(k as int);
                assert(listing.take(k + 1) =~= taken.push(vi));
                assert forall|n: int| 0 <= n < layers@.len() implies (#[trigger] layers@[n])@
                    == g.ids_of(listing.take(k + 1).filter(at_depth(edges, n as nat)))
                    && layers@[n]@.len() > 0 by {
                    crate::text::lemma_filter_push(taken, vi, at_depth(edges, n as nat));
                    if n == task_depth {
                        let kept = taken.filter(at_depth(edges, n as nat));
                        assert(wide_layers[n]@ == g.ids_of(kept));
                        assert(g.ids_of(kept.push(vi)) =~= g.ids_of(kept).push(g.tasks[vi].id));
                    } else {
                        assert(layers@[n] == old_layers[n]);
                        if longest_chain(edges, vi, n as nat) {
                            lemma_longest_chain_unique(edges, vi, n as nat, task_depth as nat);
                        }
                    }
                }
            }
        }
        proof {
            assert(listing.take(listing.len() as int) =~= listing);
            assert(ints(order@).len() == order@.len());
            assert forall|v: int| 0 <= v < g.tasks.len() implies #[trigger] shorter_than(
                edges,
                v,
                layers@.len(),
            ) by {
                assert(listing.contains(v));
                let j = listing.index_of(v);
                assert(longest_chain(edges, listing[j], depth@[listing[j]] as nat));
            }
        }
        Ok(layers)
    }

    /// Whether the task at `i` waits to be queued and everything it waits for is complete.
    fn ready_at(&self, i: usize) -> (r: bool)
        requires
            self.wf(),
            i < self@.tasks.len(),
        ensures
            r == self@.is_ready(i as int),
    {
        let node = &self.nodes[i];
        assert(node@ == self@.tasks[i as int]);
        if !matches!(node.state, TaskState::Created | TaskState::WaitingForDependency) {
            return false;
        }
        for k in 0..node.dependencies.len()
            invariant
                self.wf(),
                i < self@.tasks.len(),
                node@ == self@.tasks[i as int],
                forall|m: int|
                    0 <= m < k ==> self@.completed(#[trigger] self@.tasks[i as int].dependencies[m]),
        {
            let done = match self.find(node.dependencies[k]) {
                Some(at) => {
                    assert(self.nodes@[at as int]@ == self@.tasks[at as int]);
                    self.nodes[at].state == TaskState::Completed
                },
                None => false,
            };
            if !done {
                assert(!self@.completed(self@.tasks[i as int].dependencies[k as int]));
                return false;
            }
        }
        true
    }

    /// Whether the task at `a` is queued before the one at `b`.
    fn goes_first(&self, a: usize, b: usize) -> (r: bool)
        requires
            a < self@.tasks.len(),
            b < self@.tasks.len(),
        ensures
            r == queued_before(self@.tasks[a as int], self@.tasks[b as int]),
    {
        assert(self.nodes@[a as int]@ == self@.tasks[a as int]);
        assert(self.nodes@[b as int]@ == self@.tasks[b as int]);
        let one = &self.nodes[a];
        let other = &self.nodes[b];
        one.stage < other.stage || (one.stage == other.stage && one.id.value < other.id.value)
    }

    /// Tasks whose dependencies are all complete and which are waiting to be queued.
    ///
    /// Ordered by stage, then by name, so runs are reproducible and the queue receives
    /// upstream work first.
    pub fn ready(&self) -> (r: Vec<TaskId>)
        requires
            self.wf(),
        ensures
            forall|id: TaskId| #[trigger]
                r@.contains(id) <==> self@.has(id) && self@.is_ready(self@.at(id)),
            forall|i: int, j: int|
                0 <= i < j < r@.len() ==> queued_before(
                    self@.task(#[trigger] r@[i]),
                    self@.task(#[trigger] r@[j]),
                ),
    {
        let ghost g = self@;
        let mut places: Vec<usize> = Vec::new();
        for i in 0..self.nodes.len()
            invariant
                self.wf(),
                g == self@,
                g.distinct(),
                g.tasks.len() == self.nodes@.len(),
                forall|k: int|
                    0 <= k < places@.len() ==> #[trigger] places@[k] < i && g.is_ready(
                        places@[k] as int,
                    ),
                forall|v: int|
                    0 <= v < i && #[trigger] g.is_ready(v) ==> places@.contains(v as usize),
                forall|a: int, b: int|
                    0 <= a < b < places@.len() ==> queued_before(
                        g.tasks[#[trigger] places@[a] as int],
                        g.tasks[#[trigger] places@[b] as int],
                    ),
        {
            if self.ready_at(i) {
                let mut at: usize = 0;
                while at < places.len() && self.goes_first(places[at], i)
                    invariant
                        at <= places@.len(),
                        i < g.tasks.len(),
                        g == self@,
                        forall|k: int| 0 <= k < places@.len() ==> #[trigger] places@[k] < i,
                        forall|a: int|
                            0 <= a < at ==> queued_before(
                                g.tasks[#[trigger] places@[a] as int],
                                g.tasks[i as int],
                            ),
                    ensures
                        at <= places@.len(),
                        at < places@.len() ==> !queued_before(
                            g.tasks[places@[at as int] as int],
                            g.tasks[i as int],
                        ),
                        forall|a: int|
                            0 <= a < at ==> queued_before(
                                g.tasks[#[trigger] places@[a] as int],
                                g.tasks[i as int],
                            ),
                    decreases places@.len() - at,
                {
                    at = at + 1;
                }
                let ghost before = places@;
                proof {
                    assert forall|b: int| at <= b < before.len() implies queued_before(
                        g.tasks[i as int],
                        g.tasks[#[trigger] before[b] as int],
                    ) by {
                        assert(g.tasks[before[at as int] as int].id != g.tasks[i as int].id);
                        if b > at {
                            assert(queued_before(
                                g.tasks[before[at as int] as int],
                                g.tasks[before[b] as int],
                            ));
                        }
                    }
                }
                places.insert(at, i);
                proof {
                    assert forall|v: int|
                        0 <= v < i + 1 && #[trigger] g.is_ready(v) implies places@.contains(
                        v as usize,
                    ) by {
                        if v == i {
                            assert(places@[at as int] == i);
                        } else {
                            let k = before.index_of(v as usize);
                            assert(before[k] == v as usize);
                            if k < at {
                                assert(places@[k] == before[k]);
                            } else {
                                assert(places@[k + 1] == before[k]);
                            }
                        }
                    }
                }
            }
        }
        let r = self.names(&places);
        proof {
            let positions = ints(places@);
            assert forall|id: TaskId| #[trigger] r@.contains(id) <==> g.has(id) && g.is_ready(
                g.at(id),
            ) by {
                if r@.contains(id) {
                    let k = r@.index_of(id);
                    assert(positions[k] == places@[k]);
                    lemma_at_unique(g, id, positions[k]);
                }
                if g.has(id) && g.is_ready(g.at(id)) {
                    let v = g.at(id);
                    assert(g.stands(id, v));
                    assert(places@.contains(v as usize));
                    let k = places@.index_of(v as usize);
                    assert(positions[k] == places@[k]);
                    assert(r@[k] == id);
                }
            }
            assert forall|i: int, j: int| 0 <= i < j < r@.len() implies queued_before(
                g.task(#[trigger] r@[i]),
                g.task(#[trigger] r@[j]),
            ) by {
                assert(positions[i] == places@[i]);
                assert(positions[j] == places@[j]);
                lemma_at_unique(g, r@[i], positions[i]);
                lemma_at_unique(g, r@[j], positions[j]);
            }
        }
        r
    }

    /// Tasks that can never run because an upstream task was abandoned.
    ///
    /// Without this, a dead-lettered task leaves its whole subtree stuck in
    /// `WaitingForDependency` and the job never reaches a terminal state.
    pub fn blocked_by_abandoned(&self) -> (r: Vec<TaskId>)
        requires
            self.wf(),
        ensures
            forall|id: TaskId| #[trigger]
                r@.contains(id) <==> self@.has(id) && self@.stranded(self@.at(id)),
            r@.no_duplicates(),
    {
        let ghost g = self@;
        let mut seen: Vec<bool> = Vec::new();
        let mut frontier: Vec<usize> = Vec::new();
        for i in 0..self.nodes.len()
            invariant
                g == self@,
                g.tasks.len() == self.nodes@.len(),
                seen@.len() == i,
                forall|v: int|
                    0 <= v < i ==> #[trigger] seen@[v] == g.tasks[v].state.given_up(),
                forall|v: int|
                    0 <= v < i && #[trigger] seen@[v] ==> frontier@.contains(v as usize),
                forall|k: int|
                    0 <= k < frontier@.len() ==> #[trigger] frontier@[k] < i
                        && g.tasks[frontier@[k] as int].state.given_up(),
        {
            assert(self.nodes@[i as int]@ == g.tasks[i as int]);
            let given_up = matches!(
                self.nodes[i].state,
                TaskState::DeadLettered | TaskState::Cancelled
            );
            seen.push(given_up);
            let ghost before = frontier@;
            if given_up {
                frontier.push(i);
            }
            proof {
                assert forall|v: int|
                    0 <= v < i + 1 && #[trigger] seen@[v] implies frontier@.contains(v as usize) by {
                    if v < i {
                        let k = before.index_of(v as usize);
                        assert(before[k] == v as usize);
                        assert(frontier@[k] == v as usize);
                    } else {
                        assert(frontier@[frontier@.len() - 1] == i);
                    }
                }
            }
        }
        let mut blocked: Vec<usize> = Vec::new();
        proof {
            assert forall|k: int| 0 <= k < ints(frontier@).len() implies 0
                <= #[trigger] ints(frontier@)[k] < g.tasks.len() && cut_off_at(
                g,
                ints(frontier@)[k],
            ) by {
                assert(frontier@[k] < g.tasks.len());
                assert(g.cut_off(frontier@[k] as int, 0));
            }
            assert forall|v: int, w: int|
                v != -1 && known(g, ints(blocked@), v) && #[trigger] g.edges.contains(
                    (v, w),
                ) implies ints(frontier@).contains(v) || seen@[w] by {
                let e = g.edges.index_of((v, w));
                assert(g.edges[e] == (v, w));
                assert(seen@[v]);
                let k = frontier@.index_of(v as usize);
                assert(frontier@[k] == v as usize);
                assert(ints(frontier@)[k] == v);
            }
            assert(spread(g, seen@, ints(frontier@), ints(blocked@), -1, seq![], 0));
        }
        while frontier.len() > 0
            invariant
                g == self@,
                self.wf(),
                in_range(g.tasks.len(), g.edges),
                g.tasks.len() == self.nodes@.len(),
                spread(g, seen@, ints(frontier@), ints(blocked@), -1, seq![], 0),
            decreases 2 * unset(seen@) + frontier@.len(),
        {
            let ghost old_frontier = frontier@;
            let ghost measure = 2 * unset(seen@) + frontier@.len();
            let task: usize = frontier.pop().unwrap();
            proof {
                assert(ints(old_frontier).last() == task);
                assert(ints(frontier@) =~= ints(old_frontier).drop_last());
                assert(0 <= ints(old_frontier)[old_frontier.len() - 1] < g.tasks.len());
            }
            let list = neighbors(&self.topology, task, false);
            let ghost to = targets(g.edges, task as int);
            let ghost reach = ints(list@);
            proof {
                lemma_targets_in_range(g, task as int);
                assert(reach.len() == list@.len());
                assert forall|m: int| 0 <= m < reach.len() implies 0 <= #[trigger] reach[m]
                    < g.tasks.len() && g.edges.contains((task as int, reach[m])) by {
                    assert(to.reverse()[m] == to[to.len() - 1 - m]);
                    lemma_targets_contains(g.edges, task as int, reach[m]);
                }
                lemma_spread_pop(g, seen@, ints(old_frontier), ints(blocked@), reach);
            }
            for m in 0..list.len()
                invariant
                    g == self@,
                    self.wf(),
                    in_range(g.tasks.len(), g.edges),
                    g.tasks.len() == self.nodes@.len(),
                    reach == ints(list@),
                    reach.len() == list@.len(),
                    cut_off_at(g, task as int),
                    forall|q: int|
                        0 <= q < reach.len() ==> 0 <= #[trigger] reach[q] < g.tasks.len()
                            && g.edges.contains((task as int, reach[q])),
                    spread(
                        g,
                        seen@,
                        ints(frontier@),
                        ints(blocked@),
                        task as int,
                        reach,
                        m as int,
                    ),
                    2 * unset(seen@) + frontier@.len() < measure,
            {
                let next: usize = list[m];
                proof {
                    assert(reach[m as int] == next);
                    lemma_spread_step(
                        g,
                        seen@,
                        ints(frontier@),
                        ints(blocked@),
                        task as int,
                        reach,
                        m as int,
                    );
                }
                if !seen[next] {
                    proof {
                        lemma_unset(seen@, next as int);
                        assert(ints(frontier@.push(next)) =~= ints(frontier@).push(next as int));
                        assert(ints(blocked@.push(next)) =~= ints(blocked@).push(next as int));
                        assert(self.nodes@[next as int]@ == g.tasks[next as int]);
                    }
                    seen.set(next, true);
                    if !self.nodes[next].state.is_finished() {
                        blocked.push(next);
                        frontier.push(next);
                    }
                }
            }
            proof {
                lemma_spread_done(g, seen@, ints(frontier@), ints(blocked@), task as int);
            }
        }
        proof {
            assert forall|k: int| 0 <= k < blocked@.len() implies #[trigger] blocked@[k]
                < g.tasks.len() by {
                assert(ints(blocked@)[k] == blocked@[k]);
            }
        }
        let r = self.names(&blocked);
        proof {
            let positions = ints(blocked@);
            assert(ints(frontier@) =~= seq![]);
            assert forall|id: TaskId| #[trigger] r@.contains(id) <==> g.has(id) && g.stranded(
                g.at(id),
            ) by {
                if r@.contains(id) {
                    let k = r@.index_of(id);
                    assert(g.stranded(positions[k]));
                    lemma_at_unique(g, id, positions[k]);
                }
                if g.has(id) && g.stranded(g.at(id)) {
                    let v = g.at(id);
                    let steps = choose|steps: nat| steps >= 1 && #[trigger] g.cut_off(v, steps);
                    lemma_spread_complete(g, seen@, positions, v, steps);
                    let k = positions.index_of(v);
                    assert(positions[k] == v);
                    assert(g.stands(id, v));
                    assert(r@[k] == id);
                }
            }
            assert forall|a: int, b: int| 0 <= a < b < r@.len() implies r@[a] != r@[b] by {
                assert(0 <= positions[a] < g.tasks.len());
                assert(0 <= positions[b] < g.tasks.len());
                assert(positions[a] != positions[b]);
                lemma_at_unique(g, r@[a], positions[a]);
                lemma_at_unique(g, r@[b], positions[b]);
            }
        }
        r
    }

    /// Move `task` to `to`, validating the edge and returning the audit record.
    ///
    /// The only sanctioned way to change a task's state. The clock decides when the change
    /// happened.
    pub fn set_state(
        &mut self,
        task: TaskId,
        to: TaskState,
        actor: &str,
        reason: Option<String>,
        correlation_id: CorrelationId,
    ) -> (r: Result<Transition<TaskState>, SwarmError>)
        requires
            old(self).wf(),
        ensures
            final(self).wf(),
            match r {
                Ok(record) => {
                    &&& old(self)@.state_refusal(task, to) is None
                    &&& final(self)@ == old(self)@.with_state(task, to)
                    &&& record@ == transition_record(
                        Some(old(self)@.task(task).state),
                        to,
                        actor@,
                        option_view(reason),
                        correlation_id,
                        record@.at,
                    )
                },
                Err(error) => {
                    &&& old(self)@.state_refusal(task, to) == Some(error@)
                    &&& final(self)@ == old(self)@
                },
            },
    {
        let at = Timestamp::now();
        self.set_state_at(task, to, actor, reason, correlation_id, at)
    }

    /// Move `task` to `to` at time `at`, validating the edge and returning the audit record.
    pub fn set_state_at(
        &mut self,
        task: TaskId,
        to: TaskState,
        actor: &str,
        reason: Option<String>,
        correlation_id: CorrelationId,
        at: Timestamp,
    ) -> (r: Result<Transition<TaskState>, SwarmError>)
        requires
            old(self).wf(),
        ensures
            final(self).wf(),
            match r {
                Ok(record) => {
                    &&& old(self)@.state_refusal(task, to) is None
                    &&& final(self)@ == old(self)@.with_state(task, to)
                    &&& record@ == transition_record(
                        Some(old(self)@.task(task).state),
                        to,
                        actor@,
                        option_view(reason),
                        correlation_id,
                        at,
                    )
                },
                Err(error) => {
                    &&& old(self)@.state_refusal(task, to) == Some(error@)
                    &&& final(self)@ == old(self)@
                },
            },
    {
        let current = self.require(task)?.state;
        let (next, record) = apply_at(current, to, actor, reason, correlation_id, at)?;
        self.put_state(task, next);
        Ok(record)
    }

    /// Put a task into a state without asking whether the edge exists.
    fn put_state(&mut self, task: TaskId, state: TaskState)
        requires
            old(self).wf(),
            old(self)@.has(task),
        ensures
            final(self).wf(),
            final(self)@ == old(self)@.with_state(task, state),
    {
        match self.get_mut(task) {
            Some(node) => {
                node.state = state;
            },
            None => {},
        }
        assert(self@.tasks =~= old(self)@.with_state(task, state).tasks);
    }

    /// Put a task back into a state it is known to have been in.
    ///
    /// For rebuilding a graph from its record; the edge is not validated because the moves
    /// that led there were validated when they happened.
    pub fn restore_state(&mut self, task: TaskId, state: TaskState) -> (r: Result<(), SwarmError>)
        requires
            old(self).wf(),
        ensures
            final(self).wf(),
            match r {
                Ok(_) => old(self)@.has(task) && final(self)@ == old(self)@.with_state(task, state),
                Err(error) => !old(self)@.has(task) && error@ == old(self)@.no_task(task)
                    && final(self)@ == old(self)@,
            },
    {
        if self.find(task).is_none() {
            return Err(
                SwarmError::NotFound { kind: "task", id: task.to_string() },
            );
        }
        self.put_state(task, state);
        Ok(())
    }

    /// Record how many attempts a task has had.
    pub fn set_attempt(&mut self, task: TaskId, attempt: u32) -> (r: Result<(), SwarmError>)
        requires
            old(self).wf(),
        ensures
            final(self).wf(),
            match r {
                Ok(_) => old(self)@.has(task) && final(self)@ == old(self)@.with_attempt(
                    task,
                    attempt,
                ),
                Err(error) => !old(self)@.has(task) && error@ == old(self)@.no_task(task)
                    && final(self)@ == old(self)@,
            },
    {
        match self.get_mut(task) {
            Some(node) => {
                node.attempt = attempt;
            },
            None => {
                return Err(
                    SwarmError::NotFound { kind: "task", id: task.to_string() },
                );
            },
        }
        assert(self@.tasks =~= old(self)@.with_attempt(task, attempt).tasks);
        Ok(())
    }

    /// Task counts by lifecycle group.
    pub fn counts(&self) -> (r: GraphCounts)
        requires
            self.wf(),
        ensures
            r.total == self@.tasks.len(),
            r.pending == tally(self@.tasks, TaskGroup::Pending),
            r.queued == tally(self@.tasks, TaskGroup::Queued),
            r.in_flight == tally(self@.tasks, TaskGroup::InFlight),
            r.completed == tally(self@.tasks, TaskGroup::Completed),
            r.retrying == tally(self@.tasks, TaskGroup::Retrying),
            r.abandoned == tally(self@.tasks, TaskGroup::Abandoned),
            r.adds_up(),
    {
        let ghost tasks = self@.tasks;
        let mut counts = GraphCounts {
            total: 0,
            pending: 0,
            queued: 0,
            in_flight: 0,
            completed: 0,
            retrying: 0,
            abandoned: 0,
        };
        for i in 0..self.nodes.len()
            invariant
                tasks == self@.tasks,
                tasks.len() == self.nodes@.len(),
                counts.total == i,
                counts.pending == tally(tasks.take(i as int), TaskGroup::Pending),
                counts.queued == tally(tasks.take(i as int), TaskGroup::Queued),
                counts.in_flight == tally(tasks.take(i as int), TaskGroup::InFlight),
                counts.completed == tally(tasks.take(i as int), TaskGroup::Completed),
                counts.retrying == tally(tasks.take(i as int), TaskGroup::Retrying),
                counts.abandoned == tally(tasks.take(i as int), TaskGroup::Abandoned),
                counts.adds_up(),
        {
            proof {
                assert(self.nodes@[i as int]@ == tasks[i as int]);
                assert(tasks.take(i + 1).drop_last() =~= tasks.take(i as int));
                assert(tasks.take(i + 1).last() == tasks[i as int]);
            }
            counts.total = counts.total + 1;
            match self.nodes[i].state {
                TaskState::Created | TaskState::WaitingForDependency | TaskState::Preempted => {
                    counts.pending = counts.pending + 1;
                },
                TaskState::Queued => {
                    counts.queued = counts.queued + 1;
                },
                TaskState::Leased | TaskState::Running => {
                    counts.in_flight = counts.in_flight + 1;
                },
                TaskState::Completed => {
                    counts.completed = counts.completed + 1;
                },
                TaskState::Failed | TaskState::TimedOut | TaskState::RetryScheduled => {
                    counts.retrying = counts.retrying + 1;
                },
                TaskState::Cancelled | TaskState::DeadLettered => {
                    counts.abandoned = counts.abandoned + 1;
                },
            }
        }
        assert(tasks.take(tasks.len() as int) =~= tasks);
        counts
    }

    /// Whether every task has reached a terminal state. A graph without tasks has not.
    pub fn is_complete(&self) -> (r: bool)
        ensures
            r == self@.is_complete(),
    {
        for i in 0..self.nodes.len()
            invariant
                self@.tasks.len() == self.nodes@.len(),
                forall|k: int| 0 <= k < i ==> (#[trigger] self@.tasks[k]).state.finished(),
        {
            assert(self.nodes@[i as int]@ == self@.tasks[i as int]);
            if !self.nodes[i].is_terminal() {
                return false;
            }
        }
        self.nodes.len() > 0
    }

    /// How many tasks are terminal, and how many there are: what progress is the ratio of.
    pub fn progress(&self) -> (r: (usize, usize))
        requires
            self.wf(),
        ensures
            r.0 == tally(self@.tasks, TaskGroup::Completed) + tally(
                self@.tasks,
                TaskGroup::Abandoned,
            ),
            r.1 == self@.tasks.len(),
            r.0 <= r.1,
            self@.tasks.len() > 0 ==> (self@.is_complete() <==> r.0 == r.1),
    {
        let counts = self.counts();
        proof {
            lemma_tally_terminal(self@.tasks);
        }
        (counts.terminal(), counts.total)
    }
}

impl Clone for TaskGraph {
    fn clone(&self) -> (r: Self)
        ensures
            r@ == self@,
            self.wf() ==> r.wf(),
    {
        let topology = clone_graph(&self.topology);
        let index = self.index.clone();
        let mut nodes: Vec<TaskNode> = Vec::new();
        for i in 0..self.nodes.len()
            invariant
                nodes@.len() == i,
                forall|k: int| 0 <= k < i ==> (#[trigger] nodes@[k])@ == self.nodes@[k]@,
        {
            nodes.push(self.nodes[i].clone());
        }
        let r = TaskGraph { job_id: self.job_id, topology, index, nodes };
        proof {
            assert(r@.tasks =~= self@.tasks);
            assert forall|k: int| 0 <= k < nodes@.len() implies (#[trigger] nodes@[k]).id
                == self.nodes@[k].id by {
                assert(nodes@[k]@ == self.nodes@[k]@);
            }
            assert(r.index@ =~= self.index@);
        }
        r
    }
}

/// No task of a graph waits for itself, however indirectly.
pub proof fn law_graphs_are_acyclic(graph: TaskGraph, task: TaskId)
    requires
        graph.wf(),
    ensures
        graph@.has(task) ==> !on_cycle(graph@.edges, graph@.at(task)),
{
    graph.lemma_wf();
    lemma_sortable_is_acyclic(graph@.tasks.len(), graph@.edges, graph@.at(task));
}

/// Tasks that are ready together do not wait for one another.
pub proof fn law_ready_tasks_are_independent(graph: TaskGraph, one: TaskId, other: TaskId)
    requires
        graph.wf(),
        graph@.has(one),
        graph@.has(other),
        graph@.is_ready(graph@.at(one)),
        graph@.is_ready(graph@.at(other)),
    ensures
        !graph@.task(one).dependencies.contains(other),
{
    let g = graph@;
    if g.task(one).dependencies.contains(other) {
        let k = g.task(one).dependencies.index_of(other);
        assert(g.completed(g.tasks[g.at(one)].dependencies[k]));
    }
}

/// A task that waits for one that was given up is stranded unless it is finished itself.
pub proof fn law_dependents_of_abandoned_are_stranded(
    graph: TaskGraph,
    task: TaskId,
    dependency: TaskId,
)
    requires
        graph.wf(),
        graph@.has(task),
        graph@.task(task).dependencies.contains(dependency),
        graph@.task(dependency).state.given_up() || graph@.stranded(graph@.at(dependency)),
        !graph@.task(task).state.finished(),
    ensures
        graph@.stranded(graph@.at(task)),
{
    graph.lemma_wf();
    let g = graph@;
    let t = g.at(task);
    assert(g.stands(task, t));
    lemma_dependencies_are_tasks(g, t, dependency);
    let d = g.at(dependency);
    assert(g.stands(dependency, d));
    lemma_dependency_is_edge(g, t, d);
    if g.task(dependency).state.given_up() {
        assert(g.cut_off(d, 0));
    }
    lemma_stranded(g, d, t);
}

/// A task is ready exactly where it was created or waits for its dependencies, and every one of
/// them is in the graph and completed.
pub proof fn law_ready_means_every_dependency_completed(g: GraphView, id: TaskId)
    ensures
        g.is_ready(g.at(id)) <==> (g.task(id).state == TaskState::Created || g.task(id).state
            == TaskState::WaitingForDependency) && forall|d: TaskId| #[trigger]
            g.task(id).dependencies.contains(d) ==> g.has(d) && g.task(d).state
                == TaskState::Completed,
{
    let needed = g.task(id).dependencies;
    if g.is_ready(g.at(id)) {
        assert forall|d: TaskId| #[trigger] needed.contains(d) implies g.has(d) && g.task(d).state
            == TaskState::Completed by {
            let k = needed.index_of(d);
            assert(g.completed(g.tasks[g.at(id)].dependencies[k]));
        }
    }
    if forall|d: TaskId| #[trigger]
        needed.contains(d) ==> g.has(d) && g.task(d).state == TaskState::Completed {
        assert forall|k: int| 0 <= k < needed.len() implies g.completed(#[trigger] needed[k]) by {
            assert(needed.contains(needed[k]));
        }
    }
}

/// Every task belongs to one group: the groups add up to the whole.
pub proof fn law_the_groups_add_up(tasks: Seq<TaskView>)
    ensures
        tally(tasks, TaskGroup::Pending) + tally(tasks, TaskGroup::Queued) + tally(
            tasks,
            TaskGroup::InFlight,
        ) + tally(tasks, TaskGroup::Completed) + tally(tasks, TaskGroup::Retrying) + tally(
            tasks,
            TaskGroup::Abandoned,
        ) == tasks.len(),
    decreases tasks.len(),
{
    if tasks.len() > 0 {
        law_the_groups_add_up(tasks.drop_last());
    }
}

/// A task that moves from one group to another takes its place in the counts with it.
pub proof fn law_a_move_changes_two_groups(
    tasks: Seq<TaskView>,
    i: int,
    to: TaskState,
    group: TaskGroup,
)
    requires
        0 <= i < tasks.len(),
    ensures
        tally(tasks.update(i, TaskView { state: to, ..tasks[i] }), group) - tally(tasks, group) == (
        if group_of(to) == group {
            1int
        } else {
            0
        }) - (if group_of(tasks[i].state) == group {
            1int
        } else {
            0
        }),
    decreases tasks.len(),
{
    let moved = tasks.update(i, TaskView { state: to, ..tasks[i] });
    let front = tasks.drop_last();
    if i == tasks.len() - 1 {
        assert(moved.drop_last() =~= front);
    } else {
        law_a_move_changes_two_groups(front, i, to, group);
        assert(moved.drop_last() =~= front.update(i, TaskView { state: to, ..front[i] }));
        assert(moved.last() == tasks.last());
    }
}

/// A task that is cut off is not finished, and it waits for one that was given up or is cut off
/// itself.
pub proof fn law_stranded_tasks_wait_in_vain(g: GraphView, v: int)
    requires
        g.stranded(v),
    ensures
        g.tasks[v].state != TaskState::Completed,
        g.tasks[v].state != TaskState::Cancelled,
        g.tasks[v].state != TaskState::DeadLettered,
        exists|u: int| #[trigger]
            g.edges.contains((u, v)) && (g.tasks[u].state == TaskState::Cancelled
                || g.tasks[u].state == TaskState::DeadLettered || g.stranded(u)),
{
    let steps = choose|steps: nat| steps >= 1 && #[trigger] g.cut_off(v, steps);
    assert(g.cut_off(v, steps));
    let u = choose|u: int| #[trigger]
        g.edges.contains((u, v)) && g.cut_off(u, (steps - 1) as nat);
    assert(g.edges.contains((u, v)) && g.cut_off(u, (steps - 1) as nat));
    if steps - 1 >= 1 {
        assert(g.stranded(u));
    }
}

/// A task runs in a later wave than everything it waits for.
pub proof fn law_waves_follow_the_dependencies(
    edges: Seq<(int, int)>,
    u: int,
    v: int,
    earlier: nat,
    later: nat,
)
    requires
        edges.contains((u, v)),
        longest_chain(edges, u, earlier),
        longest_chain(edges, v, later),
    ensures
        earlier < later,
{
    let a = choose|a: int| #[trigger] walk(edges, a, u, earlier);
    assert(walk(edges, v, v, 0));
    assert(walk(edges, u, v, 1)) by {
        assert(edges.contains((u, v)) && walk(edges, v, v, 0));
    }
    lemma_walk_joins(edges, a, u, v, earlier, 1);
    assert(ends_chain(edges, v, earlier + 1));
    if later <= earlier {
        lemma_shorter_chain(edges, v, earlier + 1, later + 1);
    }
}

/// A graph takes a task exactly where it has none of that name and has everything that the task
/// waits for.
pub proof fn law_known_dependencies_are_accepted(g: GraphView, task: TaskView)
    ensures
        g.insert_refusal(task) is None <==> !g.has(task.id) && forall|d: TaskId| #[trigger]
            task.dependencies.contains(d) ==> g.has(d),
        g.insert_refusal(task) is None ==> g.inserted(task).tasks.last() == task
            && g.inserted(task).tasks.drop_last() == g.tasks,
{
    lemma_nothing_missing(g, task.dependencies);
    assert(g.tasks.push(task).drop_last() =~= g.tasks);
}

/// Nothing is missing exactly where everything is there.
proof fn lemma_nothing_missing(g: GraphView, ids: Seq<TaskId>)
    ensures
        g.first_missing(ids) is None <==> forall|d: TaskId| #[trigger]
            ids.contains(d) ==> g.has(d),
    decreases ids.len(),
{
    if ids.len() > 0 {
        let front = ids.drop_last();
        lemma_nothing_missing(g, front);
        assert(ids[ids.len() - 1] == ids.last());
        if g.first_missing(ids) is None {
            assert forall|d: TaskId| #[trigger] ids.contains(d) implies g.has(d) by {
                let i = ids.index_of(d);
                if i < front.len() {
                    assert(front[i] == d);
                    assert(front.contains(d));
                }
            }
        }
        if forall|d: TaskId| #[trigger] ids.contains(d) ==> g.has(d) {
            assert forall|d: TaskId| #[trigger] front.contains(d) implies g.has(d) by {
                let i = front.index_of(d);
                assert(ids[i] == d);
                assert(ids.contains(d));
            }
            assert(ids.contains(ids.last()));
        }
    }
}

} // verus!
