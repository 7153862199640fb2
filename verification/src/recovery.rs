//! Rebuilding job state from the journal.
//!
//! Replay is a fold: every record is applied in order to a per-job accumulator, and the
//! accumulator is turned into a live [`JobHandle`] at the end. Nothing here talks to the
//! queue, shared memory, or a model — recovery is pure, and cannot half-succeed.
//!
//! The one judgement call is what to do about tasks that were mid-flight when the process
//! died. They are restored to `Created`, which puts them back in the scheduler's ready set.
//! Completed tasks keep their results and never run again, so a restart resumes a job instead
//! of redoing it.

use crate::clock::Timestamp;
use crate::error::{outcome, ErrorView, SwarmError};
use crate::figures::Real64;
use crate::gateway::summed;
use crate::graph::{lemma_first_missing, lemma_inserted_consistent, GraphView, TaskGraph};
use crate::handle::{merged_view, pool_views, transition_views, Control, HandleView, JobHandle};
use crate::ids::{JobId, TaskId};
use crate::job::{no_statistics, percentile_of, ExecutionStatistics, FinalResult, FinalResultView,
    Job, JobStatus, JobView};
use crate::journal::{record_views, JournalRecord, RecordView};
use crate::state::{Transition, TransitionView};
use crate::task::{failure_views, result_views, task_views, TaskFailure, TaskFailureView, TaskNode,
    TaskResult, TaskResultView, TaskState, TaskView};
use crate::text::{decimal, decimal_text};
use vstd::prelude::*;
use vstd::string::*;

verus! {

/// How many dependencies some tasks have in all.
pub open spec fn dependency_total(tasks: Seq<TaskView>) -> nat
    decreases tasks.len(),
{
    if tasks.len() == 0 {
        0
    } else {
        dependency_total(tasks.drop_last()) + tasks.last().dependencies.len()
    }
}

/// Whether a graph has room for some tasks.
pub open spec fn has_room_for(g: GraphView, tasks: Seq<TaskView>) -> bool {
    &&& g.tasks.len() + tasks.len() <= u32::MAX
    &&& g.edges.len() + dependency_total(tasks) <= u32::MAX
}

/// A graph after the first `n` of some tasks were put into it, as far as what they depend on
/// is there, and the tasks put off.
pub open spec fn sifted(g: GraphView, tasks: Seq<TaskView>, n: nat) -> (
    Result<GraphView, ErrorView>,
    Seq<TaskView>,
)
    decreases n,
{
    if n == 0 {
        (Ok(g), seq![])
    } else {
        let (before, put_off) = sifted(g, tasks, (n - 1) as nat);
        let task = tasks[n - 1];
        match before {
            Err(error) => (Err(error), put_off),
            Ok(h) => if h.has_all(task.dependencies) {
                match h.insert_refusal(task) {
                    Some(error) => (Err(error), put_off),
                    None => (Ok(h.inserted(task)), put_off),
                }
            } else {
                (Ok(h), put_off.push(task))
            },
        }
    }
}

/// A graph with some tasks put into it in an order in which everything a task depends on is
/// there before it. What remains when nothing more can be put in depends on something that
/// is not among the tasks.
pub open spec fn rebuilt(g: GraphView, tasks: Seq<TaskView>) -> Result<GraphView, ErrorView>
    decreases tasks.len(),
{
    if tasks.len() == 0 {
        Ok(g)
    } else {
        let (after, put_off) = sifted(g, tasks, tasks.len());
        match after {
            Err(error) => Err(error),
            Ok(h) => if put_off.len() < tasks.len() {
                rebuilt(h, put_off)
            } else {
                Err(
                    ErrorView::Internal(
                        "journal for job "@ + g.job_id.text() + " references "@ + decimal(
                            put_off.len(),
                        ) + " tasks whose dependencies are missing"@,
                    ),
                )
            },
        }
    }
}

/// An error met on the way stays.
proof fn lemma_sift_stops(g: GraphView, tasks: Seq<TaskView>, n: nat, m: nat)
    requires
        n <= m,
        sifted(g, tasks, n).0 is Err,
    ensures
        sifted(g, tasks, m) == sifted(g, tasks, n),
    decreases m - n,
{
    if n < m {
        lemma_sift_stops(g, tasks, n, (m - 1) as nat);
    }
}

/// Sifting loses no task and makes up no dependency.
proof fn lemma_sift_counts(g: GraphView, tasks: Seq<TaskView>, n: nat)
    requires
        n <= tasks.len(),
    ensures
        ({
            let (after, put_off) = sifted(g, tasks, n);
            after matches Ok(h) ==> {
                &&& h.job_id == g.job_id
                &&& h.tasks.len() + put_off.len() == g.tasks.len() + n
                &&& h.edges.len() + dependency_total(put_off) == g.edges.len()
                    + dependency_total(tasks.take(n as int))
            }
        }),
        sifted(g, tasks, n).1.len() <= n,
    decreases n,
{
    if n > 0 {
        lemma_sift_counts(g, tasks, (n - 1) as nat);
        let (before, put_off) = sifted(g, tasks, (n - 1) as nat);
        let task = tasks[n - 1];
        assert(tasks.take(n as int).drop_last() =~= tasks.take(n - 1));
        assert(tasks.take(n as int).last() == task);
        assert(put_off.push(task).drop_last() =~= put_off);
    } else {
        assert(tasks.take(0) =~= seq![]);
    }
}

/// Taking in more tasks does not make fewer dependencies.
proof fn lemma_dependency_total_grows(tasks: Seq<TaskView>, n: int)
    requires
        0 <= n <= tasks.len(),
    ensures
        dependency_total(tasks.take(n)) <= dependency_total(tasks),
    decreases tasks.len() - n,
{
    if n < tasks.len() {
        lemma_dependency_total_grows(tasks, n + 1);
        assert(tasks.take(n + 1).drop_last() =~= tasks.take(n));
    } else {
        assert(tasks.take(n) =~= tasks);
    }
}

/// Put some tasks into a graph, as far as what they depend on is there: the tasks put off.
fn sift(graph: &mut TaskGraph, tasks: &Vec<TaskNode>) -> (r: Result<Vec<TaskNode>, SwarmError>)
    requires
        old(graph).wf(),
        has_room_for(old(graph)@, task_views(tasks@)),
    ensures
        final(graph).wf(),
        ({
            let (after, put_off) = sifted(old(graph)@, task_views(tasks@), tasks@.len());
            match r {
                Ok(list) => after == Ok::<GraphView, ErrorView>(final(graph)@) && task_views(list@)
                    == put_off,
                Err(error) => after == Err::<GraphView, ErrorView>(error@),
            }
        }),
{
    let ghost entry = graph@;
    let ghost all = task_views(tasks@);
    let mut put_off: Vec<TaskNode> = Vec::new();
    assert(task_views(put_off@) =~= seq![]);
    let mut n: usize = 0;
    while n < tasks.len()
        invariant
            graph.wf(),
            entry == old(graph)@,
            n <= tasks@.len(),
            all == task_views(tasks@),
            has_room_for(entry, all),
            sifted(entry, all, n as nat) == (
                Ok::<GraphView, ErrorView>(graph@),
                task_views(put_off@),
            ),
        decreases tasks@.len() - n,
    {
        let ghost here = graph@;
        let ghost later = task_views(put_off@);
        let ghost task = all[n as int];
        proof {
            assert(task == tasks@[n as int]@);
            lemma_sift_counts(entry, all, n as nat);
            lemma_dependency_total_grows(all, n + 1);
            assert(all.take(n + 1).drop_last() =~= all.take(n as int));
        }
        let mut ready = true;
        let mut k: usize = 0;
        while k < tasks[n].dependencies.len() && ready
            invariant
                graph.wf(),
                here == graph@,
                n < tasks@.len(),
                task == tasks@[n as int]@,
                k <= task.dependencies.len(),
                ready ==> forall|j: int| 0 <= j < k ==> here.has(#[trigger] task.dependencies[j]),
                !ready ==> !here.has_all(task.dependencies),
            decreases task.dependencies.len() - k + (if ready {
                1int
            } else {
                0int
            }),
        {
            if graph.get(tasks[n].dependencies[k]).is_none() {
                assert(!here.has(task.dependencies[k as int]));
                ready = false;
            } else {
                k = k + 1;
            }
        }
        if ready {
            assert(here.has_all(task.dependencies));
            match graph.insert(tasks[n].clone()) {
                Ok(_) => {},
                Err(error) => {
                    proof {
                        assert(sifted(entry, all, (n + 1) as nat).0 == Err::<GraphView, ErrorView>(
                            error@,
                        ));
                        lemma_sift_stops(entry, all, (n + 1) as nat, all.len());
                    }
                    return Err(error);
                },
            }
        } else {
            put_off.push(tasks[n].clone());
            assert(task_views(put_off@) =~= later.push(task));
        }
        n = n + 1;
    }
    Ok(put_off)
}

/// Put tasks into a graph in dependency order.
///
/// The journal stores tasks in whatever order they were listed, which is not necessarily
/// topological, so this keeps putting in whatever can be put in until nothing is left.
pub fn rebuild_graph(job_id: JobId, tasks: &Vec<TaskNode>) -> (r: Result<TaskGraph, SwarmError>)
    requires
        has_room_for(GraphView::empty(job_id), task_views(tasks@)),
    ensures
        match r {
            Ok(graph) => graph.wf() && rebuilt(GraphView::empty(job_id), task_views(tasks@)) == Ok::<
                GraphView,
                ErrorView,
            >(graph@),
            Err(error) => rebuilt(GraphView::empty(job_id), task_views(tasks@)) == Err::<
                GraphView,
                ErrorView,
            >(error@),
        },
{
    let mut graph = TaskGraph::new(job_id);
    let ghost all = task_views(tasks@);
    let ghost start = GraphView::empty(job_id);
    assert(graph@ == start);
    let mut pending: Vec<TaskNode> = crate::journal::clone_tasks(tasks);
    while pending.len() > 0
        invariant
            graph.wf(),
            graph@.job_id == job_id,
            all == task_views(tasks@),
            start == GraphView::empty(job_id),
            has_room_for(graph@, task_views(pending@)),
            rebuilt(start, all) == rebuilt(graph@, task_views(pending@)),
        decreases pending@.len(),
    {
        let ghost here = graph@;
        let ghost left = task_views(pending@);
        let put_off = match sift(&mut graph, &pending) {
            Ok(put_off) => put_off,
            Err(error) => {
                return Err(error);
            },
        };
        proof {
            lemma_sift_counts(here, left, left.len());
            assert(left.take(left.len() as int) =~= left);
        }
        if put_off.len() >= pending.len() {
            // Nothing became insertable, so the remaining tasks reference something that is
            // not in the log. Better to say so than to serve a partial graph.
            let mut text = "journal for job ".to_owned();
            text.append(job_id.to_string().as_str());
            text.append(" references ");
            text.append(decimal_text(put_off.len() as u64).as_str());
            text.append(" tasks whose dependencies are missing");
            return Err(SwarmError::Internal(text));
        }
        pending = put_off;
    }
    Ok(graph)
}

/// Sifting keeps every task: what was in the graph stays, and what is taken up is in the
/// graph or put off.
proof fn lemma_sift_keeps(g: GraphView, tasks: Seq<TaskView>, n: nat)
    requires
        n <= tasks.len(),
    ensures
        ({
            let (after, put_off) = sifted(g, tasks, n);
            after matches Ok(h) ==> {
                &&& forall|task: TaskView| #[trigger]
                    g.tasks.contains(task) ==> h.tasks.contains(task)
                &&& forall|j: int|
                    0 <= j < n ==> h.tasks.contains(#[trigger] tasks[j]) || put_off.contains(
                        tasks[j],
                    )
            }
        }),
    decreases n,
{
    if n > 0 {
        lemma_sift_keeps(g, tasks, (n - 1) as nat);
        let (before, earlier) = sifted(g, tasks, (n - 1) as nat);
        let (after, put_off) = sifted(g, tasks, n);
        let task = tasks[n - 1];
        if after is Ok {
            let b = before->Ok_0;
            let h = after->Ok_0;
            if b.has_all(task.dependencies) {
                assert(h.tasks =~= b.tasks.push(task));
                assert forall|x: TaskView| b.tasks.contains(x) implies #[trigger] h.tasks.contains(
                    x,
                ) by {
                    let i = choose|i: int| 0 <= i < b.tasks.len() && b.tasks[i] == x;
                    assert(h.tasks[i] == x);
                }
                assert(h.tasks.last() == task);
            } else {
                assert forall|x: TaskView| earlier.contains(x) implies #[trigger] put_off.contains(
                    x,
                ) by {
                    let i = choose|i: int| 0 <= i < earlier.len() && earlier[i] == x;
                    assert(put_off[i] == x);
                }
                assert(put_off.last() == task);
            }
        }
    }
}

/// Rebuilding keeps every task and adds none.
proof fn lemma_rebuild_keeps(g: GraphView, tasks: Seq<TaskView>)
    ensures
        rebuilt(g, tasks) matches Ok(h) ==> {
            &&& h.job_id == g.job_id
            &&& h.tasks.len() == g.tasks.len() + tasks.len()
            &&& forall|task: TaskView| #[trigger] g.tasks.contains(task) ==> h.tasks.contains(task)
            &&& forall|j: int| 0 <= j < tasks.len() ==> h.tasks.contains(#[trigger] tasks[j])
        },
    decreases tasks.len(),
{
    if tasks.len() > 0 {
        let (after, put_off) = sifted(g, tasks, tasks.len());
        lemma_sift_counts(g, tasks, tasks.len());
        lemma_sift_keeps(g, tasks, tasks.len());
        if after is Ok && put_off.len() < tasks.len() {
            let h = after->Ok_0;
            lemma_rebuild_keeps(h, put_off);
            if rebuilt(h, put_off) is Ok {
                let end = rebuilt(h, put_off)->Ok_0;
                assert forall|j: int| 0 <= j < tasks.len() implies end.tasks.contains(
                    #[trigger] tasks[j],
                ) by {
                    if !h.tasks.contains(tasks[j]) {
                        let i = choose|i: int| 0 <= i < put_off.len() && put_off[i] == tasks[j];
                        assert(end.tasks.contains(put_off[i]));
                    }
                }
            }
        }
    }
}

/// A rebuilt graph holds exactly the tasks of the log.
pub proof fn law_rebuilding_keeps_every_task(job_id: JobId, tasks: Seq<TaskView>)
    ensures
        rebuilt(GraphView::empty(job_id), tasks) matches Ok(g) ==> {
            &&& g.job_id == job_id
            &&& g.tasks.len() == tasks.len()
            &&& forall|j: int| 0 <= j < tasks.len() ==> g.tasks.contains(#[trigger] tasks[j])
        },
{
    lemma_rebuild_keeps(GraphView::empty(job_id), tasks);
}

/// Whether no two of some tasks share a name.
pub open spec fn named_apart(tasks: Seq<TaskView>) -> bool {
    forall|i: int, j: int|
        0 <= i < j < tasks.len() ==> (#[trigger] tasks[i]).id != (#[trigger] tasks[j]).id
}

/// Whether everything some tasks depend on is in a graph, or among them with a lower rank.
pub open spec fn grounded(g: GraphView, tasks: Seq<TaskView>, rank: spec_fn(TaskId) -> nat) -> bool {
    forall|i: int, k: int|
        #![trigger tasks[i].dependencies[k]]
        0 <= i < tasks.len() && 0 <= k < tasks[i].dependencies.len() ==> g.has(
            tasks[i].dependencies[k],
        ) || (is_named(tasks, tasks[i].dependencies[k]) && rank(tasks[i].dependencies[k]) < rank(
            tasks[i].id,
        ))
}

/// Whether one of some tasks goes by a name.
pub open spec fn is_named(tasks: Seq<TaskView>, id: TaskId) -> bool {
    exists|j: int| 0 <= j < tasks.len() && (#[trigger] tasks[j]).id == id
}

/// The position of a task of the lowest rank.
spec fn lowest(tasks: Seq<TaskView>, rank: spec_fn(TaskId) -> nat) -> int
    decreases tasks.len(),
{
    if tasks.len() <= 1 {
        0
    } else {
        let before = lowest(tasks.drop_last(), rank);
        if rank(tasks.last().id) < rank(tasks[before].id) {
            tasks.len() - 1
        } else {
            before
        }
    }
}

/// No task ranks below the lowest.
proof fn lemma_lowest(tasks: Seq<TaskView>, rank: spec_fn(TaskId) -> nat)
    requires
        tasks.len() > 0,
    ensures
        0 <= lowest(tasks, rank) < tasks.len(),
        forall|j: int|
            0 <= j < tasks.len() ==> rank(tasks[lowest(tasks, rank)].id) <= rank(
                (#[trigger] tasks[j]).id,
            ),
    decreases tasks.len(),
{
    if tasks.len() > 1 {
        let front = tasks.drop_last();
        lemma_lowest(front, rank);
        assert forall|j: int| 0 <= j < tasks.len() implies rank(tasks[lowest(tasks, rank)].id)
            <= rank((#[trigger] tasks[j]).id) by {
            if j < front.len() {
                assert(front[j] == tasks[j]);
            }
        }
    }
}

/// Sifting grounded tasks is never refused, and takes in at least the one of lowest rank.
proof fn lemma_sift_grounded(
    g: GraphView,
    tasks: Seq<TaskView>,
    rank: spec_fn(TaskId) -> nat,
    m: int,
    n: nat,
)
    requires
        g.consistent(),
        named_apart(tasks),
        grounded(g, tasks, rank),
        forall|j: int| 0 <= j < tasks.len() ==> !g.has((#[trigger] tasks[j]).id),
        n <= tasks.len(),
        0 <= m < tasks.len(),
        forall|j: int|
            0 <= j < tasks.len() ==> rank(tasks[m].id) <= rank((#[trigger] tasks[j]).id),
    ensures
        ({
            let (after, put_off) = sifted(g, tasks, n);
            &&& after matches Ok(h) && {
                &&& h.consistent()
                &&& forall|id: TaskId| #[trigger] g.has(id) ==> h.has(id)
                &&& forall|j: int|
                    0 <= j < n ==> h.has((#[trigger] tasks[j]).id) || put_off.contains(tasks[j])
                &&& forall|j: int| n <= j < tasks.len() ==> !h.has((#[trigger] tasks[j]).id)
                &&& forall|k: int| 0 <= k < put_off.len() ==> !h.has((#[trigger] put_off[k]).id)
                &&& h.tasks.len() >= g.tasks.len()
                &&& m < n ==> h.tasks.len() > g.tasks.len()
            }
            &&& forall|k: int|
                0 <= k < put_off.len() ==> exists|j: int|
                    0 <= j < n && #[trigger] tasks[j] == #[trigger] put_off[k]
            &&& named_apart(put_off)
        }),
    decreases n,
{
    if n > 0 {
        lemma_sift_grounded(g, tasks, rank, m, (n - 1) as nat);
        let (before, earlier) = sifted(g, tasks, (n - 1) as nat);
        let (after, put_off) = sifted(g, tasks, n);
        let b = before->Ok_0;
        let task = tasks[n - 1];
        lemma_first_missing(b, task.dependencies);
        if b.has_all(task.dependencies) {
            lemma_inserted_consistent(b, task);
            let h = b.inserted(task);
            assert(after == Ok::<GraphView, ErrorView>(h));
            assert forall|j: int| n <= j < tasks.len() implies !h.has((#[trigger] tasks[j]).id) by {
                assert(tasks[n - 1].id != tasks[j].id);
            }
            assert forall|k: int| 0 <= k < put_off.len() implies !h.has(
                (#[trigger] put_off[k]).id,
            ) by {
                let j = choose|j: int| 0 <= j < n - 1 && #[trigger] tasks[j] == put_off[k];
                assert(tasks[j].id != tasks[n - 1].id);
            }
        } else {
            if m == n - 1 {
                let k = choose|k: int|
                    0 <= k < task.dependencies.len() && !b.has(#[trigger] task.dependencies[k]);
                let dependency = tasks[m].dependencies[k];
                assert(!g.has(dependency));
                assert(is_named(tasks, dependency));
                let j = choose|j: int| 0 <= j < tasks.len() && (#[trigger] tasks[j]).id
                    == dependency;
                assert(rank(tasks[m].id) <= rank(tasks[j].id));
            }
            assert(put_off =~= earlier.push(task));
            assert forall|j: int| 0 <= j < n implies b.has((#[trigger] tasks[j]).id)
                || put_off.contains(tasks[j]) by {
                if j == n - 1 {
                    assert(put_off.last() == tasks[j]);
                } else if !b.has(tasks[j].id) {
                    let i = choose|i: int| 0 <= i < earlier.len() && earlier[i] == tasks[j];
                    assert(put_off[i] == tasks[j]);
                }
            }
            assert forall|k: int| 0 <= k < put_off.len() implies exists|j: int|
                0 <= j < n && #[trigger] tasks[j] == #[trigger] put_off[k] by {
                if k == earlier.len() {
                    assert(tasks[n - 1] == put_off[k]);
                } else {
                    let j = choose|j: int| 0 <= j < n - 1 && #[trigger] tasks[j] == earlier[k];
                    assert(tasks[j] == put_off[k]);
                }
            }
            assert forall|x: int, y: int| 0 <= x < y < put_off.len() implies (
            #[trigger] put_off[x]).id != (#[trigger] put_off[y]).id by {
                if y == earlier.len() {
                    let j = choose|j: int| 0 <= j < n - 1 && #[trigger] tasks[j] == earlier[x];
                    assert(tasks[j].id != tasks[n - 1].id);
                }
            }
        }
    }
}

/// Grounded tasks can be put into a graph.
proof fn lemma_rebuild_grounded(g: GraphView, tasks: Seq<TaskView>, rank: spec_fn(TaskId) -> nat)
    requires
        g.consistent(),
        named_apart(tasks),
        grounded(g, tasks, rank),
        forall|j: int| 0 <= j < tasks.len() ==> !g.has((#[trigger] tasks[j]).id),
    ensures
        rebuilt(g, tasks) is Ok,
    decreases tasks.len(),
{
    if tasks.len() > 0 {
        lemma_lowest(tasks, rank);
        let m = lowest(tasks, rank);
        lemma_sift_grounded(g, tasks, rank, m, tasks.len());
        lemma_sift_counts(g, tasks, tasks.len());
        let (after, put_off) = sifted(g, tasks, tasks.len());
        let h = after->Ok_0;
        assert(put_off.len() < tasks.len());
        assert forall|i: int, k: int|
            #![trigger put_off[i].dependencies[k]]
            0 <= i < put_off.len() && 0 <= k < put_off[i].dependencies.len() implies h.has(
            put_off[i].dependencies[k],
        ) || (is_named(put_off, put_off[i].dependencies[k]) && rank(put_off[i].dependencies[k])
            < rank(put_off[i].id)) by {
            let a = choose|a: int| 0 <= a < tasks.len() && #[trigger] tasks[a] == put_off[i];
            let dependency = tasks[a].dependencies[k];
            if !g.has(dependency) {
                let j = choose|j: int| 0 <= j < tasks.len() && (#[trigger] tasks[j]).id
                    == dependency;
                if !h.has(tasks[j].id) {
                    let b = choose|b: int| 0 <= b < put_off.len() && put_off[b] == tasks[j];
                    assert(put_off[b].id == dependency);
                }
            }
        }
        lemma_rebuild_grounded(h, put_off, rank);
    }
}

/// Tasks are rebuilt whatever order they were logged in: it is enough that their names differ,
/// that what they depend on is among them, and that no task depends on itself through others.
pub proof fn law_any_logging_order_will_do(
    job_id: JobId,
    tasks: Seq<TaskView>,
    rank: spec_fn(TaskId) -> nat,
)
    requires
        named_apart(tasks),
        forall|i: int, k: int|
            #![trigger tasks[i].dependencies[k]]
            0 <= i < tasks.len() && 0 <= k < tasks[i].dependencies.len() ==> is_named(
                tasks,
                tasks[i].dependencies[k],
            ) && rank(tasks[i].dependencies[k]) < rank(tasks[i].id),
    ensures
        rebuilt(GraphView::empty(job_id), tasks) is Ok,
{
    let g = GraphView::empty(job_id);
    assert forall|id: TaskId| !g.has(id) by {
        if g.has(id) {
            assert(g.stands(id, g.at(id)));
        }
    }
    assert(crate::topology::is_topological(seq![], 0, g.edges));
    assert(g.consistent());
    lemma_rebuild_grounded(g, tasks, rank);
}

/// The last thing said of a task.
#[derive(Clone, Copy, Debug, PartialEq, Eq, Structural)]
pub struct LastSeen {
    /// Which task.
    pub task_id: TaskId,
    /// The state it moved to.
    pub state: TaskState,
    /// Attempts used at the time.
    pub attempt: u32,
}

/// Where a task stands in a list.
pub open spec fn seen_at(list: Seq<LastSeen>, task_id: TaskId, from: nat) -> Option<nat>
    decreases list.len() - from,
{
    if from >= list.len() {
        None
    } else if list[from as int].task_id == task_id {
        Some(from)
    } else {
        seen_at(list, task_id, from + 1)
    }
}

/// A list with the newest thing said of a task.
pub open spec fn updated(list: Seq<LastSeen>, item: LastSeen) -> Seq<LastSeen> {
    match seen_at(list, item.task_id, 0) {
        Some(at) => list.update(at as int, item),
        None => list.push(item),
    }
}

/// Everything replay has learned about one job so far.
#[derive(Debug)]
pub struct Recovering {
    /// The job, once its plan was read.
    pub job: Option<Job>,
    /// Its tasks.
    pub tasks: Vec<TaskNode>,
    /// The last thing said of each task, in the order they first came up.
    pub seen: Vec<LastSeen>,
    /// The audit trail.
    pub transitions: Vec<Transition<TaskState>>,
    /// Results.
    pub results: Vec<TaskResult>,
    /// Failed attempts.
    pub failures: Vec<TaskFailure>,
    /// The merged result.
    pub final_result: Option<FinalResult>,
}

/// What an accumulator holds.
#[verifier::ext_equal]
pub struct RecoveringView {
    /// The job.
    pub job: Option<JobView>,
    /// Its tasks.
    pub tasks: Seq<TaskView>,
    /// The last thing said of each task.
    pub seen: Seq<LastSeen>,
    /// The audit trail.
    pub transitions: Seq<TransitionView<TaskState>>,
    /// Results.
    pub results: Seq<TaskResultView>,
    /// Failed attempts.
    pub failures: Seq<TaskFailureView>,
    /// The merged result.
    pub final_result: Option<FinalResultView>,
}

/// A job, taken by its view.
pub open spec fn job_view(job: Option<Job>) -> Option<JobView> {
    match job {
        Some(job) => Some(job@),
        None => None,
    }
}

impl View for Recovering {
    type V = RecoveringView;

    open spec fn view(&self) -> RecoveringView {
        RecoveringView {
            job: job_view(self.job),
            tasks: task_views(self.tasks@),
            seen: self.seen@,
            transitions: transition_views(self.transitions@),
            results: result_views(self.results@),
            failures: failure_views(self.failures@),
            final_result: merged_view(self.final_result),
        }
    }
}

impl RecoveringView {
    /// Nothing learned yet.
    pub open spec fn blank() -> RecoveringView {
        RecoveringView {
            job: None,
            tasks: seq![],
            seen: seq![],
            transitions: seq![],
            results: seq![],
            failures: seq![],
            final_result: None,
        }
    }

    /// With one more record taken in.
    pub open spec fn learned(self, record: RecordView) -> RecoveringView {
        match record {
            RecordView::JobPlanned { job, tasks } => RecoveringView {
                job: Some(job),
                tasks,
                ..self
            },
            RecordView::JobStatusChanged { status, reason, .. } => RecoveringView {
                job: match self.job {
                    Some(job) => Some(JobView { status, status_reason: reason, ..job }),
                    None => None,
                },
                ..self
            },
            RecordView::TaskTransitioned { transition, task_id, attempt, .. } => RecoveringView {
                seen: updated(self.seen, LastSeen { task_id, state: transition.to, attempt }),
                transitions: self.transitions.push(transition),
                ..self
            },
            RecordView::TaskCompleted { result, .. } => RecoveringView {
                results: self.results.push(result),
                ..self
            },
            RecordView::TaskFailed { failure, .. } => RecoveringView {
                failures: self.failures.push(failure),
                ..self
            },
            RecordView::JobFinished { result, .. } => RecoveringView {
                final_result: Some(result),
                ..self
            },
        }
    }
}

/// What the first `n` records of a log say of a job.
pub open spec fn replayed(records: Seq<RecordView>, job_id: JobId, n: nat) -> RecoveringView
    decreases n,
{
    if n == 0 {
        RecoveringView::blank()
    } else {
        let before = replayed(records, job_id, (n - 1) as nat);
        if records[n - 1].job_id() == job_id {
            before.learned(records[n - 1])
        } else {
            before
        }
    }
}

/// Where a task stands in a list.
fn find_seen(list: &Vec<LastSeen>, task_id: TaskId) -> (r: Option<usize>)
    ensures
        match r {
            Some(at) => at < list@.len() && seen_at(list@, task_id, 0) == Some(at as nat),
            None => seen_at(list@, task_id, 0) is None,
        },
{
    for i in 0..list.len()
        invariant
            seen_at(list@, task_id, 0) == seen_at(list@, task_id, i as nat),
    {
        if list[i].task_id == task_id {
            return Some(i);
        }
    }
    None
}

impl Recovering {
    /// Nothing learned yet.
    pub fn new() -> (r: Self)
        ensures
            r@ == RecoveringView::blank(),
    {
        let r = Recovering {
            job: None,
            tasks: Vec::new(),
            seen: Vec::new(),
            transitions: Vec::new(),
            results: Vec::new(),
            failures: Vec::new(),
            final_result: None,
        };
        assert(r@ =~= RecoveringView::blank());
        r
    }

    /// Take in one more record.
    pub fn apply(&mut self, record: JournalRecord)
        ensures
            final(self)@ == old(self)@.learned(record@),
    {
        let ghost before = self@;
        match record {
            JournalRecord::JobPlanned { job, tasks } => {
                self.job = Some(*job);
                self.tasks = tasks;
            },
            JournalRecord::JobStatusChanged { status, reason, .. } => {
                let mut known: Option<Job> = None;
                std::mem::swap(&mut known, &mut self.job);
                self.job = match known {
                    Some(job) => Some(Job { status, status_reason: reason, ..job }),
                    None => None,
                };
            },
            JournalRecord::TaskTransitioned { transition, task_id, attempt, .. } => {
                let item = LastSeen { task_id, state: transition.to, attempt };
                match find_seen(&self.seen, task_id) {
                    Some(at) => {
                        self.seen.set(at, item);
                    },
                    None => {
                        self.seen.push(item);
                    },
                }
                self.transitions.push(*transition);
                assert(transition_views(self.transitions@) =~= before.transitions.push(
                    self.transitions@.last()@,
                ));
            },
            JournalRecord::TaskCompleted { result, .. } => {
                self.results.push(*result);
                assert(result_views(self.results@) =~= before.results.push(self.results@.last()@));
            },
            JournalRecord::TaskFailed { failure, .. } => {
                self.failures.push(*failure);
                assert(failure_views(self.failures@) =~= before.failures.push(
                    self.failures@.last()@,
                ));
            },
            JournalRecord::JobFinished { result, .. } => {
                self.final_result = Some(*result);
            },
        }
        assert(self@ =~= before.learned(record@));
    }
}

/// Whether a log says anything of a job.
pub open spec fn mentions(records: Seq<RecordView>, job_id: JobId, n: nat) -> bool {
    exists|i: int| 0 <= i < n && (#[trigger] records[i]).job_id() == job_id
}

/// The jobs of a log, each with what the log says of it.
#[derive(Debug)]
pub struct Replay {
    /// The jobs.
    pub jobs: Vec<(JobId, Recovering)>,
}

impl Replay {
    /// Whether the jobs are those the first `n` records of a log speak of, each once, with
    /// what those records say of it.
    pub open spec fn covers(&self, records: Seq<RecordView>, n: nat) -> bool {
        &&& forall|k: int|
            0 <= k < self.jobs@.len() ==> (#[trigger] self.jobs@[k]).1@ == replayed(
                records,
                self.jobs@[k].0,
                n,
            ) && mentions(records, self.jobs@[k].0, n)
        &&& forall|a: int, b: int|
            0 <= a < b < self.jobs@.len() ==> (#[trigger] self.jobs@[a]).0 != (
            #[trigger] self.jobs@[b]).0
        &&& forall|i: int|
            0 <= i < n ==> exists|k: int|
                0 <= k < self.jobs@.len() && (#[trigger] self.jobs@[k]).0 == (
                #[trigger] records[i]).job_id()
    }
}

/// What was said of a job nobody mentioned is nothing.
proof fn lemma_unmentioned(records: Seq<RecordView>, job_id: JobId, n: nat)
    requires
        n <= records.len(),
        !mentions(records, job_id, n),
    ensures
        replayed(records, job_id, n) == RecoveringView::blank(),
    decreases n,
{
    if n > 0 {
        assert(records[n - 1].job_id() != job_id);
        assert forall|i: int| 0 <= i < n - 1 implies (#[trigger] records[i]).job_id()
            != job_id by {}
        lemma_unmentioned(records, job_id, (n - 1) as nat);
    }
}

/// Fold the records of a log into per-job accumulators.
pub fn replay_records(records: Vec<JournalRecord>) -> (r: Replay)
    ensures
        r.covers(record_views(records@), records@.len()),
{
    let ghost all = record_views(records@);
    let mut replay = Replay { jobs: Vec::new() };
    for n in 0..records.len()
        invariant
            all == record_views(records@),
            replay.covers(all, n as nat),
    {
        let ghost before = replay.jobs@;
        let record = records[n].clone();
        let job_id = record.job_id();
        assert(all[n as int] == record@);
        let mut at: usize = 0;
        while at < replay.jobs.len() && replay.jobs[at].0 != job_id
            invariant
                at <= replay.jobs@.len(),
                replay.jobs@ == before,
                forall|k: int| 0 <= k < at ==> (#[trigger] before[k]).0 != job_id,
            ensures
                at <= replay.jobs@.len(),
                replay.jobs@ == before,
                forall|k: int| 0 <= k < at ==> (#[trigger] before[k]).0 != job_id,
                at < replay.jobs@.len() ==> before[at as int].0 == job_id,
            decreases replay.jobs@.len() - at,
        {
            at = at + 1;
        }
        if at < replay.jobs.len() {
            let (id, mut known) = replay.jobs.swap_remove(at);
            known.apply(record);
            replay.jobs.push((id, known));
            proof {
                let after = replay.jobs@;
                let last = before.len() - 1;
                assert forall|k: int| 0 <= k < after.len() implies (#[trigger] after[k]).1@
                    == replayed(all, after[k].0, (n + 1) as nat) && mentions(
                    all,
                    after[k].0,
                    (n + 1) as nat,
                ) by {
                    if k == last {
                        assert(all[n as int].job_id() == job_id);
                        assert(before[at as int].1@ == replayed(all, job_id, n as nat));
                    } else {
                        let source = if k == at {
                            last
                        } else {
                            k
                        };
                        assert(after[k] == before[source]);
                        assert(before[source].0 != before[at as int].0);
                        let i = choose|i: int|
                            0 <= i < n && (#[trigger] all[i]).job_id() == before[source].0;
                        assert(all[i].job_id() == after[k].0);
                    }
                }
                assert forall|a: int, b: int| 0 <= a < b < after.len() implies (
                #[trigger] after[a]).0 != (#[trigger] after[b]).0 by {
                    let x = if a == at {
                        last
                    } else {
                        a
                    };
                    let y = if b == last {
                        at as int
                    } else if b == at {
                        last
                    } else {
                        b
                    };
                    let p = if a == last {
                        at as int
                    } else {
                        x
                    };
                    assert(after[a].0 == before[p].0);
                    assert(after[b].0 == before[y].0);
                    assert(p != y);
                    if p < y {
                        assert(before[p].0 != before[y].0);
                    } else {
                        assert(before[y].0 != before[p].0);
                    }
                }
                assert forall|i: int| 0 <= i < n + 1 implies exists|k: int|
                    0 <= k < after.len() && (#[trigger] after[k]).0 == (
                    #[trigger] all[i]).job_id() by {
                    if i == n {
                        assert(after[last].0 == job_id);
                    } else {
                        let k = choose|k: int|
                            0 <= k < before.len() && (#[trigger] before[k]).0 == all[i].job_id();
                        if k == at {
                            assert(after[last].0 == all[i].job_id());
                        } else if k == last {
                            assert(after[at as int].0 == all[i].job_id());
                        } else {
                            assert(after[k].0 == all[i].job_id());
                        }
                    }
                }
            }
        } else {
            let mut fresh = Recovering::new();
            fresh.apply(record);
            replay.jobs.push((job_id, fresh));
            proof {
                let after = replay.jobs@;
                assert(!mentions(all, job_id, n as nat)) by {
                    if mentions(all, job_id, n as nat) {
                        let i = choose|i: int|
                            0 <= i < n && (#[trigger] all[i]).job_id() == job_id;
                        let k = choose|k: int|
                            0 <= k < before.len() && (#[trigger] before[k]).0 == all[i].job_id();
                        assert(before[k].0 == job_id);
                    }
                }
                lemma_unmentioned(all, job_id, n as nat);
                assert forall|k: int| 0 <= k < after.len() implies (#[trigger] after[k]).1@
                    == replayed(all, after[k].0, (n + 1) as nat) && mentions(
                    all,
                    after[k].0,
                    (n + 1) as nat,
                ) by {
                    if k < before.len() {
                        assert(after[k] == before[k]);
                        let i = choose|i: int|
                            0 <= i < n && (#[trigger] all[i]).job_id() == before[k].0;
                        assert(all[i].job_id() == after[k].0);
                    } else {
                        assert(all[n as int].job_id() == job_id);
                    }
                }
                assert forall|i: int| 0 <= i < n + 1 implies exists|k: int|
                    0 <= k < after.len() && (#[trigger] after[k]).0 == (
                    #[trigger] all[i]).job_id() by {
                    if i == n {
                        assert(after[before.len() as int].0 == job_id);
                    } else {
                        let k = choose|k: int|
                            0 <= k < before.len() && (#[trigger] before[k]).0 == all[i].job_id();
                        assert(after[k].0 == all[i].job_id());
                    }
                }
            }
        }
    }
    replay
}

/// The state a task comes back in: what is terminal stays, and what was mid-flight goes back
/// into the ready set.
pub open spec fn restored_state(state: TaskState) -> TaskState {
    if state.finished() {
        state
    } else {
        TaskState::Created
    }
}

/// A graph after the first `n` things said of its tasks were taken to heart. Attempts already
/// spent still count, so a task that failed twice before the crash does not get a fresh retry
/// budget.
pub open spec fn restored(g: GraphView, seen: Seq<LastSeen>, n: nat) -> Result<GraphView, ErrorView>
    decreases n,
{
    if n == 0 {
        Ok(g)
    } else {
        let item = seen[n - 1];
        match restored(g, seen, (n - 1) as nat) {
            Err(error) => Err(error),
            Ok(h) => if h.has(item.task_id) {
                Ok(
                    h.with_state(item.task_id, restored_state(item.state)).with_attempt(
                        item.task_id,
                        item.attempt,
                    ),
                )
            } else {
                Err(h.no_task(item.task_id))
            },
        }
    }
}

/// How many tasks go back into the ready set.
pub open spec fn resumed(seen: Seq<LastSeen>) -> nat
    decreases seen.len(),
{
    if seen.len() == 0 {
        0
    } else {
        resumed(seen.drop_last()) + if seen.last().state.finished() {
            0nat
        } else {
            1nat
        }
    }
}

/// How many of some failures were final, or were not.
pub open spec fn failures_counted(failures: Seq<TaskFailureView>, dead_lettered: bool) -> nat
    decreases failures.len(),
{
    if failures.len() == 0 {
        0
    } else {
        failures_counted(failures.drop_last(), dead_lettered) + if failures.last().dead_lettered
            == dead_lettered {
            1nat
        } else {
            0nat
        }
    }
}

/// How many of some results were handed back from an earlier run, or were not.
pub open spec fn results_counted(results: Seq<TaskResultView>, deduplicated: bool) -> nat
    decreases results.len(),
{
    if results.len() == 0 {
        0
    } else {
        results_counted(results.drop_last(), deduplicated) + if results.last().deduplicated
            == deduplicated {
            1nat
        } else {
            0nat
        }
    }
}

/// The prompt tokens of some results.
pub open spec fn tokens_in_total(results: Seq<TaskResultView>) -> u64
    decreases results.len(),
{
    if results.len() == 0 {
        0
    } else {
        summed(tokens_in_total(results.drop_last()), results.last().tokens_in)
    }
}

/// The completion tokens of some results.
pub open spec fn tokens_out_total(results: Seq<TaskResultView>) -> u64
    decreases results.len(),
{
    if results.len() == 0 {
        0
    } else {
        summed(tokens_out_total(results.drop_last()), results.last().tokens_out)
    }
}

/// How long some results took.
pub open spec fn durations(results: Seq<TaskResultView>) -> Seq<u64> {
    results.map_values(|result: TaskResultView| result.duration_ms)
}

/// The counters that are derivable from what actually happened. Timings that only the
/// original process observed stay zero rather than being invented.
pub open spec fn recomputed(
    results: Seq<TaskResultView>,
    failures: Seq<TaskFailureView>,
    tasks_total: usize,
    cost_usd: Real64,
) -> ExecutionStatistics {
    let counters = ExecutionStatistics {
        tasks_total,
        tasks_succeeded: results.len() as u64,
        tasks_failed: failures_counted(failures, true) as u64,
        tasks_retried: failures_counted(failures, false) as u64,
        model_requests: results_counted(results, false) as u64,
        model_cache_hits: results_counted(results, true) as u64,
        tokens_in: tokens_in_total(results),
        tokens_out: tokens_out_total(results),
        cost_usd,
        ..no_statistics()
    };
    if results.len() == 0 {
        counters
    } else {
        ExecutionStatistics {
            median_task_latency_ms: percentile_of(durations(results), 50),
            p95_task_latency_ms: percentile_of(durations(results), 95),
            p99_task_latency_ms: percentile_of(durations(results), 99),
            ..counters
        }
    }
}

/// How long some results took.
fn durations_of(results: &Vec<TaskResult>) -> (r: Vec<u64>)
    ensures
        r@ == durations(result_views(results@)),
{
    let mut r: Vec<u64> = Vec::new();
    for i in 0..results.len()
        invariant
            r@.len() == i,
            forall|k: int| 0 <= k < i ==> #[trigger] r@[k] == results@[k]@.duration_ms,
    {
        r.push(results[i].duration_ms);
    }
    assert(r@ =~= durations(result_views(results@)));
    r
}

/// Rebuild the counters that are derivable from what actually happened. The spend is the sum
/// of what the results cost.
pub fn recompute_statistics(
    results: &Vec<TaskResult>,
    failures: &Vec<TaskFailure>,
    tasks_total: usize,
    cost_usd: Real64,
) -> (r: ExecutionStatistics)
    ensures
        r == recomputed(
            result_views(results@),
            failure_views(failures@),
            tasks_total,
            cost_usd,
        ),
{
    let ghost all = result_views(results@);
    let ghost failed = failure_views(failures@);
    let mut dead: u64 = 0;
    let mut retried: u64 = 0;
    assert(failed.take(0) =~= seq![]);
    for i in 0..failures.len()
        invariant
            failed == failure_views(failures@),
            dead == failures_counted(failed.take(i as int), true),
            retried == failures_counted(failed.take(i as int), false),
            dead + retried == i,
    {
        assert(failed.take(i + 1).drop_last() =~= failed.take(i as int));
        assert(failed.take(i + 1).last() == failures@[i as int]@);
        if failures[i].dead_lettered {
            dead = dead + 1;
        } else {
            retried = retried + 1;
        }
    }
    assert(failed.take(failed.len() as int) =~= failed);
    let mut requests: u64 = 0;
    let mut hits: u64 = 0;
    let mut tokens_in: u64 = 0;
    let mut tokens_out: u64 = 0;
    assert(all.take(0) =~= seq![]);
    for i in 0..results.len()
        invariant
            all == result_views(results@),
            requests == results_counted(all.take(i as int), false),
            hits == results_counted(all.take(i as int), true),
            requests + hits == i,
            tokens_in == tokens_in_total(all.take(i as int)),
            tokens_out == tokens_out_total(all.take(i as int)),
    {
        assert(all.take(i + 1).drop_last() =~= all.take(i as int));
        assert(all.take(i + 1).last() == results@[i as int]@);
        if results[i].deduplicated {
            hits = hits + 1;
        } else {
            requests = requests + 1;
        }
        tokens_in = tokens_in.saturating_add(results[i].tokens_in);
        tokens_out = tokens_out.saturating_add(results[i].tokens_out);
    }
    assert(all.take(all.len() as int) =~= all);
    let mut statistics = ExecutionStatistics::default();
    statistics.tasks_total = tasks_total;
    statistics.tasks_succeeded = results.len() as u64;
    statistics.tasks_failed = dead;
    statistics.tasks_retried = retried;
    statistics.model_requests = requests;
    statistics.model_cache_hits = hits;
    statistics.tokens_in = tokens_in;
    statistics.tokens_out = tokens_out;
    statistics.cost_usd = cost_usd;
    let latencies = durations_of(results);
    statistics.set_latency_percentiles(latencies.as_slice());
    statistics
}

impl RecoveringView {
    /// Whether no task has used up all numbers for its attempts.
    pub open spec fn startable(self) -> bool {
        &&& forall|i: int| 0 <= i < self.tasks.len() ==> (#[trigger] self.tasks[i]).attempt
            < u32::MAX
        &&& forall|i: int| 0 <= i < self.seen.len() ==> (#[trigger] self.seen[i]).attempt
            < u32::MAX
    }

    /// Whether the tasks can be held in a graph.
    pub open spec fn fits(self) -> bool {
        self.job matches Some(job) ==> has_room_for(GraphView::empty(job.id), self.tasks)
    }

    /// The job as it comes back: one that was running is rewound to planning, which is what
    /// lets the engine start it again.
    pub open spec fn recovered_job(self) -> JobView {
        let job = self.job->0;
        if job.status.finished() {
            job
        } else {
            JobView {
                status: JobStatus::Planning,
                status_reason: Some(
                    "recovered from journal, "@ + decimal(resumed(self.seen))
                        + " tasks re-queued"@,
                ),
                ..job
            }
        }
    }

    /// The live job that the records come to, or why there is none.
    pub open spec fn recovered(self, cost_usd: Real64) -> Result<HandleView, ErrorView> {
        match self.job {
            None => Err(
                ErrorView::Internal(
                    "journal has records for a job it never planned; log is truncated at the head"@,
                ),
            ),
            Some(job) => match rebuilt(GraphView::empty(job.id), self.tasks) {
                Err(error) => Err(error),
                Ok(g) => match restored(g, self.seen, self.seen.len()) {
                    Err(error) => Err(error),
                    Ok(graph) => Ok(
                        HandleView {
                            job: self.recovered_job(),
                            graph,
                            agents: seq![],
                            results: self.results,
                            failures: self.failures,
                            transitions: self.transitions,
                            statistics: recomputed(
                                self.results,
                                self.failures,
                                graph.tasks.len() as usize,
                                cost_usd,
                            ),
                            latencies: durations(self.results),
                            final_result: self.final_result,
                            events: seq![],
                            control: Control::Running,
                            sequence: 0,
                            records: seq![],
                        },
                    ),
                },
            },
        }
    }
}

/// Sifting puts nothing into a graph but the tasks at hand.
proof fn lemma_sift_adds_only(g: GraphView, tasks: Seq<TaskView>, n: nat)
    requires
        n <= tasks.len(),
    ensures
        ({
            let (after, put_off) = sifted(g, tasks, n);
            &&& after matches Ok(h) ==> forall|i: int|
                0 <= i < h.tasks.len() ==> g.tasks.contains(#[trigger] h.tasks[i])
                    || tasks.contains(h.tasks[i])
            &&& forall|k: int| 0 <= k < put_off.len() ==> tasks.contains(#[trigger] put_off[k])
        }),
    decreases n,
{
    if n > 0 {
        lemma_sift_adds_only(g, tasks, (n - 1) as nat);
        let (before, earlier) = sifted(g, tasks, (n - 1) as nat);
        let (after, put_off) = sifted(g, tasks, n);
        let task = tasks[n - 1];
        assert(tasks.contains(task));
        if after is Ok {
            let b = before->Ok_0;
            let h = after->Ok_0;
            if b.has_all(task.dependencies) {
                assert forall|i: int| 0 <= i < h.tasks.len() implies g.tasks.contains(
                    #[trigger] h.tasks[i],
                ) || tasks.contains(h.tasks[i]) by {
                    if i < b.tasks.len() {
                        assert(h.tasks[i] == b.tasks[i]);
                    }
                }
            }
        }
    } else {
        assert forall|i: int| 0 <= i < g.tasks.len() implies g.tasks.contains(
            #[trigger] g.tasks[i],
        ) by {}
    }
}

/// Rebuilding puts nothing into a graph but the tasks at hand.
proof fn lemma_rebuild_adds_only(g: GraphView, tasks: Seq<TaskView>)
    ensures
        rebuilt(g, tasks) matches Ok(h) ==> forall|i: int|
            0 <= i < h.tasks.len() ==> g.tasks.contains(#[trigger] h.tasks[i]) || tasks.contains(
                h.tasks[i],
            ),
    decreases tasks.len(),
{
    if tasks.len() > 0 {
        let (after, put_off) = sifted(g, tasks, tasks.len());
        lemma_sift_adds_only(g, tasks, tasks.len());
        if after is Ok && put_off.len() < tasks.len() {
            let h = after->Ok_0;
            lemma_rebuild_adds_only(h, put_off);
            if rebuilt(h, put_off) is Ok {
                let end = rebuilt(h, put_off)->Ok_0;
                assert forall|i: int| 0 <= i < end.tasks.len() implies g.tasks.contains(
                    #[trigger] end.tasks[i],
                ) || tasks.contains(end.tasks[i]) by {
                    if h.tasks.contains(end.tasks[i]) {
                        let j = choose|j: int|
                            0 <= j < h.tasks.len() && h.tasks[j] == end.tasks[i];
                        assert(g.tasks.contains(h.tasks[j]) || tasks.contains(h.tasks[j]));
                    } else {
                        let j = choose|j: int| 0 <= j < put_off.len() && put_off[j] == end.tasks[i];
                        assert(tasks.contains(put_off[j]));
                    }
                }
            }
        }
    } else {
        assert forall|i: int| 0 <= i < g.tasks.len() implies g.tasks.contains(
            #[trigger] g.tasks[i],
        ) by {}
    }
}

/// An error met on the way stays.
proof fn lemma_restore_stops(g: GraphView, seen: Seq<LastSeen>, n: nat, m: nat)
    requires
        n <= m,
        restored(g, seen, n) is Err,
    ensures
        restored(g, seen, m) == restored(g, seen, n),
    decreases m - n,
{
    if n < m {
        lemma_restore_stops(g, seen, n, (m - 1) as nat);
    }
}

/// More tasks have no fewer dependencies.
proof fn lemma_dependencies_add_up(tasks: Seq<TaskView>, n: int)
    requires
        0 <= n <= tasks.len(),
    ensures
        dependency_total(tasks.take(n)) <= dependency_total(tasks),
    decreases tasks.len() - n,
{
    if n == tasks.len() {
        assert(tasks.take(n) =~= tasks);
    } else {
        lemma_dependencies_add_up(tasks, n + 1);
        assert(tasks.take(n + 1).drop_last() =~= tasks.take(n));
    }
}

impl Recovering {
    /// Whether the tasks can be held in a graph, and none has used up all numbers for its
    /// attempts.
    pub fn can_build(&self) -> (r: bool)
        ensures
            r ==> self@.fits() && self@.startable(),
            !r && self@.job is Some ==> !(self@.fits() && self@.startable()),
    {
        let ghost tasks = task_views(self.tasks@);
        if self.tasks.len() > u32::MAX as usize {
            return false;
        }
        let mut total: u64 = 0;
        assert(tasks.take(0) =~= seq![]);
        for i in 0..self.tasks.len()
            invariant
                tasks == task_views(self.tasks@),
                tasks == self@.tasks,
                total == dependency_total(tasks.take(i as int)),
                total <= u32::MAX,
                forall|k: int| 0 <= k < i ==> (#[trigger] tasks[k]).attempt < u32::MAX,
        {
            assert(tasks[i as int] == self.tasks@[i as int]@);
            if self.tasks[i].attempt == u32::MAX {
                return false;
            }
            let more: usize = self.tasks[i].dependencies.len();
            proof {
                assert(tasks.take(i + 1).drop_last() =~= tasks.take(i as int));
                lemma_dependencies_add_up(tasks, i + 1);
            }
            if more > (u32::MAX as u64 - total) as usize {
                return false;
            }
            total = total + more as u64;
        }
        assert(tasks.take(tasks.len() as int) =~= tasks);
        for i in 0..self.seen.len()
            invariant
                forall|k: int| 0 <= k < i ==> (#[trigger] self.seen@[k]).attempt < u32::MAX,
        {
            if self.seen[i].attempt == u32::MAX {
                return false;
            }
        }
        true
    }

    /// Turn the accumulated records into a live job handle. The spend is the sum of what the
    /// results cost.
    pub fn build(self, cost_usd: Real64) -> (r: Result<JobHandle, SwarmError>)
        requires
            self@.fits(),
            self@.startable(),
        ensures
            match r {
                Ok(handle) => handle.wf() && self@.recovered(cost_usd) == Ok::<
                    HandleView,
                    ErrorView,
                >(handle@),
                Err(error) => self@.recovered(cost_usd) == Err::<HandleView, ErrorView>(error@),
            },
    {
        let ghost known = self@;
        let mut job = match self.job {
            Some(job) => job,
            None => {
                return Err(
                    SwarmError::Internal(
                        "journal has records for a job it never planned; log is truncated at the head".to_owned(),
                    ),
                );
            },
        };
        let mut graph = match rebuild_graph(job.id, &self.tasks) {
            Ok(graph) => graph,
            Err(error) => {
                return Err(error);
            },
        };
        let ghost start = graph@;
        let ghost seen = self.seen@;
        proof {
            lemma_rebuild_adds_only(GraphView::empty(job.id), known.tasks);
            assert forall|i: int| 0 <= i < start.tasks.len() implies (
            #[trigger] start.tasks[i]).attempt < u32::MAX by {
                let j = choose|j: int|
                    0 <= j < known.tasks.len() && known.tasks[j] == start.tasks[i];
                assert(known.tasks[j].attempt < u32::MAX);
            }
            assert(seen.take(0) =~= seq![]);
        }
        let mut again: u64 = 0;
        let mut n: usize = 0;
        while n < self.seen.len()
            invariant
                graph.wf(),
                n <= seen.len(),
                seen == self.seen@,
                seen == known.seen,
                known == self@,
                known.startable(),
                known.job is Some,
                rebuilt(GraphView::empty(known.job->0.id), known.tasks) == Ok::<
                    GraphView,
                    ErrorView,
                >(start),
                restored(start, seen, n as nat) == Ok::<GraphView, ErrorView>(graph@),
                again == resumed(seen.take(n as int)),
                again <= n,
                forall|i: int| 0 <= i < graph@.tasks.len() ==> (#[trigger] graph@.tasks[i]).attempt
                    < u32::MAX,
            decreases seen.len() - n,
        {
            let item = self.seen[n];
            let ghost here = graph@;
            proof {
                assert(seen.take(n + 1).drop_last() =~= seen.take(n as int));
                assert(seen.take(n + 1).last() == item);
                graph.lemma_wf();
            }
            let state = if item.state.is_finished() {
                item.state
            } else {
                // Mid-flight when the process died: put it back in the ready set.
                again = again + 1;
                TaskState::Created
            };
            match graph.restore_state(item.task_id, state) {
                Ok(_) => {},
                Err(error) => {
                    proof {
                        assert(restored(start, seen, (n + 1) as nat) == Err::<
                            GraphView,
                            ErrorView,
                        >(error@));
                        lemma_restore_stops(start, seen, (n + 1) as nat, seen.len());
                    }
                    return Err(error);
                },
            }
            proof {
                crate::dispatch::lemma_state_elsewhere(here, item.task_id, state);
                assert(here.stands(item.task_id, here.at(item.task_id)));
            }
            let _ = graph.set_attempt(item.task_id, item.attempt);
            proof {
                let at = here.at(item.task_id);
                assert forall|i: int| 0 <= i < graph@.tasks.len() implies (
                #[trigger] graph@.tasks[i]).attempt < u32::MAX by {
                    if i == at {
                        assert(seen[n as int].attempt < u32::MAX);
                    } else {
                        assert(here.tasks[i].attempt < u32::MAX);
                    }
                }
            }
            n = n + 1;
        }
        assert(seen.take(seen.len() as int) =~= seen);
        if !job.status.is_finished() {
            let mut reason = "recovered from journal, ".to_owned();
            reason.append(decimal_text(again).as_str());
            reason.append(" tasks re-queued");
            job.status = JobStatus::Planning;
            job.status_reason = Some(reason);
        }
        assert(job@ == known.recovered_job());
        let total: usize = graph.len();
        let statistics = recompute_statistics(&self.results, &self.failures, total, cost_usd);
        let latencies = durations_of(&self.results);
        let handle = JobHandle {
            job,
            graph,
            agents: Vec::new(),
            results: self.results,
            failures: self.failures,
            transitions: self.transitions,
            statistics,
            latencies,
            final_result: self.final_result,
            events: Vec::new(),
            control: Control::Running,
            sequence: 0,
            records: Vec::new(),
        };
        proof {
            assert(pool_views(handle.agents@) =~= seq![]);
            assert(handle@ =~= known.recovered(cost_usd)->Ok_0);
        }
        Ok(handle)
    }
}

/// Sifting keeps a graph consistent.
proof fn lemma_sift_consistent(g: GraphView, tasks: Seq<TaskView>, n: nat)
    requires
        g.consistent(),
    ensures
        sifted(g, tasks, n).0 matches Ok(h) ==> h.consistent(),
    decreases n,
{
    if n > 0 {
        lemma_sift_consistent(g, tasks, (n - 1) as nat);
        if let Ok(b) = sifted(g, tasks, (n - 1) as nat).0 {
            let task = tasks[n - 1];
            lemma_first_missing(b, task.dependencies);
            if b.has_all(task.dependencies) && b.insert_refusal(task) is None {
                lemma_inserted_consistent(b, task);
            }
        }
    }
}

/// Rebuilding keeps a graph consistent.
proof fn lemma_rebuild_consistent(g: GraphView, tasks: Seq<TaskView>)
    requires
        g.consistent(),
    ensures
        rebuilt(g, tasks) matches Ok(h) ==> h.consistent(),
    decreases tasks.len(),
{
    if tasks.len() > 0 {
        let (after, put_off) = sifted(g, tasks, tasks.len());
        lemma_sift_consistent(g, tasks, tasks.len());
        if after is Ok && put_off.len() < tasks.len() {
            lemma_rebuild_consistent(after->Ok_0, put_off);
        }
    }
}

/// Whether a list speaks of each task once.
pub open spec fn seen_once(list: Seq<LastSeen>) -> bool {
    forall|a: int, b: int|
        0 <= a < b < list.len() ==> (#[trigger] list[a]).task_id != (#[trigger] list[b]).task_id
}

/// A task that stands nowhere in a list is not in it; one that does, is there.
proof fn lemma_seen_at(list: Seq<LastSeen>, task_id: TaskId, from: nat)
    ensures
        match seen_at(list, task_id, from) {
            Some(at) => from <= at < list.len() && list[at as int].task_id == task_id,
            None => forall|k: int|
                from <= k < list.len() ==> (#[trigger] list[k]).task_id != task_id,
        },
    decreases list.len() - from,
{
    if from < list.len() && list[from as int].task_id != task_id {
        lemma_seen_at(list, task_id, from + 1);
    }
}

/// Replay speaks of each task once.
proof fn lemma_seen_once(records: Seq<RecordView>, job_id: JobId, n: nat)
    ensures
        seen_once(replayed(records, job_id, n).seen),
    decreases n,
{
    if n > 0 {
        lemma_seen_once(records, job_id, (n - 1) as nat);
        let before = replayed(records, job_id, (n - 1) as nat).seen;
        if let RecordView::TaskTransitioned { transition, task_id, attempt, .. } = records[n - 1] {
            lemma_seen_at(before, task_id, 0);
        }
    }
}

/// What was completed before a crash is neither lost nor redone. Whatever a log says of a job,
/// its results come back as they were; a task that was last seen terminal comes back in that
/// state; and one that was mid-flight comes back ready to be scheduled, its attempts still
/// counted.
pub proof fn law_recovery_resumes(
    records: Seq<RecordView>,
    job_id: JobId,
    cost_usd: Real64,
    n: int,
)
    requires
        0 <= n < replayed(records, job_id, records.len()).seen.len(),
    ensures
        ({
            let known = replayed(records, job_id, records.len());
            let item = known.seen[n];
            known.recovered(cost_usd) matches Ok(handle) ==> {
                &&& handle.results == known.results
                &&& handle.graph.has(item.task_id)
                &&& handle.graph.task(item.task_id).state == restored_state(item.state)
                &&& handle.graph.task(item.task_id).attempt == item.attempt
            }
        }),
{
    let known = replayed(records, job_id, records.len());
    lemma_seen_once(records, job_id, records.len());
    if known.recovered(cost_usd) is Ok {
        let empty = GraphView::empty(known.job->0.id);
        assert(crate::topology::is_topological(seq![], 0, empty.edges));
        assert(empty.consistent());
        lemma_rebuild_consistent(empty, known.tasks);
        let g = rebuilt(empty, known.tasks)->Ok_0;
        lemma_restored(g, known.seen, known.seen.len(), n);
    }
}

/// What was said of a task is what becomes of it.
proof fn lemma_restored(g: GraphView, seen: Seq<LastSeen>, n: nat, k: int)
    requires
        g.distinct(),
        n <= seen.len(),
        restored(g, seen, n) is Ok,
        0 <= k < seen.len(),
        seen_once(seen),
    ensures
        restored(g, seen, n)->Ok_0.distinct(),
        k < n ==> ({
            let h = restored(g, seen, n)->Ok_0;
            &&& h.has(seen[k].task_id)
            &&& h.task(seen[k].task_id).state == restored_state(seen[k].state)
            &&& h.task(seen[k].task_id).attempt == seen[k].attempt
        }),
    decreases n,
{
    if n > 0 {
        lemma_restored(g, seen, (n - 1) as nat, k);
        let b = restored(g, seen, (n - 1) as nat)->Ok_0;
        let item = seen[n - 1];
        let id = item.task_id;
        let state = restored_state(item.state);
        crate::dispatch::lemma_state_elsewhere(b, id, state);
        let moved = b.with_state(id, state);
        crate::dispatch::lemma_attempt_elsewhere(moved, id, item.attempt);
        let h = moved.with_attempt(id, item.attempt);
        if k < n - 1 {
            assert(seen[k].task_id != seen[n - 1].task_id);
            let other = seen[k].task_id;
            assert(moved.has(other));
            assert(moved.task(other) == b.task(other));
            assert(moved.stands(other, moved.at(other)));
            assert(moved.stands(id, moved.at(id)));
            crate::graph::lemma_same_names(moved, h);
            assert(h.at(other) == moved.at(other));
            assert(h.task(other) == moved.task(other));
        }
    }
}

/// Whether what a log says of a job is what the job is: its status, its results, failures, and
/// audit trail, and the state of every task the log speaks of.
pub open spec fn keeps_up(h: HandleView, known: RecoveringView) -> bool {
    &&& known.job matches Some(job) && job.id == h.job.id && job.status == h.job.status
        && job.status_reason == h.job.status_reason
    &&& known.results == h.results
    &&& known.failures == h.failures
    &&& known.transitions == h.transitions
    &&& known.final_result == h.final_result
    &&& seen_once(known.seen)
    &&& forall|k: int|
        0 <= k < known.seen.len() && h.graph.has((#[trigger] known.seen[k]).task_id)
            ==> h.graph.task(known.seen[k].task_id).state == known.seen[k].state
}

/// A change of status is journaled.
pub proof fn law_status_changes_are_journaled(
    h: HandleView,
    known: RecoveringView,
    to: JobStatus,
    reason: Option<Seq<char>>,
    now: Timestamp,
)
    requires
        keeps_up(h, known),
    ensures
        h.with_status(to, reason, now).records.len() == h.records.len() + 1,
        keeps_up(
            h.with_status(to, reason, now),
            known.learned(h.with_status(to, reason, now).records.last()),
        ),
{
}

/// A move of a task is journaled.
pub proof fn law_task_moves_are_journaled(
    h: HandleView,
    known: RecoveringView,
    task: TaskId,
    to: TaskState,
    actor: Seq<char>,
    reason: Seq<char>,
    now: Timestamp,
)
    requires
        keeps_up(h, known),
        h.graph.distinct(),
        h.graph.has(task),
    ensures
        h.advanced(task, to, actor, reason, now).records.len() == h.records.len() + 1,
        keeps_up(
            h.advanced(task, to, actor, reason, now),
            known.learned(h.advanced(task, to, actor, reason, now).records.last()),
        ),
{
    let after = h.advanced(task, to, actor, reason, now);
    let learned = known.learned(after.records.last());
    crate::dispatch::lemma_state_elsewhere(h.graph, task, to);
    lemma_seen_at(known.seen, task, 0);
    assert forall|k: int| 0 <= k < learned.seen.len() && after.graph.has(
        (#[trigger] learned.seen[k]).task_id,
    ) implies after.graph.task(learned.seen[k].task_id).state == learned.seen[k].state by {
        if learned.seen[k].task_id != task {
            assert(k < known.seen.len());
            assert(learned.seen[k] == known.seen[k]);
        } else {
            match seen_at(known.seen, task, 0) {
                Some(at) => {
                    if k != at {
                        assert(known.seen[k].task_id == task);
                        assert(known.seen[at as int].task_id == task);
                    }
                },
                None => {
                    assert(k == known.seen.len());
                },
            }
        }
    }
}

/// A result is journaled.
pub proof fn law_results_are_journaled(
    h: HandleView,
    known: RecoveringView,
    agent: crate::ids::AgentId,
    result: TaskResultView,
    queue_wait_ms: u64,
    estimates: crate::outcome::Estimates,
    now: Timestamp,
)
    requires
        keeps_up(h, known),
    ensures
        h.succeeded(agent, result, queue_wait_ms, estimates, now).records.len() == h.records.len()
            + 1,
        keeps_up(
            h.succeeded(agent, result, queue_wait_ms, estimates, now),
            known.learned(
                h.succeeded(agent, result, queue_wait_ms, estimates, now).records.last(),
            ),
        ),
{
}

/// A failed attempt is journaled: the two moves of the task, and the failure itself.
pub proof fn law_failures_are_journaled(
    h: HandleView,
    known: RecoveringView,
    task: TaskView,
    failure_state: TaskState,
    error_kind: Seq<char>,
    error_message: Seq<char>,
    retryable: bool,
    validation_failures: Seq<Seq<char>>,
    actor: Seq<char>,
    now: Timestamp,
)
    requires
        keeps_up(h, known),
        h.graph.distinct(),
        h.graph.has(task.id),
    ensures
        ({
            let after = h.failed(
                task,
                failure_state,
                error_kind,
                error_message,
                retryable,
                validation_failures,
                actor,
                now,
            );
            let n = h.records.len() as int;
            &&& after.records.len() == n + 3
            &&& keeps_up(
                after,
                known.learned(after.records[n]).learned(after.records[n + 1]).learned(
                    after.records[n + 2],
                ),
            )
        }),
{
    let next = if retryable {
        TaskState::RetryScheduled
    } else {
        TaskState::DeadLettered
    };
    let first = h.advanced(task.id, failure_state, actor, error_kind, now);
    let second = first.advanced(task.id, next, actor, error_kind, now);
    let after = h.failed(
        task,
        failure_state,
        error_kind,
        error_message,
        retryable,
        validation_failures,
        actor,
        now,
    );
    let n = h.records.len() as int;
    law_task_moves_are_journaled(h, known, task.id, failure_state, actor, error_kind, now);
    crate::dispatch::lemma_state_elsewhere(h.graph, task.id, failure_state);
    law_task_moves_are_journaled(
        first,
        known.learned(first.records.last()),
        task.id,
        next,
        actor,
        error_kind,
        now,
    );
    assert(after.records[n] == first.records.last());
    assert(after.records[n + 1] == second.records.last());
    assert(after.graph == second.graph);
}

/// The end of a job is journaled: its closing status, and its merged result.
pub proof fn law_endings_are_journaled(
    h: HandleView,
    known: RecoveringView,
    cancelled: bool,
    figures: crate::aggregate::Figures,
    cost: Seq<char>,
    now: Timestamp,
)
    requires
        keeps_up(h, known),
    ensures
        ({
            let after = h.concluded(cancelled, figures, cost, now);
            let n = h.records.len() as int;
            &&& after.records.len() == n + 2
            &&& keeps_up(
                after,
                known.learned(after.records[n]).learned(after.records[n + 1]),
            )
        }),
{
}

/// A task that was in the middle of something starts over; one that had ended stays as it ended.
pub proof fn law_interrupted_work_starts_over(state: TaskState)
    ensures
        state == TaskState::Completed || state == TaskState::Cancelled || state
            == TaskState::DeadLettered ==> restored_state(state) == state,
        state != TaskState::Completed && state != TaskState::Cancelled && state
            != TaskState::DeadLettered ==> restored_state(state) == TaskState::Created,
{
}

/// What was seen last of a task is what counts: noting it takes the place of what was noted of
/// that task before, and of no other.
pub proof fn law_the_last_sighting_counts(list: Seq<LastSeen>, item: LastSeen, i: int)
    requires
        forall|a: int, b: int|
            0 <= a < b < list.len() ==> (#[trigger] list[a]).task_id != (#[trigger] list[b]).task_id,
        0 <= i < updated(list, item).len(),
    ensures
        updated(list, item)[i].task_id == item.task_id ==> updated(list, item)[i] == item,
        updated(list, item)[i].task_id != item.task_id ==> i < list.len() && updated(list, item)[i]
            == list[i],
        updated(list, item).contains(item),
        list.len() <= updated(list, item).len() <= list.len() + 1,
{
    lemma_sighting(list, item.task_id, 0);
    match seen_at(list, item.task_id, 0) {
        Some(at) => {
            assert(updated(list, item)[at as int] == item);
        },
        None => {
            assert(updated(list, item)[list.len() as int] == item);
        },
    }
}

/// The place found for a task is its own, and none is found only where it was never seen.
proof fn lemma_sighting(list: Seq<LastSeen>, task_id: TaskId, from: nat)
    ensures
        seen_at(list, task_id, from) matches Some(at) ==> from <= at < list.len()
            && list[at as int].task_id == task_id,
        seen_at(list, task_id, from) is None ==> forall|i: int|
            from <= i < list.len() ==> (#[trigger] list[i]).task_id != task_id,
    decreases list.len() - from,
{
    if from < list.len() && list[from as int].task_id != task_id {
        lemma_sighting(list, task_id, from + 1);
    }
}

/// Replaying a journal learns of a job from its own records only, and from each of them in turn:
/// a result that was booked is there again, and so is a failure.
pub proof fn law_replay_reads_its_own_records(records: Seq<RecordView>, job_id: JobId, n: nat)
    requires
        0 < n <= records.len(),
    ensures
        ({
            let before = replayed(records, job_id, (n - 1) as nat);
            let after = replayed(records, job_id, n);
            let record = records[n - 1];
            &&& record.job_id() != job_id ==> after == before
            &&& record.job_id() == job_id ==> {
                &&& record matches RecordView::TaskCompleted { result, .. } ==> after.results
                    == before.results.push(result) && after.failures == before.failures
                    && after.tasks == before.tasks
                &&& record matches RecordView::TaskFailed { failure, .. } ==> after.failures
                    == before.failures.push(failure) && after.results == before.results
                &&& record matches RecordView::JobFinished { result, .. } ==> after.final_result
                    == Some(result) && after.results == before.results
                &&& record matches RecordView::JobPlanned { job, tasks } ==> after.job == Some(job)
                    && after.tasks == tasks
                &&& record matches RecordView::TaskTransitioned { transition, .. }
                    ==> after.transitions == before.transitions.push(transition) && after.results
                    == before.results
            }
        }),
{
}

} // verus!
