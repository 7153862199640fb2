//! Durability for the coordinator.
//!
//! Everything that happens to a job is appended to a journal as it happens, so a
//! coordinator that dies can be restarted and pick the job up where it stopped.
//! Recovery is a replay, not a reconciliation: the log is the truth, and rebuilding
//! from it is deterministic.
//!
//! The journal is **append-only and ordered**. It never rewrites a record, so a crash
//! can only ever truncate the tail — and a torn final line is detected and dropped on
//! replay rather than poisoning recovery.

use crate::clock::Timestamp;
use crate::error::{ErrorView, SwarmError};
use crate::ids::{JobId, TaskId};
use crate::job::{FinalResult, FinalResultView, Job, JobStatus, JobView};
use crate::state::{Transition, TransitionView};
use crate::task::{task_views, TaskFailure, TaskFailureView, TaskNode, TaskResult, TaskResultView,
    TaskState, TaskView};
use crate::text::{clone_option, decimal, decimal_text, option_view, trim, trimmed};
use vstd::prelude::*;
use vstd::string::*;

verus! {

/// One durable fact about a job.
///
/// Records are self-contained: replay never needs to consult anything but the log.
#[derive(Debug)]
pub enum JournalRecord {
    /// A job was admitted and compiled into a task graph.
    JobPlanned {
        /// The job record, including the original request.
        job: Box<Job>,
        /// Every task in the compiled graph.
        tasks: Vec<TaskNode>,
    },
    /// A job's lifecycle status changed.
    JobStatusChanged {
        /// Which job.
        job_id: JobId,
        /// Its new status.
        status: JobStatus,
        /// Why, when the reason is not obvious.
        reason: Option<String>,
        /// When.
        at: Timestamp,
    },
    /// A task moved between states.
    TaskTransitioned {
        /// Which job.
        job_id: JobId,
        /// The audited transition.
        transition: Box<Transition<TaskState>>,
        /// The task that moved.
        task_id: TaskId,
        /// Attempts used at the time of the move.
        attempt: u32,
    },
    /// A task produced a validated result.
    TaskCompleted {
        /// Which job.
        job_id: JobId,
        /// The result.
        result: Box<TaskResult>,
    },
    /// A task attempt failed.
    TaskFailed {
        /// Which job.
        job_id: JobId,
        /// The failure.
        failure: Box<TaskFailure>,
    },
    /// A job finished and produced its merged result.
    JobFinished {
        /// Which job.
        job_id: JobId,
        /// The final result.
        result: Box<FinalResult>,
    },
}

/// What a record holds.
pub enum RecordView {
    /// A job was admitted and compiled into a task graph.
    JobPlanned {
        /// The job record.
        job: JobView,
        /// Every task in the compiled graph.
        tasks: Seq<TaskView>,
    },
    /// A job's lifecycle status changed.
    JobStatusChanged {
        /// Which job.
        job_id: JobId,
        /// Its new status.
        status: JobStatus,
        /// Why.
        reason: Option<Seq<char>>,
        /// When.
        at: Timestamp,
    },
    /// A task moved between states.
    TaskTransitioned {
        /// Which job.
        job_id: JobId,
        /// The audited transition.
        transition: TransitionView<TaskState>,
        /// The task that moved.
        task_id: TaskId,
        /// Attempts used at the time of the move.
        attempt: u32,
    },
    /// A task produced a validated result.
    TaskCompleted {
        /// Which job.
        job_id: JobId,
        /// The result.
        result: TaskResultView,
    },
    /// A task attempt failed.
    TaskFailed {
        /// Which job.
        job_id: JobId,
        /// The failure.
        failure: TaskFailureView,
    },
    /// A job finished and produced its merged result.
    JobFinished {
        /// Which job.
        job_id: JobId,
        /// The final result.
        result: FinalResultView,
    },
}

impl View for JournalRecord {
    type V = RecordView;

    open spec fn view(&self) -> RecordView {
        match self {
            JournalRecord::JobPlanned { job, tasks } => RecordView::JobPlanned {
                job: (*job)@,
                tasks: task_views(tasks@),
            },
            JournalRecord::JobStatusChanged { job_id, status, reason, at } =>
                RecordView::JobStatusChanged {
                job_id: *job_id,
                status: *status,
                reason: option_view(*reason),
                at: *at,
            },
            JournalRecord::TaskTransitioned { job_id, transition, task_id, attempt } =>
                RecordView::TaskTransitioned {
                job_id: *job_id,
                transition: (*transition)@,
                task_id: *task_id,
                attempt: *attempt,
            },
            JournalRecord::TaskCompleted { job_id, result } => RecordView::TaskCompleted {
                job_id: *job_id,
                result: (*result)@,
            },
            JournalRecord::TaskFailed { job_id, failure } => RecordView::TaskFailed {
                job_id: *job_id,
                failure: (*failure)@,
            },
            JournalRecord::JobFinished { job_id, result } => RecordView::JobFinished {
                job_id: *job_id,
                result: (*result)@,
            },
        }
    }
}

/// What the records of a log hold.
pub open spec fn record_views(records: Seq<JournalRecord>) -> Seq<RecordView> {
    records.map_values(|record: JournalRecord| record@)
}

impl RecordView {
    /// The job the record belongs to.
    pub open spec fn job_id(self) -> JobId {
        match self {
            RecordView::JobPlanned { job, .. } => job.id,
            RecordView::JobStatusChanged { job_id, .. } => job_id,
            RecordView::TaskTransitioned { job_id, .. } => job_id,
            RecordView::TaskCompleted { job_id, .. } => job_id,
            RecordView::TaskFailed { job_id, .. } => job_id,
            RecordView::JobFinished { job_id, .. } => job_id,
        }
    }

    /// Short label for logs and metrics.
    pub open spec fn label(self) -> Seq<char> {
        match self {
            RecordView::JobPlanned { .. } => "job_planned"@,
            RecordView::JobStatusChanged { .. } => "job_status_changed"@,
            RecordView::TaskTransitioned { .. } => "task_transitioned"@,
            RecordView::TaskCompleted { .. } => "task_completed"@,
            RecordView::TaskFailed { .. } => "task_failed"@,
            RecordView::JobFinished { .. } => "job_finished"@,
        }
    }
}

/// Copies of some tasks.
pub fn clone_tasks(tasks: &Vec<TaskNode>) -> (r: Vec<TaskNode>)
    ensures
        task_views(r@) == task_views(tasks@),
{
    let mut r: Vec<TaskNode> = Vec::new();
    for i in 0..tasks.len()
        invariant
            r@.len() == i,
            forall|k: int| 0 <= k < i ==> (#[trigger] r@[k])@ == tasks@[k]@,
    {
        r.push(tasks[i].clone());
    }
    assert(task_views(r@) =~= task_views(tasks@));
    r
}

impl JournalRecord {
    /// The job this record belongs to.
    pub fn job_id(&self) -> (r: JobId)
        ensures
            r == self@.job_id(),
    {
        match self {
            JournalRecord::JobPlanned { job, .. } => job.id,
            JournalRecord::JobStatusChanged { job_id, .. } => *job_id,
            JournalRecord::TaskTransitioned { job_id, .. } => *job_id,
            JournalRecord::TaskCompleted { job_id, .. } => *job_id,
            JournalRecord::TaskFailed { job_id, .. } => *job_id,
            JournalRecord::JobFinished { job_id, .. } => *job_id,
        }
    }

    /// Short label for logs and metrics.
    pub fn kind(&self) -> (r: &'static str)
        ensures
            r@ == self@.label(),
    {
        match self {
            JournalRecord::JobPlanned { .. } => "job_planned",
            JournalRecord::JobStatusChanged { .. } => "job_status_changed",
            JournalRecord::TaskTransitioned { .. } => "task_transitioned",
            JournalRecord::TaskCompleted { .. } => "task_completed",
            JournalRecord::TaskFailed { .. } => "task_failed",
            JournalRecord::JobFinished { .. } => "job_finished",
        }
    }
}

impl Clone for JournalRecord {
    fn clone(&self) -> (r: Self)
        ensures
            r@ == self@,
    {
        match self {
            JournalRecord::JobPlanned { job, tasks } => JournalRecord::JobPlanned {
                job: Box::new((**job).clone()),
                tasks: clone_tasks(tasks),
            },
            JournalRecord::JobStatusChanged { job_id, status, reason, at } =>
                JournalRecord::JobStatusChanged {
                job_id: *job_id,
                status: *status,
                reason: clone_option(reason),
                at: *at,
            },
            JournalRecord::TaskTransitioned { job_id, transition, task_id, attempt } =>
                JournalRecord::TaskTransitioned {
                job_id: *job_id,
                transition: Box::new((**transition).clone()),
                task_id: *task_id,
                attempt: *attempt,
            },
            JournalRecord::TaskCompleted { job_id, result } => JournalRecord::TaskCompleted {
                job_id: *job_id,
                result: Box::new((**result).clone()),
            },
            JournalRecord::TaskFailed { job_id, failure } => JournalRecord::TaskFailed {
                job_id: *job_id,
                failure: Box::new((**failure).clone()),
            },
            JournalRecord::JobFinished { job_id, result } => JournalRecord::JobFinished {
                job_id: *job_id,
                result: Box::new((**result).clone()),
            },
        }
    }
}

/// A journal that keeps records in memory.
///
/// It exists so the write path is the same whether or not a deployment asks for durability,
/// and so replay can be exercised without touching a filesystem.
#[derive(Debug)]
pub struct MemoryJournal {
    records: Vec<JournalRecord>,
}

impl View for MemoryJournal {
    type V = Seq<RecordView>;

    closed spec fn view(&self) -> Seq<RecordView> {
        record_views(self.records@)
    }
}

impl MemoryJournal {
    /// An empty journal.
    pub fn new() -> (r: Self)
        ensures
            r@ == Seq::<RecordView>::empty(),
    {
        let r = MemoryJournal { records: Vec::new() };
        assert(r@ =~= Seq::<RecordView>::empty());
        r
    }

    /// Append one record.
    pub fn append(&mut self, record: &JournalRecord) -> (r: Result<(), SwarmError>)
        ensures
            r is Ok,
            final(self)@ == old(self)@.push(record@),
    {
        self.records.push(record.clone());
        assert(self@ =~= old(self)@.push(record@));
        Ok(())
    }

    /// Read every record back, in the order it was written.
    pub fn replay(&self) -> (r: Result<Vec<JournalRecord>, SwarmError>)
        ensures
            r matches Ok(records) && record_views(records@) == self@,
    {
        let mut r: Vec<JournalRecord> = Vec::new();
        for i in 0..self.records.len()
            invariant
                r@.len() == i,
                forall|k: int| 0 <= k < i ==> (#[trigger] r@[k])@ == self.records@[k]@,
        {
            r.push(self.records[i].clone());
        }
        assert(record_views(r@) =~= self@);
        Ok(r)
    }

    /// The record at `i`.
    pub fn record(&self, i: usize) -> (r: &JournalRecord)
        requires
            i < self@.len(),
        ensures
            r@ == self@[i as int],
    {
        &self.records[i]
    }

    /// How many records the journal holds.
    pub fn len(&self) -> (r: usize)
        ensures
            r == self@.len(),
    {
        assert(self@.len() == self.records@.len());
        self.records.len()
    }

    /// Whether the journal holds nothing.
    pub fn is_empty(&self) -> (r: bool)
        ensures
            r == (self@.len() == 0),
    {
        self.len() == 0
    }
}

/// A line of a journal file: its text, and what it reads as, or why it cannot be read.
#[derive(Debug)]
pub struct JournalLine {
    /// The line.
    pub text: String,
    /// What it reads as.
    pub reading: Result<JournalRecord, String>,
}

/// What a line holds.
pub struct LineView {
    /// The line.
    pub text: Seq<char>,
    /// What it reads as.
    pub reading: Result<RecordView, Seq<char>>,
}

impl View for JournalLine {
    type V = LineView;

    open spec fn view(&self) -> LineView {
        LineView {
            text: self.text@,
            reading: match self.reading {
                Ok(record) => Ok(record@),
                Err(message) => Err(message@),
            },
        }
    }
}

/// What the lines of a file hold.
pub open spec fn line_views(lines: Seq<JournalLine>) -> Seq<LineView> {
    lines.map_values(|line: JournalLine| line@)
}

/// Whether a line is one that cannot be read.
pub open spec fn unreadable(line: LineView) -> bool {
    trimmed(line.text).len() > 0 && line.reading is Err
}

/// The records among some lines. Blank lines hold none, and lines that cannot be read are
/// passed over.
pub open spec fn records_of(lines: Seq<LineView>) -> Seq<RecordView>
    decreases lines.len(),
{
    if lines.len() == 0 {
        seq![]
    } else {
        let before = records_of(lines.drop_last());
        match lines.last().reading {
            Ok(record) => if trimmed(lines.last().text).len() > 0 {
                before.push(record)
            } else {
                before
            },
            Err(_) => before,
        }
    }
}

/// Whether `at` is the first line of a file that makes it corrupt: it cannot be read, and it
/// is not the last.
pub open spec fn corrupt_at(lines: Seq<LineView>, at: int) -> bool {
    &&& 0 <= at < lines.len() - 1
    &&& unreadable(lines[at])
    &&& forall|k: int| 0 <= k < at ==> !unreadable(#[trigger] lines[k])
}

/// The records of a journal file, in the order they were written.
///
/// A torn final line is what a crash mid-append looks like. Dropping it loses the last fact,
/// which the writer was never told was durable; failing the whole recovery would lose
/// everything. A line that cannot be read anywhere else is corruption.
pub fn read_records(path: &str, lines: Vec<JournalLine>) -> (r: Result<
    Vec<JournalRecord>,
    SwarmError,
>)
    requires
        lines@.len() < usize::MAX,
    ensures
        match r {
            Ok(records) => {
                &&& record_views(records@) == records_of(line_views(lines@))
                &&& forall|k: int|
                    0 <= k < lines@.len() - 1 ==> !unreadable(#[trigger] line_views(lines@)[k])
            },
            Err(error) => exists|at: int|
                #![trigger line_views(lines@).take(at)]
                corrupt_at(line_views(lines@), at) && error@ == ErrorView::Internal(
                    "journal "@ + path@ + " is corrupt at record "@ + decimal(
                        (records_of(line_views(lines@).take(at)).len() + 1) as nat,
                    ) + ": "@ + line_views(lines@)[at].reading->Err_0,
                ),
        },
{
    let ghost all = line_views(lines@);
    let total: usize = lines.len();
    let mut records: Vec<JournalRecord> = Vec::new();
    assert(all.take(0) =~= seq![]);
    assert(record_views(records@) =~= records_of(all.take(0)));
    let mut i: usize = 0;
    while i < total
        invariant
            i <= total == lines@.len(),
            total < usize::MAX,
            all == line_views(lines@),
            records@.len() <= i,
            record_views(records@) == records_of(all.take(i as int)),
            forall|k: int| 0 <= k < i && k < total - 1 ==> !unreadable(#[trigger] all[k]),
        decreases total - i,
    {
        proof {
            assert(all[i as int] == lines@[i as int]@);
            assert(all.take(i + 1).drop_last() =~= all.take(i as int));
            assert(all.take(i + 1).last() == all[i as int]);
        }
        if !trim(lines[i].text.as_str()).as_str().is_empty() {
            match &lines[i].reading {
                Ok(record) => {
                    let ghost before = records@;
                    records.push(record.clone());
                    assert(record_views(records@) =~= record_views(before).push(
                        records@.last()@,
                    ));
                },
                Err(message) => {
                    if i + 1 < total {
                        let mut text = "journal ".to_owned();
                        text.append(path);
                        text.append(" is corrupt at record ");
                        text.append(decimal_text((records.len() + 1) as u64).as_str());
                        text.append(": ");
                        text.append(message.as_str());
                        proof {
                            assert(record_views(records@).len() == records@.len());
                            assert(corrupt_at(all, i as int));
                            let witness = all.take(i as int);
                        }
                        return Err(SwarmError::Internal(text));
                    }
                },
            }
        }
        i += 1;
    }
    assert(all.take(total as int) =~= all);
    Ok(records)
}

/// A crash that tears the final line loses that line and nothing else: the log reads as it
/// did before the line was begun.
pub proof fn law_a_torn_tail_costs_one_record(lines: Seq<LineView>, torn: LineView)
    requires
        unreadable(torn),
    ensures
        records_of(lines.push(torn)) == records_of(lines),
{
    assert(lines.push(torn).drop_last() =~= lines);
}

/// Appending keeps order: a log reads as what was there, followed by what was appended.
pub proof fn law_appends_keep_their_order(lines: Seq<LineView>, more: Seq<LineView>)
    ensures
        records_of(lines + more) == records_of(lines) + records_of(more),
    decreases more.len(),
{
    if more.len() == 0 {
        assert(lines + more =~= lines);
        assert(records_of(lines) + records_of(more) =~= records_of(lines));
    } else {
        law_appends_keep_their_order(lines, more.drop_last());
        assert((lines + more).drop_last() =~= lines + more.drop_last());
        assert((lines + more).last() == more.last());
        let before = records_of(lines);
        let rest = records_of(more.drop_last());
        if let Ok(record) = more.last().reading {
            assert((before + rest).push(record) =~= before + rest.push(record));
        }
    }
}

} // verus!
