//! The task queue.
//!
//! Delivery is **at-least-once**. Exactly-once delivery is not achievable across a
//! queue, a crashing worker, and a remote model API, so instead every queued task
//! carries an idempotency key and execution is made effectively-once one layer up.
//!
//! Ownership of a task is a **lease with an expiry**, not a worker identity. Recovery
//! is therefore a single sweep — [`InMemoryQueue::requeue_expired`] — that needs only a
//! clock, not a consistent view of which workers are alive.

use crate::agent::{copy_capabilities, count_one, counted, covers, covers_all, Capability};
use crate::clock::{signed_millis, to_signed_millis, Timestamp};
use crate::error::{outcome, ErrorView, SwarmError};
use crate::ids::{JobId, LeaseId, TaskId};
use crate::job::Priority;
use crate::state::LeaseState;
use crate::task::{RetryPolicy, TaskNode, TaskView};
use crate::text::{has_text, lemma_filter_push, views};
use vstd::prelude::*;

verus! {

/// Identity of the process pulling from the queue, used for lease attribution.
pub type WorkerId = String;

/// The queue every task lands in unless the caller names another.
pub const DEFAULT_QUEUE: &'static str = "default";

/// A task as it sits in the queue: enough to execute it, plus the metadata that makes
/// duplicate delivery and retry safe.
#[derive(Debug)]
pub struct QueuedTask {
    /// Task this entry represents.
    pub task_id: TaskId,
    /// Owning job, so a cancelled job can be purged in one pass.
    pub job_id: JobId,
    /// Named queue, e.g. `default`, `high-memory`, `gpu`.
    pub queue: String,
    /// Scheduling priority.
    pub priority: Priority,
    /// The task definition.
    pub payload: TaskNode,
    /// Stable across redeliveries of the same attempt; the basis of deduplication.
    pub idempotency_key: String,
    /// Attempts already started. Incremented when a lease is granted.
    pub attempt: u32,
    /// Retry budget and backoff.
    pub retry: RetryPolicy,
    /// Capabilities a worker must offer to receive the task.
    pub required_capabilities: Vec<Capability>,
    /// When it first entered the queue.
    pub enqueued_at: Timestamp,
    /// Not visible to consumers before this time; how delays and backoff are expressed.
    pub available_at: Timestamp,
    /// Visibility timeout granted with the lease.
    pub lease_duration_ms: u64,
}

/// What a queue entry holds.
#[verifier::ext_equal]
pub struct QueuedView {
    /// Task this entry represents.
    pub task_id: TaskId,
    /// Owning job.
    pub job_id: JobId,
    /// Named queue.
    pub queue: Seq<char>,
    /// Scheduling priority.
    pub priority: Priority,
    /// The task definition.
    pub payload: TaskView,
    /// The basis of deduplication.
    pub idempotency_key: Seq<char>,
    /// Attempts already started.
    pub attempt: u32,
    /// Retry budget and backoff.
    pub retry: RetryPolicy,
    /// Capabilities a worker must offer.
    pub required_capabilities: Seq<Capability>,
    /// When it first entered the queue.
    pub enqueued_at: Timestamp,
    /// Not visible to consumers before this time.
    pub available_at: Timestamp,
    /// Visibility timeout granted with the lease.
    pub lease_duration_ms: u64,
}

impl View for QueuedTask {
    type V = QueuedView;

    open spec fn view(&self) -> QueuedView {
        QueuedView {
            task_id: self.task_id,
            job_id: self.job_id,
            queue: self.queue@,
            priority: self.priority,
            payload: self.payload@,
            idempotency_key: self.idempotency_key@,
            attempt: self.attempt,
            retry: self.retry,
            required_capabilities: self.required_capabilities@,
            enqueued_at: self.enqueued_at,
            available_at: self.available_at,
            lease_duration_ms: self.lease_duration_ms,
        }
    }
}

impl QueuedView {
    /// The entry for a task, as it enters the queue at `now`.
    pub open spec fn of(
        task: TaskView,
        priority: Priority,
        lease_duration_ms: u64,
        now: Timestamp,
    ) -> QueuedView {
        QueuedView {
            task_id: task.id,
            job_id: task.job_id,
            queue: DEFAULT_QUEUE@,
            priority,
            payload: task,
            idempotency_key: task.key_of_attempt(),
            attempt: task.attempt,
            retry: task.retry_policy,
            required_capabilities: task.required_capabilities,
            enqueued_at: now,
            available_at: now,
            lease_duration_ms,
        }
    }

    /// Whether a consumer may see this entry at `now`.
    pub open spec fn visible(self, now: Timestamp) -> bool {
        self.available_at.nanos <= now.nanos
    }

    /// Whether a worker offering `capabilities` may take this entry.
    pub open spec fn fits(self, capabilities: Seq<Capability>) -> bool {
        capabilities.len() == 0 || covers(capabilities, self.required_capabilities)
    }

    /// Whether this entry is served before another: by priority, then by how long it waited.
    pub open spec fn beats(self, other: QueuedView) -> bool {
        self.priority.rank() > other.priority.rank() || (self.priority.rank()
            == other.priority.rank() && self.enqueued_at.nanos < other.enqueued_at.nanos)
    }

    /// Whether another attempt is within the budget.
    pub open spec fn retriable(self) -> bool {
        self.attempt < self.retry.max_attempts
    }

    /// The entry as it waits for its next attempt after a failure at `now`.
    pub open spec fn backed_off(self, now: Timestamp) -> QueuedView {
        QueuedView {
            available_at: now.shifted(
                signed_millis(self.retry.backoff(self.attempt, now.subsecond() as u64) as u64),
            ),
            ..self
        }
    }
}

impl QueuedTask {
    /// Build a queue entry from a task node. The clock decides when it enters the queue.
    ///
    /// The idempotency key is the task's *attempt* key, so a retry is allowed to run
    /// while a duplicate delivery of the same attempt is recognised and dropped.
    pub fn from_task(task: &TaskNode, priority: Priority, lease_duration_ms: u64) -> (r: Result<
        Self,
        SwarmError,
    >)
        ensures
            r matches Ok(entry) && entry@ == QueuedView::of(
                task@,
                priority,
                lease_duration_ms,
                entry@.enqueued_at,
            ),
    {
        let now = Timestamp::now();
        Ok(Self::entering_at(task, priority, lease_duration_ms, now))
    }

    /// Build a queue entry that enters the queue at `now`.
    pub fn entering_at(
        task: &TaskNode,
        priority: Priority,
        lease_duration_ms: u64,
        now: Timestamp,
    ) -> (r: Self)
        ensures
            r@ == QueuedView::of(task@, priority, lease_duration_ms, now),
    {
        QueuedTask {
            task_id: task.id,
            job_id: task.job_id,
            queue: DEFAULT_QUEUE.to_owned(),
            priority,
            payload: task.clone(),
            idempotency_key: task.attempt_key(),
            attempt: task.attempt,
            retry: task.retry_policy,
            required_capabilities: copy_capabilities(task.required_capabilities.as_slice()),
            enqueued_at: now,
            available_at: now,
            lease_duration_ms,
        }
    }

    /// The task definition.
    pub fn task(&self) -> (r: Result<TaskNode, SwarmError>)
        ensures
            r matches Ok(task) && task@ == self@.payload,
    {
        Ok(self.payload.clone())
    }

    /// Route to a named queue.
    pub fn on_queue(self, queue: &str) -> (r: Self)
        ensures
            r@ == (QueuedView { queue: queue@, ..self@ }),
    {
        QueuedTask { queue: queue.to_owned(), ..self }
    }

    /// Hide the entry until `at`.
    pub fn available_at(self, at: Timestamp) -> (r: Self)
        ensures
            r@ == (QueuedView { available_at: at, ..self@ }),
    {
        QueuedTask { available_at: at, ..self }
    }

    /// Whether a consumer may see this entry at `now`.
    pub fn is_visible(&self, now: Timestamp) -> (r: bool)
        ensures
            r == self@.visible(now),
    {
        self.available_at.nanos <= now.nanos
    }

    /// Whether a worker offering `capabilities` may take this entry.
    ///
    /// An empty offer means "no filter" — used by the single-node prototype and by
    /// admin tooling.
    pub fn matches_capabilities(&self, capabilities: &[Capability]) -> (r: bool)
        ensures
            r == self@.fits(capabilities@),
    {
        capabilities.len() == 0 || covers_all(capabilities, self.required_capabilities.as_slice())
    }

    /// Whether this entry is served before another.
    fn goes_before(&self, other: &QueuedTask) -> (r: bool)
        ensures
            r == self@.beats(other@),
    {
        let mine: u8 = self.priority.weight();
        let theirs: u8 = other.priority.weight();
        mine > theirs || (mine == theirs && self.enqueued_at.before(other.enqueued_at))
    }
}

impl Clone for QueuedTask {
    fn clone(&self) -> (r: Self)
        ensures
            r@ == self@,
    {
        QueuedTask {
            task_id: self.task_id,
            job_id: self.job_id,
            queue: self.queue.clone(),
            priority: self.priority,
            payload: self.payload.clone(),
            idempotency_key: self.idempotency_key.clone(),
            attempt: self.attempt,
            retry: self.retry,
            required_capabilities: copy_capabilities(self.required_capabilities.as_slice()),
            enqueued_at: self.enqueued_at,
            available_at: self.available_at,
            lease_duration_ms: self.lease_duration_ms,
        }
    }
}

/// A claim on a task, valid until it expires.
#[derive(Debug)]
pub struct TaskLease {
    /// Lease identity, presented on acknowledge, reject, and extend.
    pub lease_id: LeaseId,
    /// The claimed task.
    pub task: QueuedTask,
    /// Who holds it.
    pub worker: WorkerId,
    /// When it was granted.
    pub granted_at: Timestamp,
    /// When the claim lapses and the task becomes available again.
    pub expires_at: Timestamp,
    /// Lease lifecycle state.
    pub state: LeaseState,
}

/// What a lease holds.
#[verifier::ext_equal]
pub struct LeaseView {
    /// Lease identity.
    pub lease_id: LeaseId,
    /// The claimed task.
    pub task: QueuedView,
    /// Who holds it.
    pub worker: Seq<char>,
    /// When it was granted.
    pub granted_at: Timestamp,
    /// When the claim lapses.
    pub expires_at: Timestamp,
    /// Lease lifecycle state.
    pub state: LeaseState,
}

impl View for TaskLease {
    type V = LeaseView;

    open spec fn view(&self) -> LeaseView {
        LeaseView {
            lease_id: self.lease_id,
            task: self.task@,
            worker: self.worker@,
            granted_at: self.granted_at,
            expires_at: self.expires_at,
            state: self.state,
        }
    }
}

impl LeaseView {
    /// Whether the lease has lapsed at `now`.
    pub open spec fn lapsed(self, now: Timestamp) -> bool {
        self.expires_at.nanos <= now.nanos
    }

    /// Whether the lease can still be settled.
    pub open spec fn active(self) -> bool {
        self.state == LeaseState::Held || self.state == LeaseState::Extended
    }
}

impl TaskLease {
    /// Whether the lease has lapsed at `now`.
    pub fn is_expired(&self, now: Timestamp) -> (r: bool)
        ensures
            r == self@.lapsed(now),
    {
        self.expires_at.nanos <= now.nanos
    }

    /// How long the holder has been working, in milliseconds.
    pub fn held_for_ms(&self, now: Timestamp) -> (r: u64)
        ensures
            r == now.millis_after(self.granted_at),
    {
        now.millis_since(self.granted_at)
    }
}

impl Clone for TaskLease {
    fn clone(&self) -> (r: Self)
        ensures
            r@ == self@,
    {
        TaskLease {
            lease_id: self.lease_id,
            task: self.task.clone(),
            worker: self.worker.clone(),
            granted_at: self.granted_at,
            expires_at: self.expires_at,
            state: self.state,
        }
    }
}

/// A task that exhausted its retry budget, parked for inspection.
#[derive(Debug)]
pub struct DeadLetter {
    /// The task as it last looked.
    pub task: QueuedTask,
    /// Attempts consumed.
    pub attempts: u32,
    /// Why the final attempt failed.
    pub last_error: String,
    /// When it was parked.
    pub at: Timestamp,
}

/// What a dead letter holds.
#[verifier::ext_equal]
pub struct DeadLetterView {
    /// The task as it last looked.
    pub task: QueuedView,
    /// Attempts consumed.
    pub attempts: u32,
    /// Why the final attempt failed.
    pub last_error: Seq<char>,
    /// When it was parked.
    pub at: Timestamp,
}

impl View for DeadLetter {
    type V = DeadLetterView;

    open spec fn view(&self) -> DeadLetterView {
        DeadLetterView {
            task: self.task@,
            attempts: self.attempts,
            last_error: self.last_error@,
            at: self.at,
        }
    }
}

impl DeadLetterView {
    /// The letter of an entry whose budget is spent.
    pub open spec fn of(task: QueuedView, reason: Seq<char>, now: Timestamp) -> DeadLetterView {
        DeadLetterView { task, attempts: task.attempt, last_error: reason, at: now }
    }
}

impl Clone for DeadLetter {
    fn clone(&self) -> (r: Self)
        ensures
            r@ == self@,
    {
        DeadLetter {
            task: self.task.clone(),
            attempts: self.attempts,
            last_error: self.last_error.clone(),
            at: self.at,
        }
    }
}

/// A point-in-time view of queue health, exported as Prometheus metrics.
#[derive(Clone, Copy, Debug, PartialEq, Eq, Structural)]
pub struct QueueStats {
    /// Entries visible to consumers now.
    pub ready: usize,
    /// Entries waiting for a delay or a retry backoff.
    pub delayed: usize,
    /// Entries currently leased.
    pub leased: usize,
    /// Entries parked in the dead-letter queue.
    pub dead_lettered: usize,
    /// Enqueue calls that resulted in a new entry.
    pub enqueued_total: u64,
    /// Leases granted.
    pub dequeued_total: u64,
    /// Leases acknowledged successfully.
    pub acknowledged_total: u64,
    /// Entries re-queued after a failure or an expiry.
    pub retried_total: u64,
    /// Leases that lapsed before being acknowledged.
    pub expired_total: u64,
    /// Enqueue calls dropped because the attempt key had been seen before.
    pub deduplicated_total: u64,
}

impl Default for QueueStats {
    fn default() -> (r: Self)
        ensures
            r == QueueStats::none(),
    {
        QueueStats {
            ready: 0,
            delayed: 0,
            leased: 0,
            dead_lettered: 0,
            enqueued_total: 0,
            dequeued_total: 0,
            acknowledged_total: 0,
            retried_total: 0,
            expired_total: 0,
            deduplicated_total: 0,
        }
    }
}

impl QueueStats {
    /// The figures of a queue that nothing has happened to.
    pub open spec fn none() -> QueueStats {
        QueueStats {
            ready: 0,
            delayed: 0,
            leased: 0,
            dead_lettered: 0,
            enqueued_total: 0,
            dequeued_total: 0,
            acknowledged_total: 0,
            retried_total: 0,
            expired_total: 0,
            deduplicated_total: 0,
        }
    }

    /// What the queue still owes a worker: everything not finished or parked.
    pub open spec fn owed(self) -> int {
        self.ready + self.delayed + self.leased
    }

    /// Entries the queue still owes a worker: everything not finished or parked.
    pub fn depth(&self) -> (r: usize)
        requires
            self.owed() <= usize::MAX,
        ensures
            r == self.owed(),
    {
        self.ready + self.delayed + self.leased
    }
}

/// A counter after `k` more events; it stops at the largest number.
pub open spec fn counted_by(n: u64, k: nat) -> u64 {
    if n + k <= u64::MAX {
        (n + k) as u64
    } else {
        u64::MAX
    }
}

/// What the entries of a list hold.
pub open spec fn queued_views(list: Seq<QueuedTask>) -> Seq<QueuedView> {
    Seq::new(list.len(), |i: int| list[i]@)
}

/// What the leases of a list hold.
pub open spec fn lease_views(list: Seq<TaskLease>) -> Seq<LeaseView> {
    Seq::new(list.len(), |i: int| list[i]@)
}

/// What a lease holds, if there is one.
pub open spec fn lease_view(lease: Option<TaskLease>) -> Option<LeaseView> {
    match lease {
        Some(lease) => Some(lease@),
        None => None,
    }
}

/// What the letters of a list hold.
pub open spec fn letter_views(list: Seq<DeadLetter>) -> Seq<DeadLetterView> {
    Seq::new(list.len(), |i: int| list[i]@)
}

/// Whether a lease goes by another name than `id`.
pub open spec fn named_otherwise(id: LeaseId) -> spec_fn(LeaseView) -> bool {
    |lease: LeaseView| lease.lease_id != id
}

/// Whether a lease has lapsed at `now`.
pub open spec fn lapsed_at(now: Timestamp) -> spec_fn(LeaseView) -> bool {
    |lease: LeaseView| lease.lapsed(now)
}

/// Whether a lease is still good at `now`.
pub open spec fn good_at(now: Timestamp) -> spec_fn(LeaseView) -> bool {
    |lease: LeaseView| !lease.lapsed(now)
}

/// Whether an entry is visible at `now`.
pub open spec fn visible_at(now: Timestamp) -> spec_fn(QueuedView) -> bool {
    |task: QueuedView| task.visible(now)
}

/// Whether an entry belongs to another job than `job`.
pub open spec fn of_other_job(job: JobId) -> spec_fn(QueuedView) -> bool {
    |task: QueuedView| task.job_id != job
}

/// Whether a leased entry belongs to another job than `job`.
pub open spec fn leased_by_other_job(job: JobId) -> spec_fn(LeaseView) -> bool {
    |lease: LeaseView| lease.task.job_id != job
}

/// The entries, of those whose attempt failed at `now`, that go back to the queue.
pub open spec fn sent_back(failed: Seq<QueuedView>, now: Timestamp) -> Seq<QueuedView>
    decreases failed.len(),
{
    if failed.len() == 0 {
        seq![]
    } else {
        let rest = sent_back(failed.drop_last(), now);
        if failed.last().retriable() {
            rest.push(failed.last().backed_off(now))
        } else {
            rest
        }
    }
}

/// The letters, of those whose attempt failed at `now`, that are parked.
pub open spec fn parked(failed: Seq<QueuedView>, reason: Seq<char>, now: Timestamp) -> Seq<
    DeadLetterView,
>
    decreases failed.len(),
{
    if failed.len() == 0 {
        seq![]
    } else {
        let rest = parked(failed.drop_last(), reason, now);
        if failed.last().retriable() {
            rest
        } else {
            rest.push(DeadLetterView::of(failed.last(), reason, now))
        }
    }
}

/// The entries that leases are on.
pub open spec fn entries_of(leases: Seq<LeaseView>) -> Seq<QueuedView> {
    Seq::new(leases.len(), |i: int| leases[i].task)
}

/// What a queue holds.
#[verifier::ext_equal]
pub struct QueueView {
    /// Entries waiting to be leased.
    pub ready: Seq<QueuedView>,
    /// Claims that are not settled yet, in the order in which they were granted.
    pub leases: Seq<LeaseView>,
    /// Attempt keys ever admitted.
    pub seen: Set<Seq<char>>,
    /// Entries out of attempts, in the order in which they were parked.
    pub dead: Seq<DeadLetterView>,
    /// Running totals.
    pub totals: QueueStats,
}

impl QueueView {
    /// A queue that nothing has happened to.
    pub open spec fn empty() -> QueueView {
        QueueView {
            ready: seq![],
            leases: seq![],
            seen: Set::empty(),
            dead: seq![],
            totals: QueueStats::none(),
        }
    }

    /// What holds of every queue: a waiting entry can start another attempt, and the unsettled
    /// claims are active and go by different names.
    pub open spec fn wf(self) -> bool {
        &&& forall|i: int| 0 <= i < self.ready.len() ==> (#[trigger] self.ready[i]).attempt
            < u32::MAX
        &&& forall|i: int| 0 <= i < self.leases.len() ==> (#[trigger] self.leases[i]).active()
        &&& forall|i: int, j: int|
            0 <= i < j < self.leases.len() ==> (#[trigger] self.leases[i]).lease_id != (
            #[trigger] self.leases[j]).lease_id
    }

    /// The queue after a task is added: an attempt key that was seen before is dropped.
    pub open spec fn enqueued(self, task: QueuedView) -> QueueView {
        if self.seen.contains(task.idempotency_key) {
            QueueView {
                totals: QueueStats {
                    deduplicated_total: counted(self.totals.deduplicated_total),
                    ..self.totals
                },
                ..self
            }
        } else {
            QueueView {
                ready: self.ready.push(task),
                seen: self.seen.insert(task.idempotency_key),
                totals: QueueStats {
                    enqueued_total: counted(self.totals.enqueued_total),
                    ..self.totals
                },
                ..self
            }
        }
    }

    /// Whether the entry at `i` may be handed to a worker that works for a job, pulls from
    /// `queues`, and offers `capabilities`. No job and an empty list are no filter.
    pub open spec fn eligible(
        self,
        i: int,
        job: Option<JobId>,
        queues: Seq<Seq<char>>,
        capabilities: Seq<Capability>,
        now: Timestamp,
    ) -> bool {
        &&& 0 <= i < self.ready.len()
        &&& self.ready[i].visible(now)
        &&& job is None || job == Some(self.ready[i].job_id)
        &&& queues.len() == 0 || queues.contains(self.ready[i].queue)
        &&& self.ready[i].fits(capabilities)
    }

    /// Whether the entry at `i` is the one to hand out: no eligible entry beats it, and it is
    /// the last of those that nothing beats.
    pub open spec fn is_next(
        self,
        i: int,
        job: Option<JobId>,
        queues: Seq<Seq<char>>,
        capabilities: Seq<Capability>,
        now: Timestamp,
    ) -> bool {
        &&& self.eligible(i, job, queues, capabilities, now)
        &&& forall|j: int| #[trigger]
            self.eligible(j, job, queues, capabilities, now) ==> !self.ready[j].beats(self.ready[i])
                && (j > i ==> self.ready[i].beats(self.ready[j]))
    }

    /// The position of the entry to hand out, if there is one.
    pub open spec fn next(
        self,
        job: Option<JobId>,
        queues: Seq<Seq<char>>,
        capabilities: Seq<Capability>,
        now: Timestamp,
    ) -> Option<int> {
        if exists|i: int| #[trigger] self.is_next(i, job, queues, capabilities, now) {
            Some(choose|i: int| #[trigger] self.is_next(i, job, queues, capabilities, now))
        } else {
            None
        }
    }

    /// The claim on the entry at `i`. A granted lease is the start of an attempt.
    pub open spec fn claim(
        self,
        i: int,
        worker: Seq<char>,
        lease_id: LeaseId,
        now: Timestamp,
    ) -> LeaseView {
        LeaseView {
            lease_id,
            task: QueuedView { attempt: (self.ready[i].attempt + 1) as u32, ..self.ready[i] },
            worker,
            granted_at: now,
            expires_at: now.shifted(signed_millis(self.ready[i].lease_duration_ms)),
            state: LeaseState::Held,
        }
    }

    /// The queue after the entry at `i` is leased. The last entry takes its place.
    pub open spec fn granted(
        self,
        i: int,
        worker: Seq<char>,
        lease_id: LeaseId,
        now: Timestamp,
    ) -> QueueView {
        QueueView {
            ready: self.ready.update(i, self.ready.last()).drop_last(),
            leases: self.leases.filter(named_otherwise(lease_id)).push(
                self.claim(i, worker, lease_id, now),
            ),
            totals: QueueStats {
                dequeued_total: counted(self.totals.dequeued_total),
                ..self.totals
            },
            ..self
        }
    }

    /// The queue, and the lease handed out, after a worker asks for work.
    pub open spec fn dequeued(
        self,
        worker: Seq<char>,
        job: Option<JobId>,
        queues: Seq<Seq<char>>,
        capabilities: Seq<Capability>,
        lease_id: LeaseId,
        now: Timestamp,
    ) -> (QueueView, Option<LeaseView>) {
        match self.next(job, queues, capabilities, now) {
            Some(i) => (
                self.granted(i, worker, lease_id, now),
                Some(self.claim(i, worker, lease_id, now)),
            ),
            None => (self, None),
        }
    }

    /// Whether the claim at `i` goes by the name `id`.
    pub open spec fn holds_at(self, id: LeaseId, i: int) -> bool {
        0 <= i < self.leases.len() && self.leases[i].lease_id == id
    }

    /// Whether there is an unsettled claim of that name.
    pub open spec fn has_lease(self, id: LeaseId) -> bool {
        exists|i: int| #[trigger] self.holds_at(id, i)
    }

    /// Where the claim of that name stands.
    pub open spec fn lease_at(self, id: LeaseId) -> int {
        choose|i: int| #[trigger] self.holds_at(id, i)
    }

    /// The claim of that name.
    pub open spec fn lease(self, id: LeaseId) -> LeaseView {
        self.leases[self.lease_at(id)]
    }

    /// The queue without the claim of that name.
    pub open spec fn settled(self, id: LeaseId) -> QueueView {
        QueueView { leases: self.leases.remove(self.lease_at(id)), ..self }
    }

    /// Why a claim of that name cannot be settled.
    pub open spec fn unknown_lease(id: LeaseId) -> ErrorView {
        ErrorView::Queue("unknown or already-settled lease "@ + id.text())
    }

    /// The queue after an attempt failed: back for another one, or parked when the budget is
    /// spent.
    pub open spec fn failed(self, task: QueuedView, reason: Seq<char>, now: Timestamp) -> QueueView {
        if task.retriable() {
            QueueView {
                ready: self.ready.push(task.backed_off(now)),
                totals: QueueStats {
                    retried_total: counted(self.totals.retried_total),
                    ..self.totals
                },
                ..self
            }
        } else {
            QueueView { dead: self.dead.push(DeadLetterView::of(task, reason, now)), ..self }
        }
    }

    /// The queue with one more lapsed lease on record.
    pub open spec fn noted_expiry(self) -> QueueView {
        QueueView {
            totals: QueueStats { expired_total: counted(self.totals.expired_total), ..self.totals },
            ..self
        }
    }

    /// What acknowledging a claim does. A lapsed claim cannot be acknowledged: its task goes
    /// back to the queue.
    pub open spec fn acknowledged(self, id: LeaseId, now: Timestamp) -> (
        QueueView,
        Result<(), ErrorView>,
    ) {
        if !self.has_lease(id) {
            (self, Err(Self::unknown_lease(id)))
        } else if self.lease(id).lapsed(now) {
            (
                self.settled(id).noted_expiry().failed(
                    self.lease(id).task,
                    "lease expired before acknowledgement"@,
                    now,
                ),
                Err(
                    ErrorView::Queue(
                        "lease "@ + id.text() + " expired at "@ + self.lease(id).expires_at.text()
                            + "; task was requeued"@,
                    ),
                ),
            )
        } else {
            let after = self.settled(id);
            (
                QueueView {
                    totals: QueueStats {
                        acknowledged_total: counted(after.totals.acknowledged_total),
                        ..after.totals
                    },
                    ..after
                },
                Ok(()),
            )
        }
    }

    /// What reporting a failure does.
    pub open spec fn rejected(self, id: LeaseId, reason: Seq<char>, now: Timestamp) -> (
        QueueView,
        Result<(), ErrorView>,
    ) {
        if !self.has_lease(id) {
            (self, Err(Self::unknown_lease(id)))
        } else {
            (self.settled(id).failed(self.lease(id).task, reason, now), Ok(()))
        }
    }

    /// The entry of a claim that is handed back untouched at `now`.
    pub open spec fn handed_back(task: QueuedView, now: Timestamp) -> QueuedView {
        QueuedView {
            attempt: if task.attempt > 0 {
                (task.attempt - 1) as u32
            } else {
                0
            },
            available_at: now,
            ..task
        }
    }

    /// What giving a claim back does: the attempt is not spent.
    pub open spec fn released(self, id: LeaseId, now: Timestamp) -> (
        QueueView,
        Result<(), ErrorView>,
    ) {
        if !self.has_lease(id) {
            (self, Err(Self::unknown_lease(id)))
        } else {
            let after = self.settled(id);
            (
                QueueView {
                    ready: after.ready.push(Self::handed_back(self.lease(id).task, now)),
                    ..after
                },
                Ok(()),
            )
        }
    }

    /// The queue with another claim in the place of the one of that name.
    pub open spec fn with_lease(self, id: LeaseId, lease: LeaseView) -> QueueView {
        QueueView { leases: self.leases.update(self.lease_at(id), lease), ..self }
    }

    /// What extending a claim does.
    pub open spec fn extended(self, id: LeaseId, extension_ms: u128, now: Timestamp) -> (
        QueueView,
        Result<(), ErrorView>,
    ) {
        let lease = self.lease(id);
        if !self.has_lease(id) {
            (self, Err(ErrorView::Queue("unknown lease "@ + id.text())))
        } else if lease.lapsed(now) {
            (
                self,
                Err(
                    ErrorView::Queue(
                        "lease "@ + id.text() + " already expired at "@ + lease.expires_at.text(),
                    ),
                ),
            )
        } else if extension_ms > i64::MAX {
            (
                self.with_lease(id, LeaseView { state: LeaseState::Extended, ..lease }),
                Err(ErrorView::Queue("lease extension does not fit in i64 ms"@)),
            )
        } else {
            (
                self.with_lease(
                    id,
                    LeaseView {
                        state: LeaseState::Extended,
                        expires_at: now.shifted(extension_ms as int),
                        ..lease
                    },
                ),
                Ok(()),
            )
        }
    }

    /// What the sweep of lapsed claims does: each goes back to the queue or is parked.
    pub open spec fn swept(self, now: Timestamp) -> QueueView {
        let lapsed = entries_of(self.leases.filter(lapsed_at(now)));
        QueueView {
            ready: self.ready + sent_back(lapsed, now),
            leases: self.leases.filter(good_at(now)),
            dead: self.dead + parked(lapsed, "lease expired"@, now),
            totals: QueueStats {
                expired_total: counted_by(self.totals.expired_total, lapsed.len()),
                retried_total: counted_by(
                    self.totals.retried_total,
                    sent_back(lapsed, now).len(),
                ),
                ..self.totals
            },
            ..self
        }
    }

    /// The state of the queue at `now`.
    pub open spec fn stats(self, now: Timestamp) -> QueueStats {
        let ready = self.ready.filter(visible_at(now)).len();
        QueueStats {
            ready: ready as usize,
            delayed: (self.ready.len() - ready) as usize,
            leased: self.leases.len() as usize,
            dead_lettered: self.dead.len() as usize,
            ..self.totals
        }
    }

    /// Whether the letter at `i` is the first about that task.
    pub open spec fn parked_at(self, task_id: TaskId, i: int) -> bool {
        &&& 0 <= i < self.dead.len()
        &&& self.dead[i].task.task_id == task_id
        &&& forall|j: int| 0 <= j < i ==> (#[trigger] self.dead[j]).task.task_id != task_id
    }

    /// What replaying a parked task does: it is back with a fresh budget, whatever keys were
    /// seen.
    pub open spec fn replayed(self, task_id: TaskId, now: Timestamp) -> (QueueView, bool) {
        if exists|i: int| #[trigger] self.parked_at(task_id, i) {
            let i = choose|i: int| #[trigger] self.parked_at(task_id, i);
            (
                QueueView {
                    ready: self.ready.push(
                        QueuedView { attempt: 0, available_at: now, ..self.dead[i].task },
                    ),
                    dead: self.dead.remove(i),
                    totals: QueueStats {
                        enqueued_total: counted(self.totals.enqueued_total),
                        ..self.totals
                    },
                    ..self
                },
                true,
            )
        } else {
            (self, false)
        }
    }

    /// The queue without the entries and claims of a job.
    pub open spec fn purged(self, job: JobId) -> QueueView {
        QueueView {
            ready: self.ready.filter(of_other_job(job)),
            leases: self.leases.filter(leased_by_other_job(job)),
            ..self
        }
    }
}

/// There is at most one entry to hand out.
pub proof fn lemma_next_unique(
    q: QueueView,
    job: Option<JobId>,
    queues: Seq<Seq<char>>,
    capabilities: Seq<Capability>,
    now: Timestamp,
    i: int,
)
    requires
        q.is_next(i, job, queues, capabilities, now),
    ensures
        q.next(job, queues, capabilities, now) == Some(i),
{
    let j = choose|j: int| #[trigger] q.is_next(j, job, queues, capabilities, now);
    assert(q.is_next(j, job, queues, capabilities, now));
    assert(q.eligible(j, job, queues, capabilities, now) && q.eligible(i, job, queues, capabilities, now));
}

/// A claim of some name stands in one place only.
pub proof fn lemma_lease_unique(q: QueueView, id: LeaseId, i: int)
    requires
        q.wf(),
        q.holds_at(id, i),
    ensures
        q.has_lease(id),
        q.lease_at(id) == i,
{
    let j = q.lease_at(id);
    assert(q.holds_at(id, j));
    if i < j {
        assert(q.leases[i].lease_id != q.leases[j].lease_id);
    } else if j < i {
        assert(q.leases[j].lease_id != q.leases[i].lease_id);
    }
}

/// Keeping some of the claims keeps them active and of different names.
proof fn lemma_filter_leases(q: QueueView, keep: spec_fn(LeaseView) -> bool)
    requires
        q.wf(),
    ensures
        (QueueView { leases: q.leases.filter(keep), ..q }).wf(),
        forall|i: int|
            0 <= i < q.leases.filter(keep).len() ==> q.leases.contains(
                #[trigger] q.leases.filter(keep)[i],
            ) && keep(q.leases.filter(keep)[i]),
    decreases q.leases.len(),
{
    reveal(Seq::filter);
    let kept = q.leases.filter(keep);
    if q.leases.len() > 0 {
        let shorter = QueueView { leases: q.leases.drop_last(), ..q };
        lemma_filter_leases(shorter, keep);
        let rest = shorter.leases.filter(keep);
        assert forall|i: int| 0 <= i < kept.len() implies q.leases.contains(#[trigger] kept[i])
            && keep(kept[i]) by {
            if i < rest.len() {
                assert(kept[i] == rest[i]);
                let k = shorter.leases.index_of(rest[i]);
                assert(q.leases[k] == rest[i]);
            } else {
                assert(q.leases[q.leases.len() - 1] == kept[i]);
            }
        }
        assert forall|i: int, j: int| 0 <= i < j < kept.len() implies (
        #[trigger] kept[i]).lease_id != (#[trigger] kept[j]).lease_id by {
            assert(kept[i] == rest[i]);
            if j < rest.len() {
                assert(kept[j] == rest[j]);
            } else {
                let k = shorter.leases.index_of(rest[i]);
                assert(q.leases[k] == rest[i]);
                assert(q.leases[k].lease_id != q.leases[q.leases.len() - 1].lease_id);
            }
        }
        assert forall|i: int| 0 <= i < kept.len() implies (#[trigger] kept[i]).active() by {
            let k = q.leases.index_of(kept[i]);
            assert(q.leases[k].active());
        }
    }
}

/// A filter keeps no more than there was.
proof fn lemma_filter_shorter<A>(s: Seq<A>, keep: spec_fn(A) -> bool)
    ensures
        s.filter(keep).len() <= s.len(),
    decreases s.len(),
{
    reveal(Seq::filter);
    if s.len() > 0 {
        lemma_filter_shorter(s.drop_last(), keep);
    }
}

/// Keeping some of the waiting entries keeps each of them able to start another attempt.
proof fn lemma_filter_entries(entries: Seq<QueuedView>, keep: spec_fn(QueuedView) -> bool)
    requires
        forall|i: int| 0 <= i < entries.len() ==> (#[trigger] entries[i]).attempt < u32::MAX,
    ensures
        forall|i: int|
            0 <= i < entries.filter(keep).len() ==> (#[trigger] entries.filter(keep)[i]).attempt
                < u32::MAX,
    decreases entries.len(),
{
    reveal(Seq::filter);
    if entries.len() > 0 {
        lemma_filter_entries(entries.drop_last(), keep);
        let rest = entries.drop_last().filter(keep);
        let kept = entries.filter(keep);
        assert forall|i: int| 0 <= i < kept.len() implies (#[trigger] kept[i]).attempt
            < u32::MAX by {
            if i < rest.len() {
                assert(kept[i] == rest[i]);
            } else {
                assert(kept[i] == entries[entries.len() - 1]);
            }
        }
    }
}

/// The queue `now` partway through the sweep, when the claims `lapsed` have been recovered.
spec fn swept_part(
    q: QueueView,
    part: QueueView,
    lapsed: Seq<LeaseView>,
    reason: Seq<char>,
    now: Timestamp,
) -> bool {
    let entries = entries_of(lapsed);
    &&& part.ready == q.ready + sent_back(entries, now)
    &&& part.dead == q.dead + parked(entries, reason, now)
    &&& part.seen == q.seen
    &&& part.totals == (QueueStats {
        expired_total: counted_by(q.totals.expired_total, entries.len()),
        retried_total: counted_by(q.totals.retried_total, sent_back(entries, now).len()),
        ..q.totals
    })
}

/// Recovering one more lapsed claim takes the sweep one step further.
proof fn lemma_swept_step(
    q: QueueView,
    before: QueueView,
    after: QueueView,
    lapsed: Seq<LeaseView>,
    lease: LeaseView,
    reason: Seq<char>,
    now: Timestamp,
)
    requires
        swept_part(q, before, lapsed, reason, now),
        after == (QueueView { leases: after.leases, ..before }).noted_expiry().failed(
            lease.task,
            reason,
            now,
        ),
    ensures
        swept_part(q, after, lapsed.push(lease), reason, now),
{
    let entries = entries_of(lapsed.push(lease));
    assert(entries.drop_last() =~= entries_of(lapsed));
    assert(entries.last() == lease.task);
    let back = sent_back(entries.drop_last(), now);
    let dead = parked(entries.drop_last(), reason, now);
    assert((q.ready + back).push(lease.task.backed_off(now)) =~= q.ready + back.push(
        lease.task.backed_off(now),
    ));
    let letter = DeadLetterView::of(lease.task, reason, now);
    assert((q.dead + dead).push(letter) =~= q.dead + dead.push(letter));
}

/// Removing a claim leaves the others active and of different names.
proof fn lemma_remove_lease(q: QueueView, at: int)
    requires
        q.wf(),
        0 <= at < q.leases.len(),
    ensures
        (QueueView { leases: q.leases.remove(at), ..q }).wf(),
{
    let after = QueueView { leases: q.leases.remove(at), ..q };
    assert forall|i: int| 0 <= i < after.leases.len() implies (
    #[trigger] after.leases[i]).active() by {
        assert(after.leases[i] == q.leases[if i < at { i } else { i + 1 }]);
    }
    assert forall|i: int, j: int| 0 <= i < j < after.leases.len() implies (
    #[trigger] after.leases[i]).lease_id != (#[trigger] after.leases[j]).lease_id by {
        assert(after.leases[i] == q.leases[if i < at { i } else { i + 1 }]);
        assert(after.leases[j] == q.leases[if j < at { j } else { j + 1 }]);
    }
}

/// Settling a claim leaves the others as they are.
proof fn lemma_settled(q: QueueView, id: LeaseId)
    requires
        q.wf(),
        q.has_lease(id),
    ensures
        q.settled(id).wf(),
        !q.settled(id).has_lease(id),
{
    let at = q.lease_at(id);
    let after = q.settled(id);
    assert(q.holds_at(id, at));
    lemma_remove_lease(q, at);
    assert forall|i: int| !#[trigger] after.holds_at(id, i) by {
        if after.holds_at(id, i) {
            let k = if i < at { i } else { i + 1 };
            assert(after.leases[i] == q.leases[k]);
            lemma_lease_unique(q, id, k);
        }
    }
}

/// A task queue that keeps everything in process memory.
#[derive(Debug)]
pub struct InMemoryQueue {
    ready: Vec<QueuedTask>,
    leases: Vec<TaskLease>,
    /// Attempt keys ever admitted, so a redelivered producer message is dropped.
    seen: Vec<String>,
    dead: Vec<DeadLetter>,
    totals: QueueStats,
}

impl View for InMemoryQueue {
    type V = QueueView;

    closed spec fn view(&self) -> QueueView {
        QueueView {
            ready: queued_views(self.ready@),
            leases: lease_views(self.leases@),
            seen: views(self.seen@).to_set(),
            dead: letter_views(self.dead@),
            totals: self.totals,
        }
    }
}

impl Default for InMemoryQueue {
    fn default() -> (r: Self)
        ensures
            r@ == QueueView::empty(),
    {
        InMemoryQueue::new()
    }
}

impl InMemoryQueue {
    /// An empty queue.
    pub fn new() -> (r: Self)
        ensures
            r@ == QueueView::empty(),
            r@.wf(),
    {
        let r = InMemoryQueue {
            ready: Vec::new(),
            leases: Vec::new(),
            seen: Vec::new(),
            dead: Vec::new(),
            totals: QueueStats::default(),
        };
        assert(r@ =~= QueueView::empty());
        r
    }

    /// Add a task. Re-enqueuing an already-seen attempt key is a no-op.
    pub fn enqueue(&mut self, task: QueuedTask) -> (r: Result<(), SwarmError>)
        requires
            old(self)@.wf(),
            task@.attempt < u32::MAX,
        ensures
            r is Ok,
            final(self)@ == old(self)@.enqueued(task@),
            final(self)@.wf(),
    {
        let ghost keys = views(self.seen@);
        if has_text(self.seen.as_slice(), task.idempotency_key.as_str()) {
            self.totals.deduplicated_total = count_one(self.totals.deduplicated_total);
            assert(self@ =~= old(self)@.enqueued(task@));
            return Ok(());
        }
        self.totals.enqueued_total = count_one(self.totals.enqueued_total);
        self.seen.push(task.idempotency_key.clone());
        self.ready.push(task);
        proof {
            let key = task@.idempotency_key;
            assert(views(self.seen@) =~= keys.push(key));
            assert(keys.push(key).to_set() =~= keys.to_set().insert(key)) by {
                assert forall|x: Seq<char>| #[trigger] keys.push(key).contains(x) <==> keys.contains(
                    x,
                ) || x == key by {
                    if keys.contains(x) {
                        let k = keys.index_of(x);
                        assert(keys.push(key)[k] == x);
                    }
                    assert(keys.push(key)[keys.len() as int] == key);
                }
            }
            assert(queued_views(self.ready@) =~= old(self)@.ready.push(task@));
            assert(self@ =~= old(self)@.enqueued(task@));
        }
        Ok(())
    }

    /// The position of the entry to hand out, if there is one.
    fn pick(
        &self,
        job: Option<JobId>,
        queues: &[String],
        capabilities: &[Capability],
        now: Timestamp,
    ) -> (r: Option<usize>)
        ensures
            match r {
                Some(i) => self@.next(job, views(queues@), capabilities@, now) == Some(i as int)
                    && i < self@.ready.len(),
                None => self@.next(job, views(queues@), capabilities@, now) is None,
            },
    {
        let ghost q = self@;
        let ghost names = views(queues@);
        let mut best: Option<usize> = None;
        for i in 0..self.ready.len()
            invariant
                q == self@,
                names == views(queues@),
                q.ready.len() == self.ready@.len(),
                match best {
                    Some(b) => {
                        &&& b < i
                        &&& q.eligible(b as int, job, names, capabilities@, now)
                        &&& forall|j: int|
                            j < i && #[trigger] q.eligible(j, job, names, capabilities@, now)
                                ==> !q.ready[j].beats(q.ready[b as int]) && (j > b
                                ==> q.ready[b as int].beats(q.ready[j]))
                    },
                    None => forall|j: int|
                        j < i ==> !#[trigger] q.eligible(j, job, names, capabilities@, now),
                },
        {
            assert(self.ready@[i as int]@ == q.ready[i as int]);
            let entry = &self.ready[i];
            let ours = match job {
                Some(job) => entry.job_id == job,
                None => true,
            };
            let wanted = entry.is_visible(now) && ours && (queues.len() == 0 || has_text(
                queues,
                entry.queue.as_str(),
            )) && entry.matches_capabilities(capabilities);
            assert(wanted == q.eligible(i as int, job, names, capabilities@, now));
            if wanted {
                let take = match best {
                    Some(b) => {
                        assert(self.ready@[b as int]@ == q.ready[b as int]);
                        !self.ready[b].goes_before(entry)
                    },
                    None => true,
                };
                if take {
                    best = Some(i);
                }
            }
        }
        proof {
            match best {
                Some(b) => {
                    assert(q.is_next(b as int, job, names, capabilities@, now)) by {
                        assert forall|j: int| #[trigger]
                            q.eligible(j, job, names, capabilities@, now) implies !q.ready[j].beats(
                            q.ready[b as int],
                        ) && (j > b ==> q.ready[b as int].beats(q.ready[j])) by {
                            assert(j < self.ready@.len());
                        }
                    }
                    lemma_next_unique(q, job, names, capabilities@, now, b as int);
                },
                None => {
                    assert forall|i: int| !#[trigger] q.is_next(i, job, names, capabilities@, now) by {
                        assert(!q.eligible(i, job, names, capabilities@, now));
                    }
                },
            }
        }
        best
    }

    /// Claim the highest-priority visible task, if any.
    pub fn dequeue(&mut self, worker: WorkerId) -> (r: Result<Option<TaskLease>, SwarmError>)
        requires
            old(self)@.wf(),
        ensures
            final(self)@.wf(),
            r matches Ok(lease) && exists|lease_id: LeaseId, now: Timestamp|
                (final(self)@, lease_view(lease)) == #[trigger] old(self)@.dequeued(
                    worker@,
                    None,
                    seq![],
                    seq![],
                    lease_id,
                    now,
                ),
    {
        let queues: Vec<String> = Vec::new();
        let capabilities: Vec<Capability> = Vec::new();
        assert(views(queues@) =~= seq![]);
        assert(capabilities@ =~= seq![]);
        self.dequeue_from(worker, queues.as_slice(), capabilities.as_slice())
    }

    /// Claim the highest-priority visible task from `queues` that the worker's
    /// `capabilities` can satisfy. Empty slices mean "no filter". The clock and chance decide
    /// the time and the name of the lease.
    pub fn dequeue_from(
        &mut self,
        worker: WorkerId,
        queues: &[String],
        capabilities: &[Capability],
    ) -> (r: Result<Option<TaskLease>, SwarmError>)
        requires
            old(self)@.wf(),
        ensures
            final(self)@.wf(),
            r matches Ok(lease) && exists|lease_id: LeaseId, now: Timestamp|
                (final(self)@, lease_view(lease)) == #[trigger] old(self)@.dequeued(
                    worker@,
                    None,
                    views(queues@),
                    capabilities@,
                    lease_id,
                    now,
                ),
    {
        let now = Timestamp::now();
        let lease_id = LeaseId::new();
        Ok(self.dequeue_at(worker, None, queues, capabilities, lease_id, now))
    }

    /// Claim a task at `now` under the name `lease_id`, and one of that job where one is given.
    pub fn dequeue_at(
        &mut self,
        worker: WorkerId,
        job: Option<JobId>,
        queues: &[String],
        capabilities: &[Capability],
        lease_id: LeaseId,
        now: Timestamp,
    ) -> (r: Option<TaskLease>)
        requires
            old(self)@.wf(),
        ensures
            final(self)@.wf(),
            (final(self)@, lease_view(r)) == old(self)@.dequeued(
                worker@,
                job,
                views(queues@),
                capabilities@,
                lease_id,
                now,
            ),
    {
        let at: usize = match self.pick(job, queues, capabilities, now) {
            Some(at) => at,
            None => {
                return None;
            },
        };
        let ghost q = self@;
        assert(self.ready@[at as int]@ == q.ready[at as int]);
        let mut task = self.ready.swap_remove(at);
        assert(queued_views(self.ready@) =~= q.ready.update(at as int, q.ready.last()).drop_last());
        // A granted lease is the start of an attempt, so the budget is spent here
        // rather than on success — otherwise a task that always crashes its worker
        // would be retried forever.
        task.attempt = task.attempt + 1;
        let expires_at = now.plus_millis(to_signed_millis(task.lease_duration_ms));
        let lease = TaskLease {
            lease_id,
            task,
            worker,
            granted_at: now,
            expires_at,
            state: LeaseState::Held,
        };
        self.totals.dequeued_total = count_one(self.totals.dequeued_total);
        self.forget(lease_id);
        self.leases.push(lease.clone());
        proof {
            let kept = q.leases.filter(named_otherwise(lease_id));
            assert(lease_views(self.leases@) =~= kept.push(lease@));
            assert(self@ =~= q.granted(at as int, worker@, lease_id, now));
            lemma_filter_leases(q, named_otherwise(lease_id));
            assert forall|i: int| 0 <= i < self@.ready.len() implies (
            #[trigger] self@.ready[i]).attempt < u32::MAX by {
                assert(q.ready[i].attempt < u32::MAX);
                assert(q.ready[q.ready.len() - 1].attempt < u32::MAX);
            }
            let all = self@.leases;
            assert forall|i: int, j: int| 0 <= i < j < all.len() implies (
            #[trigger] all[i]).lease_id != (#[trigger] all[j]).lease_id by {
                assert(all[i] == kept[i]);
                assert(named_otherwise(lease_id)(kept[i]));
                if j < kept.len() {
                    assert(all[j] == kept[j]);
                }
            }
        }
        Some(lease)
    }

    /// Drop the claim of that name, should there be one.
    fn forget(&mut self, lease_id: LeaseId)
        requires
            old(self)@.wf(),
        ensures
            final(self)@ == (QueueView {
                leases: old(self)@.leases.filter(named_otherwise(lease_id)),
                ..old(self)@
            }),
    {
        let ghost q = self@;
        let ghost keep = named_otherwise(lease_id);
        let ghost mut k: int = 0;
        let mut i: usize = 0;
        while i < self.leases.len()
            invariant
                q == old(self)@,
                keep == named_otherwise(lease_id),
                self.ready == old(self).ready,
                self.seen == old(self).seen,
                self.dead == old(self).dead,
                self.totals == old(self).totals,
                0 <= i <= self.leases@.len(),
                0 <= k <= q.leases.len(),
                self.leases@.len() - i == q.leases.len() - k,
                lease_views(self.leases@).take(i as int) == q.leases.take(k).filter(keep),
                lease_views(self.leases@).skip(i as int) == q.leases.skip(k),
            decreases self.leases@.len() - i,
        {
            let ghost before = lease_views(self.leases@);
            proof {
                assert(before.skip(i as int)[0] == before[i as int]);
                assert(q.leases.skip(k)[0] == q.leases[k]);
                assert(q.leases.take(k + 1) =~= q.leases.take(k).push(q.leases[k]));
                lemma_filter_push(q.leases.take(k), q.leases[k], keep);
                assert(q.leases.skip(k + 1) =~= q.leases.skip(k).skip(1));
                assert(before.skip(i as int + 1) =~= before.skip(i as int).skip(1));
            }
            if self.leases[i].lease_id == lease_id {
                let _ = self.leases.remove(i);
                proof {
                    assert(lease_views(self.leases@) =~= before.remove(i as int));
                    assert(before.remove(i as int).take(i as int) =~= before.take(i as int));
                    assert(before.remove(i as int).skip(i as int) =~= before.skip(i as int + 1));
                }
            } else {
                assert(before.take(i as int + 1) =~= before.take(i as int).push(before[i as int]));
                i = i + 1;
            }
            proof {
                k = k + 1;
            }
        }
        proof {
            assert(q.leases.take(k) =~= q.leases);
            assert(lease_views(self.leases@).take(i as int) =~= lease_views(self.leases@));
            assert(self@ =~= (QueueView { leases: q.leases.filter(keep), ..q }));
        }
    }

    /// Where the claim of that name stands.
    fn find(&self, lease: LeaseId) -> (r: Option<usize>)
        requires
            self@.wf(),
        ensures
            match r {
                Some(i) => self@.has_lease(lease) && self@.lease_at(lease) == i && i
                    < self@.leases.len(),
                None => !self@.has_lease(lease),
            },
    {
        for i in 0..self.leases.len()
            invariant
                self@.wf(),
                self@.leases.len() == self.leases@.len(),
                forall|k: int| 0 <= k < i ==> (#[trigger] self@.leases[k]).lease_id != lease,
        {
            assert(self.leases@[i as int]@ == self@.leases[i as int]);
            if self.leases[i].lease_id == lease {
                proof {
                    assert(self@.holds_at(lease, i as int));
                    lemma_lease_unique(self@, lease, i as int);
                }
                return Some(i);
            }
        }
        None
    }

    /// Remove the claim of that name from the unsettled ones.
    fn take_lease(&mut self, lease: LeaseId) -> (r: Result<TaskLease, SwarmError>)
        requires
            old(self)@.wf(),
        ensures
            final(self)@.wf(),
            match r {
                Ok(held) => {
                    &&& old(self)@.has_lease(lease)
                    &&& held@ == old(self)@.lease(lease)
                    &&& held@.active()
                    &&& final(self)@ == old(self)@.settled(lease)
                },
                Err(error) => {
                    &&& !old(self)@.has_lease(lease)
                    &&& error@ == QueueView::unknown_lease(lease)
                    &&& final(self)@ == old(self)@
                },
            },
    {
        match self.find(lease) {
            Some(i) => {
                let ghost q = self@;
                assert(self.leases@[i as int]@ == q.leases[i as int]);
                assert(q.leases[i as int].active());
                let held = self.leases.remove(i);
                proof {
                    assert(lease_views(self.leases@) =~= q.leases.remove(i as int));
                    assert(self@ =~= q.settled(lease));
                    lemma_settled(q, lease);
                }
                Ok(held)
            },
            None => {
                let mut text = "unknown or already-settled lease ".to_owned();
                text.append(lease.to_string().as_str());
                Err(SwarmError::Queue(text))
            },
        }
    }

    /// Send a failed task back for another attempt, or park it if the budget is spent.
    fn retry_or_park(&mut self, task: QueuedTask, reason: String, now: Timestamp)
        requires
            old(self)@.wf(),
        ensures
            final(self)@.wf(),
            final(self)@ == old(self)@.failed(task@, reason@, now),
    {
        let ghost q = self@;
        if task.retry.allows_retry(task.attempt) {
            let nonce: u64 = now.subsec_nanos() as u64;
            let backoff: u64 = task.retry.backoff_ms(task.attempt, nonce);
            let waiting = QueuedTask {
                available_at: now.plus_millis(to_signed_millis(backoff)),
                ..task
            };
            self.totals.retried_total = count_one(self.totals.retried_total);
            self.ready.push(waiting);
            assert(waiting@ =~= task@.backed_off(now));
            assert(queued_views(self.ready@) =~= q.ready.push(task@.backed_off(now)));
        } else {
            let attempts: u32 = task.attempt;
            self.dead.push(DeadLetter { task, attempts, last_error: reason, at: now });
            assert(letter_views(self.dead@) =~= q.dead.push(
                DeadLetterView::of(task@, reason@, now),
            ));
        }
        assert(self@ =~= q.failed(task@, reason@, now));
    }

    /// Mark the leased task done and drop the entry. The clock decides whether the lease has
    /// lapsed.
    pub fn acknowledge(&mut self, lease: LeaseId) -> (r: Result<(), SwarmError>)
        requires
            old(self)@.wf(),
        ensures
            final(self)@.wf(),
            exists|now: Timestamp| (final(self)@, outcome(r)) == #[trigger] old(self)@.acknowledged(
                lease,
                now,
            ),
    {
        let now = Timestamp::now();
        self.acknowledge_at(lease, now)
    }

    /// Mark the leased task done at `now` and drop the entry.
    pub fn acknowledge_at(&mut self, lease: LeaseId, now: Timestamp) -> (r: Result<
        (),
        SwarmError,
    >)
        requires
            old(self)@.wf(),
        ensures
            final(self)@.wf(),
            (final(self)@, outcome(r)) == old(self)@.acknowledged(lease, now),
    {
        let held = match self.take_lease(lease) {
            Ok(held) => held,
            Err(error) => {
                return Err(error);
            },
        };
        if held.is_expired(now) {
            // Another worker may already have redone the task. Refuse the ack and put
            // the task back rather than pretending the work landed.
            let mut text = "lease ".to_owned();
            text.append(lease.to_string().as_str());
            text.append(" expired at ");
            text.append(held.expires_at.to_string().as_str());
            text.append("; task was requeued");
            let ghost q = self@;
            self.totals.expired_total = count_one(self.totals.expired_total);
            assert(self@ =~= q.noted_expiry());
            self.retry_or_park(
                held.task,
                "lease expired before acknowledgement".to_owned(),
                now,
            );
            return Err(SwarmError::Queue(text));
        }
        let ghost q = self@;
        self.totals.acknowledged_total = count_one(self.totals.acknowledged_total);
        assert(self@ =~= (QueueView { totals: self@.totals, ..q }));
        Ok(())
    }

    /// Report failure: retry with backoff, or dead-letter if the budget is spent.
    pub fn reject(&mut self, lease: LeaseId, reason: String) -> (r: Result<(), SwarmError>)
        requires
            old(self)@.wf(),
        ensures
            final(self)@.wf(),
            exists|now: Timestamp| (final(self)@, outcome(r)) == #[trigger] old(self)@.rejected(
                lease,
                reason@,
                now,
            ),
    {
        let now = Timestamp::now();
        self.reject_at(lease, reason, now)
    }

    /// Report failure at `now`.
    pub fn reject_at(&mut self, lease: LeaseId, reason: String, now: Timestamp) -> (r: Result<
        (),
        SwarmError,
    >)
        requires
            old(self)@.wf(),
        ensures
            final(self)@.wf(),
            (final(self)@, outcome(r)) == old(self)@.rejected(lease, reason@, now),
    {
        let held = match self.take_lease(lease) {
            Ok(held) => held,
            Err(error) => {
                return Err(error);
            },
        };
        self.retry_or_park(held.task, reason, now);
        Ok(())
    }

    /// Return a task to the queue without consuming an attempt.
    ///
    /// Used when a worker cannot start the task at all — no capable agent is free, the
    /// node is draining — so the task is not penalised for the scheduler's problem.
    pub fn release(&mut self, lease: LeaseId) -> (r: Result<(), SwarmError>)
        requires
            old(self)@.wf(),
        ensures
            final(self)@.wf(),
            exists|now: Timestamp| (final(self)@, outcome(r)) == #[trigger] old(self)@.released(
                lease,
                now,
            ),
    {
        let now = Timestamp::now();
        self.release_at(lease, now)
    }

    /// Return a task to the queue at `now` without consuming an attempt.
    pub fn release_at(&mut self, lease: LeaseId, now: Timestamp) -> (r: Result<(), SwarmError>)
        requires
            old(self)@.wf(),
        ensures
            final(self)@.wf(),
            (final(self)@, outcome(r)) == old(self)@.released(lease, now),
    {
        let held = match self.take_lease(lease) {
            Ok(held) => held,
            Err(error) => {
                return Err(error);
            },
        };
        let ghost q = self@;
        let ghost entry = held.task@;
        let mut task = held.task;
        // Hand the attempt back: nothing was executed.
        if task.attempt > 0 {
            task.attempt = task.attempt - 1;
        }
        task.available_at = now;
        self.ready.push(task);
        proof {
            assert(task@ =~= QueueView::handed_back(entry, now));
            assert(queued_views(self.ready@) =~= q.ready.push(task@));
            assert(self@ =~= (QueueView { ready: q.ready.push(task@), ..q }));
        }
        Ok(())
    }

    /// Push a lease's expiry further out because the holder reported progress.
    pub fn extend_lease(&mut self, lease: LeaseId, extension_ms: u128) -> (r: Result<
        (),
        SwarmError,
    >)
        requires
            old(self)@.wf(),
        ensures
            final(self)@.wf(),
            exists|now: Timestamp| (final(self)@, outcome(r)) == #[trigger] old(self)@.extended(
                lease,
                extension_ms,
                now,
            ),
    {
        let now = Timestamp::now();
        self.extend_lease_at(lease, extension_ms, now)
    }

    /// Let a lease expire `extension_ms` milliseconds after `now`.
    pub fn extend_lease_at(&mut self, lease: LeaseId, extension_ms: u128, now: Timestamp) -> (r:
        Result<(), SwarmError>)
        requires
            old(self)@.wf(),
        ensures
            final(self)@.wf(),
            (final(self)@, outcome(r)) == old(self)@.extended(lease, extension_ms, now),
    {
        let at: usize = match self.find(lease) {
            Some(at) => at,
            None => {
                let mut text = "unknown lease ".to_owned();
                text.append(lease.to_string().as_str());
                return Err(SwarmError::Queue(text));
            },
        };
        let ghost q = self@;
        assert(self.leases@[at as int]@ == q.leases[at as int]);
        if self.leases[at].is_expired(now) {
            let mut text = "lease ".to_owned();
            text.append(lease.to_string().as_str());
            text.append(" already expired at ");
            text.append(self.leases[at].expires_at.to_string().as_str());
            return Err(SwarmError::Queue(text));
        }
        self.leases[at].state = LeaseState::Extended;
        let ghost mid = LeaseView { state: LeaseState::Extended, ..q.lease(lease) };
        assert(lease_views(self.leases@) =~= q.leases.update(at as int, mid));
        assert(self@ =~= q.with_lease(lease, mid));
        if extension_ms > 0x7fff_ffff_ffff_ffff {
            return Err(SwarmError::Queue("lease extension does not fit in i64 ms".to_owned()));
        }
        self.leases[at].expires_at = now.plus_millis(extension_ms as i64);
        proof {
            let last = LeaseView { expires_at: now.shifted(extension_ms as int), ..mid };
            assert(lease_views(self.leases@) =~= q.leases.update(at as int, last));
            assert(self@ =~= q.with_lease(lease, last));
        }
        Ok(())
    }

    /// Current queue health. The clock decides which entries are visible.
    pub fn stats(&self) -> (r: Result<QueueStats, SwarmError>)
        ensures
            r matches Ok(stats) && exists|now: Timestamp| stats == #[trigger] self@.stats(now),
    {
        let now = Timestamp::now();
        Ok(self.stats_at(now))
    }

    /// Queue health at `now`.
    pub fn stats_at(&self, now: Timestamp) -> (r: QueueStats)
        ensures
            r == self@.stats(now),
            r.ready + r.delayed == self@.ready.len(),
            r.leased == self@.leases.len(),
            r.dead_lettered == self@.dead.len(),
    {
        let ghost entries = self@.ready;
        let mut ready: usize = 0;
        for i in 0..self.ready.len()
            invariant
                entries == self@.ready,
                entries.len() == self.ready@.len(),
                ready <= i,
                ready == entries.take(i as int).filter(visible_at(now)).len(),
        {
            proof {
                assert(self.ready@[i as int]@ == entries[i as int]);
                assert(entries.take(i + 1) =~= entries.take(i as int).push(entries[i as int]));
                lemma_filter_push(entries.take(i as int), entries[i as int], visible_at(now));
            }
            if self.ready[i].is_visible(now) {
                ready = ready + 1;
            }
        }
        assert(entries.take(entries.len() as int) =~= entries);
        QueueStats {
            ready,
            delayed: self.ready.len() - ready,
            leased: self.leases.len(),
            dead_lettered: self.dead.len(),
            ..self.totals
        }
    }

    /// Tasks that exhausted their retries.
    pub fn dead_letters(&self) -> (r: Result<Vec<DeadLetter>, SwarmError>)
        ensures
            r matches Ok(letters) && letter_views(letters@) == self@.dead,
    {
        let mut letters: Vec<DeadLetter> = Vec::new();
        for i in 0..self.dead.len()
            invariant
                letters@.len() == i,
                forall|k: int| 0 <= k < i ==> (#[trigger] letters@[k])@ == self.dead@[k]@,
        {
            letters.push(self.dead[i].clone());
        }
        assert(letter_views(letters@) =~= self@.dead);
        Ok(letters)
    }

    /// Re-queue a dead-lettered task with a fresh attempt budget.
    pub fn replay_dead_letter(&mut self, task_id: TaskId) -> (r: Result<bool, SwarmError>)
        requires
            old(self)@.wf(),
        ensures
            final(self)@.wf(),
            r matches Ok(found) && exists|now: Timestamp|
                (final(self)@, found) == #[trigger] old(self)@.replayed(task_id, now),
    {
        let now = Timestamp::now();
        Ok(self.replay_dead_letter_at(task_id, now))
    }

    /// Re-queue a dead-lettered task at `now`.
    pub fn replay_dead_letter_at(&mut self, task_id: TaskId, now: Timestamp) -> (r: bool)
        requires
            old(self)@.wf(),
        ensures
            final(self)@.wf(),
            (final(self)@, r) == old(self)@.replayed(task_id, now),
    {
        let ghost q = self@;
        let mut i: usize = 0;
        while i < self.dead.len() && self.dead[i].task.task_id != task_id
            invariant
                i <= self.dead@.len(),
                q == self@,
                forall|k: int| 0 <= k < i ==> (#[trigger] q.dead[k]).task.task_id != task_id,
            ensures
                i <= self.dead@.len(),
                i < self.dead@.len() ==> self.dead@[i as int].task.task_id == task_id,
                forall|k: int| 0 <= k < i ==> (#[trigger] q.dead[k]).task.task_id != task_id,
            decreases self.dead@.len() - i,
        {
            assert(self.dead@[i as int]@ == q.dead[i as int]);
            i = i + 1;
        }
        if i >= self.dead.len() {
            assert forall|k: int| !#[trigger] q.parked_at(task_id, k) by {}
            return false;
        }
        proof {
            assert(self.dead@[i as int]@ == q.dead[i as int]);
            assert(q.parked_at(task_id, i as int));
            let j = choose|j: int| #[trigger] q.parked_at(task_id, j);
            assert(q.parked_at(task_id, j));
            if j < i {
                assert(q.dead[j].task.task_id != task_id);
            } else if i < j {
                assert(q.dead[i as int].task.task_id != task_id);
            }
        }
        let letter = self.dead.remove(i);
        let mut task = letter.task;
        task.attempt = 0;
        task.available_at = now;
        // Pushed directly rather than through enqueue: the attempt key is already in
        // `seen`, so the deduplication check would drop the replay as a duplicate.
        self.totals.enqueued_total = count_one(self.totals.enqueued_total);
        self.ready.push(task);
        proof {
            assert(letter_views(self.dead@) =~= q.dead.remove(i as int));
            assert(queued_views(self.ready@) =~= q.ready.push(task@));
            assert(self@ =~= q.replayed(task_id, now).0);
        }
        true
    }

    /// Sweep lapsed leases back into the queue. Returns how many were recovered.
    pub fn requeue_expired(&mut self) -> (r: Result<usize, SwarmError>)
        requires
            old(self)@.wf(),
        ensures
            final(self)@.wf(),
            r matches Ok(recovered) && exists|now: Timestamp| #[trigger]
                old(self)@.swept(now) == final(self)@ && recovered == old(self)@.leases.filter(
                    lapsed_at(now),
                ).len(),
    {
        let now = Timestamp::now();
        let recovered: usize = self.requeue_expired_at(now);
        assert(old(self)@.swept(now) == self@);
        Ok(recovered)
    }

    /// Sweep the leases that have lapsed at `now` back into the queue.
    pub fn requeue_expired_at(&mut self, now: Timestamp) -> (r: usize)
        requires
            old(self)@.wf(),
        ensures
            final(self)@.wf(),
            final(self)@ == old(self)@.swept(now),
            r == old(self)@.leases.filter(lapsed_at(now)).len(),
    {
        let ghost q = self@;
        let ghost reason = "lease expired"@;
        let ghost mut k: int = 0;
        let total: usize = self.leases.len();
        let mut recovered: usize = 0;
        let mut i: usize = 0;
        proof {
            reveal(Seq::filter);
            assert(q.leases.take(0) =~= seq![]);
            assert(self@.leases.take(0) =~= seq![]);
            assert(self@.leases.skip(0) =~= q.leases.skip(0));
            assert(entries_of(seq![]) =~= seq![]);
            assert(q.ready + seq![] =~= q.ready);
            assert(q.dead + seq![] =~= q.dead);
        }
        while i < self.leases.len()
            invariant
                q == old(self)@,
                reason == "lease expired"@,
                self@.wf(),
                self@.leases.len() == self.leases@.len(),
                0 <= i <= self.leases@.len(),
                0 <= k <= q.leases.len(),
                recovered <= k,
                q.leases.len() == total,
                self@.leases.len() - i == q.leases.len() - k,
                self@.leases.take(i as int) == q.leases.take(k).filter(good_at(now)),
                self@.leases.skip(i as int) == q.leases.skip(k),
                swept_part(q, self@, q.leases.take(k).filter(lapsed_at(now)), reason, now),
                recovered == q.leases.take(k).filter(lapsed_at(now)).len(),
            decreases self.leases@.len() - i,
        {
            let ghost before = self@;
            let ghost lapsed = q.leases.take(k).filter(lapsed_at(now));
            proof {
                assert(self.leases@[i as int]@ == before.leases[i as int]);
                assert(before.leases.skip(i as int)[0] == before.leases[i as int]);
                assert(q.leases.skip(k)[0] == q.leases[k]);
                assert(q.leases.take(k + 1) =~= q.leases.take(k).push(q.leases[k]));
                lemma_filter_push(q.leases.take(k), q.leases[k], good_at(now));
                lemma_filter_push(q.leases.take(k), q.leases[k], lapsed_at(now));
                assert(q.leases.skip(k + 1) =~= q.leases.skip(k).skip(1));
                assert(before.leases.skip(i as int + 1) =~= before.leases.skip(i as int).skip(1));
            }
            if self.leases[i].is_expired(now) {
                let lease = self.leases.remove(i);
                proof {
                    lemma_remove_lease(before, i as int);
                    assert(lease_views(self.leases@) =~= before.leases.remove(i as int));
                    assert(self@ =~= (QueueView {
                        leases: before.leases.remove(i as int),
                        ..before
                    }));
                    assert(before.leases.remove(i as int).take(i as int) =~= before.leases.take(
                        i as int,
                    ));
                    assert(before.leases.remove(i as int).skip(i as int) =~= before.leases.skip(
                        i as int + 1,
                    ));
                }
                self.totals.expired_total = count_one(self.totals.expired_total);
                let ghost mid = self@;
                assert(mid =~= (QueueView {
                    leases: before.leases.remove(i as int),
                    ..before
                }).noted_expiry());
                self.retry_or_park(lease.task, "lease expired".to_owned(), now);
                recovered = recovered + 1;
                proof {
                    lemma_swept_step(q, before, self@, lapsed, q.leases[k], reason, now);
                }
            } else {
                assert(before.leases.take(i as int + 1) =~= before.leases.take(i as int).push(
                    before.leases[i as int],
                ));
                i = i + 1;
            }
            proof {
                k = k + 1;
            }
        }
        proof {
            assert(q.leases.take(k) =~= q.leases);
            assert(self@.leases.take(i as int) =~= self@.leases);
            assert(self@ =~= q.swept(now));
        }
        recovered
    }

    /// Drop every entry and lease belonging to `job_id`. Returns how many were removed.
    pub fn purge_job(&mut self, job_id: JobId) -> (r: Result<usize, SwarmError>)
        requires
            old(self)@.wf(),
        ensures
            final(self)@.wf(),
            final(self)@ == old(self)@.purged(job_id),
            r matches Ok(removed) && {
                let dropped = old(self)@.ready.len() - final(self)@.ready.len()
                    + old(self)@.leases.len() - final(self)@.leases.len();
                removed == if dropped <= usize::MAX {
                    dropped
                } else {
                    usize::MAX as int
                }
            },
    {
        let entries: usize = self.ready.len();
        let claims: usize = self.leases.len();
        self.drop_entries(job_id);
        self.drop_claims(job_id);
        proof {
            lemma_filter_leases(old(self)@, leased_by_other_job(job_id));
            lemma_filter_entries(old(self)@.ready, of_other_job(job_id));
            lemma_filter_shorter(old(self)@.ready, of_other_job(job_id));
            lemma_filter_shorter(old(self)@.leases, leased_by_other_job(job_id));
            assert(self@ =~= old(self)@.purged(job_id));
        }
        let gone: usize = entries - self.ready.len();
        Ok(gone.saturating_add(claims - self.leases.len()))
    }

    /// Drop every waiting entry belonging to `job_id`.
    fn drop_entries(&mut self, job_id: JobId)
        ensures
            final(self)@ == (QueueView {
                ready: old(self)@.ready.filter(of_other_job(job_id)),
                ..old(self)@
            }),
    {
        let ghost q = self@;
        let ghost keep = of_other_job(job_id);
        let ghost mut k: int = 0;
        let mut i: usize = 0;
        proof {
            reveal(Seq::filter);
            assert(q.ready.take(0) =~= seq![]);
            assert(queued_views(self.ready@).take(0) =~= seq![]);
            assert(queued_views(self.ready@).skip(0) =~= q.ready.skip(0));
        }
        while i < self.ready.len()
            invariant
                q == old(self)@,
                keep == of_other_job(job_id),
                self.leases == old(self).leases,
                self.seen == old(self).seen,
                self.dead == old(self).dead,
                self.totals == old(self).totals,
                0 <= i <= self.ready@.len(),
                0 <= k <= q.ready.len(),
                self.ready@.len() - i == q.ready.len() - k,
                queued_views(self.ready@).take(i as int) == q.ready.take(k).filter(keep),
                queued_views(self.ready@).skip(i as int) == q.ready.skip(k),
            decreases self.ready@.len() - i,
        {
            let ghost before = queued_views(self.ready@);
            proof {
                assert(before.skip(i as int)[0] == before[i as int]);
                assert(q.ready.skip(k)[0] == q.ready[k]);
                assert(q.ready.take(k + 1) =~= q.ready.take(k).push(q.ready[k]));
                lemma_filter_push(q.ready.take(k), q.ready[k], keep);
                assert(q.ready.skip(k + 1) =~= q.ready.skip(k).skip(1));
                assert(before.skip(i as int + 1) =~= before.skip(i as int).skip(1));
            }
            if self.ready[i].job_id == job_id {
                let _ = self.ready.remove(i);
                proof {
                    assert(queued_views(self.ready@) =~= before.remove(i as int));
                    assert(before.remove(i as int).take(i as int) =~= before.take(i as int));
                    assert(before.remove(i as int).skip(i as int) =~= before.skip(i as int + 1));
                }
            } else {
                assert(before.take(i as int + 1) =~= before.take(i as int).push(before[i as int]));
                i = i + 1;
            }
            proof {
                k = k + 1;
            }
        }
        proof {
            assert(q.ready.take(k) =~= q.ready);
            assert(queued_views(self.ready@).take(i as int) =~= queued_views(self.ready@));
            assert(self@ =~= (QueueView { ready: q.ready.filter(keep), ..q }));
        }
    }

    /// Drop every claim on an entry belonging to `job_id`.
    fn drop_claims(&mut self, job_id: JobId)
        ensures
            final(self)@ == (QueueView {
                leases: old(self)@.leases.filter(leased_by_other_job(job_id)),
                ..old(self)@
            }),
    {
        let ghost q = self@;
        let ghost keep = leased_by_other_job(job_id);
        let ghost mut k: int = 0;
        let mut i: usize = 0;
        proof {
            reveal(Seq::filter);
            assert(q.leases.take(0) =~= seq![]);
            assert(lease_views(self.leases@).take(0) =~= seq![]);
            assert(lease_views(self.leases@).skip(0) =~= q.leases.skip(0));
        }
        while i < self.leases.len()
            invariant
                q == old(self)@,
                keep == leased_by_other_job(job_id),
                self.ready == old(self).ready,
                self.seen == old(self).seen,
                self.dead == old(self).dead,
                self.totals == old(self).totals,
                0 <= i <= self.leases@.len(),
                0 <= k <= q.leases.len(),
                self.leases@.len() - i == q.leases.len() - k,
                lease_views(self.leases@).take(i as int) == q.leases.take(k).filter(keep),
                lease_views(self.leases@).skip(i as int) == q.leases.skip(k),
            decreases self.leases@.len() - i,
        {
            let ghost before = lease_views(self.leases@);
            proof {
                assert(before.skip(i as int)[0] == before[i as int]);
                assert(q.leases.skip(k)[0] == q.leases[k]);
                assert(q.leases.take(k + 1) =~= q.leases.take(k).push(q.leases[k]));
                lemma_filter_push(q.leases.take(k), q.leases[k], keep);
                assert(q.leases.skip(k + 1) =~= q.leases.skip(k).skip(1));
                assert(before.skip(i as int + 1) =~= before.skip(i as int).skip(1));
            }
            if self.leases[i].task.job_id == job_id {
                let _ = self.leases.remove(i);
                proof {
                    assert(lease_views(self.leases@) =~= before.remove(i as int));
                    assert(before.remove(i as int).take(i as int) =~= before.take(i as int));
                    assert(before.remove(i as int).skip(i as int) =~= before.skip(i as int + 1));
                }
            } else {
                assert(before.take(i as int + 1) =~= before.take(i as int).push(before[i as int]));
                i = i + 1;
            }
            proof {
                k = k + 1;
            }
        }
        proof {
            assert(q.leases.take(k) =~= q.leases);
            assert(lease_views(self.leases@).take(i as int) =~= lease_views(self.leases@));
            assert(self@ =~= (QueueView { leases: q.leases.filter(keep), ..q }));
        }
    }
}

/// Adding the same attempt again changes nothing but the count of dropped duplicates.
pub proof fn law_an_attempt_is_admitted_once(q: QueueView, task: QueuedView)
    ensures
        ({
            let once = q.enqueued(task);
            let twice = once.enqueued(task);
            &&& twice.ready == once.ready
            &&& twice.leases == once.leases
            &&& twice.dead == once.dead
            &&& twice.seen == once.seen
            &&& twice.totals.enqueued_total == once.totals.enqueued_total
            &&& twice.totals.deduplicated_total == counted(once.totals.deduplicated_total)
        }),
{
}

/// The entry handed out has the highest priority of those the worker may have, and has waited
/// longest of those with that priority.
pub proof fn law_highest_priority_first(
    q: QueueView,
    job: Option<JobId>,
    queues: Seq<Seq<char>>,
    capabilities: Seq<Capability>,
    now: Timestamp,
    other: int,
)
    requires
        q.eligible(other, job, queues, capabilities, now),
        q.next(job, queues, capabilities, now) is Some,
    ensures
        ({
            let chosen = q.ready[q.next(job, queues, capabilities, now)->0];
            &&& q.eligible(q.next(job, queues, capabilities, now)->0, job, queues, capabilities, now)
            &&& chosen.priority.rank() >= q.ready[other].priority.rank()
            &&& chosen.priority.rank() == q.ready[other].priority.rank()
                ==> chosen.enqueued_at.nanos <= q.ready[other].enqueued_at.nanos
        }),
{
    let i = q.next(job, queues, capabilities, now)->0;
    assert(q.is_next(i, job, queues, capabilities, now));
}

/// Work is handed out whenever the worker may have any.
pub proof fn law_no_work_is_withheld(
    q: QueueView,
    job: Option<JobId>,
    queues: Seq<Seq<char>>,
    capabilities: Seq<Capability>,
    now: Timestamp,
    i: int,
)
    requires
        q.eligible(i, job, queues, capabilities, now),
    ensures
        q.next(job, queues, capabilities, now) is Some,
{
    lemma_best_exists(q, job, queues, capabilities, now, q.ready.len(), i);
}

/// Among the first `n` entries, where one is eligible there is one to hand out.
proof fn lemma_best_exists(
    q: QueueView,
    job: Option<JobId>,
    queues: Seq<Seq<char>>,
    capabilities: Seq<Capability>,
    now: Timestamp,
    n: nat,
    i: int,
)
    requires
        n <= q.ready.len(),
        i < n,
        q.eligible(i, job, queues, capabilities, now),
    ensures
        exists|b: int| #[trigger] best_among(q, job, queues, capabilities, now, n, b),
        n == q.ready.len() ==> q.next(job, queues, capabilities, now) is Some,
    decreases n,
{
    let m = (n - 1) as nat;
    if exists|j: int| j < m && #[trigger] q.eligible(j, job, queues, capabilities, now) {
        let j = choose|j: int| j < m && #[trigger] q.eligible(j, job, queues, capabilities, now);
        lemma_best_exists(q, job, queues, capabilities, now, m, j);
        let b = choose|b: int| #[trigger] best_among(q, job, queues, capabilities, now, m, b);
        if q.eligible(m as int, job, queues, capabilities, now) && !q.ready[b].beats(
            q.ready[m as int],
        ) {
            assert(best_among(q, job, queues, capabilities, now, n, m as int));
        } else {
            assert(best_among(q, job, queues, capabilities, now, n, b));
        }
    } else {
        assert(i == m);
        assert(best_among(q, job, queues, capabilities, now, n, m as int));
    }
    if n == q.ready.len() {
        let b = choose|b: int| #[trigger] best_among(q, job, queues, capabilities, now, n, b);
        assert(q.is_next(b, job, queues, capabilities, now));
    }
}

/// Whether the entry at `b` is the one to hand out of the first `n`.
spec fn best_among(
    q: QueueView,
    job: Option<JobId>,
    queues: Seq<Seq<char>>,
    capabilities: Seq<Capability>,
    now: Timestamp,
    n: nat,
    b: int,
) -> bool {
    &&& b < n
    &&& q.eligible(b, job, queues, capabilities, now)
    &&& forall|j: int|
        j < n && #[trigger] q.eligible(j, job, queues, capabilities, now) ==> !q.ready[j].beats(
            q.ready[b],
        ) && (j > b ==> q.ready[b].beats(q.ready[j]))
}

/// A task is on at most one live lease: granting one takes the entry out of the waiting ones,
/// so no other worker can be handed it while the claim stands.
pub proof fn law_a_leased_entry_is_not_waiting(
    q: QueueView,
    i: int,
    worker: Seq<char>,
    lease_id: LeaseId,
    now: Timestamp,
)
    requires
        q.wf(),
        0 <= i < q.ready.len(),
    ensures
        q.granted(i, worker, lease_id, now).ready.to_multiset() == q.ready.to_multiset().remove(
            q.ready[i],
        ),
        q.granted(i, worker, lease_id, now).ready.len() == q.ready.len() - 1,
        q.granted(i, worker, lease_id, now).leases.last().task == (QueuedView {
            attempt: (q.ready[i].attempt + 1) as u32,
            ..q.ready[i]
        }),
{
    broadcast use vstd::seq_lib::group_to_multiset_ensures;

    let last = q.ready.last();
    let rest = q.ready.drop_last();
    assert(q.ready =~= rest.push(last));
    if i == q.ready.len() - 1 {
        assert(q.ready.update(i, last).drop_last() =~= rest);
        assert(rest.push(last).to_multiset().remove(last) =~= rest.to_multiset());
    } else {
        assert(q.ready.update(i, last).drop_last() =~= rest.update(i, last));
        assert(rest.update(i, last).to_multiset() =~= rest.to_multiset().insert(last).remove(
            rest[i],
        ));
    }
}

/// Acknowledging succeeds exactly on a claim that stands and has not lapsed.
pub proof fn law_only_a_live_lease_can_be_acknowledged(q: QueueView, id: LeaseId, now: Timestamp)
    ensures
        q.acknowledged(id, now).1 is Ok <==> q.has_lease(id) && !q.lease(id).lapsed(now),
{
}

/// A claim is settled once: after it was acknowledged, rejected, or released, no claim of that
/// name stands, and settling it again fails.
pub proof fn law_a_lease_is_settled_once(
    q: QueueView,
    id: LeaseId,
    reason: Seq<char>,
    now: Timestamp,
    later: Timestamp,
)
    requires
        q.wf(),
    ensures
        q.acknowledged(id, now).0.acknowledged(id, later).1 == Err::<(), ErrorView>(
            QueueView::unknown_lease(id),
        ),
        q.rejected(id, reason, now).0.acknowledged(id, later).1 == Err::<(), ErrorView>(
            QueueView::unknown_lease(id),
        ),
        q.released(id, now).0.acknowledged(id, later).1 == Err::<(), ErrorView>(
            QueueView::unknown_lease(id),
        ),
{
    if q.has_lease(id) {
        lemma_settled(q, id);
        let s = q.settled(id);
        let a = q.acknowledged(id, now).0;
        let r = q.rejected(id, reason, now).0;
        let l = q.released(id, now).0;
        assert forall|i: int| !#[trigger] a.holds_at(id, i) by {
            assert(!s.holds_at(id, i));
        }
        assert forall|i: int| !#[trigger] r.holds_at(id, i) by {
            assert(!s.holds_at(id, i));
        }
        assert forall|i: int| !#[trigger] l.holds_at(id, i) by {
            assert(!s.holds_at(id, i));
        }
    }
}

/// Handing a task back untouched leaves it as it was before it was leased, available from then
/// on.
pub proof fn law_releasing_does_not_spend_an_attempt(
    q: QueueView,
    i: int,
    worker: Seq<char>,
    lease_id: LeaseId,
    now: Timestamp,
    later: Timestamp,
)
    requires
        q.wf(),
        0 <= i < q.ready.len(),
    ensures
        QueueView::handed_back(q.claim(i, worker, lease_id, now).task, later) == (QueuedView {
            available_at: later,
            ..q.ready[i]
        }),
{
    assert(q.ready[i].attempt < u32::MAX);
}

/// The sweep loses nothing: every claim that lapsed is back in the queue or parked, and every
/// other claim still stands.
pub proof fn law_the_sweep_loses_nothing(q: QueueView, now: Timestamp)
    ensures
        q.swept(now).ready.len() + q.swept(now).leases.len() + q.swept(now).dead.len()
            == q.ready.len() + q.leases.len() + q.dead.len(),
        forall|i: int|
            0 <= i < q.swept(now).leases.len() ==> !(#[trigger] q.swept(now).leases[i]).lapsed(now),
{
    broadcast use vstd::seq_lib::group_filter_ensures;

    lemma_split_by_lapse(q.leases, now);
    lemma_back_or_parked(entries_of(q.leases.filter(lapsed_at(now))), "lease expired"@, now);
    assert forall|i: int| 0 <= i < q.swept(now).leases.len() implies !(
    #[trigger] q.swept(now).leases[i]).lapsed(now) by {
        assert(good_at(now)(q.leases.filter(good_at(now))[i]));
    }
}

/// Every claim has lapsed or has not.
proof fn lemma_split_by_lapse(leases: Seq<LeaseView>, now: Timestamp)
    ensures
        leases.filter(lapsed_at(now)).len() + leases.filter(good_at(now)).len() == leases.len(),
    decreases leases.len(),
{
    reveal(Seq::filter);
    if leases.len() > 0 {
        lemma_split_by_lapse(leases.drop_last(), now);
    }
}

/// Every failed entry goes back or is parked.
proof fn lemma_back_or_parked(failed: Seq<QueuedView>, reason: Seq<char>, now: Timestamp)
    ensures
        sent_back(failed, now).len() + parked(failed, reason, now).len() == failed.len(),
    decreases failed.len(),
{
    if failed.len() > 0 {
        lemma_back_or_parked(failed.drop_last(), reason, now);
    }
}

/// Something that is done to a queue.
pub enum Step {
    /// A task is added.
    Enqueue {
        /// The task.
        task: QueuedView,
    },
    /// A worker asks for work.
    Dequeue {
        /// The worker.
        worker: Seq<char>,
        /// The job it works for, if it works for one only.
        job: Option<JobId>,
        /// The queues it pulls from.
        queues: Seq<Seq<char>>,
        /// The capabilities it offers.
        capabilities: Seq<Capability>,
        /// The name of the claim it is given.
        lease_id: LeaseId,
        /// When.
        now: Timestamp,
    },
    /// A claim is acknowledged.
    Acknowledge {
        /// The claim.
        lease_id: LeaseId,
        /// When.
        now: Timestamp,
    },
    /// A failure is reported.
    Reject {
        /// The claim.
        lease_id: LeaseId,
        /// Why it failed.
        reason: Seq<char>,
        /// When.
        now: Timestamp,
    },
    /// A claim is handed back untouched.
    Release {
        /// The claim.
        lease_id: LeaseId,
        /// When.
        now: Timestamp,
    },
    /// A claim is extended.
    Extend {
        /// The claim.
        lease_id: LeaseId,
        /// For how long.
        extension_ms: u128,
        /// When.
        now: Timestamp,
    },
    /// Lapsed claims are swept up.
    Sweep {
        /// When.
        now: Timestamp,
    },
}

impl QueueView {
    /// The queue after one step.
    pub open spec fn stepped(self, step: Step) -> QueueView {
        match step {
            Step::Enqueue { task } => self.enqueued(task),
            Step::Dequeue { worker, job, queues, capabilities, lease_id, now } => self.dequeued(
                worker,
                job,
                queues,
                capabilities,
                lease_id,
                now,
            ).0,
            Step::Acknowledge { lease_id, now } => self.acknowledged(lease_id, now).0,
            Step::Reject { lease_id, reason, now } => self.rejected(lease_id, reason, now).0,
            Step::Release { lease_id, now } => self.released(lease_id, now).0,
            Step::Extend { lease_id, extension_ms, now } => self.extended(
                lease_id,
                extension_ms,
                now,
            ).0,
            Step::Sweep { now } => self.swept(now),
        }
    }

    /// Whether the step grants no claim under a name that another one goes by.
    pub open spec fn names_freshly(self, step: Step) -> bool {
        step matches Step::Dequeue { lease_id, .. } ==> !self.has_lease(lease_id)
    }

    /// Whether the books balance: every task that was accepted waits, is leased, is parked, or
    /// was acknowledged.
    pub open spec fn balanced(self) -> bool {
        self.ready.len() + self.leases.len() + self.dead.len() + self.totals.acknowledged_total
            == self.totals.enqueued_total
    }
}

/// The queue after a run of steps.
pub open spec fn after_steps(q: QueueView, steps: Seq<Step>) -> QueueView
    decreases steps.len(),
{
    if steps.len() == 0 {
        q
    } else {
        after_steps(q, steps.drop_last()).stepped(steps.last())
    }
}

/// Whether every claim of a run is granted under a name that no other one goes by.
pub open spec fn freshly_named(q: QueueView, steps: Seq<Step>) -> bool
    decreases steps.len(),
{
    steps.len() > 0 ==> freshly_named(q, steps.drop_last()) && after_steps(
        q,
        steps.drop_last(),
    ).names_freshly(steps.last())
}

/// Nothing is dropped where nothing goes by that name.
proof fn lemma_nothing_renamed(leases: Seq<LeaseView>, id: LeaseId)
    requires
        forall|i: int| 0 <= i < leases.len() ==> (#[trigger] leases[i]).lease_id != id,
    ensures
        leases.filter(named_otherwise(id)) == leases,
    decreases leases.len(),
{
    reveal(Seq::filter);
    if leases.len() > 0 {
        lemma_nothing_renamed(leases.drop_last(), id);
        assert(leases.drop_last().push(leases.last()) =~= leases);
        assert(leases.last().lease_id != id);
    }
}

/// A step keeps the books balanced, as long as there are numbers left to count with and no
/// claim is granted under a name already in use.
pub proof fn law_every_step_keeps_the_balance(q: QueueView, step: Step)
    requires
        q.balanced(),
        q.names_freshly(step),
        q.totals.enqueued_total < u64::MAX,
    ensures
        q.stepped(step).balanced(),
{
    match step {
        Step::Dequeue { worker, job, queues, capabilities, lease_id, now } => {
            if let Some(i) = q.next(job, queues, capabilities, now) {
                assert(q.is_next(i, job, queues, capabilities, now));
                assert forall|k: int| 0 <= k < q.leases.len() implies (
                #[trigger] q.leases[k]).lease_id != lease_id by {
                    assert(!q.holds_at(lease_id, k));
                }
                lemma_nothing_renamed(q.leases, lease_id);
            }
        },
        Step::Acknowledge { lease_id, .. } => {
            if q.has_lease(lease_id) {
                assert(q.holds_at(lease_id, q.lease_at(lease_id)));
            }
        },
        Step::Reject { lease_id, .. } => {
            if q.has_lease(lease_id) {
                assert(q.holds_at(lease_id, q.lease_at(lease_id)));
            }
        },
        Step::Release { lease_id, .. } => {
            if q.has_lease(lease_id) {
                assert(q.holds_at(lease_id, q.lease_at(lease_id)));
            }
        },
        Step::Sweep { now } => {
            law_the_sweep_loses_nothing(q, now);
        },
        _ => {},
    }
}

/// The count of accepted tasks never goes down.
proof fn lemma_accepted_grows(q: QueueView, step: Step)
    ensures
        q.totals.enqueued_total <= q.stepped(step).totals.enqueued_total,
{
}

/// The books balance after any run of steps from a balanced queue.
proof fn lemma_steps_balance(q: QueueView, steps: Seq<Step>)
    requires
        q.balanced(),
        freshly_named(q, steps),
        after_steps(q, steps).totals.enqueued_total < u64::MAX,
    ensures
        after_steps(q, steps).balanced(),
    decreases steps.len(),
{
    if steps.len() > 0 {
        let before = after_steps(q, steps.drop_last());
        lemma_accepted_grows(before, steps.last());
        lemma_steps_balance(q, steps.drop_last());
        law_every_step_keeps_the_balance(before, steps.last());
    }
}

/// No accepted task is lost or counted twice: after any run of steps on a new queue, what the
/// queue still owes a worker, what is parked, and what was acknowledged add up to what was
/// accepted.
pub proof fn law_no_accepted_task_is_lost(steps: Seq<Step>, now: Timestamp)
    requires
        freshly_named(QueueView::empty(), steps),
        ({
            let q = after_steps(QueueView::empty(), steps);
            &&& q.totals.enqueued_total < u64::MAX
            &&& q.ready.len() <= usize::MAX
            &&& q.leases.len() <= usize::MAX
            &&& q.dead.len() <= usize::MAX
        }),
    ensures
        ({
            let stats = after_steps(QueueView::empty(), steps).stats(now);
            stats.owed() + stats.dead_lettered + stats.acknowledged_total == stats.enqueued_total
        }),
{
    let q = after_steps(QueueView::empty(), steps);
    lemma_steps_balance(QueueView::empty(), steps);
    lemma_filter_shorter(q.ready, visible_at(now));
}

/// A task out of attempts is parked and never handed out again; one with attempts left goes
/// back to the queue and is not parked.
pub proof fn law_the_budget_decides(
    q: QueueView,
    task: QueuedView,
    reason: Seq<char>,
    now: Timestamp,
)
    ensures
        task.attempt >= task.retry.max_attempts ==> q.failed(task, reason, now).ready == q.ready
            && q.failed(task, reason, now).dead == q.dead.push(
            DeadLetterView::of(task, reason, now),
        ),
        task.attempt < task.retry.max_attempts ==> q.failed(task, reason, now).ready
            == q.ready.push(task.backed_off(now)) && q.failed(task, reason, now).dead == q.dead,
{
}

/// Purging a job leaves no entry and no claim of it, and every other one as it was.
pub proof fn law_purging_drops_one_job_only(q: QueueView, job: JobId)
    ensures
        forall|i: int|
            0 <= i < q.purged(job).ready.len() ==> (#[trigger] q.purged(job).ready[i]).job_id
                != job,
        forall|i: int|
            0 <= i < q.purged(job).leases.len() ==> (
            #[trigger] q.purged(job).leases[i]).task.job_id != job,
        forall|task: QueuedView|
            task.job_id != job && #[trigger] q.ready.contains(task) ==> q.purged(
                job,
            ).ready.contains(task),
        forall|lease: LeaseView|
            lease.task.job_id != job && #[trigger] q.leases.contains(lease) ==> q.purged(
                job,
            ).leases.contains(lease),
{
    broadcast use vstd::seq_lib::group_filter_ensures;

    assert forall|i: int| 0 <= i < q.purged(job).ready.len() implies (
    #[trigger] q.purged(job).ready[i]).job_id != job by {
        assert(of_other_job(job)(q.ready.filter(of_other_job(job))[i]));
    }
    assert forall|i: int| 0 <= i < q.purged(job).leases.len() implies (
    #[trigger] q.purged(job).leases[i]).task.job_id != job by {
        assert(leased_by_other_job(job)(q.leases.filter(leased_by_other_job(job))[i]));
    }
    assert forall|task: QueuedView|
        task.job_id != job && #[trigger] q.ready.contains(task) implies q.purged(
        job,
    ).ready.contains(task) by {
        let k = q.ready.index_of(task);
        assert(of_other_job(job)(q.ready[k]));
        q.ready.lemma_filter_contains_rev(of_other_job(job), task);
    }
    assert forall|lease: LeaseView|
        lease.task.job_id != job && #[trigger] q.leases.contains(lease) implies q.purged(
        job,
    ).leases.contains(lease) by {
        assert(leased_by_other_job(job)(lease));
        q.leases.lemma_filter_contains_rev(leased_by_other_job(job), lease);
    }
}

/// A claim can be acknowledged, and the sweep leaves it in place, until it expires; from then on
/// it cannot be, and the sweep takes it.
proof fn lemma_claim_lasts(q: QueueView, id: LeaseId, i: int, t: Timestamp)
    requires
        q.wf(),
        q.holds_at(id, i),
    ensures
        t.nanos < q.leases[i].expires_at.nanos ==> q.acknowledged(id, t).1 is Ok && q.swept(
            t,
        ).has_lease(id) && q.swept(t).lease(id) == q.leases[i],
        t.nanos >= q.leases[i].expires_at.nanos ==> q.acknowledged(id, t).1 is Err && !q.swept(
            t,
        ).has_lease(id),
{
    lemma_lease_unique(q, id, i);
    lemma_filter_leases(q, good_at(t));
    let kept = q.leases.filter(good_at(t));
    let left = QueueView { leases: kept, ..q };
    let after = q.swept(t);
    let lease = q.leases[i];
    if t.nanos < lease.expires_at.nanos {
        assert(good_at(t)(lease));
        let k = choose|k: int| 0 <= k < kept.len() && kept[k] == lease;
        assert(kept.contains(lease));
        assert(left.holds_at(id, k));
        assert(after.holds_at(id, k));
        let found = after.lease_at(id);
        assert(after.holds_at(id, found));
        assert(left.holds_at(id, found));
        lemma_lease_unique(left, id, k);
        lemma_lease_unique(left, id, found);
    } else {
        assert forall|k: int| !#[trigger] after.holds_at(id, k) by {
            if after.holds_at(id, k) {
                assert(good_at(t)(kept[k]) && q.leases.contains(kept[k]));
                let at = q.leases.index_of(kept[k]);
                assert(q.holds_at(id, at));
                lemma_lease_unique(q, id, at);
            }
        }
    }
}

/// An extension is granted exactly on a claim that stands and has not expired, for a time that a
/// clock can count.
pub proof fn law_live_claims_can_be_extended(
    q: QueueView,
    id: LeaseId,
    extension_ms: u128,
    now: Timestamp,
)
    ensures
        q.extended(id, extension_ms, now).1 is Ok <==> q.has_lease(id) && now.nanos < q.lease(
            id,
        ).expires_at.nanos && extension_ms <= i64::MAX,
{
}

/// A claim that was extended by some time stands for just that time, counted from the
/// extension: before it is over the claim can be acknowledged and extended and the sweep leaves
/// it in place, and from then on it has lapsed. Nothing else changes.
pub proof fn law_an_extension_lasts_its_time(
    q: QueueView,
    id: LeaseId,
    extension_ms: u128,
    now: Timestamp,
    t: Timestamp,
)
    requires
        q.wf(),
        q.extended(id, extension_ms, now).1 is Ok,
        now.nanos + extension_ms * 1_000_000 <= i128::MAX,
    ensures
        ({
            let after = q.extended(id, extension_ms, now).0;
            let end = now.nanos + extension_ms * 1_000_000;
            &&& after.wf()
            &&& after.has_lease(id)
            &&& after.lease(id).task == q.lease(id).task
            &&& after.lease(id).worker == q.lease(id).worker
            &&& after.lease(id).granted_at == q.lease(id).granted_at
            &&& t.nanos < end ==> !after.lease(id).lapsed(t) && after.acknowledged(id, t).1 is Ok
                && after.extended(id, extension_ms, t).1 is Ok && after.swept(t).has_lease(id)
                && after.swept(t).lease(id) == after.lease(id)
            &&& t.nanos >= end ==> after.lease(id).lapsed(t) && after.acknowledged(id, t).1 is Err
                && after.extended(id, extension_ms, t).1 is Err && !after.swept(t).has_lease(id)
            &&& after.ready == q.ready
            &&& after.dead == q.dead
            &&& after.seen == q.seen
            &&& after.totals == q.totals
            &&& after.leases.len() == q.leases.len()
            &&& forall|i: int|
                0 <= i < q.leases.len() && q.leases[i].lease_id != id
                    ==> #[trigger] after.leases[i] == q.leases[i]
        }),
{
    let at = q.lease_at(id);
    assert(q.holds_at(id, at));
    let after = q.extended(id, extension_ms, now).0;
    assert forall|i: int| 0 <= i < after.leases.len() implies (
    #[trigger] after.leases[i]).active() by {
        assert(q.leases[i].active());
    }
    assert forall|i: int, j: int| 0 <= i < j < after.leases.len() implies (
    #[trigger] after.leases[i]).lease_id != (#[trigger] after.leases[j]).lease_id by {
        assert(q.leases[i].lease_id != q.leases[j].lease_id);
    }
    assert forall|i: int| 0 <= i < after.ready.len() implies (#[trigger] after.ready[i]).attempt
        < u32::MAX by {
        assert(q.ready[i].attempt < u32::MAX);
    }
    assert(after.holds_at(id, at));
    lemma_lease_unique(after, id, at);
    lemma_claim_lasts(after, id, at, t);
}

/// A claim that is handed out stands for the time that its entry asks for, counted from when it
/// was handed out: before it is over the claim can be acknowledged and the sweep leaves it in
/// place, and from then on it has lapsed.
pub proof fn law_a_claim_lasts_its_time(
    q: QueueView,
    i: int,
    worker: Seq<char>,
    lease_id: LeaseId,
    now: Timestamp,
    t: Timestamp,
)
    requires
        q.wf(),
        0 <= i < q.ready.len(),
        q.ready[i].lease_duration_ms <= i64::MAX,
        now.nanos + q.ready[i].lease_duration_ms * 1_000_000 <= i128::MAX,
    ensures
        ({
            let after = q.granted(i, worker, lease_id, now);
            let end = now.nanos + q.ready[i].lease_duration_ms * 1_000_000;
            &&& after.has_lease(lease_id)
            &&& after.lease(lease_id).task.task_id == q.ready[i].task_id
            &&& after.lease(lease_id).worker == worker
            &&& after.lease(lease_id).task.attempt == q.ready[i].attempt + 1
            &&& t.nanos < end ==> after.acknowledged(lease_id, t).1 is Ok && after.swept(
                t,
            ).has_lease(lease_id)
            &&& t.nanos >= end ==> after.acknowledged(lease_id, t).1 is Err && !after.swept(
                t,
            ).has_lease(lease_id)
        }),
{
    let after = q.granted(i, worker, lease_id, now);
    let kept = q.leases.filter(named_otherwise(lease_id));
    lemma_filter_leases(q, named_otherwise(lease_id));
    let left = QueueView { leases: kept, ..q };
    assert(q.ready[i].attempt < u32::MAX);
    assert forall|k: int| 0 <= k < after.ready.len() implies (#[trigger] after.ready[k]).attempt
        < u32::MAX by {
        assert(q.ready[k].attempt < u32::MAX);
        assert(q.ready[q.ready.len() - 1].attempt < u32::MAX);
    }
    assert forall|k: int| 0 <= k < after.leases.len() implies (
    #[trigger] after.leases[k]).active() by {
        if k < kept.len() {
            assert(left.leases[k].active());
        }
    }
    assert forall|j: int, k: int| 0 <= j < k < after.leases.len() implies (
    #[trigger] after.leases[j]).lease_id != (#[trigger] after.leases[k]).lease_id by {
        assert(named_otherwise(lease_id)(kept[j]));
        if k < kept.len() {
            assert(left.leases[j].lease_id != left.leases[k].lease_id);
        }
    }
    assert(after.wf());
    assert(after.holds_at(lease_id, kept.len() as int));
    lemma_lease_unique(after, lease_id, kept.len() as int);
    lemma_claim_lasts(after, lease_id, kept.len() as int, t);
}

/// Work is only handed to a worker that asked for its kind: the entry is visible, it is of the
/// job that the worker works for and of a queue that it pulls from, and the worker offers every
/// capability that the entry asks for.
pub proof fn law_only_suitable_work_is_handed_out(
    q: QueueView,
    worker: Seq<char>,
    job: Option<JobId>,
    queues: Seq<Seq<char>>,
    capabilities: Seq<Capability>,
    lease_id: LeaseId,
    now: Timestamp,
)
    requires
        q.wf(),
    ensures
        q.dequeued(worker, job, queues, capabilities, lease_id, now).1 matches Some(lease) ==> {
            &&& lease.lease_id == lease_id
            &&& lease.worker == worker
            &&& lease.granted_at == now
            &&& lease.state == LeaseState::Held
            &&& lease.task.available_at.nanos <= now.nanos
            &&& job matches Some(job) ==> lease.task.job_id == job
            &&& queues.len() > 0 ==> queues.contains(lease.task.queue)
            &&& capabilities.len() > 0 ==> forall|c: Capability| #[trigger]
                lease.task.required_capabilities.contains(c) ==> capabilities.contains(c)
            &&& lease.task.attempt > 0
            &&& q.ready.contains(
                QueuedView { attempt: (lease.task.attempt - 1) as u32, ..lease.task },
            )
        },
        q.dequeued(worker, job, queues, capabilities, lease_id, now).1 is None ==> q.dequeued(
            worker,
            job,
            queues,
            capabilities,
            lease_id,
            now,
        ).0 == q,
{
    if let Some(i) = q.next(job, queues, capabilities, now) {
        assert(q.is_next(i, job, queues, capabilities, now));
        let lease = q.claim(i, worker, lease_id, now);
        assert(q.ready[i].attempt < u32::MAX);
        assert(q.ready[i] == (QueuedView {
            attempt: (lease.task.attempt - 1) as u32,
            ..lease.task
        }));
        if capabilities.len() > 0 {
            assert forall|c: Capability| #[trigger]
                lease.task.required_capabilities.contains(c) implies capabilities.contains(c) by {
                let k = lease.task.required_capabilities.index_of(c);
                assert(capabilities.contains(q.ready[i].required_capabilities[k]));
            }
        }
    }
}

/// A worker that asks for nothing in particular is offered every entry from the time it is
/// available, and none before.
pub proof fn law_entries_wait_until_they_are_available(q: QueueView, i: int, now: Timestamp)
    requires
        0 <= i < q.ready.len(),
    ensures
        q.eligible(i, None, seq![], seq![], now) <==> q.ready[i].available_at.nanos <= now.nanos,
{
}

/// A task whose attempt failed with attempts left waits at the end of the queue, with its
/// backoff as the time during which nobody is offered it; a task out of attempts is parked with
/// the reason and is not in the queue.
pub proof fn law_a_failed_task_waits_its_backoff(
    q: QueueView,
    task: QueuedView,
    reason: Seq<char>,
    now: Timestamp,
    t: Timestamp,
)
    requires
        ({
            let wait = task.retry.backoff(task.attempt, now.subsecond() as u64);
            0 <= wait <= i64::MAX && now.nanos + wait * 1_000_000 <= i128::MAX
        }),
    ensures
        ({
            let after = q.failed(task, reason, now);
            let end = now.nanos + task.retry.backoff(task.attempt, now.subsecond() as u64)
                * 1_000_000;
            &&& task.attempt < task.retry.max_attempts ==> {
                let waiting = after.ready.last();
                &&& after.ready.len() == q.ready.len() + 1
                &&& waiting.task_id == task.task_id
                &&& waiting.job_id == task.job_id
                &&& waiting.payload == task.payload
                &&& waiting.attempt == task.attempt
                &&& waiting.priority == task.priority
                &&& waiting.enqueued_at == task.enqueued_at
                &&& after.eligible(q.ready.len() as int, None, seq![], seq![], t) <==> t.nanos
                    >= end
                &&& after.dead == q.dead
            }
            &&& task.attempt >= task.retry.max_attempts ==> {
                &&& after.ready == q.ready
                &&& after.dead.len() == q.dead.len() + 1
                &&& after.dead.last().task == task
                &&& after.dead.last().attempts == task.attempt
                &&& after.dead.last().last_error == reason
                &&& after.dead.last().at == now
            }
        }),
{
}

/// Replaying finds a parked task exactly where one of that name is parked; it is then waiting,
/// available at once and with its whole budget, and one letter fewer is parked.
pub proof fn law_a_replayed_task_starts_afresh(q: QueueView, task_id: TaskId, now: Timestamp)
    ensures
        q.replayed(task_id, now).1 <==> exists|i: int|
            0 <= i < q.dead.len() && (#[trigger] q.dead[i]).task.task_id == task_id,
        !q.replayed(task_id, now).1 ==> q.replayed(task_id, now).0 == q,
        q.replayed(task_id, now).1 ==> {
            let after = q.replayed(task_id, now).0;
            let back = after.ready.last();
            &&& after.ready.len() == q.ready.len() + 1
            &&& after.ready.drop_last() == q.ready
            &&& back.task_id == task_id
            &&& back.attempt == 0
            &&& back.available_at.nanos <= now.nanos
            &&& back.retry.max_attempts > 0 ==> back.retriable()
            &&& after.dead.len() == q.dead.len() - 1
            &&& after.leases == q.leases
            &&& after.seen == q.seen
        },
{
    if exists|i: int| 0 <= i < q.dead.len() && (#[trigger] q.dead[i]).task.task_id == task_id {
        let i = choose|i: int|
            0 <= i < q.dead.len() && (#[trigger] q.dead[i]).task.task_id == task_id;
        lemma_some_letter(q, task_id, i);
    }
    if q.replayed(task_id, now).1 {
        let i = choose|i: int| #[trigger] q.parked_at(task_id, i);
        assert(q.parked_at(task_id, i));
        assert(q.replayed(task_id, now).0.ready.drop_last() =~= q.ready);
    }
}

/// Where a task is parked there is a first letter about it.
proof fn lemma_some_letter(q: QueueView, task_id: TaskId, i: int)
    requires
        0 <= i < q.dead.len(),
        q.dead[i].task.task_id == task_id,
    ensures
        exists|j: int| #[trigger] q.parked_at(task_id, j),
    decreases i,
{
    if exists|j: int| 0 <= j < i && (#[trigger] q.dead[j]).task.task_id == task_id {
        let j = choose|j: int| 0 <= j < i && (#[trigger] q.dead[j]).task.task_id == task_id;
        lemma_some_letter(q, task_id, j);
    } else {
        assert(q.parked_at(task_id, i));
    }
}

/// A new attempt waits in the queue as it was handed in, behind everything that waited before.
pub proof fn law_new_work_is_accepted(q: QueueView, task: QueuedView)
    ensures
        !q.seen.contains(task.idempotency_key) ==> q.enqueued(task).ready.drop_last() == q.ready
            && q.enqueued(task).ready.last() == task && q.enqueued(task).ready.len()
            == q.ready.len() + 1,
        q.enqueued(task).seen.contains(task.idempotency_key),
        q.enqueued(task).leases == q.leases,
        q.enqueued(task).dead == q.dead,
{
    assert(q.ready.push(task).drop_last() =~= q.ready);
}

/// The state of a queue tells the entries that can be had now from those that wait, and counts
/// all the others.
pub proof fn law_the_state_counts_everything(q: QueueView, now: Timestamp)
    requires
        q.ready.len() <= usize::MAX,
        q.leases.len() <= usize::MAX,
        q.dead.len() <= usize::MAX,
    ensures
        q.stats(now).ready + q.stats(now).delayed == q.ready.len(),
        q.stats(now).leased == q.leases.len(),
        q.stats(now).dead_lettered == q.dead.len(),
        q.stats(now).ready > 0 <==> exists|i: int|
            0 <= i < q.ready.len() && (#[trigger] q.ready[i]).available_at.nanos <= now.nanos,
        q.stats(now).delayed > 0 <==> exists|i: int|
            0 <= i < q.ready.len() && (#[trigger] q.ready[i]).available_at.nanos > now.nanos,
{
    lemma_filter_shorter(q.ready, visible_at(now));
    lemma_visible(q.ready, now);
}

/// Some entries are visible exactly where one is, and all are where none is hidden.
proof fn lemma_visible(entries: Seq<QueuedView>, now: Timestamp)
    ensures
        entries.filter(visible_at(now)).len() > 0 <==> exists|i: int|
            0 <= i < entries.len() && (#[trigger] entries[i]).available_at.nanos <= now.nanos,
        entries.filter(visible_at(now)).len() < entries.len() <==> exists|i: int|
            0 <= i < entries.len() && (#[trigger] entries[i]).available_at.nanos > now.nanos,
    decreases entries.len(),
{
    reveal(Seq::filter);
    if entries.len() > 0 {
        let front = entries.drop_last();
        lemma_visible(front, now);
        lemma_filter_shorter(front, visible_at(now));
        let last = entries.len() - 1;
        assert(entries[last] == entries.last());
        assert forall|i: int| 0 <= i < front.len() implies #[trigger] front[i] == entries[i] by {}
        if exists|i: int| 0 <= i < front.len() && (#[trigger] front[i]).available_at.nanos <= now.nanos {
            let i = choose|i: int|
                0 <= i < front.len() && (#[trigger] front[i]).available_at.nanos <= now.nanos;
            assert(entries[i].available_at.nanos <= now.nanos);
        }
        if exists|i: int| 0 <= i < front.len() && (#[trigger] front[i]).available_at.nanos > now.nanos {
            let i = choose|i: int|
                0 <= i < front.len() && (#[trigger] front[i]).available_at.nanos > now.nanos;
            assert(entries[i].available_at.nanos > now.nanos);
        }
        if exists|i: int| 0 <= i < entries.len() && (#[trigger] entries[i]).available_at.nanos <= now.nanos {
            let i = choose|i: int|
                0 <= i < entries.len() && (#[trigger] entries[i]).available_at.nanos <= now.nanos;
            if i < last {
                assert(front[i].available_at.nanos <= now.nanos);
            }
        }
        if exists|i: int| 0 <= i < entries.len() && (#[trigger] entries[i]).available_at.nanos > now.nanos {
            let i = choose|i: int|
                0 <= i < entries.len() && (#[trigger] entries[i]).available_at.nanos > now.nanos;
            if i < last {
                assert(front[i].available_at.nanos > now.nanos);
            }
        }
    }
}

} // verus!
