//! Shared memory for agents.
//!
//! Hundreds of agents read and write the same job state concurrently, so the central
//! guarantee here is that **no write is silently lost**. Every record is versioned;
//! blind writes bump the version, and [`InMemoryStore::compare_and_swap`] fails loudly
//! with the current version attached when another agent got there first. Callers
//! either merge and retry or escalate — they are never allowed to be unaware.
//!
//! Memory is partitioned by namespace ([`crate::ns`]) rather than by one flat keyspace, so a
//! job's working memory, an agent's private scratch space, execution records, and
//! long-lived semantic memory have different lifetimes and different access rules.

use crate::clock::Timestamp;
use crate::error::{ErrorView, SwarmError};
use crate::ids::{AgentId, JobId, MemoryId};
use crate::json::{clone_json, json_content, JsonView};
use crate::table::Table;
use crate::text::{begins_with, comes_before, lemma_text_before_total, lemma_text_before_transitive,
    same_text, starts_with, text_before};
use vstd::prelude::*;

verus! {

/// Version used to mean "this key must not exist yet" in a compare-and-swap.
///
/// This is how a caller claims exclusive ownership of a key — the basis of the
/// execution records that keep duplicate task delivery from doing duplicate work.
pub const VERSION_ABSENT: u64 = 0;

/// The longest lifetime a record can be given, in nanoseconds.
pub const LONGEST_TTL_NANOS: u128 = 9_223_372_036_854_775_807_000_000;

/// A versioned record in shared memory.
#[derive(Debug)]
pub struct MemoryRecord {
    /// Record identity.
    pub id: MemoryId,
    /// Job the record belongs to, when it is job-scoped.
    pub job_id: Option<JobId>,
    /// Agent that owns the record, when it is agent-scoped.
    pub agent_id: Option<AgentId>,
    /// Namespace, see [`crate::ns`].
    pub namespace: String,
    /// Key within the namespace.
    pub key: String,
    /// The stored value.
    pub value: serde_json::Value,
    /// Monotonic version, incremented on every successful write.
    pub version: u64,
    /// First write.
    pub created_at: Timestamp,
    /// Most recent write.
    pub updated_at: Timestamp,
    /// When the record stops being visible.
    pub expires_at: Option<Timestamp>,
}

/// What a record holds.
#[verifier::ext_equal]
pub struct MemoryView {
    /// Record identity.
    pub id: MemoryId,
    /// Job the record belongs to.
    pub job_id: Option<JobId>,
    /// Agent that owns the record.
    pub agent_id: Option<AgentId>,
    /// Namespace.
    pub namespace: Seq<char>,
    /// Key within the namespace.
    pub key: Seq<char>,
    /// The stored value.
    pub value: JsonView,
    /// Version.
    pub version: u64,
    /// First write.
    pub created_at: Timestamp,
    /// Most recent write.
    pub updated_at: Timestamp,
    /// When the record stops being visible.
    pub expires_at: Option<Timestamp>,
}

impl View for MemoryRecord {
    type V = MemoryView;

    open spec fn view(&self) -> MemoryView {
        MemoryView {
            id: self.id,
            job_id: self.job_id,
            agent_id: self.agent_id,
            namespace: self.namespace@,
            key: self.key@,
            value: json_content(self.value),
            version: self.version,
            created_at: self.created_at,
            updated_at: self.updated_at,
            expires_at: self.expires_at,
        }
    }
}

impl MemoryView {
    /// Whether the record has passed its lifetime at `now`.
    pub open spec fn expired(self, now: Timestamp) -> bool {
        match self.expires_at {
            Some(expiry) => expiry.nanos <= now.nanos,
            None => false,
        }
    }
}

impl MemoryRecord {
    /// Whether the record has passed its TTL at `now`.
    pub fn is_expired(&self, now: Timestamp) -> (r: bool)
        ensures
            r == self@.expired(now),
    {
        match self.expires_at {
            Some(expiry) => expiry.nanos <= now.nanos,
            None => false,
        }
    }
}

impl Clone for MemoryRecord {
    fn clone(&self) -> (r: Self)
        ensures
            r@ == self@,
    {
        MemoryRecord {
            id: self.id,
            job_id: self.job_id,
            agent_id: self.agent_id,
            namespace: self.namespace.clone(),
            key: self.key.clone(),
            value: clone_json(&self.value),
            version: self.version,
            created_at: self.created_at,
            updated_at: self.updated_at,
            expires_at: self.expires_at,
        }
    }
}

/// A pending write.
#[derive(Debug)]
pub struct MemoryWrite {
    /// Target namespace.
    pub namespace: String,
    /// Target key.
    pub key: String,
    /// Value to store.
    pub value: serde_json::Value,
    /// Job scope, for cascade deletion and per-job listing.
    pub job_id: Option<JobId>,
    /// Agent scope.
    pub agent_id: Option<AgentId>,
    /// Who is writing, recorded in the audit trail.
    pub actor: String,
    /// Optional lifetime, in nanoseconds.
    pub ttl_nanos: Option<u128>,
}

/// What a pending write holds.
#[verifier::ext_equal]
pub struct WriteView {
    /// Target namespace.
    pub namespace: Seq<char>,
    /// Target key.
    pub key: Seq<char>,
    /// Value to store.
    pub value: JsonView,
    /// Job scope.
    pub job_id: Option<JobId>,
    /// Agent scope.
    pub agent_id: Option<AgentId>,
    /// Who is writing.
    pub actor: Seq<char>,
    /// Optional lifetime, in nanoseconds.
    pub ttl_nanos: Option<u128>,
}

impl View for MemoryWrite {
    type V = WriteView;

    open spec fn view(&self) -> WriteView {
        WriteView {
            namespace: self.namespace@,
            key: self.key@,
            value: json_content(self.value),
            job_id: self.job_id,
            agent_id: self.agent_id,
            actor: self.actor@,
            ttl_nanos: self.ttl_nanos,
        }
    }
}

impl WriteView {
    /// Where the write goes.
    pub open spec fn name(self) -> (Seq<char>, Seq<char>) {
        (self.namespace, self.key)
    }

    /// When a record written at `now` expires. A lifetime that is too long is none.
    pub open spec fn expiry(self, now: Timestamp) -> Option<Timestamp> {
        match self.ttl_nanos {
            Some(ttl) => if ttl <= LONGEST_TTL_NANOS {
                Some(now.later(ttl as nat))
            } else {
                None
            },
            None => None,
        }
    }

    /// A fresh record at version 1.
    pub open spec fn fresh(self, id: MemoryId, now: Timestamp) -> MemoryView {
        MemoryView {
            id,
            job_id: self.job_id,
            agent_id: self.agent_id,
            namespace: self.namespace,
            key: self.key,
            value: self.value,
            version: 1,
            created_at: now,
            updated_at: now,
            expires_at: self.expiry(now),
        }
    }

    /// The record after this write on top of an earlier one, one version up.
    pub open spec fn bumped(self, previous: MemoryView, now: Timestamp) -> MemoryView {
        MemoryView {
            id: previous.id,
            job_id: match self.job_id {
                Some(job_id) => Some(job_id),
                None => previous.job_id,
            },
            agent_id: match self.agent_id {
                Some(agent_id) => Some(agent_id),
                None => previous.agent_id,
            },
            namespace: previous.namespace,
            key: previous.key,
            value: self.value,
            version: (previous.version + 1) as u64,
            created_at: previous.created_at,
            updated_at: now,
            expires_at: match self.expiry(now) {
                Some(expiry) => Some(expiry),
                None => previous.expires_at,
            },
        }
    }
}

impl MemoryWrite {
    /// A write of `value` to `namespace`/`key` by `actor`.
    pub fn new(namespace: &str, key: &str, value: serde_json::Value, actor: &str) -> (r: Self)
        ensures
            r@ == (WriteView {
                namespace: namespace@,
                key: key@,
                value: json_content(value),
                job_id: None,
                agent_id: None,
                actor: actor@,
                ttl_nanos: None,
            }),
    {
        MemoryWrite {
            namespace: namespace.to_owned(),
            key: key.to_owned(),
            value,
            job_id: None,
            agent_id: None,
            actor: actor.to_owned(),
            ttl_nanos: None,
        }
    }

    /// Scope the record to a job.
    pub fn for_job(self, job_id: JobId) -> (r: Self)
        ensures
            r@ == (WriteView { job_id: Some(job_id), ..self@ }),
    {
        MemoryWrite { job_id: Some(job_id), ..self }
    }

    /// Scope the record to an agent.
    pub fn by_agent(self, agent_id: AgentId) -> (r: Self)
        ensures
            r@ == (WriteView { agent_id: Some(agent_id), ..self@ }),
    {
        MemoryWrite { agent_id: Some(agent_id), ..self }
    }

    /// Give the record a lifetime, in nanoseconds.
    pub fn expiring_in(self, ttl_nanos: u128) -> (r: Self)
        ensures
            r@ == (WriteView { ttl_nanos: Some(ttl_nanos), ..self@ }),
    {
        MemoryWrite { ttl_nanos: Some(ttl_nanos), ..self }
    }

    /// When a record written at `now` expires.
    fn expiry(&self, now: Timestamp) -> (r: Option<Timestamp>)
        ensures
            r == self@.expiry(now),
    {
        match self.ttl_nanos {
            Some(ttl) => if ttl <= LONGEST_TTL_NANOS {
                Some(now.plus_nanos(ttl as i128))
            } else {
                None
            },
            None => None,
        }
    }

    /// A fresh record at version 1.
    fn fresh(&self, id: MemoryId, now: Timestamp) -> (r: MemoryRecord)
        ensures
            r@ == self@.fresh(id, now),
    {
        MemoryRecord {
            id,
            job_id: self.job_id,
            agent_id: self.agent_id,
            namespace: self.namespace.clone(),
            key: self.key.clone(),
            value: clone_json(&self.value),
            version: 1,
            created_at: now,
            updated_at: now,
            expires_at: self.expiry(now),
        }
    }

    /// The record after this write on top of an earlier one, one version up.
    fn bumped(&self, previous: &MemoryRecord, now: Timestamp) -> (r: MemoryRecord)
        requires
            previous@.version < u64::MAX,
        ensures
            r@ == self@.bumped(previous@, now),
    {
        MemoryRecord {
            id: previous.id,
            job_id: match self.job_id {
                Some(job_id) => Some(job_id),
                None => previous.job_id,
            },
            agent_id: match self.agent_id {
                Some(agent_id) => Some(agent_id),
                None => previous.agent_id,
            },
            namespace: previous.namespace.clone(),
            key: previous.key.clone(),
            value: clone_json(&self.value),
            version: previous.version + 1,
            created_at: previous.created_at,
            updated_at: now,
            expires_at: match self.expiry(now) {
                Some(expiry) => Some(expiry),
                None => previous.expires_at,
            },
        }
    }
}

/// What happened to a record, for the audit history.
#[derive(Clone, Copy, Debug, PartialEq, Eq, Structural)]
pub enum MemoryOperation {
    /// First write of a key.
    Create,
    /// Unconditional overwrite.
    Put,
    /// Successful compare-and-swap.
    CompareAndSwap,
    /// Explicit removal.
    Delete,
    /// Removed by compaction after its TTL.
    Expire,
}

/// One entry of a record's change history.
#[derive(Debug)]
pub struct AuditEntry {
    /// Namespace of the record.
    pub namespace: String,
    /// Key of the record.
    pub key: String,
    /// Version produced by this operation.
    pub version: u64,
    /// What was done.
    pub operation: MemoryOperation,
    /// Who did it.
    pub actor: String,
    /// When.
    pub at: Timestamp,
}

/// What an entry of a record's history holds.
#[verifier::ext_equal]
pub struct AuditView {
    /// Namespace of the record.
    pub namespace: Seq<char>,
    /// Key of the record.
    pub key: Seq<char>,
    /// Version produced by this operation.
    pub version: u64,
    /// What was done.
    pub operation: MemoryOperation,
    /// Who did it.
    pub actor: Seq<char>,
    /// When.
    pub at: Timestamp,
}

impl View for AuditEntry {
    type V = AuditView;

    open spec fn view(&self) -> AuditView {
        AuditView {
            namespace: self.namespace@,
            key: self.key@,
            version: self.version,
            operation: self.operation,
            actor: self.actor@,
            at: self.at,
        }
    }
}

impl AuditView {
    /// The entry about an operation that left a record as it is.
    pub open spec fn of(
        record: MemoryView,
        operation: MemoryOperation,
        actor: Seq<char>,
    ) -> AuditView {
        AuditView {
            namespace: record.namespace,
            key: record.key,
            version: record.version,
            operation,
            actor,
            at: record.updated_at,
        }
    }
}

impl Clone for AuditEntry {
    fn clone(&self) -> (r: Self)
        ensures
            r@ == self@,
    {
        AuditEntry {
            namespace: self.namespace.clone(),
            key: self.key.clone(),
            version: self.version,
            operation: self.operation,
            actor: self.actor.clone(),
            at: self.at,
        }
    }
}

/// What the entries of a history hold.
pub open spec fn audit_views(log: Seq<AuditEntry>) -> Seq<AuditView> {
    Seq::new(log.len(), |i: int| log[i]@)
}

/// What the records of a list hold.
pub open spec fn memory_views(list: Seq<MemoryRecord>) -> Seq<MemoryView> {
    Seq::new(list.len(), |i: int| list[i]@)
}

/// Whether a list is ordered by key, each key once.
pub open spec fn by_key(list: Seq<MemoryView>) -> bool {
    forall|i: int, j: int|
        0 <= i < j < list.len() ==> text_before((#[trigger] list[i]).key, (#[trigger] list[j]).key)
}

/// What a record holds, if there is one.
pub open spec fn record_view(record: Option<MemoryRecord>) -> Option<MemoryView> {
    match record {
        Some(record) => Some(record@),
        None => None,
    }
}

/// What a write came to.
pub open spec fn record_outcome(r: Result<MemoryRecord, SwarmError>) -> Result<
    MemoryView,
    ErrorView,
> {
    match r {
        Ok(record) => Ok(record@),
        Err(error) => Err(error@),
    }
}

/// What a store holds, by namespace and key.
#[verifier::ext_equal]
pub struct StoreView {
    /// The records, those past their lifetime included until they are reclaimed.
    pub records: Map<(Seq<char>, Seq<char>), MemoryView>,
    /// The change history of every key that was ever written.
    pub history: Map<(Seq<char>, Seq<char>), Seq<AuditView>>,
}

impl StoreView {
    /// A store that holds nothing.
    pub open spec fn empty() -> StoreView {
        StoreView { records: Map::empty(), history: Map::empty() }
    }

    /// What holds of every store: a record stands under its own name, and versions count from
    /// one.
    pub open spec fn wf(self) -> bool {
        &&& self.records.dom().finite()
        &&& forall|name: (Seq<char>, Seq<char>)| #[trigger]
            self.records.contains_key(name) ==> {
                &&& self.records[name].namespace == name.0
                &&& self.records[name].key == name.1
                &&& self.records[name].version >= 1
            }
    }

    /// The record under a name, unless it is absent or past its lifetime.
    pub open spec fn live(self, name: (Seq<char>, Seq<char>), now: Timestamp) -> Option<
        MemoryView,
    > {
        if self.records.contains_key(name) && !self.records[name].expired(now) {
            Some(self.records[name])
        } else {
            None
        }
    }

    /// Whether the record under a name can take another version.
    pub open spec fn writable(self, name: (Seq<char>, Seq<char>)) -> bool {
        self.records.contains_key(name) ==> self.records[name].version < u64::MAX
    }

    /// The version a compare-and-swap must expect.
    pub open spec fn version(self, name: (Seq<char>, Seq<char>), now: Timestamp) -> u64 {
        match self.live(name, now) {
            Some(record) => record.version,
            None => VERSION_ABSENT,
        }
    }

    /// The history of a key.
    pub open spec fn log(self, name: (Seq<char>, Seq<char>)) -> Seq<AuditView> {
        if self.history.contains_key(name) {
            self.history[name]
        } else {
            seq![]
        }
    }

    /// The store with one more entry in the history of a record.
    pub open spec fn noted(
        self,
        record: MemoryView,
        operation: MemoryOperation,
        actor: Seq<char>,
    ) -> StoreView {
        let name = (record.namespace, record.key);
        StoreView {
            history: self.history.insert(
                name,
                self.log(name).push(AuditView::of(record, operation, actor)),
            ),
            ..self
        }
    }

    /// The store with a record in place, and the write on record.
    pub open spec fn stored(
        self,
        record: MemoryView,
        operation: MemoryOperation,
        actor: Seq<char>,
    ) -> StoreView {
        StoreView {
            records: self.records.insert((record.namespace, record.key), record),
            ..self
        }.noted(record, operation, actor)
    }

    /// The record a write leaves. A record past its lifetime is treated as absent: the writer
    /// starts a new lineage at version 1 rather than inheriting a stale version.
    pub open spec fn written(self, write: WriteView, id: MemoryId, now: Timestamp) -> MemoryView {
        match self.live(write.name(), now) {
            Some(previous) => write.bumped(previous, now),
            None => write.fresh(id, now),
        }
    }

    /// The store after an unconditional write.
    pub open spec fn after_put(self, write: WriteView, id: MemoryId, now: Timestamp) -> StoreView {
        let record = self.written(write, id, now);
        self.stored(
            record,
            if record.version == 1 {
                MemoryOperation::Create
            } else {
                MemoryOperation::Put
            },
            write.actor,
        )
    }

    /// What a compare-and-swap does.
    pub open spec fn swapped(
        self,
        write: WriteView,
        expected: u64,
        id: MemoryId,
        now: Timestamp,
    ) -> (StoreView, Result<MemoryView, ErrorView>) {
        let actual = self.version(write.name(), now);
        if actual != expected {
            (
                self,
                Err(
                    ErrorView::VersionConflict {
                        namespace: write.namespace,
                        key: write.key,
                        expected,
                        actual,
                    },
                ),
            )
        } else {
            let record = self.written(write, id, now);
            let operation = if self.records.contains_key(write.name()) {
                MemoryOperation::CompareAndSwap
            } else {
                MemoryOperation::Create
            };
            (self.stored(record, operation, write.actor), Ok(record))
        }
    }

    /// What claiming a key does: it is written exactly where it is absent.
    pub open spec fn claimed(self, write: WriteView, id: MemoryId, now: Timestamp) -> (
        StoreView,
        Option<MemoryView>,
    ) {
        match self.swapped(write, VERSION_ABSENT, id, now) {
            (after, Ok(record)) => (after, Some(record)),
            (after, Err(_)) => (after, None),
        }
    }

    /// The store without the record under a name, and the removal on record.
    pub open spec fn deleted(self, name: (Seq<char>, Seq<char>)) -> StoreView {
        if self.records.contains_key(name) {
            StoreView { records: self.records.remove(name), ..self }.noted(
                self.records[name],
                MemoryOperation::Delete,
                "unknown"@,
            )
        } else {
            self
        }
    }

    /// Whether a record is listed under a namespace and a prefix.
    pub open spec fn listed(
        self,
        record: MemoryView,
        namespace: Seq<char>,
        prefix: Seq<char>,
        now: Timestamp,
    ) -> bool {
        &&& self.live((namespace, record.key), now) == Some(record)
        &&& begins_with(record.key, prefix)
    }

    /// The live records under a namespace and a prefix.
    pub open spec fn listing(
        self,
        namespace: Seq<char>,
        prefix: Seq<char>,
        now: Timestamp,
    ) -> Set<MemoryView> {
        Set::new(|record: MemoryView| self.listed(record, namespace, prefix, now))
    }

    /// The names of the records past their lifetime.
    pub open spec fn overdue(self, now: Timestamp) -> Set<(Seq<char>, Seq<char>)> {
        Set::new(
            |name: (Seq<char>, Seq<char>)|
                self.records.contains_key(name) && self.records[name].expired(now),
        )
    }

    /// The store without some records, and their expiry on record.
    pub open spec fn reclaimed(self, names: Set<(Seq<char>, Seq<char>)>) -> StoreView {
        StoreView {
            records: self.records.remove_keys(names),
            history: Map::new(
                |name: (Seq<char>, Seq<char>)|
                    self.history.contains_key(name) || names.contains(name),
                |name: (Seq<char>, Seq<char>)|
                    if names.contains(name) {
                        self.log(name).push(
                            AuditView::of(
                                self.records[name],
                                MemoryOperation::Expire,
                                "system"@,
                            ),
                        )
                    } else {
                        self.log(name)
                    },
            ),
        }
    }

    /// The names of the records that belong to a job.
    pub open spec fn owned(self, job: JobId) -> Set<(Seq<char>, Seq<char>)> {
        Set::new(
            |name: (Seq<char>, Seq<char>)|
                self.records.contains_key(name) && self.records[name].job_id == Some(job),
        )
    }
}

/// What a name reads as.
spec fn name_view(name: (String, String)) -> (Seq<char>, Seq<char>) {
    (name.0@, name.1@)
}

/// What some names read as.
spec fn name_views(names: Seq<(String, String)>) -> Seq<(Seq<char>, Seq<char>)> {
    Seq::new(names.len(), |i: int| name_view(names[i]))
}

/// Whether a name is that of one of the first `n` rows.
spec fn found_before<T>(table: Table<T>, name: (Seq<char>, Seq<char>), n: int) -> bool {
    exists|j: int| 0 <= j < n && j < table.size() && #[trigger] table.name(j) == name
}

/// A name found among the first rows is found among more of them.
proof fn lemma_found_later<T>(table: Table<T>, name: (Seq<char>, Seq<char>), n: int)
    requires
        found_before(table, name, n),
    ensures
        found_before(table, name, n + 1),
{
    let j = choose|j: int| 0 <= j < n && j < table.size() && #[trigger] table.name(j) == name;
    assert(table.name(j) == name);
}

/// Put a record in its place in a list that is ordered by key.
fn insert_by_key(list: &mut Vec<MemoryRecord>, record: MemoryRecord) -> (at: usize)
    requires
        forall|a: int, b: int|
            0 <= a < b < old(list)@.len() ==> text_before(
                (#[trigger] old(list)@[a])@.key,
                (#[trigger] old(list)@[b])@.key,
            ),
        forall|a: int|
            0 <= a < old(list)@.len() ==> (#[trigger] old(list)@[a])@.key != record@.key,
    ensures
        forall|a: int, b: int|
            0 <= a < b < final(list)@.len() ==> text_before(
                (#[trigger] final(list)@[a])@.key,
                (#[trigger] final(list)@[b])@.key,
            ),
        at <= old(list)@.len(),
        memory_views(final(list)@) == memory_views(old(list)@).insert(at as int, record@),
{
    let ghost before = list@;
    let mut at: usize = 0;
    while at < list.len() && comes_before(list[at].key.as_str(), record.key.as_str())
        invariant
            at <= list@.len(),
            list@ == before,
            forall|a: int|
                0 <= a < at ==> text_before((#[trigger] before[a])@.key, record@.key),
        ensures
            at <= list@.len(),
            at < list@.len() ==> !text_before(before[at as int]@.key, record@.key),
            forall|a: int|
                0 <= a < at ==> text_before((#[trigger] before[a])@.key, record@.key),
        decreases list@.len() - at,
    {
        at = at + 1;
    }
    proof {
        assert forall|b: int| at <= b < before.len() implies text_before(
            record@.key,
            (#[trigger] before[b])@.key,
        ) by {
            lemma_text_before_total(before[at as int]@.key, record@.key);
            if b > at {
                lemma_text_before_transitive(
                    record@.key,
                    before[at as int]@.key,
                    before[b]@.key,
                );
            }
        }
    }
    list.insert(at, record);
    assert(memory_views(list@) =~= memory_views(before).insert(at as int, record@));
    at
}

/// A versioned key/value store, shared by every agent, that keeps everything in process
/// memory.
pub struct InMemoryStore {
    records: Table<MemoryRecord>,
    history: Table<Vec<AuditEntry>>,
}

impl View for InMemoryStore {
    type V = StoreView;

    closed spec fn view(&self) -> StoreView {
        StoreView {
            records: self.records@.map_values(|record: MemoryRecord| record@),
            history: self.history@.map_values(|log: Vec<AuditEntry>| audit_views(log@)),
        }
    }
}

impl Default for InMemoryStore {
    fn default() -> (r: Self)
        ensures
            r.wf(),
            r@ == StoreView::empty(),
    {
        InMemoryStore::new()
    }
}

impl InMemoryStore {
    /// What holds of every store.
    pub closed spec fn wf(&self) -> bool {
        self.records.wf() && self.history.wf() && self@.wf()
    }

    /// A well-formed store holds well-formed records.
    pub proof fn lemma_wf(&self)
        requires
            self.wf(),
        ensures
            self@.wf(),
    {
    }

    /// An empty store.
    pub fn new() -> (r: Self)
        ensures
            r.wf(),
            r@ == StoreView::empty(),
    {
        let r = InMemoryStore { records: Table::new(), history: Table::new() };
        assert(r@.records =~= StoreView::empty().records);
        assert(r@.history =~= StoreView::empty().history);
        assert(r@.records.dom() =~= Set::empty());
        r
    }

    /// Number of records, including expired ones not yet compacted.
    pub fn len(&self) -> (r: usize)
        ensures
            r == self@.records.dom().len(),
    {
        assert(self@.records.dom() =~= self.records@.dom());
        self.records.len()
    }

    /// Whether the store holds nothing.
    pub fn is_empty(&self) -> (r: bool)
        requires
            self.wf(),
        ensures
            r == (self@.records =~= Map::empty()),
    {
        let r = self.len() == 0;
        proof {
            let dom = self@.records.dom();
            if r {
                assert(dom =~= Set::empty());
                assert(self@.records =~= Map::empty());
            } else if self@.records =~= Map::empty() {
                assert(dom =~= Set::empty());
            }
        }
        r
    }

    /// Add an entry to the history of a record.
    fn note(&mut self, record: &MemoryRecord, operation: MemoryOperation, actor: &str)
        requires
            old(self).wf(),
        ensures
            final(self).wf(),
            final(self)@ == old(self)@.noted(record@, operation, actor@),
    {
        let ghost before = *self;
        let ghost name = (record@.namespace, record@.key);
        let mut log: Vec<AuditEntry> = match self.history.remove(
            record.namespace.as_str(),
            record.key.as_str(),
        ) {
            Some(log) => log,
            None => Vec::new(),
        };
        assert(audit_views(log@) =~= before@.log(name));
        let ghost earlier = log@;
        log.push(
            AuditEntry {
                namespace: record.namespace.clone(),
                key: record.key.clone(),
                version: record.version,
                operation,
                actor: actor.to_owned(),
                at: record.updated_at,
            },
        );
        assert(audit_views(log@) =~= audit_views(earlier).push(
            AuditView::of(record@, operation, actor@),
        ));
        self.history.put(record.namespace.as_str(), record.key.as_str(), log);
        proof {
            assert(self@.records == before@.records);
            assert(self@.history =~= before@.noted(record@, operation, actor@).history);
        }
    }

    /// Put a record in place and note the write.
    fn store(&mut self, record: MemoryRecord, operation: MemoryOperation, actor: &str) -> (r:
        MemoryRecord)
        requires
            old(self).wf(),
            record@.version >= 1,
        ensures
            final(self).wf(),
            final(self)@ == old(self)@.stored(record@, operation, actor@),
            r@ == record@,
    {
        let ghost before = *self;
        let kept = record.clone();
        let ghost name = (record@.namespace, record@.key);
        self.records.put(record.namespace.as_str(), record.key.as_str(), kept);
        proof {
            assert(self@.history =~= before@.history);
            assert(self@.records =~= before@.records.insert(name, record@));
        }
        self.note(&record, operation, actor);
        record
    }

    /// Read a record, or `None` if it is absent or expired. The clock decides which.
    pub fn get(&self, namespace: &str, key: &str) -> (r: Result<Option<MemoryRecord>, SwarmError>)
        requires
            self.wf(),
        ensures
            r matches Ok(record) && exists|now: Timestamp|
                record_view(record) == #[trigger] self@.live((namespace@, key@), now),
    {
        let now = Timestamp::now();
        Ok(self.get_at(namespace, key, now))
    }

    /// Read a record, or `None` if it is absent or has expired at `now`.
    pub fn get_at(&self, namespace: &str, key: &str, now: Timestamp) -> (r: Option<MemoryRecord>)
        requires
            self.wf(),
        ensures
            record_view(r) == self@.live((namespace@, key@), now),
    {
        match self.records.get(namespace, key) {
            Some(record) => if record.is_expired(now) {
                None
            } else {
                Some(record.clone())
            },
            None => None,
        }
    }

    /// Write unconditionally, bumping the version.
    pub fn put(&mut self, write: MemoryWrite) -> (r: Result<MemoryRecord, SwarmError>)
        requires
            old(self).wf(),
            old(self)@.writable(write@.name()),
        ensures
            final(self).wf(),
            r matches Ok(record) && exists|id: MemoryId, now: Timestamp|
                {
                    &&& record@ == #[trigger] old(self)@.written(write@, id, now)
                    &&& final(self)@ == old(self)@.after_put(write@, id, now)
                },
    {
        let now = Timestamp::now();
        let id = MemoryId::new();
        Ok(self.put_at(write, id, now))
    }

    /// Write unconditionally at `now`; a new record goes by the name `id`.
    pub fn put_at(&mut self, write: MemoryWrite, id: MemoryId, now: Timestamp) -> (r: MemoryRecord)
        requires
            old(self).wf(),
            old(self)@.writable(write@.name()),
        ensures
            final(self).wf(),
            r@ == old(self)@.written(write@, id, now),
            final(self)@ == old(self)@.after_put(write@, id, now),
    {
        let record = match self.records.get(write.namespace.as_str(), write.key.as_str()) {
            Some(previous) => if previous.is_expired(now) {
                write.fresh(id, now)
            } else {
                write.bumped(previous, now)
            },
            None => write.fresh(id, now),
        };
        let operation = if record.version == 1 {
            MemoryOperation::Create
        } else {
            MemoryOperation::Put
        };
        self.store(record, operation, write.actor.as_str())
    }

    /// Write only if the stored version is exactly `expected_version`.
    ///
    /// Pass [`VERSION_ABSENT`] to require that the key does not exist yet.
    pub fn compare_and_swap(&mut self, write: MemoryWrite, expected_version: u64) -> (r: Result<
        MemoryRecord,
        SwarmError,
    >)
        requires
            old(self).wf(),
            old(self)@.writable(write@.name()),
        ensures
            final(self).wf(),
            exists|id: MemoryId, now: Timestamp|
                (final(self)@, record_outcome(r)) == #[trigger] old(self)@.swapped(
                    write@,
                    expected_version,
                    id,
                    now,
                ),
    {
        let now = Timestamp::now();
        let id = MemoryId::new();
        self.compare_and_swap_at(write, expected_version, id, now)
    }

    /// Write at `now` only if the version is exactly `expected_version`; a new record goes by
    /// the name `id`.
    pub fn compare_and_swap_at(
        &mut self,
        write: MemoryWrite,
        expected_version: u64,
        id: MemoryId,
        now: Timestamp,
    ) -> (r: Result<MemoryRecord, SwarmError>)
        requires
            old(self).wf(),
            old(self)@.writable(write@.name()),
        ensures
            final(self).wf(),
            (final(self)@, record_outcome(r)) == old(self)@.swapped(
                write@,
                expected_version,
                id,
                now,
            ),
    {
        let ghost before = self@;
        assert(before.wf());
        let (record, operation) = match self.records.get(
            write.namespace.as_str(),
            write.key.as_str(),
        ) {
            Some(previous) => {
                assert(before.records.contains_key(write@.name()));
                let current_version: u64 = if previous.is_expired(now) {
                    VERSION_ABSENT
                } else {
                    previous.version
                };
                if current_version != expected_version {
                    return Err(
                        SwarmError::VersionConflict {
                            namespace: write.namespace,
                            key: write.key,
                            expected: expected_version,
                            actual: current_version,
                        },
                    );
                }
                let record = if current_version == VERSION_ABSENT {
                    write.fresh(id, now)
                } else {
                    write.bumped(previous, now)
                };
                (record, MemoryOperation::CompareAndSwap)
            },
            None => {
                if expected_version != VERSION_ABSENT {
                    return Err(
                        SwarmError::VersionConflict {
                            namespace: write.namespace,
                            key: write.key,
                            expected: expected_version,
                            actual: VERSION_ABSENT,
                        },
                    );
                }
                (write.fresh(id, now), MemoryOperation::Create)
            },
        };
        Ok(self.store(record, operation, write.actor.as_str()))
    }

    /// Claim a key that must not already exist.
    ///
    /// Returns `Ok(None)` when another writer already holds it — the caller should
    /// treat that as "someone else is doing or has done this work".
    pub fn claim(&mut self, write: MemoryWrite) -> (r: Result<Option<MemoryRecord>, SwarmError>)
        requires
            old(self).wf(),
            old(self)@.writable(write@.name()),
        ensures
            final(self).wf(),
            r matches Ok(record) && exists|id: MemoryId, now: Timestamp|
                (final(self)@, record_view(record)) == #[trigger] old(self)@.claimed(
                    write@,
                    id,
                    now,
                ),
    {
        let now = Timestamp::now();
        let id = MemoryId::new();
        Ok(self.claim_at(write, id, now))
    }

    /// Claim at `now` a key that must not already exist.
    pub fn claim_at(&mut self, write: MemoryWrite, id: MemoryId, now: Timestamp) -> (r: Option<
        MemoryRecord,
    >)
        requires
            old(self).wf(),
            old(self)@.writable(write@.name()),
        ensures
            final(self).wf(),
            (final(self)@, record_view(r)) == old(self)@.claimed(write@, id, now),
    {
        match self.compare_and_swap_at(write, VERSION_ABSENT, id, now) {
            Ok(record) => Some(record),
            Err(_) => None,
        }
    }

    /// Whether the record under a name can take another version.
    pub fn is_writable(&self, namespace: &str, key: &str) -> (r: bool)
        requires
            self.wf(),
        ensures
            r == self@.writable((namespace@, key@)),
    {
        match self.records.get(namespace, key) {
            Some(record) => record.version < u64::MAX,
            None => true,
        }
    }

    /// Remove a record. Returns whether it existed.
    pub fn delete(&mut self, namespace: &str, key: &str) -> (r: Result<bool, SwarmError>)
        requires
            old(self).wf(),
        ensures
            final(self).wf(),
            r matches Ok(existed) && existed == old(self)@.records.contains_key(
                (namespace@, key@),
            ),
            final(self)@ == old(self)@.deleted((namespace@, key@)),
    {
        let ghost before = *self;
        let ghost name = (namespace@, key@);
        match self.records.remove(namespace, key) {
            Some(record) => {
                proof {
                    assert(self@.history =~= before@.history);
                    assert(self@.records =~= before@.records.remove(name));
                    assert(before@.records.contains_key(name));
                }
                self.note(&record, MemoryOperation::Delete, "unknown");
                Ok(true)
            },
            None => {
                assert(self.records@ =~= before.records@);
                assert(self@ =~= before@);
                Ok(false)
            },
        }
    }

    /// Full change history for a key.
    pub fn audit(&self, namespace: &str, key: &str) -> (r: Result<Vec<AuditEntry>, SwarmError>)
        requires
            self.wf(),
        ensures
            r matches Ok(log) && audit_views(log@) == self@.log((namespace@, key@)),
    {
        let mut log: Vec<AuditEntry> = Vec::new();
        match self.history.get(namespace, key) {
            Some(entries) => {
                for i in 0..entries.len()
                    invariant
                        log@.len() == i,
                        forall|k: int| 0 <= k < i ==> (#[trigger] log@[k])@ == entries@[k]@,
                {
                    log.push(entries[i].clone());
                }
                assert(audit_views(log@) =~= audit_views(entries@));
            },
            None => {
                assert(audit_views(log@) =~= seq![]);
            },
        }
        Ok(log)
    }

    /// List live records in `namespace` whose key starts with `prefix`, by key.
    pub fn list(&self, namespace: &str, prefix: &str) -> (r: Result<Vec<MemoryRecord>, SwarmError>)
        requires
            self.wf(),
        ensures
            r matches Ok(list) && by_key(memory_views(list@)) && exists|now: Timestamp|
                memory_views(list@).to_set() == #[trigger] self@.listing(
                    namespace@,
                    prefix@,
                    now,
                ),
    {
        let now = Timestamp::now();
        Ok(self.list_at(namespace, prefix, now))
    }

    /// List the records in `namespace` that are live at `now` and whose key starts with
    /// `prefix`, by key.
    pub fn list_at(&self, namespace: &str, prefix: &str, now: Timestamp) -> (r: Vec<MemoryRecord>)
        requires
            self.wf(),
        ensures
            by_key(memory_views(r@)),
            memory_views(r@).to_set() == self@.listing(namespace@, prefix@, now),
    {
        let ghost g = self@;
        let mut list: Vec<MemoryRecord> = Vec::new();
        proof {
            self.records.lemma_wf();
        }
        let rows: usize = self.records.count();
        for i in 0..rows
            invariant
                rows == self.records.size(),
                self.wf(),
                g == self@,
                g.wf(),
                forall|a: int, b: int|
                    0 <= a < b < list@.len() ==> text_before(
                        (#[trigger] list@[a])@.key,
                        (#[trigger] list@[b])@.key,
                    ),
                forall|a: int|
                    0 <= a < list@.len() ==> g.listed(
                        (#[trigger] list@[a])@,
                        namespace@,
                        prefix@,
                        now,
                    ) && found_before(self.records, (namespace@, list@[a]@.key), i as int),
                forall|j: int|
                    0 <= j < i && g.listed(
                        g.records[#[trigger] self.records.name(j)],
                        namespace@,
                        prefix@,
                        now,
                    ) && self.records.name(j).0 == namespace@ ==> memory_views(list@).contains(
                        g.records[self.records.name(j)],
                    ),
        {
            let record = self.records.row(i);
            let ghost name = self.records.name(i as int);
            proof {
                assert(g.records.contains_key(name));
                assert(record@ == g.records[name]);
            }
            if same_text(record.namespace.as_str(), namespace) && starts_with(
                record.key.as_str(),
                prefix,
            ) && !record.is_expired(now) {
                let ghost before = list@;
                assert(g.listed(record@, namespace@, prefix@, now));
                proof {
                    self.records.lemma_wf();
                    assert forall|a: int| 0 <= a < before.len() implies (#[trigger] before[a])@.key
                        != record@.key by {
                        let other = (namespace@, before[a]@.key);
                        assert(found_before(self.records, other, i as int));
                    }
                }
                let at: usize = insert_by_key(&mut list, record.clone());
                proof {
                    let kept = memory_views(before);
                    let grown = memory_views(list@);
                    kept.insert_ensures(at as int, record@);
                    assert forall|a: int| 0 <= a < list@.len() implies g.listed(
                        (#[trigger] list@[a])@,
                        namespace@,
                        prefix@,
                        now,
                    ) && found_before(
                        self.records,
                        (namespace@, list@[a]@.key),
                        (i + 1) as int,
                    ) by {
                        assert(list@[a]@ == grown[a]);
                        if a < at {
                            assert(grown[a] == kept[a]);
                            assert(before[a]@ == kept[a]);
                            lemma_found_later(self.records, (namespace@, kept[a].key), i as int);
                        } else if a == at {
                            assert(self.records.name(i as int) == (namespace@, record@.key));
                        } else {
                            assert(grown[a] == kept[a - 1]);
                            assert(before[a - 1]@ == kept[a - 1]);
                            lemma_found_later(
                                self.records,
                                (namespace@, kept[a - 1].key),
                                i as int,
                            );
                        }
                    }
                    assert forall|j: int|
                        0 <= j < i + 1 && g.listed(
                            g.records[#[trigger] self.records.name(j)],
                            namespace@,
                            prefix@,
                            now,
                        ) && self.records.name(j).0 == namespace@ implies grown.contains(
                        g.records[self.records.name(j)],
                    ) by {
                        if j == i {
                            assert(grown[at as int] == record@);
                        } else {
                            let x = g.records[self.records.name(j)];
                            assert(kept.contains(x));
                            let q = kept.index_of(x);
                            assert(kept[q] == x);
                            assert(grown[if q < at { q } else { q + 1 }] == x);
                        }
                    }
                }
            } else {
                proof {
                    assert(!(g.listed(record@, namespace@, prefix@, now) && name.0 == namespace@));
                    assert forall|a: int| 0 <= a < list@.len() implies found_before(
                        self.records,
                        (namespace@, (#[trigger] list@[a])@.key),
                        (i + 1) as int,
                    ) by {
                        lemma_found_later(self.records, (namespace@, list@[a]@.key), i as int);
                    }
                }
            }
        }
        proof {
            let shown = memory_views(list@);
            assert forall|i: int, j: int| 0 <= i < j < shown.len() implies text_before(
                (#[trigger] shown[i]).key,
                (#[trigger] shown[j]).key,
            ) by {
                assert(shown[i] == list@[i]@);
                assert(shown[j] == list@[j]@);
            }
            assert forall|record: MemoryView| #[trigger] shown.contains(record) <==> g.listed(
                record,
                namespace@,
                prefix@,
                now,
            ) by {
                if shown.contains(record) {
                    let a = shown.index_of(record);
                    assert(list@[a]@ == record);
                }
                if g.listed(record, namespace@, prefix@, now) {
                    let name = (namespace@, record.key);
                    self.records.lemma_wf();
                    assert(self.records@.contains_key(name));
                    let j = choose|j: int|
                        0 <= j < self.records.size() && #[trigger] self.records.name(j) == name;
                    assert(g.records[self.records.name(j)] == record);
                }
            }
            assert(shown.to_set() =~= g.listing(namespace@, prefix@, now));
        }
        list
    }

    /// Drop expired records. Returns how many were reclaimed.
    pub fn compact(&mut self) -> (r: Result<usize, SwarmError>)
        requires
            old(self).wf(),
        ensures
            final(self).wf(),
            r matches Ok(reclaimed) && exists|now: Timestamp|
                {
                    &&& reclaimed == (#[trigger] old(self)@.overdue(now)).len()
                    &&& final(self)@ == old(self)@.reclaimed(old(self)@.overdue(now))
                },
    {
        let now = Timestamp::now();
        Ok(self.compact_at(now))
    }

    /// Drop the records that have expired at `now`. Returns how many were reclaimed.
    pub fn compact_at(&mut self, now: Timestamp) -> (r: usize)
        requires
            old(self).wf(),
        ensures
            final(self).wf(),
            r == old(self)@.overdue(now).len(),
            final(self)@ == old(self)@.reclaimed(old(self)@.overdue(now)),
    {
        let ghost g = self@;
        let mut names: Vec<(String, String)> = Vec::new();
        proof {
            self.records.lemma_wf();
        }
        let rows: usize = self.records.count();
        for i in 0..rows
            invariant
                rows == self.records.size(),
                self.wf(),
                *self == *old(self),
                g == self@,
                forall|a: int|
                    0 <= a < names@.len() ==> g.overdue(now).contains(
                        #[trigger] name_view(names@[a]),
                    ) && found_before(self.records, name_view(names@[a]), i as int),
                forall|j: int|
                    0 <= j < i && g.overdue(now).contains(#[trigger] self.records.name(j))
                        ==> name_views(names@).contains(self.records.name(j)),
                name_views(names@).no_duplicates(),
        {
            let ghost before = names@;
            let ghost name = self.records.name(i as int);
            let record = self.records.row(i);
            proof {
                self.records.lemma_wf();
                assert(record@ == g.records[name]);
                assert forall|a: int| 0 <= a < before.len() implies found_before(
                    self.records,
                    #[trigger] name_view(before[a]),
                    (i + 1) as int,
                ) && name_view(before[a]) != name by {
                    lemma_found_later(self.records, name_view(before[a]), i as int);
                }
            }
            if record.is_expired(now) {
                names.push(self.records.name_of(i));
                assert(name_views(names@) =~= name_views(before).push(name));
            }
            proof {
                let all = name_views(names@);
                assert forall|a: int| 0 <= a < names@.len() implies g.overdue(now).contains(
                    #[trigger] name_view(names@[a]),
                ) && found_before(self.records, name_view(names@[a]), (i + 1) as int) by {
                    if a < before.len() {
                        assert(names@[a] == before[a]);
                    } else {
                        assert(self.records.name(i as int) == name);
                    }
                }
                assert forall|j: int|
                    0 <= j < i + 1 && g.overdue(now).contains(
                        #[trigger] self.records.name(j),
                    ) implies all.contains(self.records.name(j)) by {
                    if j < i {
                        let q = name_views(before).index_of(self.records.name(j));
                        assert(name_views(before)[q] == self.records.name(j));
                        assert(all[q] == self.records.name(j));
                    } else {
                        assert(all[before.len() as int] == name);
                    }
                }
                assert forall|a: int, b: int| 0 <= a < b < all.len() implies all[a] != all[b] by {
                    assert(all[a] == name_view(names@[a]));
                    assert(names@[a] == before[a]);
                    assert(name_views(before)[a] == all[a]);
                    if b < before.len() {
                        assert(name_views(before)[b] == all[b]);
                    }
                }
            }
        }
        let ghost listed = name_views(names@);
        proof {
            self.records.lemma_wf();
            assert(listed.to_set() =~= g.overdue(now)) by {
                assert forall|name: (Seq<char>, Seq<char>)| #[trigger]
                    listed.contains(name) <==> g.overdue(now).contains(name) by {
                    if listed.contains(name) {
                        let a = listed.index_of(name);
                        assert(name_view(names@[a]) == name);
                    }
                    if g.overdue(now).contains(name) {
                        assert(self.records@.contains_key(name));
                        let j = choose|j: int|
                            0 <= j < self.records.size() && #[trigger] self.records.name(j) == name;
                        assert(listed.contains(self.records.name(j)));
                    }
                }
            }
            listed.unique_seq_to_set();
            assert(listed.take(0).to_set() =~= Set::empty());
            assert(g.reclaimed(Set::empty()).records =~= g.records);
            assert(g.reclaimed(Set::empty()).history =~= g.history);
        }
        for k in 0..names.len()
            invariant
                self.wf(),
                listed == name_views(names@),
                listed.no_duplicates(),
                g.wf(),
                forall|a: int|
                    0 <= a < names@.len() ==> g.overdue(now).contains(
                        #[trigger] name_view(names@[a]),
                    ),
                self@ == g.reclaimed(listed.take(k as int).to_set()),
        {
            let ghost before = *self;
            let ghost gone = listed.take(k as int).to_set();
            let ghost name = listed[k as int];
            proof {
                assert(name == name_view(names@[k as int]));
                assert(!gone.contains(name)) by {
                    if listed.take(k as int).contains(name) {
                        let q = listed.take(k as int).index_of(name);
                        assert(listed[q] == name);
                    }
                }
                assert(listed.take(k + 1) =~= listed.take(k as int).push(name));
                assert(listed.take(k + 1).to_set() =~= gone.insert(name)) by {
                    let shorter = listed.take(k as int);
                    assert forall|x: (Seq<char>, Seq<char>)| #[trigger]
                        shorter.push(name).contains(x) <==> shorter.contains(x) || x == name by {
                        if shorter.contains(x) {
                            let q = shorter.index_of(x);
                            assert(shorter.push(name)[q] == x);
                        }
                        assert(shorter.push(name)[shorter.len() as int] == name);
                    }
                }
                assert(before@.records.contains_key(name));
                assert(g.records.contains_key(name));
            }
            match self.records.remove(names[k].0.as_str(), names[k].1.as_str()) {
                Some(record) => {
                    proof {
                        assert(self@.history =~= before@.history);
                        assert(self@.records =~= before@.records.remove(name));
                        assert(record@ == g.records[name]);
                    }
                    self.note(&record, MemoryOperation::Expire, "system");
                    proof {
                        let after = g.reclaimed(gone.insert(name));
                        assert(before@.log(name) == g.log(name));
                        assert(self@.records =~= after.records);
                        assert(self@.history =~= after.history);
                    }
                },
                None => {},
            }
        }
        proof {
            assert(listed.take(listed.len() as int) =~= listed);
        }
        names.len()
    }

    /// Remove every record belonging to a job. Returns how many were removed.
    pub fn purge_job(&mut self, job_id: JobId) -> (r: Result<usize, SwarmError>)
        requires
            old(self).wf(),
        ensures
            final(self).wf(),
            r matches Ok(removed) && removed == old(self)@.owned(job_id).len(),
            final(self)@ == (StoreView {
                records: old(self)@.records.remove_keys(old(self)@.owned(job_id)),
                ..old(self)@
            }),
    {
        let ghost g = self@;
        let mut names: Vec<(String, String)> = Vec::new();
        proof {
            self.records.lemma_wf();
        }
        let rows: usize = self.records.count();
        for i in 0..rows
            invariant
                rows == self.records.size(),
                self.wf(),
                *self == *old(self),
                g == self@,
                forall|a: int|
                    0 <= a < names@.len() ==> g.owned(job_id).contains(
                        #[trigger] name_view(names@[a]),
                    ) && found_before(self.records, name_view(names@[a]), i as int),
                forall|j: int|
                    0 <= j < i && g.owned(job_id).contains(#[trigger] self.records.name(j))
                        ==> name_views(names@).contains(self.records.name(j)),
                name_views(names@).no_duplicates(),
        {
            let ghost before = names@;
            let ghost name = self.records.name(i as int);
            let record = self.records.row(i);
            proof {
                self.records.lemma_wf();
                assert(record@ == g.records[name]);
                assert forall|a: int| 0 <= a < before.len() implies found_before(
                    self.records,
                    #[trigger] name_view(before[a]),
                    (i + 1) as int,
                ) && name_view(before[a]) != name by {
                    lemma_found_later(self.records, name_view(before[a]), i as int);
                }
            }
            let mine = match record.job_id {
                Some(owner) => owner == job_id,
                None => false,
            };
            if mine {
                names.push(self.records.name_of(i));
                assert(name_views(names@) =~= name_views(before).push(name));
            }
            proof {
                let all = name_views(names@);
                assert forall|a: int| 0 <= a < names@.len() implies g.owned(job_id).contains(
                    #[trigger] name_view(names@[a]),
                ) && found_before(self.records, name_view(names@[a]), (i + 1) as int) by {
                    if a < before.len() {
                        assert(names@[a] == before[a]);
                    } else {
                        assert(self.records.name(i as int) == name);
                    }
                }
                assert forall|j: int|
                    0 <= j < i + 1 && g.owned(job_id).contains(
                        #[trigger] self.records.name(j),
                    ) implies all.contains(self.records.name(j)) by {
                    if j < i {
                        let q = name_views(before).index_of(self.records.name(j));
                        assert(name_views(before)[q] == self.records.name(j));
                        assert(all[q] == self.records.name(j));
                    } else {
                        assert(all[before.len() as int] == name);
                    }
                }
                assert forall|a: int, b: int| 0 <= a < b < all.len() implies all[a] != all[b] by {
                    assert(all[a] == name_view(names@[a]));
                    assert(names@[a] == before[a]);
                    assert(name_views(before)[a] == all[a]);
                    if b < before.len() {
                        assert(name_views(before)[b] == all[b]);
                    }
                }
            }
        }
        let ghost listed = name_views(names@);
        proof {
            self.records.lemma_wf();
            assert(listed.to_set() =~= g.owned(job_id)) by {
                assert forall|name: (Seq<char>, Seq<char>)| #[trigger]
                    listed.contains(name) <==> g.owned(job_id).contains(name) by {
                    if listed.contains(name) {
                        let a = listed.index_of(name);
                        assert(name_view(names@[a]) == name);
                    }
                    if g.owned(job_id).contains(name) {
                        assert(self.records@.contains_key(name));
                        let j = choose|j: int|
                            0 <= j < self.records.size() && #[trigger] self.records.name(j) == name;
                        assert(listed.contains(self.records.name(j)));
                    }
                }
            }
            listed.unique_seq_to_set();
            assert(g.records.remove_keys(listed.take(0).to_set()) =~= g.records);
        }
        for k in 0..names.len()
            invariant
                self.wf(),
                listed == name_views(names@),
                g.wf(),
                self@ == (StoreView {
                    records: g.records.remove_keys(listed.take(k as int).to_set()),
                    ..g
                }),
        {
            let ghost before = *self;
            let ghost gone = listed.take(k as int).to_set();
            let ghost name = listed[k as int];
            proof {
                assert(name == name_view(names@[k as int]));
                assert(listed.take(k + 1) =~= listed.take(k as int).push(name));
                assert(listed.take(k + 1).to_set() =~= gone.insert(name)) by {
                    let shorter = listed.take(k as int);
                    assert forall|x: (Seq<char>, Seq<char>)| #[trigger]
                        shorter.push(name).contains(x) <==> shorter.contains(x) || x == name by {
                        if shorter.contains(x) {
                            let q = shorter.index_of(x);
                            assert(shorter.push(name)[q] == x);
                        }
                        assert(shorter.push(name)[shorter.len() as int] == name);
                    }
                }
            }
            let _ = self.records.remove(names[k].0.as_str(), names[k].1.as_str());
            proof {
                assert(self@.history =~= before@.history);
                assert(self@.records =~= before@.records.remove(name));
                assert(self@.records =~= g.records.remove_keys(gone.insert(name)));
            }
        }
        proof {
            assert(listed.take(listed.len() as int) =~= listed);
        }
        Ok(names.len())
    }
}

/// A read gives back the last write for as long as the record lives, and leaves every other key
/// as it was.
pub proof fn law_reads_see_the_last_write(
    store: StoreView,
    write: WriteView,
    id: MemoryId,
    now: Timestamp,
    later: Timestamp,
    other: (Seq<char>, Seq<char>),
)
    requires
        store.wf(),
        !store.written(write, id, now).expired(later),
    ensures
        store.after_put(write, id, now).live(write.name(), later) == Some(
            store.written(write, id, now),
        ),
        store.written(write, id, now).value == write.value,
        other != write.name() ==> store.after_put(write, id, now).live(other, later)
            == store.live(other, later),
{
}

/// A successful write makes the version go up by exactly one; a key that is absent or past its
/// lifetime starts at one.
pub proof fn law_versions_count_writes(
    store: StoreView,
    write: WriteView,
    id: MemoryId,
    now: Timestamp,
)
    requires
        store.wf(),
        store.writable(write.name()),
    ensures
        store.written(write, id, now).version == store.version(write.name(), now) + 1,
{
}

/// Of two writers that hold the same version, the second is told so, with the version the first
/// one left attached, and its write does not land.
pub proof fn law_exactly_one_writer_wins(
    store: StoreView,
    first: WriteView,
    second: WriteView,
    expected: u64,
    id: MemoryId,
    now: Timestamp,
    other_id: MemoryId,
    later: Timestamp,
)
    requires
        store.wf(),
        store.writable(first.name()),
        first.name() == second.name(),
        store.swapped(first, expected, id, now).1 is Ok,
        !store.written(first, id, now).expired(later),
    ensures
        ({
            let after = store.swapped(first, expected, id, now).0;
            &&& after.version(first.name(), later) == expected + 1
            &&& after.swapped(second, expected, other_id, later) == (
                after,
                Err::<MemoryView, ErrorView>(
                    ErrorView::VersionConflict {
                        namespace: second.namespace,
                        key: second.key,
                        expected,
                        actual: (expected + 1) as u64,
                    },
                ),
            )
        }),
{
    law_versions_count_writes(store, first, id, now);
}

/// A lost compare-and-swap changes nothing, and one loses exactly where the version differs.
pub proof fn law_a_lost_swap_changes_nothing(
    store: StoreView,
    write: WriteView,
    expected: u64,
    id: MemoryId,
    now: Timestamp,
)
    ensures
        store.swapped(write, expected, id, now).1 is Ok <==> store.version(write.name(), now)
            == expected,
        store.swapped(write, expected, id, now).1 is Err ==> store.swapped(
            write,
            expected,
            id,
            now,
        ).0 == store,
{
}

/// A key is claimed once and only once while the claim lives.
pub proof fn law_a_key_is_claimed_once(
    store: StoreView,
    first: WriteView,
    second: WriteView,
    id: MemoryId,
    now: Timestamp,
    other_id: MemoryId,
    later: Timestamp,
)
    requires
        store.wf(),
        first.name() == second.name(),
        store.claimed(first, id, now).1 is Some,
        !store.written(first, id, now).expired(later),
    ensures
        store.claimed(first, id, now).0.claimed(second, other_id, later).1 is None,
        store.claimed(first, id, now).0.claimed(second, other_id, later).0 == store.claimed(
            first,
            id,
            now,
        ).0,
        (store.claimed(first, id, now).1->0).version == 1,
{
}

/// A key past its lifetime is invisible and can be claimed again; the new lineage starts at
/// version one.
pub proof fn law_an_expired_key_can_be_claimed_again(
    store: StoreView,
    write: WriteView,
    id: MemoryId,
    now: Timestamp,
)
    requires
        store.wf(),
        store.records.contains_key(write.name()),
        store.records[write.name()].expired(now),
    ensures
        store.live(write.name(), now) is None,
        store.claimed(write, id, now).1 == Some(write.fresh(id, now)),
{
}

/// Every write, and nothing but a write, a removal, or an expiry, adds to the history of its
/// key; no entry is ever lost.
pub proof fn law_history_only_grows(
    store: StoreView,
    write: WriteView,
    expected: u64,
    id: MemoryId,
    now: Timestamp,
    name: (Seq<char>, Seq<char>),
)
    requires
        store.wf(),
    ensures
        store.log(name).is_prefix_of(store.after_put(write, id, now).log(name)),
        store.log(name).is_prefix_of(store.swapped(write, expected, id, now).0.log(name)),
        store.log(name).is_prefix_of(store.deleted(name).log(name)),
        store.log(name).is_prefix_of(store.reclaimed(store.overdue(now)).log(name)),
        store.after_put(write, id, now).log(write.name()).len() == store.log(write.name()).len()
            + 1,
{
    let put = store.after_put(write, id, now).log(name);
    let swapped = store.swapped(write, expected, id, now).0.log(name);
    let deleted = store.deleted(name).log(name);
    let reclaimed = store.reclaimed(store.overdue(now)).log(name);
    let n = store.log(name).len() as int;
    assert(put.subrange(0, n) =~= store.log(name));
    assert(swapped.subrange(0, n) =~= store.log(name));
    assert(deleted.subrange(0, n) =~= store.log(name));
    assert(reclaimed.subrange(0, n) =~= store.log(name));
}

/// Reclaiming drops exactly what no read could see any more.
pub proof fn law_compaction_is_invisible(
    store: StoreView,
    now: Timestamp,
    later: Timestamp,
    name: (Seq<char>, Seq<char>),
)
    requires
        now.nanos <= later.nanos,
    ensures
        store.reclaimed(store.overdue(now)).live(name, later) == store.live(name, later),
        store.reclaimed(store.overdue(now)).overdue(now) =~= Set::empty(),
{
}

/// Purging a job leaves the records of other jobs alone and none of its own.
pub proof fn law_purging_a_job_leaves_others_alone(
    store: StoreView,
    job: JobId,
    name: (Seq<char>, Seq<char>),
)
    ensures
        ({
            let after = store.records.remove_keys(store.owned(job));
            &&& after.contains_key(name) ==> after[name].job_id != Some(job) && after[name]
                == store.records[name]
            &&& store.records.contains_key(name) && store.records[name].job_id != Some(job)
                ==> after.contains_key(name)
        }),
{
}

/// What is written with a lifetime is there until that time is over, counted from the write, and
/// gone from then on; what was never given one stays.
pub proof fn law_records_live_for_their_lifetime(
    store: StoreView,
    write: WriteView,
    id: MemoryId,
    now: Timestamp,
    later: Timestamp,
)
    requires
        store.wf(),
        write.ttl_nanos matches Some(ttl) ==> ttl <= LONGEST_TTL_NANOS && now.nanos + ttl
            <= i128::MAX,
    ensures
        write.ttl_nanos matches Some(ttl) ==> (store.after_put(write, id, now).live(
            write.name(),
            later,
        ) is Some <==> later.nanos < now.nanos + ttl),
        write.ttl_nanos is None && store.live(write.name(), now) is None ==> store.after_put(
            write,
            id,
            now,
        ).live(write.name(), later) is Some,
{
    let record = store.written(write, id, now);
    let after = store.after_put(write, id, now);
    assert((record.namespace, record.key) == write.name() || store.live(write.name(), now) is Some);
    assert(after.records.contains_key((record.namespace, record.key)));
}

/// Writing over a record replaces its value and keeps its identity, its age, and its owner where
/// the write names no other.
pub proof fn law_a_rewrite_keeps_the_identity(
    write: WriteView,
    previous: MemoryView,
    now: Timestamp,
)
    requires
        previous.version < u64::MAX,
    ensures
        ({
            let after = write.bumped(previous, now);
            &&& after.id == previous.id
            &&& after.created_at == previous.created_at
            &&& after.updated_at == now
            &&& after.value == write.value
            &&& after.version == previous.version + 1
            &&& after.namespace == previous.namespace
            &&& after.key == previous.key
            &&& write.job_id is None ==> after.job_id == previous.job_id
            &&& write.job_id is Some ==> after.job_id == write.job_id
            &&& write.agent_id is None ==> after.agent_id == previous.agent_id
            &&& write.agent_id is Some ==> after.agent_id == write.agent_id
            &&& write.ttl_nanos is None ==> after.expires_at == previous.expires_at
        }),
{
}

/// Deleting a key leaves nothing to read under it, at any time, and every other key as it was.
pub proof fn law_a_deleted_key_is_gone(
    store: StoreView,
    name: (Seq<char>, Seq<char>),
    other: (Seq<char>, Seq<char>),
    now: Timestamp,
)
    requires
        store.wf(),
    ensures
        store.deleted(name).live(name, now) is None,
        other != name ==> store.deleted(name).live(other, now) == store.live(other, now),
{
}

/// A listing holds every live record of the namespace whose key begins as asked, and nothing
/// else.
pub proof fn law_listings_are_complete(
    store: StoreView,
    namespace: Seq<char>,
    prefix: Seq<char>,
    now: Timestamp,
    record: MemoryView,
)
    requires
        store.wf(),
    ensures
        store.listing(namespace, prefix, now).contains(record) <==> {
            &&& store.records.contains_key((namespace, record.key))
            &&& store.records[(namespace, record.key)] == record
            &&& record.expires_at is None || record.expires_at->0.nanos > now.nanos
            &&& record.key.len() >= prefix.len()
            &&& record.key.take(prefix.len() as int) == prefix
        },
        store.listing(namespace, prefix, now).contains(record) ==> record.namespace == namespace,
{
    if record.key.len() >= prefix.len() {
        assert(record.key.subrange(0, prefix.len() as int) =~= record.key.take(prefix.len() as int));
    }
}

} // verus!
