//! The single error type shared by every part of the platform.

use crate::text::{decimal, decimal_text};
use vstd::prelude::*;

verus! {

/// Every failure mode the platform can produce, as structured data rather than a string.
///
/// Variants are grouped by the layer that raises them. [`SwarmError::is_retryable`]
/// decides whether a task attempt that ended in this error is worth another try.
#[derive(Debug)]
#[non_exhaustive]
pub enum SwarmError {
    /// A state machine rejected an edge that does not exist.
    InvalidTransition {
        /// Entity kind (`task`, `job`, `agent`, `node`, `lease`).
        entity: &'static str,
        /// State the entity was in.
        from: String,
        /// State the caller tried to move it to.
        to: String,
    },
    /// A task graph mutation would have introduced a cycle.
    CyclicGraph {
        /// One task known to participate in the cycle.
        task: String,
    },
    /// A task declared a dependency on a task that is not in the graph.
    UnknownDependency {
        /// The dependent task.
        task: String,
        /// The missing dependency.
        dependency: String,
    },
    /// Lookup of a known-kind entity failed.
    NotFound {
        /// Entity kind, for the message.
        kind: &'static str,
        /// Identifier that was not found.
        id: String,
    },
    /// An identifier string could not be parsed.
    InvalidId {
        /// The rejected input.
        value: String,
        /// Parser detail.
        detail: String,
    },
    /// A request or output failed validation.
    Validation(String),
    /// The task queue could not satisfy an operation.
    Queue(String),
    /// A compare-and-swap lost: another writer got there first.
    VersionConflict {
        /// Memory namespace.
        namespace: String,
        /// Memory key.
        key: String,
        /// Version the caller believed was current.
        expected: u64,
        /// Version actually stored.
        actual: u64,
    },
    /// Shared memory failure that is not a version conflict.
    Memory(String),
    /// A model provider returned an error.
    Provider {
        /// Provider name.
        provider: String,
        /// Provider-supplied detail.
        detail: String,
    },
    /// A provider refused the call because of rate limiting.
    RateLimited {
        /// Provider name.
        provider: String,
        /// Suggested wait before retrying.
        retry_after_ms: u64,
    },
    /// A circuit breaker is open, so the call was not attempted.
    CircuitOpen {
        /// Provider name.
        provider: String,
    },
    /// A cost ceiling would have been exceeded.
    BudgetExceeded(String),
    /// An agent, token, or concurrency quota would have been exceeded.
    QuotaExceeded(String),
    /// An operation did not finish inside its deadline.
    Timeout {
        /// Elapsed budget.
        millis: u64,
    },
    /// The operation was cancelled by an operator or a parent job.
    Cancelled(String),
    /// Configuration was missing or nonsensical.
    Config(String),
    /// A bug or an unclassified failure.
    Internal(String),
}

/// An error, with its texts as character sequences.
pub enum ErrorView {
    /// A rejected edge of a state machine.
    InvalidTransition {
        /// Entity kind.
        entity: Seq<char>,
        /// State the entity was in.
        from: Seq<char>,
        /// State the caller tried to move it to.
        to: Seq<char>,
    },
    /// A refused cycle.
    CyclicGraph {
        /// A task of the cycle.
        task: Seq<char>,
    },
    /// A dependency outside the graph.
    UnknownDependency {
        /// The dependent task.
        task: Seq<char>,
        /// The missing dependency.
        dependency: Seq<char>,
    },
    /// A failed lookup.
    NotFound {
        /// Entity kind.
        kind: Seq<char>,
        /// Identifier that was not found.
        id: Seq<char>,
    },
    /// An unreadable identifier.
    InvalidId {
        /// The rejected input.
        value: Seq<char>,
        /// Parser detail.
        detail: Seq<char>,
    },
    /// A failed validation.
    Validation(Seq<char>),
    /// A queue failure.
    Queue(Seq<char>),
    /// A lost compare-and-swap.
    VersionConflict {
        /// Memory namespace.
        namespace: Seq<char>,
        /// Memory key.
        key: Seq<char>,
        /// Version the caller believed was current.
        expected: u64,
        /// Version actually stored.
        actual: u64,
    },
    /// A memory failure.
    Memory(Seq<char>),
    /// A provider failure.
    Provider {
        /// Provider name.
        provider: Seq<char>,
        /// Provider-supplied detail.
        detail: Seq<char>,
    },
    /// A rate limit.
    RateLimited {
        /// Provider name.
        provider: Seq<char>,
        /// Suggested wait before retrying.
        retry_after_ms: u64,
    },
    /// An open circuit.
    CircuitOpen {
        /// Provider name.
        provider: Seq<char>,
    },
    /// An exhausted budget.
    BudgetExceeded(Seq<char>),
    /// An exhausted quota.
    QuotaExceeded(Seq<char>),
    /// A missed deadline.
    Timeout {
        /// Elapsed budget.
        millis: u64,
    },
    /// A cancellation.
    Cancelled(Seq<char>),
    /// A configuration failure.
    Config(Seq<char>),
    /// Anything else.
    Internal(Seq<char>),
}

impl View for SwarmError {
    type V = ErrorView;

    open spec fn view(&self) -> ErrorView {
        match *self {
            SwarmError::InvalidTransition { entity, from, to } => ErrorView::InvalidTransition {
                entity: entity@,
                from: from@,
                to: to@,
            },
            SwarmError::CyclicGraph { task } => ErrorView::CyclicGraph { task: task@ },
            SwarmError::UnknownDependency { task, dependency } => ErrorView::UnknownDependency {
                task: task@,
                dependency: dependency@,
            },
            SwarmError::NotFound { kind, id } => ErrorView::NotFound { kind: kind@, id: id@ },
            SwarmError::InvalidId { value, detail } => ErrorView::InvalidId {
                value: value@,
                detail: detail@,
            },
            SwarmError::Validation(text) => ErrorView::Validation(text@),
            SwarmError::Queue(text) => ErrorView::Queue(text@),
            SwarmError::VersionConflict { namespace, key, expected, actual } =>
                ErrorView::VersionConflict { namespace: namespace@, key: key@, expected, actual },
            SwarmError::Memory(text) => ErrorView::Memory(text@),
            SwarmError::Provider { provider, detail } => ErrorView::Provider {
                provider: provider@,
                detail: detail@,
            },
            SwarmError::RateLimited { provider, retry_after_ms } => ErrorView::RateLimited {
                provider: provider@,
                retry_after_ms,
            },
            SwarmError::CircuitOpen { provider } => ErrorView::CircuitOpen { provider: provider@ },
            SwarmError::BudgetExceeded(text) => ErrorView::BudgetExceeded(text@),
            SwarmError::QuotaExceeded(text) => ErrorView::QuotaExceeded(text@),
            SwarmError::Timeout { millis } => ErrorView::Timeout { millis },
            SwarmError::Cancelled(text) => ErrorView::Cancelled(text@),
            SwarmError::Config(text) => ErrorView::Config(text@),
            SwarmError::Internal(text) => ErrorView::Internal(text@),
        }
    }
}

impl ErrorView {
    /// Whether retrying the failed operation could plausibly succeed: the failure was of
    /// the infrastructure, a provider, or the clock, and not of the request.
    pub open spec fn retryable(self) -> bool {
        ||| self is Queue
        ||| self is Memory
        ||| self is VersionConflict
        ||| self is Provider
        ||| self is RateLimited
        ||| self is CircuitOpen
        ||| self is Timeout
        ||| self is Internal
    }

    /// Short machine-readable label.
    pub open spec fn label(self) -> Seq<char> {
        match self {
            ErrorView::InvalidTransition { .. } => "invalid_transition"@,
            ErrorView::CyclicGraph { .. } => "cyclic_graph"@,
            ErrorView::UnknownDependency { .. } => "unknown_dependency"@,
            ErrorView::NotFound { .. } => "not_found"@,
            ErrorView::InvalidId { .. } => "invalid_id"@,
            ErrorView::Validation(_) => "validation"@,
            ErrorView::Queue(_) => "queue"@,
            ErrorView::VersionConflict { .. } => "version_conflict"@,
            ErrorView::Memory(_) => "memory"@,
            ErrorView::Provider { .. } => "provider"@,
            ErrorView::RateLimited { .. } => "rate_limited"@,
            ErrorView::CircuitOpen { .. } => "circuit_open"@,
            ErrorView::BudgetExceeded(_) => "budget_exceeded"@,
            ErrorView::QuotaExceeded(_) => "quota_exceeded"@,
            ErrorView::Timeout { .. } => "timeout"@,
            ErrorView::Cancelled(_) => "cancelled"@,
            ErrorView::Config(_) => "config"@,
            ErrorView::Internal(_) => "internal"@,
        }
    }

    /// The sentence shown to people.
    pub open spec fn message(self) -> Seq<char> {
        match self {
            ErrorView::InvalidTransition { entity, from, to } => "invalid "@ + entity
                + " transition: "@ + from + " -> "@ + to,
            ErrorView::CyclicGraph { task } => "task graph is cyclic (cycle involves task "@ + task
                + ")"@,
            ErrorView::UnknownDependency { task, dependency } => "task "@ + task
                + " depends on unknown task "@ + dependency,
            ErrorView::NotFound { kind, id } => "unknown "@ + kind + " `"@ + id + "`"@,
            ErrorView::InvalidId { value, detail } => "invalid identifier `"@ + value + "`: "@
                + detail,
            ErrorView::Validation(text) => "validation failed: "@ + text,
            ErrorView::Queue(text) => "queue error: "@ + text,
            ErrorView::VersionConflict { namespace, key, expected, actual } =>
                "version conflict on "@ + namespace + "/"@ + key + ": expected "@ + decimal(
                expected as nat,
            ) + ", found "@ + decimal(actual as nat),
            ErrorView::Memory(text) => "memory error: "@ + text,
            ErrorView::Provider { provider, detail } => "provider `"@ + provider + "` failed: "@
                + detail,
            ErrorView::RateLimited { provider, retry_after_ms } => "provider `"@ + provider
                + "` rate limited (retry after "@ + decimal(retry_after_ms as nat) + "ms)"@,
            ErrorView::CircuitOpen { provider } => "circuit open for provider `"@ + provider
                + "`"@,
            ErrorView::BudgetExceeded(text) => "budget exceeded: "@ + text,
            ErrorView::QuotaExceeded(text) => "quota exceeded: "@ + text,
            ErrorView::Timeout { millis } => "timed out after "@ + decimal(millis as nat) + "ms"@,
            ErrorView::Cancelled(text) => "cancelled: "@ + text,
            ErrorView::Config(text) => "configuration error: "@ + text,
            ErrorView::Internal(text) => "internal error: "@ + text,
        }
    }
}

/// Two texts, one after the other.
fn pair(first: &str, second: &str) -> (r: String)
    ensures
        r@ == first@ + second@,
{
    let mut r = first.to_owned();
    r.append(second);
    r
}

impl SwarmError {
    /// Whether retrying the failed operation could plausibly succeed.
    ///
    /// Used by the scheduler to decide between `RetryScheduled` and `DeadLettered`.
    pub fn is_retryable(&self) -> (r: bool)
        ensures
            r == self@.retryable(),
    {
        matches!(
            self,
            Self::Queue(_) | Self::Memory(_) | Self::VersionConflict { .. } | Self::Provider { .. }
                | Self::RateLimited { .. } | Self::CircuitOpen { .. } | Self::Timeout { .. }
                | Self::Internal(_)
        )
    }

    /// Short machine-readable label, used for metrics dimensions and `error_kind` columns.
    pub fn kind(&self) -> (r: &'static str)
        ensures
            r@ == self@.label(),
    {
        match self {
            Self::InvalidTransition { .. } => "invalid_transition",
            Self::CyclicGraph { .. } => "cyclic_graph",
            Self::UnknownDependency { .. } => "unknown_dependency",
            Self::NotFound { .. } => "not_found",
            Self::InvalidId { .. } => "invalid_id",
            Self::Validation(_) => "validation",
            Self::Queue(_) => "queue",
            Self::VersionConflict { .. } => "version_conflict",
            Self::Memory(_) => "memory",
            Self::Provider { .. } => "provider",
            Self::RateLimited { .. } => "rate_limited",
            Self::CircuitOpen { .. } => "circuit_open",
            Self::BudgetExceeded(_) => "budget_exceeded",
            Self::QuotaExceeded(_) => "quota_exceeded",
            Self::Timeout { .. } => "timeout",
            Self::Cancelled(_) => "cancelled",
            Self::Config(_) => "config",
            Self::Internal(_) => "internal",
        }
    }

    /// The sentence shown to people.
    pub fn to_string(&self) -> (r: String)
        ensures
            r@ == self@.message(),
    {
        match self {
            Self::InvalidTransition { entity, from, to } => {
                let mut r = pair("invalid ", *entity);
                r.append(" transition: ");
                r.append(from.as_str());
                r.append(" -> ");
                r.append(to.as_str());
                r
            },
            Self::CyclicGraph { task } => {
                let mut r = pair("task graph is cyclic (cycle involves task ", task.as_str());
                r.append(")");
                r
            },
            Self::UnknownDependency { task, dependency } => {
                let mut r = pair("task ", task.as_str());
                r.append(" depends on unknown task ");
                r.append(dependency.as_str());
                r
            },
            Self::NotFound { kind, id } => {
                let mut r = pair("unknown ", *kind);
                r.append(" `");
                r.append(id.as_str());
                r.append("`");
                r
            },
            Self::InvalidId { value, detail } => {
                let mut r = pair("invalid identifier `", value.as_str());
                r.append("`: ");
                r.append(detail.as_str());
                r
            },
            Self::Validation(text) => pair("validation failed: ", text.as_str()),
            Self::Queue(text) => pair("queue error: ", text.as_str()),
            Self::VersionConflict { namespace, key, expected, actual } => {
                let mut r = pair("version conflict on ", namespace.as_str());
                r.append("/");
                r.append(key.as_str());
                r.append(": expected ");
                r.append(decimal_text(*expected).as_str());
                r.append(", found ");
                r.append(decimal_text(*actual).as_str());
                r
            },
            Self::Memory(text) => pair("memory error: ", text.as_str()),
            Self::Provider { provider, detail } => {
                let mut r = pair("provider `", provider.as_str());
                r.append("` failed: ");
                r.append(detail.as_str());
                r
            },
            Self::RateLimited { provider, retry_after_ms } => {
                let mut r = pair("provider `", provider.as_str());
                r.append("` rate limited (retry after ");
                r.append(decimal_text(*retry_after_ms).as_str());
                r.append("ms)");
                r
            },
            Self::CircuitOpen { provider } => {
                let mut r = pair("circuit open for provider `", provider.as_str());
                r.append("`");
                r
            },
            Self::BudgetExceeded(text) => pair("budget exceeded: ", text.as_str()),
            Self::QuotaExceeded(text) => pair("quota exceeded: ", text.as_str()),
            Self::Timeout { millis } => {
                let mut r = pair("timed out after ", decimal_text(*millis).as_str());
                r.append("ms");
                r
            },
            Self::Cancelled(text) => pair("cancelled: ", text.as_str()),
            Self::Config(text) => pair("configuration error: ", text.as_str()),
            Self::Internal(text) => pair("internal error: ", text.as_str()),
        }
    }
}

/// An outcome with its error taken by its view.
pub open spec fn outcome<T>(r: Result<T, SwarmError>) -> Result<T, ErrorView> {
    match r {
        Ok(value) => Ok(value),
        Err(error) => Err(error@),
    }
}

/// What went wrong by accident may be tried again; what was asked for wrongly, is not there, or
/// is over the limit may not.
pub proof fn law_only_accidents_are_retried(error: ErrorView)
    ensures
        error is Timeout || error is Provider || error is RateLimited || error is CircuitOpen
            || error is Queue || error is Memory || error is VersionConflict || error is Internal
            ==> error.retryable(),
        error is Validation || error is NotFound || error is InvalidId || error is QuotaExceeded
            || error is BudgetExceeded || error is Cancelled || error is Config
            || error is InvalidTransition || error is CyclicGraph || error is UnknownDependency
            ==> !error.retryable(),
{
}

} // verus!
