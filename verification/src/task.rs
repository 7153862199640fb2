//! Tasks: the unit of scheduling, execution, retry, and validation.

use crate::agent::{copy_capabilities, has_capability, Capability};
use crate::clock::Timestamp;
use crate::figures::{Real32, Real64};
use crate::hash::{fnv, stable_hash, OFFSET};
use crate::ids::{AgentId, JobId, TaskId};
use crate::job::{clone_evidence, evidence_views, Evidence, EvidenceView};
use crate::json::{
    clone_json, is_object, json_content, json_parsed, member, parse_json, JsonView,
};
use crate::text::{
    ascii_alphanumeric, ascii_lower, chars_of, clone_strings, contains, decimal, decimal_text,
    hex_fixed, hex_fixed_text, holds, is_ascii_alphanumeric, is_blank, is_space, join, joined,
    law_joined_texts_hold_each, lemma_blank_trims_to_nothing, lemma_filter_push,
    lemma_holds_between, lemma_holds_later, lemma_map_push, lowercase, string_of, to_ascii_lower,
    trim, views, word_count, words,
};
use vstd::prelude::*;
use vstd::string::*;
use vstd::utf8::encode_utf8;

verus! {

/// What a task is for. Fixes its capabilities, prompt, and default validation.
#[derive(Clone, Copy, Debug, PartialEq, Eq, Structural, Hash)]
pub enum TaskKind {
    /// Decompose the objective.
    Plan,
    /// Decompose one branch of an existing plan.
    Subplan,
    /// Do a unit of the actual work.
    Work,
    /// Process one partition of a map-reduce.
    MapStep,
    /// Combine map outputs.
    Reduce,
    /// Answer independently, for debate or consensus.
    Answer,
    /// Critique peers' answers.
    Critique,
    /// Check an output against criteria.
    Verify,
    /// Choose between competing answers.
    Judge,
    /// Cast a vote in a consensus round.
    Vote,
    /// Merge validated outputs.
    Merge,
    /// Condense outputs into prose.
    Summarize,
    /// Assign and review worker output.
    Supervise,
}

impl TaskKind {
    /// Capabilities a task of this kind requires of its agent.
    pub open spec fn requires_capabilities(self) -> Seq<Capability> {
        match self {
            TaskKind::Plan | TaskKind::Subplan | TaskKind::Supervise => seq![
                Capability::Planning,
            ],
            TaskKind::Work | TaskKind::MapStep | TaskKind::Answer => seq![Capability::Research],
            TaskKind::Reduce | TaskKind::Merge => seq![Capability::Merging],
            TaskKind::Critique => seq![Capability::Review],
            TaskKind::Verify | TaskKind::Vote => seq![Capability::Verification],
            TaskKind::Judge => seq![Capability::Review, Capability::Verification],
            TaskKind::Summarize => seq![Capability::Summarization],
        }
    }

    /// The stable label of a kind.
    pub open spec fn label(self) -> Seq<char> {
        match self {
            TaskKind::Plan => "plan"@,
            TaskKind::Subplan => "subplan"@,
            TaskKind::Work => "work"@,
            TaskKind::MapStep => "map"@,
            TaskKind::Reduce => "reduce"@,
            TaskKind::Answer => "answer"@,
            TaskKind::Critique => "critique"@,
            TaskKind::Verify => "verify"@,
            TaskKind::Judge => "judge"@,
            TaskKind::Vote => "vote"@,
            TaskKind::Merge => "merge"@,
            TaskKind::Summarize => "summarize"@,
            TaskKind::Supervise => "supervise"@,
        }
    }

    /// Whether this kind's output belongs in the final result.
    pub open spec fn reportable(self) -> bool {
        ||| self == TaskKind::Work
        ||| self == TaskKind::MapStep
        ||| self == TaskKind::Reduce
        ||| self == TaskKind::Answer
        ||| self == TaskKind::Judge
        ||| self == TaskKind::Merge
        ||| self == TaskKind::Summarize
    }

    /// Capabilities a task of this kind requires of its agent.
    pub fn required_capabilities(self) -> (r: &'static [Capability])
        ensures
            r@ == self.requires_capabilities(),
    {
        let r: &'static [Capability] = match self {
            Self::Plan | Self::Subplan | Self::Supervise => &[Capability::Planning],
            Self::Work | Self::MapStep | Self::Answer => &[Capability::Research],
            Self::Reduce | Self::Merge => &[Capability::Merging],
            Self::Critique => &[Capability::Review],
            Self::Verify | Self::Vote => &[Capability::Verification],
            Self::Judge => &[Capability::Review, Capability::Verification],
            Self::Summarize => &[Capability::Summarization],
        };
        assert(r@ =~= self.requires_capabilities());
        r
    }

    /// Stable label for prompts, metrics, and persistence.
    pub fn as_str(self) -> (r: &'static str)
        ensures
            r@ == self.label(),
    {
        match self {
            Self::Plan => "plan",
            Self::Subplan => "subplan",
            Self::Work => "work",
            Self::MapStep => "map",
            Self::Reduce => "reduce",
            Self::Answer => "answer",
            Self::Critique => "critique",
            Self::Verify => "verify",
            Self::Judge => "judge",
            Self::Vote => "vote",
            Self::Merge => "merge",
            Self::Summarize => "summarize",
            Self::Supervise => "supervise",
        }
    }

    /// Whether this kind's output belongs in the final result rather than being
    /// intermediate scaffolding.
    pub fn is_reportable(self) -> (r: bool)
        ensures
            r == self.reportable(),
    {
        matches!(
            self,
            Self::Work | Self::MapStep | Self::Reduce | Self::Answer | Self::Judge | Self::Merge
                | Self::Summarize
        )
    }

    /// The stable label of a kind.
    pub fn to_string(&self) -> (r: String)
        ensures
            r@ == self.label(),
    {
        self.as_str().to_owned()
    }
}

/// Lifecycle state of a task. Transitions are enforced in [`crate::state`].
#[derive(Clone, Copy, Debug, PartialEq, Eq, Structural, Hash)]
pub enum TaskState {
    /// In the graph, not yet eligible.
    Created,
    /// Eligible except that an upstream task has not finished.
    WaitingForDependency,
    /// In the queue, waiting for a worker.
    Queued,
    /// Claimed by a worker under a lease, not yet started.
    Leased,
    /// Executing.
    Running,
    /// Finished and passed validation.
    Completed,
    /// Execution failed.
    Failed,
    /// Exceeded its timeout.
    TimedOut,
    /// Will be re-queued once its backoff elapses.
    RetryScheduled,
    /// Stopped to free capacity for higher-priority work.
    Preempted,
    /// Abandoned because its job was cancelled.
    Cancelled,
    /// Out of attempts; parked for human inspection.
    DeadLettered,
}

impl TaskState {
    /// Whether a task in this state will never change state again.
    pub open spec fn finished(self) -> bool {
        ||| self == TaskState::Completed
        ||| self == TaskState::Cancelled
        ||| self == TaskState::DeadLettered
    }

    /// Whether a task in this state was given up.
    pub open spec fn given_up(self) -> bool {
        self == TaskState::Cancelled || self == TaskState::DeadLettered
    }

    /// Whether a task in this state waits to be queued.
    pub open spec fn unqueued(self) -> bool {
        self == TaskState::Created || self == TaskState::WaitingForDependency
    }

    /// Whether the task occupies an agent right now.
    pub open spec fn in_flight(self) -> bool {
        self == TaskState::Leased || self == TaskState::Running
    }

    /// The stable label of a state.
    pub open spec fn label(self) -> Seq<char> {
        match self {
            TaskState::Created => "created"@,
            TaskState::WaitingForDependency => "waiting_for_dependency"@,
            TaskState::Queued => "queued"@,
            TaskState::Leased => "leased"@,
            TaskState::Running => "running"@,
            TaskState::Completed => "completed"@,
            TaskState::Failed => "failed"@,
            TaskState::TimedOut => "timed_out"@,
            TaskState::RetryScheduled => "retry_scheduled"@,
            TaskState::Preempted => "preempted"@,
            TaskState::Cancelled => "cancelled"@,
            TaskState::DeadLettered => "dead_lettered"@,
        }
    }

    /// Stable label for metrics and persistence.
    pub fn as_str(self) -> (r: &'static str)
        ensures
            r@ == self.label(),
    {
        match self {
            Self::Created => "created",
            Self::WaitingForDependency => "waiting_for_dependency",
            Self::Queued => "queued",
            Self::Leased => "leased",
            Self::Running => "running",
            Self::Completed => "completed",
            Self::Failed => "failed",
            Self::TimedOut => "timed_out",
            Self::RetryScheduled => "retry_scheduled",
            Self::Preempted => "preempted",
            Self::Cancelled => "cancelled",
            Self::DeadLettered => "dead_lettered",
        }
    }

    /// Whether the task occupies an agent right now.
    pub fn is_in_flight(self) -> (r: bool)
        ensures
            r == self.in_flight(),
    {
        matches!(self, Self::Leased | Self::Running)
    }

    /// Whether a task in this state will never change state again.
    pub fn is_finished(self) -> (r: bool)
        ensures
            r == self.finished(),
    {
        matches!(self, Self::Completed | Self::Cancelled | Self::DeadLettered)
    }

    /// The stable label of a state.
    pub fn to_string(&self) -> (r: String)
        ensures
            r@ == self.label(),
    {
        self.as_str().to_owned()
    }
}

/// How many times and how patiently a failed task is retried.
#[derive(Clone, Copy, Debug, PartialEq, Eq, Structural)]
pub struct RetryPolicy {
    /// Total attempts allowed, including the first.
    pub max_attempts: u32,
    /// First backoff, doubled per attempt.
    pub backoff_base_ms: u64,
    /// Ceiling on the backoff.
    pub backoff_max_ms: u64,
    /// Whether to spread retries out to avoid synchronised thundering herds.
    pub jitter: bool,
}

/// The policy a task has unless told otherwise.
pub open spec fn default_retry_policy() -> RetryPolicy {
    RetryPolicy { max_attempts: 3, backoff_base_ms: 500, backoff_max_ms: 60_000, jitter: true }
}

impl Default for RetryPolicy {
    fn default() -> (r: Self)
        ensures
            r == default_retry_policy(),
    {
        RetryPolicy { max_attempts: 3, backoff_base_ms: 500, backoff_max_ms: 60_000, jitter: true }
    }
}

/// Two to the power of `n`.
pub open spec fn doubled(n: nat) -> nat
    decreases n,
{
    if n == 0 {
        1
    } else {
        2 * doubled((n - 1) as nat)
    }
}

impl RetryPolicy {
    /// How often the base is doubled before attempt number `attempt`.
    pub open spec fn doublings(attempt: u32) -> nat {
        if attempt > 20 {
            20
        } else if attempt == 0 {
            0
        } else {
            (attempt - 1) as nat
        }
    }

    /// The backoff before attempt number `attempt` without jitter: the base, doubled for
    /// every attempt after the first, but never more than the ceiling.
    pub open spec fn capped_backoff(self, attempt: u32) -> nat {
        let raw = self.backoff_base_ms as nat * doubled(Self::doublings(attempt));
        if raw > self.backoff_max_ms {
            self.backoff_max_ms as nat
        } else {
            raw
        }
    }

    /// The backoff before attempt number `attempt`: with jitter, somewhere from half of the
    /// capped backoff to all of it.
    pub open spec fn backoff(self, attempt: u32, nonce: u64) -> nat {
        let capped = self.capped_backoff(attempt);
        if self.backoff_base_ms == 0 {
            0
        } else if !self.jitter || capped == 0 {
            capped
        } else {
            let half = capped / 2;
            (half + nonce as nat % ((capped - half + 1) as nat)) as nat
        }
    }

    /// A policy that never retries — for tasks whose side effects are not idempotent.
    pub fn no_retries() -> (r: Self)
        ensures
            r == (RetryPolicy {
                max_attempts: 1,
                backoff_base_ms: 0,
                backoff_max_ms: 0,
                jitter: false,
            }),
    {
        RetryPolicy { max_attempts: 1, backoff_base_ms: 0, backoff_max_ms: 0, jitter: false }
    }

    /// Whether another attempt is permitted after `attempts_used` attempts.
    pub fn allows_retry(&self, attempts_used: u32) -> (r: bool)
        ensures
            r == (attempts_used < self.max_attempts),
    {
        attempts_used < self.max_attempts
    }

    /// Backoff before attempt number `attempt` (1-based), capped and optionally jittered.
    ///
    /// `nonce` supplies the jitter so this function stays pure and testable; callers
    /// pass a clock or counter value.
    pub fn backoff_ms(&self, attempt: u32, nonce: u64) -> (r: u64)
        ensures
            r == self.backoff(attempt, nonce),
    {
        if self.backoff_base_ms == 0 {
            return 0;
        }
        let shift: u32 = if attempt > 20 {
            20
        } else if attempt == 0 {
            0
        } else {
            attempt - 1
        };
        let mut raw: u128 = self.backoff_base_ms as u128;
        let mut done: u32 = 0;
        assert(self.backoff_base_ms * doubled(0) == self.backoff_base_ms) by (nonlinear_arith)
            requires
                doubled(0) == 1,
        ;
        while done < shift
            invariant
                done <= shift <= 20,
                raw == self.backoff_base_ms * doubled(done as nat),
                raw <= 0xffff_ffff_ffff_ffff * doubled(done as nat),
                doubled(done as nat) <= 0x10_0000,
                shift == Self::doublings(attempt),
            decreases shift - done,
        {
            proof {
                assert(doubled((done + 1) as nat) == 2 * doubled(done as nat));
                lemma_doubled_bound((done + 1) as nat);
                assert(self.backoff_base_ms * (2 * doubled(done as nat)) == 2 * (
                self.backoff_base_ms * doubled(done as nat))) by (nonlinear_arith);
                assert(0xffff_ffff_ffff_ffff * doubled(done as nat) <= 0xffff_ffff_ffff_ffff
                    * 0x10_0000) by (nonlinear_arith)
                    requires
                        doubled(done as nat) <= 0x10_0000,
                ;
            }
            raw = raw * 2;
            done += 1;
        }
        let capped: u64 = if raw > self.backoff_max_ms as u128 {
            self.backoff_max_ms
        } else {
            raw as u64
        };
        if !self.jitter || capped == 0 {
            return capped;
        }
        // Full jitter in [capped/2, capped]: keeps a floor on the wait while still
        // decorrelating retries across the swarm.
        let half: u64 = capped / 2;
        if capped - half == u64::MAX {
            return half + nonce;
        }
        half + (nonce % (capped - half + 1))
    }
}

/// Twenty doublings reach just over a million.
proof fn lemma_doubled_bound(n: nat)
    requires
        n <= 20,
    ensures
        doubled(n) <= 0x10_0000,
{
    reveal_with_fuel(doubled, 21);
    lemma_doubled_monotonic(n, 20);
}

/// More doublings never make less.
proof fn lemma_doubled_monotonic(a: nat, b: nat)
    requires
        a <= b,
    ensures
        1 <= doubled(a) <= doubled(b),
    decreases b,
{
    if b > a {
        lemma_doubled_monotonic(a, (b - 1) as nat);
    } else if a > 0 {
        lemma_doubled_monotonic((a - 1) as nat, (a - 1) as nat);
    }
}

/// A jittered backoff lies between half of the capped backoff and all of it, and never
/// exceeds the ceiling; without jitter it is the capped backoff itself.
pub proof fn law_backoff_stays_in_its_window(policy: RetryPolicy, attempt: u32, nonce: u64)
    ensures
        policy.backoff(attempt, nonce) <= policy.backoff_max_ms,
        policy.backoff_base_ms > 0 ==> policy.capped_backoff(attempt) / 2 <= policy.backoff(
            attempt,
            nonce,
        ) <= policy.capped_backoff(attempt),
        policy.backoff_base_ms > 0 && !policy.jitter ==> policy.backoff(attempt, nonce)
            == policy.capped_backoff(attempt),
{
}

/// Waiting gets no shorter from one attempt to the next, as long as jitter is off.
pub proof fn law_backoff_grows_with_the_attempt(policy: RetryPolicy, earlier: u32, later: u32)
    requires
        earlier <= later,
    ensures
        policy.capped_backoff(earlier) <= policy.capped_backoff(later),
{
    let a = RetryPolicy::doublings(earlier);
    let b = RetryPolicy::doublings(later);
    lemma_doubled_monotonic(a, b);
    assert(policy.backoff_base_ms as nat * doubled(a) <= policy.backoff_base_ms as nat * doubled(b))
        by (nonlinear_arith)
        requires
            doubled(a) <= doubled(b),
    ;
}

/// A mechanical check applied to a task's output before it counts as complete.
///
/// Deterministic rules run first and gate everything; LLM critics only see output
/// that already passed here.
#[derive(Debug)]
pub enum ValidationRule {
    /// Output must contain non-whitespace text.
    NonEmpty,
    /// Output must contain at least this many whitespace-separated words.
    MinWords(usize),
    /// Output must contain this substring, case-insensitively.
    MustMention(String),
    /// Output must parse as a JSON object containing these keys.
    RequiredJsonKeys(Vec<String>),
}

/// A rule, with its texts as character sequences.
pub enum RuleView {
    /// Non-whitespace text.
    NonEmpty,
    /// At least this many words.
    MinWords(usize),
    /// This substring.
    MustMention(Seq<char>),
    /// A JSON object with these keys.
    RequiredJsonKeys(Seq<Seq<char>>),
}

impl View for ValidationRule {
    type V = RuleView;

    open spec fn view(&self) -> RuleView {
        match *self {
            ValidationRule::NonEmpty => RuleView::NonEmpty,
            ValidationRule::MinWords(minimum) => RuleView::MinWords(minimum),
            ValidationRule::MustMention(needle) => RuleView::MustMention(needle@),
            ValidationRule::RequiredJsonKeys(keys) => RuleView::RequiredJsonKeys(views(keys@)),
        }
    }
}

/// The rules behind a list.
pub open spec fn rule_views(rules: Seq<ValidationRule>) -> Seq<RuleView> {
    rules.map_values(|rule: ValidationRule| rule@)
}

/// The keys of `wanted` that an object lacks, in order.
pub open spec fn missing_keys(wanted: Seq<Seq<char>>, value: JsonView) -> Seq<Seq<char>> {
    wanted.filter(|key: Seq<char>| value.member(key) is None)
}

/// What is wrong with a parsed output that must be an object with the `wanted` keys.
pub open spec fn key_failure(
    wanted: Seq<Seq<char>>,
    parsed: Result<JsonView, Seq<char>>,
) -> Option<Seq<char>> {
    match parsed {
        Ok(value) => if value is Object {
            let missing = missing_keys(wanted, value);
            if missing.len() == 0 {
                None
            } else {
                Some("JSON output is missing keys: "@ + joined(missing, ", "@))
            }
        } else {
            Some("output is JSON but not an object"@)
        },
        Err(message) => Some("output is not valid JSON: "@ + message),
    }
}

impl RuleView {
    /// What is wrong with `output` under this rule.
    pub open spec fn failure(self, output: Seq<char>) -> Option<Seq<char>> {
        match self {
            RuleView::NonEmpty => if is_blank(output) {
                Some("output is empty"@)
            } else {
                None
            },
            RuleView::MinWords(minimum) => if words(output).len() < minimum {
                Some(
                    "output has "@ + decimal(words(output).len()) + " words, needs "@ + decimal(
                        minimum as nat,
                    ),
                )
            } else {
                None
            },
            RuleView::MustMention(needle) => if holds(lowercase(output), lowercase(needle)) {
                None
            } else {
                Some("output does not mention `"@ + needle + "`"@)
            },
            RuleView::RequiredJsonKeys(keys) => key_failure(keys, json_parsed(output)),
        }
    }
}

/// What is wrong with a parsed output that must be an object with the `wanted` keys.
pub fn check_keys(wanted: &Vec<String>, parsed: &Result<serde_json::Value, String>) -> (r: Option<
    String,
>)
    ensures
        crate::text::option_view(r) == key_failure(
            views(wanted@),
            match *parsed {
                Ok(value) => Ok(json_content(value)),
                Err(message) => Err(message@),
            },
        ),
{
    match parsed {
        Ok(value) => {
            if !is_object(value) {
                return Some("output is JSON but not an object".to_owned());
            }
            let ghost lacking = |key: Seq<char>| json_content(*value).member(key) is None;
            let mut missing: Vec<String> = Vec::new();
            assert(views(wanted@).take(0).filter(lacking) =~= seq![]) by {
                reveal(Seq::filter);
            }
            for i in 0..wanted.len()
                invariant
                    lacking == |key: Seq<char>| json_content(*value).member(key) is None,
                    views(missing@) =~= views(wanted@).take(i as int).filter(lacking),
            {
                let ghost taken = views(wanted@).take(i as int);
                proof {
                    lemma_filter_push(taken, wanted@[i as int]@, lacking);
                    assert(views(wanted@).take(i + 1) =~= taken.push(wanted@[i as int]@));
                }
                if member(value, wanted[i].as_str()).is_none() {
                    let ghost before = missing@;
                    missing.push(wanted[i].clone());
                    proof {
                        lemma_map_push(before, missing@.last(), |s: String| s@);
                    }
                }
            }
            assert(views(wanted@).take(wanted@.len() as int) =~= views(wanted@));
            assert(views(missing@).len() == missing@.len());
            if missing.len() == 0 {
                None
            } else {
                let mut message = "JSON output is missing keys: ".to_owned();
                message.append(join(&missing, ", ").as_str());
                Some(message)
            }
        },
        Err(message) => {
            let mut text = "output is not valid JSON: ".to_owned();
            text.append(message.as_str());
            Some(text)
        },
    }
}

impl ValidationRule {
    /// Check `output`, returning a human-readable failure description when it fails.
    pub fn check(&self, output: &str) -> (r: Option<String>)
        ensures
            crate::text::option_view(r) == self@.failure(output@),
    {
        match self {
            Self::NonEmpty => {
                proof {
                    lemma_blank_trims_to_nothing(output@);
                }
                if trim(output).as_str().is_empty() {
                    Some("output is empty".to_owned())
                } else {
                    None
                }
            },
            Self::MinWords(minimum) => {
                let count: usize = word_count(output);
                if count < *minimum {
                    let mut message = "output has ".to_owned();
                    message.append(decimal_text(count as u64).as_str());
                    message.append(" words, needs ");
                    message.append(decimal_text(*minimum as u64).as_str());
                    Some(message)
                } else {
                    None
                }
            },
            Self::MustMention(needle) => {
                let text = output.to_lowercase();
                let wanted = needle.as_str().to_lowercase();
                if contains(text.as_str(), wanted.as_str()) {
                    None
                } else {
                    let mut message = "output does not mention `".to_owned();
                    message.append(needle.as_str());
                    message.append("`");
                    Some(message)
                }
            },
            Self::RequiredJsonKeys(keys) => {
                let parsed = parse_json(output);
                check_keys(keys, &parsed)
            },
        }
    }
}

impl Clone for ValidationRule {
    fn clone(&self) -> (r: Self)
        ensures
            r@ == self@,
    {
        match self {
            Self::NonEmpty => Self::NonEmpty,
            Self::MinWords(minimum) => Self::MinWords(*minimum),
            Self::MustMention(needle) => Self::MustMention(needle.clone()),
            Self::RequiredJsonKeys(keys) => Self::RequiredJsonKeys(clone_strings(keys)),
        }
    }
}

/// A copy of a list of rules.
pub fn clone_rules(rules: &Vec<ValidationRule>) -> (r: Vec<ValidationRule>)
    ensures
        rule_views(r@) == rule_views(rules@),
{
    let mut r: Vec<ValidationRule> = Vec::new();
    for i in 0..rules.len()
        invariant
            r@.len() == i,
            forall|k: int| 0 <= k < i ==> (#[trigger] r@[k])@ == rules@[k]@,
    {
        r.push(rules[i].clone());
    }
    assert(rule_views(r@) =~= rule_views(rules@));
    r
}

/// Every failure of `output` under `rules`, in the order of the rules.
pub open spec fn output_failures(output: Seq<char>, rules: Seq<RuleView>) -> Seq<Seq<char>>
    decreases rules.len(),
{
    if rules.len() == 0 {
        seq![]
    } else {
        let before = output_failures(output, rules.drop_last());
        match rules.last().failure(output) {
            Some(failure) => before.push(failure),
            None => before,
        }
    }
}

/// Run every rule and collect the failures.
pub fn validate_output(output: &str, rules: &[ValidationRule]) -> (r: Vec<String>)
    ensures
        views(r@) == output_failures(output@, rule_views(rules@)),
{
    let mut r: Vec<String> = Vec::new();
    assert(views(r@) =~= output_failures(output@, rule_views(rules@).take(0)));
    for i in 0..rules.len()
        invariant
            views(r@) == output_failures(output@, rule_views(rules@).take(i as int)),
    {
        assert(rule_views(rules@).take(i + 1).drop_last() =~= rule_views(rules@).take(i as int));
        if let Some(failure) = rules[i].check(output) {
            let ghost before = r@;
            r.push(failure);
            proof {
                lemma_map_push(before, failure, |s: String| s@);
            }
        }
    }
    assert(rule_views(rules@).take(rules@.len() as int) =~= rule_views(rules@));
    r
}

/// One node of a job's task DAG.
#[derive(Debug)]
pub struct TaskNode {
    /// Task identity.
    pub id: TaskId,
    /// Owning job.
    pub job_id: JobId,
    /// Short heading.
    pub title: String,
    /// The instruction handed to the agent.
    pub description: String,
    /// What the task is for.
    pub kind: TaskKind,
    /// Tasks that must complete first.
    pub dependencies: Vec<TaskId>,
    /// Capabilities an agent must have to run it.
    pub required_capabilities: Vec<Capability>,
    /// Relative size estimate, drives fan-out and token budgets.
    pub estimated_complexity: u32,
    /// Predicted token consumption, for cost admission control.
    pub estimated_tokens: Option<u64>,
    /// Retry behaviour.
    pub retry_policy: RetryPolicy,
    /// Execution timeout.
    pub timeout_seconds: u64,
    /// Lifecycle state.
    pub state: TaskState,
    /// Attempts already used.
    pub attempt: u32,
    /// Stage index in the compiled strategy, used for ordering outputs.
    pub stage: u32,
    /// Key that makes duplicate delivery of the task harmless.
    pub idempotency_key: String,
    /// Mechanical checks the output must pass.
    pub validation: Vec<ValidationRule>,
}

/// A task, with its texts and lists as sequences.
pub struct TaskView {
    /// Task identity.
    pub id: TaskId,
    /// Owning job.
    pub job_id: JobId,
    /// Short heading.
    pub title: Seq<char>,
    /// The instruction handed to the agent.
    pub description: Seq<char>,
    /// What the task is for.
    pub kind: TaskKind,
    /// Tasks that must complete first.
    pub dependencies: Seq<TaskId>,
    /// Capabilities an agent must have.
    pub required_capabilities: Seq<Capability>,
    /// Relative size estimate.
    pub estimated_complexity: u32,
    /// Predicted token consumption.
    pub estimated_tokens: Option<u64>,
    /// Retry behaviour.
    pub retry_policy: RetryPolicy,
    /// Execution timeout.
    pub timeout_seconds: u64,
    /// Lifecycle state.
    pub state: TaskState,
    /// Attempts already used.
    pub attempt: u32,
    /// Stage index.
    pub stage: u32,
    /// Key that makes duplicate delivery harmless.
    pub idempotency_key: Seq<char>,
    /// Mechanical checks the output must pass.
    pub validation: Seq<RuleView>,
}

impl View for TaskNode {
    type V = TaskView;

    open spec fn view(&self) -> TaskView {
        TaskView {
            id: self.id,
            job_id: self.job_id,
            title: self.title@,
            description: self.description@,
            kind: self.kind,
            dependencies: self.dependencies@,
            required_capabilities: self.required_capabilities@,
            estimated_complexity: self.estimated_complexity,
            estimated_tokens: self.estimated_tokens,
            retry_policy: self.retry_policy,
            timeout_seconds: self.timeout_seconds,
            state: self.state,
            attempt: self.attempt,
            stage: self.stage,
            idempotency_key: self.idempotency_key@,
            validation: rule_views(self.validation@),
        }
    }
}

/// The tasks behind a list of nodes.
pub open spec fn task_views(nodes: Seq<TaskNode>) -> Seq<TaskView> {
    nodes.map_values(|node: TaskNode| node@)
}

/// The key of a logical task: its job, stage, kind, and title. The slug is for humans
/// reading logs; the hash is what tells two long titles apart.
pub open spec fn task_key(
    job_id: JobId,
    stage: u32,
    kind: TaskKind,
    title: Seq<char>,
) -> Seq<char> {
    job_id.text() + ":"@ + decimal(stage as nat) + ":"@ + kind.label() + ":"@ + slug_of(title)
        + ":"@ + hex_fixed(fnv(OFFSET, encode_utf8(title)) as nat, 16)
}

impl TaskView {
    /// A task as it enters the platform.
    pub open spec fn created(
        id: TaskId,
        job_id: JobId,
        kind: TaskKind,
        title: Seq<char>,
        description: Seq<char>,
        stage: u32,
    ) -> TaskView {
        TaskView {
            id,
            job_id,
            title,
            description,
            kind,
            dependencies: seq![],
            required_capabilities: kind.requires_capabilities(),
            estimated_complexity: 1,
            estimated_tokens: None,
            retry_policy: default_retry_policy(),
            timeout_seconds: 300,
            state: TaskState::Created,
            attempt: 0,
            stage,
            idempotency_key: task_key(job_id, stage, kind, title),
            validation: seq![RuleView::NonEmpty],
        }
    }

    /// The idempotency key of the current attempt.
    pub open spec fn key_of_attempt(self) -> Seq<char> {
        self.idempotency_key + "#"@ + decimal(self.attempt as nat)
    }

    /// The task with a size estimate and the token estimate derived from it.
    pub open spec fn sized(self, complexity: u32) -> TaskView {
        let size: u32 = if complexity == 0 {
            1
        } else {
            complexity
        };
        TaskView {
            estimated_complexity: size,
            estimated_tokens: Some((size * 400) as u64),
            ..self
        }
    }
}

/// `required` extended by those of `extra` that it lacks, in order.
pub open spec fn with_extra(required: Seq<Capability>, extra: Seq<Capability>) -> Seq<Capability>
    decreases extra.len(),
{
    if extra.len() == 0 {
        required
    } else {
        let before = with_extra(required, extra.drop_last());
        if before.contains(extra.last()) {
            before
        } else {
            before.push(extra.last())
        }
    }
}

/// Whether a list of ids holds `id`.
pub fn has_task(list: &Vec<TaskId>, id: TaskId) -> (r: bool)
    ensures
        r == list@.contains(id),
{
    for i in 0..list.len()
        invariant
            forall|k: int| 0 <= k < i ==> list@[k] != id,
    {
        if list[i] == id {
            return true;
        }
    }
    false
}

/// A copy of a list of ids.
pub fn copy_ids(list: &Vec<TaskId>) -> (r: Vec<TaskId>)
    ensures
        r@ == list@,
{
    let mut r: Vec<TaskId> = Vec::new();
    for i in 0..list.len()
        invariant
            r@ =~= list@.take(i as int),
    {
        r.push(list[i]);
    }
    assert(list@.take(list@.len() as int) =~= list@);
    r
}

impl TaskNode {
    /// A `Created` task of `kind` belonging to `job_id`, with a fresh id.
    ///
    /// The idempotency key is derived from the job, the title, and the stage, so the
    /// same logical task always produces the same key even if it is rebuilt after a
    /// coordinator restart.
    pub fn new(job_id: JobId, kind: TaskKind, title: &str, description: &str, stage: u32) -> (r:
        Self)
        ensures
            r@ == TaskView::created(r.id, job_id, kind, title@, description@, stage),
    {
        Self::create(TaskId::new(), job_id, kind, title, description, stage)
    }

    /// A `Created` task with the given id.
    pub fn create(
        id: TaskId,
        job_id: JobId,
        kind: TaskKind,
        title: &str,
        description: &str,
        stage: u32,
    ) -> (r: Self)
        ensures
            r@ == TaskView::created(id, job_id, kind, title@, description@, stage),
    {
        let mut key = job_id.to_string();
        key.append(":");
        key.append(decimal_text(stage as u64).as_str());
        key.append(":");
        key.append(kind.as_str());
        key.append(":");
        key.append(slug(title).as_str());
        key.append(":");
        key.append(hex_fixed_text(stable_hash(title.as_bytes()), 16).as_str());
        let mut validation: Vec<ValidationRule> = Vec::new();
        validation.push(ValidationRule::NonEmpty);
        let dependencies: Vec<TaskId> = Vec::new();
        proof {
            assert(rule_views(validation@) =~= seq![RuleView::NonEmpty]);
            assert(dependencies@ =~= seq![]);
        }
        TaskNode {
            id,
            job_id,
            title: title.to_owned(),
            description: description.to_owned(),
            kind,
            dependencies,
            required_capabilities: copy_capabilities(kind.required_capabilities()),
            estimated_complexity: 1,
            estimated_tokens: None,
            retry_policy: RetryPolicy::default(),
            timeout_seconds: 300,
            state: TaskState::Created,
            attempt: 0,
            stage,
            idempotency_key: key,
            validation,
        }
    }

    /// Declare dependencies.
    pub fn with_dependencies(self, dependencies: Vec<TaskId>) -> (r: Self)
        ensures
            r@ == (TaskView { dependencies: dependencies@, ..self@ }),
    {
        let mut r = self;
        r.dependencies = dependencies;
        r
    }

    /// Override the mechanical checks.
    pub fn with_validation(self, validation: Vec<ValidationRule>) -> (r: Self)
        ensures
            r@ == (TaskView { validation: rule_views(validation@), ..self@ }),
    {
        let mut r = self;
        r.validation = validation;
        r
    }

    /// Set the size estimate and the derived token estimate.
    pub fn with_complexity(self, complexity: u32) -> (r: Self)
        ensures
            r@ == self@.sized(complexity),
    {
        let mut r = self;
        let size: u32 = if complexity == 0 {
            1
        } else {
            complexity
        };
        r.estimated_complexity = size;
        r.estimated_tokens = Some(size as u64 * 400);
        r
    }

    /// Override retry behaviour.
    pub fn with_retry_policy(self, policy: RetryPolicy) -> (r: Self)
        ensures
            r@ == (TaskView { retry_policy: policy, ..self@ }),
    {
        let mut r = self;
        r.retry_policy = policy;
        r
    }

    /// Override the execution timeout.
    pub fn with_timeout_seconds(self, seconds: u64) -> (r: Self)
        ensures
            r@ == (TaskView { timeout_seconds: seconds, ..self@ }),
    {
        let mut r = self;
        r.timeout_seconds = seconds;
        r
    }

    /// Require extra capabilities on top of the kind's defaults.
    pub fn requiring(self, extra: &[Capability]) -> (r: Self)
        ensures
            r@ == (TaskView {
                required_capabilities: with_extra(self@.required_capabilities, extra@),
                ..self@
            }),
    {
        let mut list = copy_capabilities(self.required_capabilities.as_slice());
        for i in 0..extra.len()
            invariant
                list@ == with_extra(self@.required_capabilities, extra@.take(i as int)),
        {
            assert(extra@.take(i + 1).drop_last() =~= extra@.take(i as int));
            if !has_capability(list.as_slice(), extra[i]) {
                list.push(extra[i]);
            }
        }
        assert(extra@.take(extra@.len() as int) =~= extra@);
        let mut r = self;
        r.required_capabilities = list;
        r
    }

    /// Whether the task will never change state again.
    pub fn is_terminal(&self) -> (r: bool)
        ensures
            r == self@.state.finished(),
    {
        self.state.is_finished()
    }

    /// Whether every dependency is in `completed`.
    pub fn dependencies_satisfied(&self, completed: &Vec<TaskId>) -> (r: bool)
        ensures
            r == (forall|i: int|
                0 <= i < self@.dependencies.len() ==> completed@.contains(
                    #[trigger] self@.dependencies[i],
                )),
    {
        for i in 0..self.dependencies.len()
            invariant
                forall|k: int|
                    0 <= k < i ==> completed@.contains(#[trigger] self@.dependencies[k]),
        {
            if !has_task(completed, self.dependencies[i]) {
                assert(!completed@.contains(self@.dependencies[i as int]));
                return false;
            }
        }
        true
    }

    /// The idempotency key for a specific attempt.
    ///
    /// Attempts get distinct keys so a retry is allowed to do work, while a *duplicate
    /// delivery of the same attempt* is recognised and skipped.
    pub fn attempt_key(&self) -> (r: String)
        ensures
            r@ == self@.key_of_attempt(),
    {
        let mut r = self.idempotency_key.clone();
        r.append("#");
        r.append(decimal_text(self.attempt as u64).as_str());
        r
    }
}

impl Clone for TaskNode {
    fn clone(&self) -> (r: Self)
        ensures
            r@ == self@,
    {
        TaskNode {
            id: self.id,
            job_id: self.job_id,
            title: self.title.clone(),
            description: self.description.clone(),
            kind: self.kind,
            dependencies: copy_ids(&self.dependencies),
            required_capabilities: copy_capabilities(self.required_capabilities.as_slice()),
            estimated_complexity: self.estimated_complexity,
            estimated_tokens: self.estimated_tokens,
            retry_policy: self.retry_policy,
            timeout_seconds: self.timeout_seconds,
            state: self.state,
            attempt: self.attempt,
            stage: self.stage,
            idempotency_key: self.idempotency_key.clone(),
            validation: clone_rules(&self.validation),
        }
    }
}

/// Attempts of one task that differ in number differ in key.
pub proof fn law_attempts_have_distinct_keys(task: TaskView, first: u32, second: u32)
    requires
        first != second,
    ensures
        (TaskView { attempt: first, ..task }).key_of_attempt() != (TaskView {
            attempt: second,
            ..task
        }).key_of_attempt(),
{
    let head = task.idempotency_key + "#"@;
    let a = head + decimal(first as nat);
    let b = head + decimal(second as nat);
    if a == b {
        assert(a.skip(head.len() as int) =~= decimal(first as nat));
        assert(b.skip(head.len() as int) =~= decimal(second as nat));
        crate::text::lemma_decimal_injective(first as nat, second as nat);
    }
}

/// Whether a text can stand between separators: it has none in it.
spec fn unseparated(s: Seq<char>) -> bool {
    forall|i: int| 0 <= i < s.len() ==> #[trigger] s[i] != ':'
}

/// A field ends where its separator stands.
proof fn lemma_fields_apart(
    head: Seq<char>,
    one: Seq<char>,
    rest: Seq<char>,
    other: Seq<char>,
    other_rest: Seq<char>,
)
    requires
        unseparated(one),
        unseparated(other),
        head + one + ":"@ + rest == head + other + ":"@ + other_rest,
    ensures
        one == other,
        rest == other_rest,
{
    reveal_strlit(":");
    let a = head + one + ":"@ + rest;
    let b = head + other + ":"@ + other_rest;
    let n = head.len() as int;
    assert(a[n + one.len()] == ':');
    assert(b[n + other.len()] == ':');
    if one.len() < other.len() {
        assert(b[n + one.len()] == other[one.len() as int]);
    } else if other.len() < one.len() {
        assert(a[n + other.len()] == one[other.len() as int]);
    }
    assert(a.subrange(n, n + one.len()) =~= one);
    assert(b.subrange(n, n + other.len()) =~= other);
    assert(a.skip(n + one.len() + 1) =~= rest);
    assert(b.skip(n + other.len() + 1) =~= other_rest);
}

/// The label of a kind is its own, and no separator stands in it.
proof fn lemma_kind_labels(kind: TaskKind, other: TaskKind)
    ensures
        unseparated(kind.label()),
        kind != other ==> kind.label() != other.label(),
{
    reveal_strlit("plan");
    reveal_strlit("subplan");
    reveal_strlit("work");
    reveal_strlit("map");
    reveal_strlit("reduce");
    reveal_strlit("answer");
    reveal_strlit("critique");
    reveal_strlit("verify");
    reveal_strlit("judge");
    reveal_strlit("vote");
    reveal_strlit("merge");
    reveal_strlit("summarize");
    reveal_strlit("supervise");
    assert(kind != other && kind.label().len() == other.label().len() ==> kind.label()[0]
        != other.label()[0] || kind.label()[2] != other.label()[2]);
}

/// Tasks of one job have different keys unless they agree in everything that a key holds: the
/// stage, the kind, and both the slug and the hash of the title.
pub proof fn law_keys_tell_tasks_apart(
    job_id: JobId,
    stage: u32,
    kind: TaskKind,
    title: Seq<char>,
    other_stage: u32,
    other_kind: TaskKind,
    other_title: Seq<char>,
)
    requires
        stage != other_stage || kind != other_kind || slug_of(title) != slug_of(other_title) || fnv(
            OFFSET,
            encode_utf8(title),
        ) != fnv(OFFSET, encode_utf8(other_title)),
    ensures
        task_key(job_id, stage, kind, title) != task_key(
            job_id,
            other_stage,
            other_kind,
            other_title,
        ),
{
    let a = task_key(job_id, stage, kind, title);
    let b = task_key(job_id, other_stage, other_kind, other_title);
    if a == b {
        let job = job_id.text() + ":"@;
        let da = decimal(stage as nat);
        let db = decimal(other_stage as nat);
        let ha = fnv(OFFSET, encode_utf8(title)) as nat;
        let hb = fnv(OFFSET, encode_utf8(other_title)) as nat;
        let xa = slug_of(title) + ":"@ + hex_fixed(ha, 16);
        let xb = slug_of(other_title) + ":"@ + hex_fixed(hb, 16);
        let ra = kind.label() + ":"@ + xa;
        let rb = other_kind.label() + ":"@ + xb;
        crate::text::lemma_decimal_digits(stage as nat);
        crate::text::lemma_decimal_digits(other_stage as nat);
        assert(a =~= job + da + ":"@ + ra);
        assert(b =~= job + db + ":"@ + rb);
        lemma_fields_apart(job, da, ra, db, rb);
        crate::text::lemma_decimal_injective(stage as nat, other_stage as nat);
        lemma_kind_labels(kind, other_kind);
        lemma_kind_labels(other_kind, kind);
        let none: Seq<char> = seq![];
        assert(ra =~= none + kind.label() + ":"@ + xa);
        assert(rb =~= none + other_kind.label() + ":"@ + xb);
        lemma_fields_apart(none, kind.label(), xa, other_kind.label(), xb);
        law_slugs_are_bounded_and_tidy(title);
        law_slugs_are_bounded_and_tidy(other_title);
        assert(xa =~= none + slug_of(title) + ":"@ + hex_fixed(ha, 16));
        assert(xb =~= none + slug_of(other_title) + ":"@ + hex_fixed(hb, 16));
        lemma_fields_apart(
            none,
            slug_of(title),
            hex_fixed(ha, 16),
            slug_of(other_title),
            hex_fixed(hb, 16),
        );
        reveal_with_fuel(crate::text::hex_range, 17);
        assert(crate::text::hex_range(16) == 0x1_0000_0000_0000_0000);
        crate::text::lemma_hex_fixed_injective(ha, hb, 16);
    }
}

/// A new task is the same whenever it is built, but for its name and its instruction: it keeps
/// its key, it has not been worked on, it waits for nothing, it asks for what its kind asks
/// for, and its output must not be empty. Two of them have different names where the names
/// they were given differ.
pub proof fn law_new_tasks_start_alike(
    first: TaskId,
    second: TaskId,
    job_id: JobId,
    kind: TaskKind,
    title: Seq<char>,
    description: Seq<char>,
    other: Seq<char>,
    stage: u32,
)
    ensures
        ({
            let a = TaskView::created(first, job_id, kind, title, description, stage);
            let b = TaskView::created(second, job_id, kind, title, other, stage);
            &&& a.idempotency_key == b.idempotency_key
            &&& (a.id == b.id <==> first == second)
            &&& a.state == TaskState::Created
            &&& a.attempt == 0
            &&& a.dependencies.len() == 0
            &&& a.required_capabilities == kind.requires_capabilities()
            &&& a.validation == seq![RuleView::NonEmpty]
            &&& b == (TaskView { id: second, description: other, ..a })
        }),
{
}

/// Longest slug, before stray separators are dropped.
pub const SLUG_LEN: usize = 48;

/// The slug read so far, extended by the characters of `s`: letters and digits in lower
/// case, one dash for every run of anything else, up to the length limit.
pub open spec fn slug_from(s: Seq<char>, out: Seq<char>) -> Seq<char>
    decreases s.len(),
{
    if s.len() == 0 {
        out
    } else {
        let next = slug_step(out, s[0]);
        if next.len() >= SLUG_LEN {
            next
        } else {
            slug_from(s.skip(1), next)
        }
    }
}

/// The slug read so far, extended by one character.
pub open spec fn slug_step(out: Seq<char>, c: char) -> Seq<char> {
    if is_ascii_alphanumeric(c) {
        out.push(ascii_lower(c))
    } else if out.len() > 0 && out.last() != '-' {
        out.push('-')
    } else {
        out
    }
}

/// A text without its trailing dashes.
pub open spec fn without_dashes(s: Seq<char>) -> Seq<char>
    decreases s.len(),
{
    if s.len() > 0 && s.last() == '-' {
        without_dashes(s.drop_last())
    } else {
        s
    }
}

/// Lowercase, hyphenated, ASCII-only form of `title`, truncated for use in keys.
pub open spec fn slug_of(title: Seq<char>) -> Seq<char> {
    without_dashes(slug_from(title, seq![]))
}

/// Lowercase, hyphenated, ASCII-only form of `input`, truncated for use in keys.
pub fn slug(input: &str) -> (r: String)
    ensures
        r@ == slug_of(input@),
{
    let chars = chars_of(input);
    let mut out: Vec<char> = Vec::new();
    let mut i: usize = 0;
    assert(chars@.skip(0) =~= chars@);
    assert(out@ =~= seq![]);
    while i < chars.len() && out.len() < SLUG_LEN
        invariant
            i <= chars.len(),
            chars@ == input@,
            out@.len() < SLUG_LEN ==> slug_from(input@, seq![]) == slug_from(
                chars@.skip(i as int),
                out@,
            ),
            out@.len() >= SLUG_LEN ==> slug_from(input@, seq![]) == out@,
        decreases chars.len() - i,
    {
        let ghost before = out@;
        let c: char = chars[i];
        assert(chars@.skip(i as int)[0] == c);
        assert(chars@.skip(i as int).skip(1) =~= chars@.skip(i + 1));
        if ascii_alphanumeric(c) {
            out.push(to_ascii_lower(c));
        } else if out.len() > 0 && out[out.len() - 1] != '-' {
            out.push('-');
        }
        assert(out@ == slug_step(before, c));
        i += 1;
    }
    assert(i >= chars@.len() ==> chars@.skip(i as int).len() == 0);
    assert(out@ == slug_from(input@, seq![]));
    while out.len() > 0 && out[out.len() - 1] == '-'
        invariant
            slug_of(input@) == without_dashes(out@),
        decreases out.len(),
    {
        let ghost before = out@;
        out.pop();
        assert(out@ =~= before.drop_last());
    }
    string_of(&out)
}

/// A slug is at most 48 characters of lower case ASCII letters, digits, and dashes, and no
/// dash stands at either end or beside another.
pub proof fn law_slugs_are_bounded_and_tidy(title: Seq<char>)
    ensures
        slug_of(title).len() <= 48,
        slug_tidy(slug_of(title)),
        slug_of(title).len() > 0 ==> slug_of(title).last() != '-',
{
    lemma_slug_from(title, seq![]);
    lemma_without_dashes(slug_from(title, seq![]));
}

/// Whether a text consists of lower case ASCII letters, digits, and single dashes, none of
/// them in front.
pub open spec fn slug_tidy(s: Seq<char>) -> bool {
    &&& forall|i: int|
        0 <= i < s.len() ==> (('0' <= #[trigger] s[i] <= '9') || ('a' <= s[i] <= 'z') || (s[i]
            == '-' && i > 0 && s[i - 1] != '-'))
}

proof fn lemma_slug_from(s: Seq<char>, out: Seq<char>)
    requires
        slug_tidy(out),
        out.len() < SLUG_LEN,
    ensures
        slug_tidy(slug_from(s, out)),
        slug_from(s, out).len() <= SLUG_LEN,
    decreases s.len(),
{
    if s.len() > 0 {
        let next = slug_step(out, s[0]);
        assert(slug_tidy(next)) by {
            assert forall|i: int| 0 <= i < next.len() implies (('0' <= #[trigger] next[i] <= '9')
                || ('a' <= next[i] <= 'z') || (next[i] == '-' && i > 0 && next[i - 1] != '-')) by {
                if i < out.len() {
                    assert(next[i] == out[i]);
                }
            }
        }
        if next.len() < SLUG_LEN {
            lemma_slug_from(s.skip(1), next);
        }
    }
}

proof fn lemma_without_dashes(s: Seq<char>)
    requires
        slug_tidy(s),
    ensures
        slug_tidy(without_dashes(s)),
        without_dashes(s).len() <= s.len(),
        without_dashes(s).len() > 0 ==> without_dashes(s).last() != '-',
    decreases s.len(),
{
    if s.len() > 0 && s.last() == '-' {
        let t = s.drop_last();
        assert forall|i: int| 0 <= i < t.len() implies (('0' <= #[trigger] t[i] <= '9') || ('a'
            <= t[i] <= 'z') || (t[i] == '-' && i > 0 && t[i - 1] != '-')) by {
            assert(t[i] == s[i]);
        }
        lemma_without_dashes(t);
    }
}

// ---------------------------------------------------------------------------
// Outcomes
// ---------------------------------------------------------------------------
/// The outcome of one successful task attempt.
#[derive(Debug)]
pub struct TaskResult {
    /// Task that produced this.
    pub task_id: TaskId,
    /// Owning job.
    pub job_id: JobId,
    /// Agent that produced it.
    pub agent_id: AgentId,
    /// Attempt number, 1-based.
    pub attempt: u32,
    /// Task kind, copied so consumers do not need the graph.
    pub kind: TaskKind,
    /// Task title, copied for the same reason.
    pub title: String,
    /// Raw output text.
    pub output: String,
    /// Parsed structured form of the output.
    pub structured: serde_json::Value,
    /// Citations the agent offered.
    pub evidence: Vec<Evidence>,
    /// Short summary of the agent's approach (never raw chain-of-thought).
    pub reasoning_summary: String,
    /// Agent-reported confidence, from zero to one.
    pub confidence: Real32,
    /// Mechanical checks that failed; empty means the output is acceptable.
    pub validation_failures: Vec<String>,
    /// Prompt tokens consumed.
    pub tokens_in: u64,
    /// Completion tokens produced.
    pub tokens_out: u64,
    /// Estimated spend for this attempt.
    pub cost_usd: Real64,
    /// Execution time.
    pub duration_ms: u64,
    /// Whether the result was served from a prior identical attempt.
    pub deduplicated: bool,
    /// When the attempt finished.
    pub finished_at: Timestamp,
}

/// A result, with its texts and lists as sequences.
pub struct TaskResultView {
    /// Task that produced this.
    pub task_id: TaskId,
    /// Owning job.
    pub job_id: JobId,
    /// Agent that produced it.
    pub agent_id: AgentId,
    /// Attempt number.
    pub attempt: u32,
    /// Task kind.
    pub kind: TaskKind,
    /// Task title.
    pub title: Seq<char>,
    /// Raw output text.
    pub output: Seq<char>,
    /// Parsed structured form.
    pub structured: JsonView,
    /// Citations.
    pub evidence: Seq<EvidenceView>,
    /// Summary of the agent's approach.
    pub reasoning_summary: Seq<char>,
    /// Agent-reported confidence.
    pub confidence: Real32,
    /// Mechanical checks that failed.
    pub validation_failures: Seq<Seq<char>>,
    /// Prompt tokens consumed.
    pub tokens_in: u64,
    /// Completion tokens produced.
    pub tokens_out: u64,
    /// Estimated spend.
    pub cost_usd: Real64,
    /// Execution time.
    pub duration_ms: u64,
    /// Whether the result came from a prior identical attempt.
    pub deduplicated: bool,
    /// When the attempt finished.
    pub finished_at: Timestamp,
}

impl View for TaskResult {
    type V = TaskResultView;

    open spec fn view(&self) -> TaskResultView {
        TaskResultView {
            task_id: self.task_id,
            job_id: self.job_id,
            agent_id: self.agent_id,
            attempt: self.attempt,
            kind: self.kind,
            title: self.title@,
            output: self.output@,
            structured: json_content(self.structured),
            evidence: evidence_views(self.evidence@),
            reasoning_summary: self.reasoning_summary@,
            confidence: self.confidence,
            validation_failures: views(self.validation_failures@),
            tokens_in: self.tokens_in,
            tokens_out: self.tokens_out,
            cost_usd: self.cost_usd,
            duration_ms: self.duration_ms,
            deduplicated: self.deduplicated,
            finished_at: self.finished_at,
        }
    }
}

/// The results behind a list.
pub open spec fn result_views(list: Seq<TaskResult>) -> Seq<TaskResultView> {
    list.map_values(|item: TaskResult| item@)
}

impl TaskResultView {
    /// Whether every mechanical check passed.
    pub open spec fn passed(self) -> bool {
        self.validation_failures.len() == 0
    }
}

impl TaskResult {
    /// Whether every mechanical check passed.
    pub fn passed_validation(&self) -> (r: bool)
        ensures
            r == self@.passed(),
    {
        assert(self@.validation_failures.len() == self.validation_failures@.len());
        self.validation_failures.len() == 0
    }
}

impl Clone for TaskResult {
    fn clone(&self) -> (r: Self)
        ensures
            r@ == self@,
    {
        TaskResult {
            task_id: self.task_id,
            job_id: self.job_id,
            agent_id: self.agent_id,
            attempt: self.attempt,
            kind: self.kind,
            title: self.title.clone(),
            output: self.output.clone(),
            structured: clone_json(&self.structured),
            evidence: clone_evidence(&self.evidence),
            reasoning_summary: self.reasoning_summary.clone(),
            confidence: self.confidence,
            validation_failures: clone_strings(&self.validation_failures),
            tokens_in: self.tokens_in,
            tokens_out: self.tokens_out,
            cost_usd: self.cost_usd,
            duration_ms: self.duration_ms,
            deduplicated: self.deduplicated,
            finished_at: self.finished_at,
        }
    }
}

/// A failed attempt, kept for the failure inspection API.
#[derive(Debug)]
pub struct TaskFailure {
    /// Task that failed.
    pub task_id: TaskId,
    /// Task title, for readable output.
    pub title: String,
    /// Attempt number, 1-based.
    pub attempt: u32,
    /// Machine-readable error class.
    pub error_kind: String,
    /// Human-readable detail.
    pub error_message: String,
    /// Whether the task is out of attempts.
    pub dead_lettered: bool,
    /// Mechanical checks that failed, when that was the cause.
    pub validation_failures: Vec<String>,
    /// When it happened.
    pub at: Timestamp,
}

/// A failure, with its texts and lists as sequences.
pub struct TaskFailureView {
    /// Task that failed.
    pub task_id: TaskId,
    /// Task title.
    pub title: Seq<char>,
    /// Attempt number.
    pub attempt: u32,
    /// Machine-readable error class.
    pub error_kind: Seq<char>,
    /// Human-readable detail.
    pub error_message: Seq<char>,
    /// Whether the task is out of attempts.
    pub dead_lettered: bool,
    /// Mechanical checks that failed.
    pub validation_failures: Seq<Seq<char>>,
    /// When it happened.
    pub at: Timestamp,
}

impl View for TaskFailure {
    type V = TaskFailureView;

    open spec fn view(&self) -> TaskFailureView {
        TaskFailureView {
            task_id: self.task_id,
            title: self.title@,
            attempt: self.attempt,
            error_kind: self.error_kind@,
            error_message: self.error_message@,
            dead_lettered: self.dead_lettered,
            validation_failures: views(self.validation_failures@),
            at: self.at,
        }
    }
}

/// The failures behind a list.
pub open spec fn failure_views(list: Seq<TaskFailure>) -> Seq<TaskFailureView> {
    list.map_values(|item: TaskFailure| item@)
}

impl Clone for TaskFailure {
    fn clone(&self) -> (r: Self)
        ensures
            r@ == self@,
    {
        TaskFailure {
            task_id: self.task_id,
            title: self.title.clone(),
            attempt: self.attempt,
            error_kind: self.error_kind.clone(),
            error_message: self.error_message.clone(),
            dead_lettered: self.dead_lettered,
            validation_failures: clone_strings(&self.validation_failures),
            at: self.at,
        }
    }
}

/// A resumable snapshot of partial progress inside a task attempt.
#[derive(Debug)]
pub struct Checkpoint {
    /// Task the checkpoint belongs to.
    pub task_id: TaskId,
    /// Attempt that wrote it.
    pub attempt: u32,
    /// Monotonic sequence within the attempt.
    pub seq: u32,
    /// Short label, e.g. `started`, `partial_answer`.
    pub label: String,
    /// The resumable state.
    pub state: serde_json::Value,
    /// When it was written.
    pub created_at: Timestamp,
}

impl Checkpoint {
    /// Build a checkpoint stamped with the current time, which the clock decides.
    pub fn new(
        task_id: TaskId,
        attempt: u32,
        seq: u32,
        label: &str,
        state: serde_json::Value,
    ) -> (r: Self)
        ensures
            r.task_id == task_id,
            r.attempt == attempt,
            r.seq == seq,
            r.label@ == label@,
            r.state == state,
    {
        Checkpoint {
            task_id,
            attempt,
            seq,
            label: label.to_owned(),
            state,
            created_at: Timestamp::now(),
        }
    }
}

/// Every broken rule is reported, in the words of the rule, and nothing else is: an output
/// passes exactly where it breaks none.
pub proof fn law_every_broken_rule_is_reported(output: Seq<char>, rules: Seq<RuleView>)
    ensures
        output_failures(output, rules).len() == 0 <==> forall|i: int|
            0 <= i < rules.len() ==> (#[trigger] rules[i]).failure(output) is None,
        forall|i: int|
            0 <= i < rules.len() ==> ((#[trigger] rules[i]).failure(output) matches Some(text)
                ==> output_failures(output, rules).contains(text)),
        output_failures(output, rules).len() <= rules.len(),
        forall|k: int|
            0 <= k < output_failures(output, rules).len() ==> exists|i: int|
                0 <= i < rules.len() && (#[trigger] rules[i]).failure(output) == Some(
                    #[trigger] output_failures(output, rules)[k],
                ),
    decreases rules.len(),
{
    let all = output_failures(output, rules);
    if rules.len() > 0 {
        let front = rules.drop_last();
        let rest = output_failures(output, front);
        law_every_broken_rule_is_reported(output, front);
        assert(rules[rules.len() - 1] == rules.last());
        assert forall|i: int| 0 <= i < front.len() implies #[trigger] front[i] == rules[i] by {}
        assert forall|i: int| 0 <= i < rules.len() implies ((#[trigger] rules[i]).failure(
            output,
        ) matches Some(text) ==> all.contains(text)) by {
            if let Some(text) = rules[i].failure(output) {
                if i < front.len() {
                    assert(front[i].failure(output) == Some(text));
                    let k = rest.index_of(text);
                    assert(all[k] == text);
                } else {
                    assert(all[rest.len() as int] == text);
                }
            }
        }
        assert forall|k: int| 0 <= k < all.len() implies exists|i: int|
            0 <= i < rules.len() && (#[trigger] rules[i]).failure(output) == Some(
                #[trigger] all[k],
            ) by {
            if k < rest.len() {
                assert(all[k] == rest[k]);
                let i = choose|i: int|
                    0 <= i < front.len() && (#[trigger] front[i]).failure(output) == Some(rest[k]);
                assert(rules[i].failure(output) == Some(all[k]));
            } else {
                assert(rules[rules.len() - 1].failure(output) == Some(all[k]));
            }
        }
        if all.len() == 0 {
            assert forall|i: int| 0 <= i < rules.len() implies (#[trigger] rules[i]).failure(
                output,
            ) is None by {
                if i < front.len() {
                    assert(front[i].failure(output) is None);
                }
            }
        }
    }
}

/// A rule against empty outputs is met by any character that is no white space, and by nothing
/// less.
pub proof fn law_an_output_needs_substance(output: Seq<char>)
    ensures
        RuleView::NonEmpty.failure(output) is None <==> exists|i: int|
            0 <= i < output.len() && !is_space(#[trigger] output[i]),
{
}

/// A rule on the number of words is met from that number on: no output has too many, every
/// output has none, and what has enough for one number has enough for a smaller one.
pub proof fn law_enough_words_are_enough(output: Seq<char>, more: usize, fewer: usize)
    requires
        fewer <= more,
    ensures
        RuleView::MinWords(0).failure(output) is None,
        RuleView::MinWords(more).failure(output) is None ==> RuleView::MinWords(fewer).failure(
            output,
        ) is None,
        words(output).len() == more ==> RuleView::MinWords(more).failure(output) is None,
        words(output).len() + 1 == more ==> RuleView::MinWords(more).failure(output) is Some,
{
}

/// What is to be mentioned is mentioned by any text that has it somewhere, whatever the case of
/// its letters, and is named where it is not.
pub proof fn law_a_mention_counts_anywhere(
    before: Seq<char>,
    needle: Seq<char>,
    after: Seq<char>,
    output: Seq<char>,
)
    requires
        lowercase(output) == before + lowercase(needle) + after,
    ensures
        RuleView::MustMention(needle).failure(output) is None,
{
    lemma_holds_between(before, lowercase(needle), after);
}

/// The complaint about a missing mention names what is missing.
pub proof fn law_a_missing_mention_is_named(needle: Seq<char>, output: Seq<char>)
    ensures
        RuleView::MustMention(needle).failure(output) matches Some(text) ==> holds(text, needle),
{
    lemma_holds_between("output does not mention `"@, needle, "`"@);
}

/// The missing keys are those wanted ones that a value lacks.
proof fn lemma_missing_keys(wanted: Seq<Seq<char>>, value: JsonView)
    ensures
        forall|key: Seq<char>| #[trigger]
            missing_keys(wanted, value).contains(key) <==> wanted.contains(key) && value.member(
                key,
            ) is None,
    decreases wanted.len(),
{
    reveal(Seq::filter);
    let missing = missing_keys(wanted, value);
    if wanted.len() > 0 {
        let front = wanted.drop_last();
        let rest = missing_keys(front, value);
        lemma_missing_keys(front, value);
        assert forall|key: Seq<char>| #[trigger] missing.contains(key) <==> wanted.contains(key)
            && value.member(key) is None by {
            assert(wanted[wanted.len() - 1] == wanted.last());
            if front.contains(key) {
                let i = front.index_of(key);
                assert(wanted[i] == key);
            }
            if wanted.contains(key) && key != wanted.last() {
                let i = wanted.index_of(key);
                assert(front[i] == key);
            }
            if rest.contains(key) {
                let i = rest.index_of(key);
                assert(missing[i] == key);
            }
            if missing.contains(key) {
                let i = missing.index_of(key);
                if i < rest.len() {
                    assert(rest[i] == key);
                }
            }
            if value.member(wanted.last()) is None {
                assert(missing[rest.len() as int] == wanted.last());
            }
        }
    }
}

/// An object passes exactly where it has every wanted key, and every key it lacks is named.
pub proof fn law_missing_keys_are_named(wanted: Seq<Seq<char>>, members: Map<Seq<char>, JsonView>)
    ensures
        key_failure(wanted, Ok(JsonView::Object(members))) is None <==> forall|i: int|
            0 <= i < wanted.len() ==> members.contains_key(#[trigger] wanted[i]),
        key_failure(wanted, Ok(JsonView::Object(members))) matches Some(text) ==> forall|i: int|
            0 <= i < wanted.len() && !members.contains_key(#[trigger] wanted[i]) ==> holds(
                text,
                wanted[i],
            ),
{
    let value = JsonView::Object(members);
    let missing = missing_keys(wanted, value);
    lemma_missing_keys(wanted, value);
    if missing.len() > 0 {
        assert(missing.contains(missing[0]));
        let i = wanted.index_of(missing[0]);
        assert(!members.contains_key(wanted[i]));
    }
    assert forall|i: int|
        0 <= i < wanted.len() && !members.contains_key(#[trigger] wanted[i]) implies missing.len()
        > 0 && holds("JSON output is missing keys: "@ + joined(missing, ", "@), wanted[i]) by {
        assert(wanted.contains(wanted[i]));
        assert(missing.contains(wanted[i]));
        let k = missing.index_of(wanted[i]);
        law_joined_texts_hold_each(missing, ", "@, k);
        lemma_holds_later("JSON output is missing keys: "@, joined(missing, ", "@), wanted[i]);
    }
}

/// What is no object, or no JSON at all, never has its keys.
pub proof fn law_only_objects_have_keys(
    wanted: Seq<Seq<char>>,
    parsed: Result<JsonView, Seq<char>>,
)
    ensures
        key_failure(wanted, parsed) is None ==> parsed is Ok && parsed->Ok_0 is Object,
{
}

/// Without jitter the first wait is the base, and each wait is twice the one before until the
/// cap is reached.
pub proof fn law_backoff_doubles_up_to_the_cap(policy: RetryPolicy, attempt: u32, nonce: u64)
    requires
        !policy.jitter,
        1 <= attempt < 20,
    ensures
        policy.backoff_base_ms <= policy.backoff_max_ms ==> policy.backoff(1, nonce)
            == policy.backoff_base_ms,
        policy.backoff((attempt + 1) as u32, nonce) == if 2 * policy.backoff(attempt, nonce)
            <= policy.backoff_max_ms {
            2 * policy.backoff(attempt, nonce)
        } else {
            policy.backoff_max_ms as nat
        } || policy.backoff(attempt, nonce) == policy.backoff_max_ms,
        policy.backoff(attempt, nonce) == policy.backoff_max_ms ==> policy.backoff(
            (attempt + 1) as u32,
            nonce,
        ) == policy.backoff_max_ms,
{
    let n = (attempt - 1) as nat;
    let base = policy.backoff_base_ms as nat;
    assert(RetryPolicy::doublings(attempt) == n);
    assert(RetryPolicy::doublings((attempt + 1) as u32) == n + 1);
    assert(RetryPolicy::doublings(1) == 0);
    assert(doubled(0) == 1);
    assert(base * 1 == base);
    assert(doubled(n + 1) == 2 * doubled(n));
    assert(base * (2 * doubled(n)) == 2 * (base * doubled(n))) by (nonlinear_arith);
    if base == 0 {
        assert(base * doubled(n) == 0) by (nonlinear_arith)
            requires
                base == 0,
        ;
    }
}

/// Asking for more capabilities keeps those that were asked for, in their order, and adds every
/// new one once.
pub proof fn law_extra_capabilities_are_added(required: Seq<Capability>, extra: Seq<Capability>)
    ensures
        with_extra(required, extra).len() >= required.len(),
        with_extra(required, extra).take(required.len() as int) == required,
        forall|c: Capability| #[trigger]
            with_extra(required, extra).contains(c) <==> required.contains(c) || extra.contains(c),
        required.no_duplicates() ==> with_extra(required, extra).no_duplicates(),
    decreases extra.len(),
{
    let all = with_extra(required, extra);
    if extra.len() == 0 {
        assert(all.take(required.len() as int) =~= required);
    } else {
        let front = extra.drop_last();
        let before = with_extra(required, front);
        law_extra_capabilities_are_added(required, front);
        assert(all.take(required.len() as int) =~= before.take(required.len() as int));
        assert forall|c: Capability| #[trigger] all.contains(c) <==> required.contains(c)
            || extra.contains(c) by {
            if front.contains(c) {
                let i = front.index_of(c);
                assert(extra[i] == c);
            }
            if extra.contains(c) {
                let i = extra.index_of(c);
                if i < front.len() {
                    assert(front[i] == c);
                } else {
                    assert(c == extra.last());
                }
            }
            assert(extra[extra.len() - 1] == extra.last());
            if before.contains(c) {
                let i = before.index_of(c);
                assert(all[i] == c);
            }
            if all.contains(c) {
                let i = all.index_of(c);
                if i < before.len() {
                    assert(before[i] == c);
                }
            }
            if !before.contains(extra.last()) {
                assert(all[before.len() as int] == extra.last());
            }
        }
    }
}

/// A size is at least one, and its estimate is four hundred tokens for each step of it.
pub proof fn law_larger_tasks_cost_more(task: TaskView, complexity: u32, larger: u32)
    requires
        complexity <= larger,
    ensures
        task.sized(complexity).estimated_complexity >= 1,
        complexity >= 1 ==> task.sized(complexity).estimated_complexity == complexity,
        task.sized(complexity).estimated_tokens matches Some(few) && task.sized(
            larger,
        ).estimated_tokens matches Some(many) && few <= many && few == 400 * task.sized(
            complexity,
        ).estimated_complexity,
        task.sized(complexity).id == task.id,
        task.sized(complexity).idempotency_key == task.idempotency_key,
{
}

} // verus!
