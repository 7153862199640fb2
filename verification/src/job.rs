//! Job submission, job lifecycle, and the shape of a finished job's result.

use crate::agent::{copy_capabilities, Capability};
use crate::clock::Timestamp;
use crate::error::{ErrorView, SwarmError};
use crate::figures::{Real32, Real64, INFINITY_BITS_64};
use crate::ids::{CorrelationId, JobId, TaskId};
use crate::json::{clone_json, json_content, JsonView};
use crate::order::{ascending, law_sorting_keeps_everything, sort_numbers};
use crate::text::{ascii_alphanumeric, ascii_lowercase, chars_of, clone_option, clone_strings,
    decimal, decimal_text, is_ascii_alphanumeric, is_blank, is_space, join, joined,
    lemma_blank_trims_to_nothing, lemma_filter_push, option_view, same_text, to_ascii_lower,
    to_ascii_lowercase, trim, trimmed, views};
use std::str::FromStr;
use vstd::prelude::*;
use vstd::string::*;
use vstd::utf8::encode_utf8;

verus! {

/// Scheduling priority. Higher priorities are dequeued first and may preempt.
#[derive(Clone, Copy, Debug, PartialEq, Eq, Structural, PartialOrd, Ord, Hash)]
pub enum Priority {
    /// Best-effort background work.
    Low,
    /// The default.
    Normal,
    /// Ahead of normal work.
    High,
    /// Ahead of everything; may preempt running low-priority tasks.
    Critical,
}

impl Default for Priority {
    fn default() -> (r: Self)
        ensures
            r == Priority::Normal,
    {
        Priority::Normal
    }
}

impl Priority {
    /// Numeric weight used by queue ordering.
    pub open spec fn rank(self) -> u8 {
        match self {
            Priority::Low => 0,
            Priority::Normal => 1,
            Priority::High => 2,
            Priority::Critical => 3,
        }
    }

    /// The stable label of a priority.
    pub open spec fn label(self) -> Seq<char> {
        match self {
            Priority::Low => "low"@,
            Priority::Normal => "normal"@,
            Priority::High => "high"@,
            Priority::Critical => "critical"@,
        }
    }

    /// The priority that goes by a name.
    pub open spec fn named(name: Seq<char>) -> Option<Priority> {
        if name == "low"@ {
            Some(Priority::Low)
        } else if name == "normal"@ || name == "medium"@ {
            Some(Priority::Normal)
        } else if name == "high"@ {
            Some(Priority::High)
        } else if name == "critical"@ || name == "urgent"@ {
            Some(Priority::Critical)
        } else {
            None
        }
    }

    /// Numeric weight used by queue ordering and the database column.
    pub fn weight(self) -> (r: u8)
        ensures
            r == self.rank(),
    {
        match self {
            Self::Low => 0,
            Self::Normal => 1,
            Self::High => 2,
            Self::Critical => 3,
        }
    }

    /// The stable label of a priority.
    pub fn to_string(&self) -> (r: String)
        ensures
            r@ == self.label(),
    {
        match self {
            Self::Low => "low".to_owned(),
            Self::Normal => "normal".to_owned(),
            Self::High => "high".to_owned(),
            Self::Critical => "critical".to_owned(),
        }
    }

    /// Read a priority, whatever its case and the white space around it.
    pub fn from_str(s: &str) -> (r: Result<Self, SwarmError>)
        ensures
            match r {
                Ok(priority) => Self::named(ascii_lowercase(trimmed(s@))) == Some(priority),
                Err(error) => {
                    &&& Self::named(ascii_lowercase(trimmed(s@))) is None
                    &&& error@ == ErrorView::Config(
                        "unknown priority `"@ + ascii_lowercase(trimmed(s@)) + "`"@,
                    )
                },
            },
    {
        let name = to_ascii_lowercase(trim(s).as_str());
        if same_text(name.as_str(), "low") {
            Ok(Self::Low)
        } else if same_text(name.as_str(), "normal") || same_text(name.as_str(), "medium") {
            Ok(Self::Normal)
        } else if same_text(name.as_str(), "high") {
            Ok(Self::High)
        } else if same_text(name.as_str(), "critical") || same_text(name.as_str(), "urgent") {
            Ok(Self::Critical)
        } else {
            let mut message = "unknown priority `".to_owned();
            message.append(name.as_str());
            message.append("`");
            Err(SwarmError::Config(message))
        }
    }
}

impl FromStr for Priority {
    type Err = SwarmError;

    fn from_str(s: &str) -> Result<Self, SwarmError> {
        Priority::from_str(s)
    }
}

/// How a job's work is organised into a task graph.
///
/// The strategy picks a *shape*, not an implementation: each one compiles to a
/// different DAG topology (see [`crate::decompose`]).
#[derive(Clone, Copy, Debug, PartialEq, Eq, Structural, Hash)]
pub enum ExecutionStrategy {
    /// One task after another; each sees the previous output.
    Sequential,
    /// Plan, fan out independent work, merge.
    Parallel,
    /// Plan, sub-plan, fan out, merge, verify.
    Hierarchical,
    /// Independent answers, mutual critique, judge picks.
    Debate,
    /// Map over partitions, then reduce.
    MapReduce,
    /// A planner emits work for dedicated executors, then a verifier checks it.
    PlannerExecutor,
    /// A supervisor assigns and reviews worker output.
    SupervisorWorker,
    /// Independent answers, then an explicit consensus round.
    Consensus,
    /// Starts with a plan only; agents insert tasks as they discover work.
    Adaptive,
}

impl Default for ExecutionStrategy {
    fn default() -> (r: Self)
        ensures
            r == ExecutionStrategy::Parallel,
    {
        ExecutionStrategy::Parallel
    }
}

/// The ASCII letters and digits of a text, in lower case.
pub open spec fn squeezed(s: Seq<char>) -> Seq<char> {
    ascii_lowercase(s.filter(|c: char| is_ascii_alphanumeric(c)))
}

/// The ASCII letters and digits of a text, in lower case.
fn squeeze(s: &str) -> (r: String)
    ensures
        r@ == squeezed(s@),
{
    let chars = chars_of(s);
    let ghost keep = |c: char| is_ascii_alphanumeric(c);
    let mut r = String::new();
    assert(s@.take(0).filter(keep) =~= seq![]) by {
        reveal(Seq::filter);
    }
    assert(ascii_lowercase(seq![]) =~= seq![]);
    assert(r@ =~= seq![]);
    for i in 0..chars.len()
        invariant
            chars@ == s@,
            keep == |c: char| is_ascii_alphanumeric(c),
            r@ == ascii_lowercase(s@.take(i as int).filter(keep)),
    {
        let ghost taken = s@.take(i as int);
        proof {
            lemma_filter_push(taken, s@[i as int], keep);
            assert(s@.take(i + 1) =~= taken.push(s@[i as int]));
        }
        if ascii_alphanumeric(chars[i]) {
            r.push(to_ascii_lower(chars[i]));
            assert(r@ =~= ascii_lowercase(taken.filter(keep).push(s@[i as int])));
        }
    }
    assert(s@.take(s@.len() as int) =~= s@);
    r
}

impl ExecutionStrategy {
    /// Every strategy, in declaration order.
    pub open spec fn every() -> Seq<ExecutionStrategy> {
        seq![
            ExecutionStrategy::Sequential,
            ExecutionStrategy::Parallel,
            ExecutionStrategy::Hierarchical,
            ExecutionStrategy::Debate,
            ExecutionStrategy::MapReduce,
            ExecutionStrategy::PlannerExecutor,
            ExecutionStrategy::SupervisorWorker,
            ExecutionStrategy::Consensus,
            ExecutionStrategy::Adaptive,
        ]
    }

    /// The stable label of a strategy.
    pub open spec fn label(self) -> Seq<char> {
        match self {
            ExecutionStrategy::Sequential => "sequential"@,
            ExecutionStrategy::Parallel => "parallel"@,
            ExecutionStrategy::Hierarchical => "hierarchical"@,
            ExecutionStrategy::Debate => "debate"@,
            ExecutionStrategy::MapReduce => "map_reduce"@,
            ExecutionStrategy::PlannerExecutor => "planner_executor"@,
            ExecutionStrategy::SupervisorWorker => "supervisor_worker"@,
            ExecutionStrategy::Consensus => "consensus"@,
            ExecutionStrategy::Adaptive => "adaptive"@,
        }
    }

    /// The label of a strategy without its underscores.
    pub open spec fn compact(self) -> Seq<char> {
        match self {
            ExecutionStrategy::Sequential => "sequential"@,
            ExecutionStrategy::Parallel => "parallel"@,
            ExecutionStrategy::Hierarchical => "hierarchical"@,
            ExecutionStrategy::Debate => "debate"@,
            ExecutionStrategy::MapReduce => "mapreduce"@,
            ExecutionStrategy::PlannerExecutor => "plannerexecutor"@,
            ExecutionStrategy::SupervisorWorker => "supervisorworker"@,
            ExecutionStrategy::Consensus => "consensus"@,
            ExecutionStrategy::Adaptive => "adaptive"@,
        }
    }

    /// Every label, as listed to an operator who misspelled one.
    pub open spec fn labels() -> Seq<Seq<char>> {
        Self::every().map_values(|strategy: ExecutionStrategy| strategy.label())
    }

    /// Every strategy, used by the CLI and by exhaustive tests.
    pub fn all() -> (r: &'static [Self])
        ensures
            r@ == Self::every(),
            forall|s: ExecutionStrategy| #[trigger] r@.contains(s),
    {
        let r: &'static [Self] = &[
            Self::Sequential,
            Self::Parallel,
            Self::Hierarchical,
            Self::Debate,
            Self::MapReduce,
            Self::PlannerExecutor,
            Self::SupervisorWorker,
            Self::Consensus,
            Self::Adaptive,
        ];
        proof {
            assert(r@ =~= Self::every());
            lemma_every_strategy();
        }
        r
    }

    /// Stable label for metrics, persistence, and CLI output.
    pub fn as_str(self) -> (r: &'static str)
        ensures
            r@ == self.label(),
    {
        match self {
            Self::Sequential => "sequential",
            Self::Parallel => "parallel",
            Self::Hierarchical => "hierarchical",
            Self::Debate => "debate",
            Self::MapReduce => "map_reduce",
            Self::PlannerExecutor => "planner_executor",
            Self::SupervisorWorker => "supervisor_worker",
            Self::Consensus => "consensus",
            Self::Adaptive => "adaptive",
        }
    }

    /// The label without its underscores.
    fn compact_str(self) -> (r: &'static str)
        ensures
            r@ == self.compact(),
    {
        match self {
            Self::Sequential => "sequential",
            Self::Parallel => "parallel",
            Self::Hierarchical => "hierarchical",
            Self::Debate => "debate",
            Self::MapReduce => "mapreduce",
            Self::PlannerExecutor => "plannerexecutor",
            Self::SupervisorWorker => "supervisorworker",
            Self::Consensus => "consensus",
            Self::Adaptive => "adaptive",
        }
    }

    /// The stable label of a strategy.
    pub fn to_string(&self) -> (r: String)
        ensures
            r@ == self.label(),
    {
        self.as_str().to_owned()
    }

    /// Whether finishing this strategy requires resolving votes between agents.
    pub fn needs_consensus(self) -> (r: bool)
        ensures
            r == (self == ExecutionStrategy::Debate || self == ExecutionStrategy::Consensus),
    {
        matches!(self, Self::Debate | Self::Consensus)
    }

    /// Accepts `map-reduce`, `map_reduce`, and `mapreduce` alike: only the ASCII letters and
    /// digits count, whatever their case.
    pub fn from_str(s: &str) -> (r: Result<Self, SwarmError>)
        ensures
            match r {
                Ok(strategy) => squeezed(s@) == strategy.compact(),
                Err(error) => {
                    &&& forall|strategy: ExecutionStrategy|
                        squeezed(s@) != #[trigger] strategy.compact()
                    &&& error@ == ErrorView::Config(
                        "unknown execution strategy `"@ + s@ + "` (expected one of: "@ + joined(
                            Self::labels(),
                            ", "@,
                        ) + ")"@,
                    )
                },
            },
    {
        let normalized = squeeze(s);
        let all = Self::all();
        let mut labels: Vec<String> = Vec::new();
        for i in 0..all.len()
            invariant
                all@ == Self::every(),
                normalized@ == squeezed(s@),
                labels@.len() == i,
                forall|k: int| 0 <= k < i ==> (#[trigger] labels@[k])@ == all@[k].label(),
                forall|k: int| 0 <= k < i ==> (#[trigger] all@[k]).compact() != normalized@,
        {
            if same_text(all[i].compact_str(), normalized.as_str()) {
                return Ok(all[i]);
            }
            labels.push(all[i].to_string());
        }
        let mut message = "unknown execution strategy `".to_owned();
        message.append(s);
        message.append("` (expected one of: ");
        message.append(join(&labels, ", ").as_str());
        message.append(")");
        proof {
            assert(views(labels@) =~= Self::labels());
            lemma_every_strategy();
            assert forall|strategy: ExecutionStrategy|
                squeezed(s@) != #[trigger] strategy.compact() by {
                assert(Self::every().contains(strategy));
                let k = choose|k: int| 0 <= k < all@.len() && all@[k] == strategy;
                assert(all@[k].compact() != normalized@);
            }
        }
        Err(SwarmError::Config(message))
    }
}

impl FromStr for ExecutionStrategy {
    type Err = SwarmError;

    fn from_str(s: &str) -> Result<Self, SwarmError> {
        ExecutionStrategy::from_str(s)
    }
}

/// The list of every strategy leaves none out.
pub proof fn lemma_every_strategy()
    ensures
        forall|s: ExecutionStrategy| #[trigger] ExecutionStrategy::every().contains(s),
{
    let all = ExecutionStrategy::every();
    assert forall|s: ExecutionStrategy| #[trigger] all.contains(s) by {
        match s {
            ExecutionStrategy::Sequential => assert(all[0] == s),
            ExecutionStrategy::Parallel => assert(all[1] == s),
            ExecutionStrategy::Hierarchical => assert(all[2] == s),
            ExecutionStrategy::Debate => assert(all[3] == s),
            ExecutionStrategy::MapReduce => assert(all[4] == s),
            ExecutionStrategy::PlannerExecutor => assert(all[5] == s),
            ExecutionStrategy::SupervisorWorker => assert(all[6] == s),
            ExecutionStrategy::Consensus => assert(all[7] == s),
            ExecutionStrategy::Adaptive => assert(all[8] == s),
        }
    }
}

/// Whether a text consists of lower case ASCII letters.
spec fn plain(s: Seq<char>) -> bool {
    forall|i: int| 0 <= i < s.len() ==> 'a' <= #[trigger] s[i] <= 'z'
}

/// Squeezing leaves plain text alone.
proof fn lemma_squeeze_plain(s: Seq<char>)
    requires
        plain(s),
    ensures
        squeezed(s) == s,
    decreases s.len(),
{
    let keep = |c: char| is_ascii_alphanumeric(c);
    reveal(Seq::filter);
    if s.len() > 0 {
        lemma_squeeze_plain(s.drop_last());
        assert('a' <= s[s.len() - 1] <= 'z');
        assert(s.filter(keep) =~= s.drop_last().filter(keep).push(s.last()));
        assert(squeezed(s) =~= squeezed(s.drop_last()).push(s.last()));
        assert(s =~= s.drop_last().push(s.last()));
    } else {
        assert(squeezed(s) =~= s);
    }
}

/// Squeezing drops the underscore between two plain texts.
proof fn lemma_squeeze_underscore(a: Seq<char>, b: Seq<char>)
    requires
        plain(a),
        plain(b),
    ensures
        squeezed(a + seq!['_'] + b) == a + b,
    decreases b.len(),
{
    let keep = |c: char| is_ascii_alphanumeric(c);
    let s = a + seq!['_'] + b;
    reveal(Seq::filter);
    if b.len() == 0 {
        assert(s.drop_last() =~= a);
        lemma_squeeze_plain(a);
        assert(!is_ascii_alphanumeric('_'));
        assert(s.last() == '_');
        assert(a + b =~= a);
    } else {
        let c = b.drop_last();
        lemma_squeeze_underscore(a, c);
        assert(s.drop_last() =~= a + seq!['_'] + c);
        assert('a' <= b[b.len() - 1] <= 'z');
        assert(s.filter(keep) =~= s.drop_last().filter(keep).push(s.last()));
        assert(squeezed(s) =~= squeezed(s.drop_last()).push(s.last()));
        assert(a + b =~= (a + c).push(b.last()));
    }
}

/// Every strategy is read back from its own label, and from no other strategy's.
pub proof fn law_strategies_roundtrip_through_their_labels(
    strategy: ExecutionStrategy,
    other: ExecutionStrategy,
)
    ensures
        squeezed(strategy.label()) == strategy.compact(),
        squeezed(strategy.label()) == other.compact() ==> strategy == other,
{
    reveal_strlit("sequential");
    reveal_strlit("parallel");
    reveal_strlit("hierarchical");
    reveal_strlit("debate");
    reveal_strlit("map_reduce");
    reveal_strlit("planner_executor");
    reveal_strlit("supervisor_worker");
    reveal_strlit("consensus");
    reveal_strlit("adaptive");
    reveal_strlit("mapreduce");
    reveal_strlit("plannerexecutor");
    reveal_strlit("supervisorworker");
    match strategy {
        ExecutionStrategy::MapReduce => {
            let (a, b) = (seq!['m', 'a', 'p'], seq!['r', 'e', 'd', 'u', 'c', 'e']);
            assert(strategy.label() =~= a + seq!['_'] + b);
            assert(strategy.compact() =~= a + b);
            lemma_squeeze_underscore(a, b);
        },
        ExecutionStrategy::PlannerExecutor => {
            let a = seq!['p', 'l', 'a', 'n', 'n', 'e', 'r'];
            let b = seq!['e', 'x', 'e', 'c', 'u', 't', 'o', 'r'];
            assert(strategy.label() =~= a + seq!['_'] + b);
            assert(strategy.compact() =~= a + b);
            lemma_squeeze_underscore(a, b);
        },
        ExecutionStrategy::SupervisorWorker => {
            let a = seq!['s', 'u', 'p', 'e', 'r', 'v', 'i', 's', 'o', 'r'];
            let b = seq!['w', 'o', 'r', 'k', 'e', 'r'];
            assert(strategy.label() =~= a + seq!['_'] + b);
            assert(strategy.compact() =~= a + b);
            lemma_squeeze_underscore(a, b);
        },
        _ => {
            lemma_squeeze_plain(strategy.label());
        },
    }
    if strategy.compact() == other.compact() {
        assert(strategy.compact().len() == other.compact().len());
        assert(strategy.compact()[0] == other.compact()[0]);
    }
}

/// Default agent budget when a submitter does not say.
pub fn default_max_agents() -> (r: usize)
    ensures
        r == 8,
{
    8
}

/// Hard ceiling on `max_agents` for any single job, independent of cluster quotas.
pub const MAX_AGENTS_PER_JOB: usize = 1_000;

/// Longest objective we accept, to keep prompts and log lines bounded.
pub const MAX_OBJECTIVE_LEN: usize = 8_192;

/// How many bytes a text takes.
pub open spec fn byte_count(s: Seq<char>) -> nat {
    encode_utf8(s).len()
}

/// How many bytes a text takes.
pub fn byte_len(s: &str) -> (r: usize)
    ensures
        r == byte_count(s@),
{
    s.as_bytes().len()
}

/// A job as submitted by a client.
#[derive(Debug)]
pub struct JobRequest {
    /// What the swarm should accomplish.
    pub objective: String,
    /// Optional background material handed to every agent.
    pub context: Option<String>,
    /// Scheduling priority.
    pub priority: Priority,
    /// Wall-clock deadline; past it the job fails rather than continuing to spend.
    pub deadline: Option<Timestamp>,
    /// Upper bound on agents this job may hold at once.
    pub max_agents: usize,
    /// Upper bound on model spend, in USD.
    pub max_cost: Option<Real64>,
    /// Upper bound on runtime.
    pub max_runtime_seconds: Option<u64>,
    /// Capabilities the job needs beyond what its strategy implies.
    pub required_capabilities: Vec<Capability>,
    /// DAG shape to compile the objective into.
    pub execution_strategy: ExecutionStrategy,
    /// Client-supplied key that makes resubmission safe.
    pub idempotency_key: Option<String>,
}

/// A request, with its texts and lists as sequences.
pub struct JobRequestView {
    /// What the swarm should accomplish.
    pub objective: Seq<char>,
    /// Background material.
    pub context: Option<Seq<char>>,
    /// Scheduling priority.
    pub priority: Priority,
    /// Wall-clock deadline.
    pub deadline: Option<Timestamp>,
    /// Upper bound on agents.
    pub max_agents: usize,
    /// Upper bound on model spend.
    pub max_cost: Option<Real64>,
    /// Upper bound on runtime.
    pub max_runtime_seconds: Option<u64>,
    /// Extra capabilities.
    pub required_capabilities: Seq<Capability>,
    /// DAG shape.
    pub execution_strategy: ExecutionStrategy,
    /// Client-supplied key.
    pub idempotency_key: Option<Seq<char>>,
}

impl View for JobRequest {
    type V = JobRequestView;

    open spec fn view(&self) -> JobRequestView {
        JobRequestView {
            objective: self.objective@,
            context: option_view(self.context),
            priority: self.priority,
            deadline: self.deadline,
            max_agents: self.max_agents,
            max_cost: self.max_cost,
            max_runtime_seconds: self.max_runtime_seconds,
            required_capabilities: self.required_capabilities@,
            execution_strategy: self.execution_strategy,
            idempotency_key: option_view(self.idempotency_key),
        }
    }
}

impl JobRequestView {
    /// A request with defaults for everything but the objective.
    pub open spec fn plain(objective: Seq<char>) -> JobRequestView {
        JobRequestView {
            objective,
            context: None,
            priority: Priority::Normal,
            deadline: None,
            max_agents: 8,
            max_cost: None,
            max_runtime_seconds: None,
            required_capabilities: seq![],
            execution_strategy: ExecutionStrategy::Parallel,
            idempotency_key: None,
        }
    }

    /// Why the request cannot be executed; the first reason found.
    pub open spec fn refusal(self) -> Option<ErrorView> {
        if is_blank(self.objective) {
            Some(ErrorView::Validation("objective must not be empty"@))
        } else if byte_count(self.objective) > MAX_OBJECTIVE_LEN {
            Some(
                ErrorView::Validation(
                    "objective is "@ + decimal(byte_count(self.objective)) + " bytes, limit is "@
                        + decimal(MAX_OBJECTIVE_LEN as nat),
                ),
            )
        } else if self.max_agents == 0 {
            Some(ErrorView::Validation("max_agents must be at least 1"@))
        } else if self.max_agents > MAX_AGENTS_PER_JOB {
            Some(
                ErrorView::QuotaExceeded(
                    "max_agents "@ + decimal(self.max_agents as nat)
                        + " exceeds the per-job ceiling of "@ + decimal(MAX_AGENTS_PER_JOB as nat),
                ),
            )
        } else if self.max_cost matches Some(cost) && !cost.positive() {
            Some(
                ErrorView::Validation("max_cost must be a positive, finite number of USD"@),
            )
        } else if self.max_runtime_seconds == Some(0u64) {
            Some(ErrorView::Validation("max_runtime_seconds must be greater than zero"@))
        } else if self.idempotency_key matches Some(key) && (is_blank(key) || byte_count(key)
            > 256) {
            Some(
                ErrorView::Validation("idempotency_key must be 1..=256 non-blank characters"@),
            )
        } else {
            None
        }
    }
}

impl JobRequest {
    /// A request with defaults for everything but the objective.
    pub fn new(objective: &str) -> (r: Self)
        ensures
            r@ == JobRequestView::plain(objective@),
    {
        let r = JobRequest {
            objective: objective.to_owned(),
            context: None,
            priority: Priority::default(),
            deadline: None,
            max_agents: default_max_agents(),
            max_cost: None,
            max_runtime_seconds: None,
            required_capabilities: Vec::new(),
            execution_strategy: ExecutionStrategy::default(),
            idempotency_key: None,
        };
        assert(r.required_capabilities@ =~= seq![]);
        r
    }

    /// Set the DAG shape.
    pub fn with_strategy(self, strategy: ExecutionStrategy) -> (r: Self)
        ensures
            r@ == (JobRequestView { execution_strategy: strategy, ..self@ }),
    {
        let mut r = self;
        r.execution_strategy = strategy;
        r
    }

    /// Set the agent ceiling.
    pub fn with_max_agents(self, max_agents: usize) -> (r: Self)
        ensures
            r@ == (JobRequestView { max_agents, ..self@ }),
    {
        let mut r = self;
        r.max_agents = max_agents;
        r
    }

    /// Attach background context.
    pub fn with_context(self, context: &str) -> (r: Self)
        ensures
            r@ == (JobRequestView { context: Some(context@), ..self@ }),
    {
        let mut r = self;
        r.context = Some(context.to_owned());
        r
    }

    /// Set the priority.
    pub fn with_priority(self, priority: Priority) -> (r: Self)
        ensures
            r@ == (JobRequestView { priority, ..self@ }),
    {
        let mut r = self;
        r.priority = priority;
        r
    }

    /// Set the spend ceiling in USD.
    pub fn with_max_cost(self, usd: Real64) -> (r: Self)
        ensures
            r@ == (JobRequestView { max_cost: Some(usd), ..self@ }),
    {
        let mut r = self;
        r.max_cost = Some(usd);
        r
    }

    /// Reject requests that cannot be executed, before any resources are committed.
    ///
    /// This is a trust boundary: the API server calls it on untrusted input.
    pub fn validate(&self) -> (r: Result<(), SwarmError>)
        ensures
            match r {
                Ok(()) => self@.refusal() is None,
                Err(error) => self@.refusal() == Some(error@),
            },
    {
        proof {
            lemma_blank_trims_to_nothing(self.objective@);
        }
        if trim(self.objective.as_str()).as_str().is_empty() {
            return Err(SwarmError::Validation("objective must not be empty".to_owned()));
        }
        let length: usize = byte_len(self.objective.as_str());
        if length > MAX_OBJECTIVE_LEN {
            let mut message = "objective is ".to_owned();
            message.append(decimal_text(length as u64).as_str());
            message.append(" bytes, limit is ");
            message.append(decimal_text(MAX_OBJECTIVE_LEN as u64).as_str());
            return Err(SwarmError::Validation(message));
        }
        if self.max_agents == 0 {
            return Err(SwarmError::Validation("max_agents must be at least 1".to_owned()));
        }
        if self.max_agents > MAX_AGENTS_PER_JOB {
            let mut message = "max_agents ".to_owned();
            message.append(decimal_text(self.max_agents as u64).as_str());
            message.append(" exceeds the per-job ceiling of ");
            message.append(decimal_text(MAX_AGENTS_PER_JOB as u64).as_str());
            return Err(SwarmError::QuotaExceeded(message));
        }
        if let Some(cost) = self.max_cost {
            if !cost.is_positive() {
                return Err(
                    SwarmError::Validation(
                        "max_cost must be a positive, finite number of USD".to_owned(),
                    ),
                );
            }
        }
        if let Some(limit) = self.max_runtime_seconds {
            if limit == 0 {
                return Err(
                    SwarmError::Validation(
                        "max_runtime_seconds must be greater than zero".to_owned(),
                    ),
                );
            }
        }
        if let Some(key) = &self.idempotency_key {
            proof {
                lemma_blank_trims_to_nothing(key@);
            }
            if trim(key.as_str()).as_str().is_empty() || byte_len(key.as_str()) > 256 {
                return Err(
                    SwarmError::Validation(
                        "idempotency_key must be 1..=256 non-blank characters".to_owned(),
                    ),
                );
            }
        }
        Ok(())
    }
}

impl Clone for JobRequest {
    fn clone(&self) -> (r: Self)
        ensures
            r@ == self@,
    {
        JobRequest {
            objective: self.objective.clone(),
            context: clone_option(&self.context),
            priority: self.priority,
            deadline: self.deadline,
            max_agents: self.max_agents,
            max_cost: self.max_cost,
            max_runtime_seconds: self.max_runtime_seconds,
            required_capabilities: copy_capabilities(self.required_capabilities.as_slice()),
            execution_strategy: self.execution_strategy,
            idempotency_key: clone_option(&self.idempotency_key),
        }
    }
}

/// Lifecycle state of a job. Transitions are enforced in [`crate::state`].
#[derive(Clone, Copy, Debug, PartialEq, Eq, Structural, Hash)]
pub enum JobStatus {
    /// Accepted by the API, not yet admitted.
    Submitted,
    /// Passed quota and budget admission control.
    Admitted,
    /// Refused by admission control.
    Rejected,
    /// Being decomposed into a task graph.
    Planning,
    /// Tasks are executing.
    Running,
    /// Scheduling suspended by an operator or a budget guard.
    Paused,
    /// All tasks terminal; merging and verifying results.
    Aggregating,
    /// Finished with a verified result.
    Completed,
    /// Finished, but some branches never succeeded.
    PartiallyCompleted,
    /// Could not be completed.
    Failed,
    /// Stopped on request.
    Cancelled,
}

impl JobStatus {
    /// Whether a job in this state has produced everything it ever will.
    pub open spec fn finished(self) -> bool {
        ||| self == JobStatus::Completed
        ||| self == JobStatus::PartiallyCompleted
        ||| self == JobStatus::Failed
        ||| self == JobStatus::Cancelled
        ||| self == JobStatus::Rejected
    }

    /// The stable label of a status.
    pub open spec fn label(self) -> Seq<char> {
        match self {
            JobStatus::Submitted => "submitted"@,
            JobStatus::Admitted => "admitted"@,
            JobStatus::Rejected => "rejected"@,
            JobStatus::Planning => "planning"@,
            JobStatus::Running => "running"@,
            JobStatus::Paused => "paused"@,
            JobStatus::Aggregating => "aggregating"@,
            JobStatus::Completed => "completed"@,
            JobStatus::PartiallyCompleted => "partially_completed"@,
            JobStatus::Failed => "failed"@,
            JobStatus::Cancelled => "cancelled"@,
        }
    }

    /// Stable label for metrics and persistence.
    pub fn as_str(self) -> (r: &'static str)
        ensures
            r@ == self.label(),
    {
        match self {
            Self::Submitted => "submitted",
            Self::Admitted => "admitted",
            Self::Rejected => "rejected",
            Self::Planning => "planning",
            Self::Running => "running",
            Self::Paused => "paused",
            Self::Aggregating => "aggregating",
            Self::Completed => "completed",
            Self::PartiallyCompleted => "partially_completed",
            Self::Failed => "failed",
            Self::Cancelled => "cancelled",
        }
    }

    /// Whether a job in this state has produced everything it ever will.
    pub fn is_finished(self) -> (r: bool)
        ensures
            r == self.finished(),
    {
        matches!(
            self,
            Self::Completed | Self::PartiallyCompleted | Self::Failed | Self::Cancelled
                | Self::Rejected
        )
    }

    /// The stable label of a status.
    pub fn to_string(&self) -> (r: String)
        ensures
            r@ == self.label(),
    {
        self.as_str().to_owned()
    }
}

/// A job record: the request plus everything the platform tracks about it.
#[derive(Debug)]
pub struct Job {
    /// Job identity.
    pub id: JobId,
    /// The original request, kept verbatim for audit and retry.
    pub request: JobRequest,
    /// Current lifecycle state.
    pub status: JobStatus,
    /// Ties every action for this job together in logs and traces.
    pub correlation_id: CorrelationId,
    /// Submission time.
    pub created_at: Timestamp,
    /// When the first task was queued.
    pub started_at: Option<Timestamp>,
    /// When the job reached a finished state.
    pub finished_at: Option<Timestamp>,
    /// Why the job is in its current state, when the reason is not obvious.
    pub status_reason: Option<String>,
}

/// A job, with its texts and lists as sequences.
pub struct JobView {
    /// Job identity.
    pub id: JobId,
    /// The original request.
    pub request: JobRequestView,
    /// Current lifecycle state.
    pub status: JobStatus,
    /// Correlation.
    pub correlation_id: CorrelationId,
    /// Submission time.
    pub created_at: Timestamp,
    /// When the first task was queued.
    pub started_at: Option<Timestamp>,
    /// When the job reached a finished state.
    pub finished_at: Option<Timestamp>,
    /// Why the job is in its current state.
    pub status_reason: Option<Seq<char>>,
}

impl View for Job {
    type V = JobView;

    open spec fn view(&self) -> JobView {
        JobView {
            id: self.id,
            request: self.request@,
            status: self.status,
            correlation_id: self.correlation_id,
            created_at: self.created_at,
            started_at: self.started_at,
            finished_at: self.finished_at,
            status_reason: option_view(self.status_reason),
        }
    }
}

impl JobView {
    /// A job that was just submitted.
    pub open spec fn submitted(
        id: JobId,
        correlation_id: CorrelationId,
        request: JobRequestView,
        now: Timestamp,
    ) -> JobView {
        JobView {
            id,
            request,
            status: JobStatus::Submitted,
            correlation_id,
            created_at: now,
            started_at: None,
            finished_at: None,
            status_reason: None,
        }
    }

    /// Whether the wall-clock deadline or the runtime budget has passed.
    pub open spec fn past_deadline(self, now: Timestamp) -> bool {
        ||| self.request.deadline matches Some(deadline) && now.nanos >= deadline.nanos
        ||| self.request.max_runtime_seconds matches Some(limit) && self.started_at matches Some(
            started,
        ) && now.seconds_passed(started, limit as int)
    }
}

impl Job {
    /// Create a `Submitted` job from a request. Its ids are fresh, and the clock decides the
    /// submission time.
    pub fn new(request: JobRequest) -> (r: Self)
        ensures
            r@ == JobView::submitted(r.id, r.correlation_id, request@, r.created_at),
    {
        Self::create(JobId::new(), CorrelationId::new(), request, Timestamp::now())
    }

    /// A `Submitted` job with the given ids, submitted at `now`.
    pub fn create(
        id: JobId,
        correlation_id: CorrelationId,
        request: JobRequest,
        now: Timestamp,
    ) -> (r: Self)
        ensures
            r@ == JobView::submitted(id, correlation_id, request@, now),
    {
        Job {
            id,
            request,
            status: JobStatus::Submitted,
            correlation_id,
            created_at: now,
            started_at: None,
            finished_at: None,
            status_reason: None,
        }
    }

    /// Whether the job's wall-clock deadline or runtime budget has passed.
    pub fn is_past_deadline(&self, now: Timestamp) -> (r: bool)
        ensures
            r == self@.past_deadline(now),
    {
        if let Some(deadline) = self.request.deadline {
            if !now.before(deadline) {
                return true;
            }
        }
        if let Some(limit) = self.request.max_runtime_seconds {
            if let Some(started) = self.started_at {
                if now.has_passed(started, limit) {
                    return true;
                }
            }
        }
        false
    }
}

impl Clone for Job {
    fn clone(&self) -> (r: Self)
        ensures
            r@ == self@,
    {
        Job {
            id: self.id,
            request: self.request.clone(),
            status: self.status,
            correlation_id: self.correlation_id,
            created_at: self.created_at,
            started_at: self.started_at,
            finished_at: self.finished_at,
            status_reason: clone_option(&self.status_reason),
        }
    }
}

/// A citation supporting a claim: where it came from and how strongly it supports.
#[derive(Debug)]
pub struct Evidence {
    /// URL, file path, tool name, or upstream task id.
    pub source: String,
    /// The claim this evidence is offered for.
    pub claim: String,
    /// How strongly the source supports the claim, from zero to one.
    pub support: Real32,
    /// Line range, quote offset, or timestamp inside the source.
    pub locator: Option<String>,
}

/// A citation, with its texts as character sequences.
pub struct EvidenceView {
    /// Where it came from.
    pub source: Seq<char>,
    /// The claim.
    pub claim: Seq<char>,
    /// How strongly the source supports the claim.
    pub support: Real32,
    /// Place inside the source.
    pub locator: Option<Seq<char>>,
}

impl View for Evidence {
    type V = EvidenceView;

    open spec fn view(&self) -> EvidenceView {
        EvidenceView {
            source: self.source@,
            claim: self.claim@,
            support: self.support,
            locator: option_view(self.locator),
        }
    }
}

impl Clone for Evidence {
    fn clone(&self) -> (r: Self)
        ensures
            r@ == self@,
    {
        Evidence {
            source: self.source.clone(),
            claim: self.claim.clone(),
            support: self.support,
            locator: clone_option(&self.locator),
        }
    }
}

/// The citations behind a list.
pub open spec fn evidence_views(list: Seq<Evidence>) -> Seq<EvidenceView> {
    list.map_values(|item: Evidence| item@)
}

/// A copy of a list of citations.
pub fn clone_evidence(list: &Vec<Evidence>) -> (r: Vec<Evidence>)
    ensures
        evidence_views(r@) == evidence_views(list@),
{
    let mut r: Vec<Evidence> = Vec::new();
    for i in 0..list.len()
        invariant
            r@.len() == i,
            forall|k: int| 0 <= k < i ==> (#[trigger] r@[k])@ == list@[k]@,
    {
        r.push(list[i].clone());
    }
    assert(evidence_views(r@) =~= evidence_views(list@));
    r
}

/// One structured piece of a job's final output.
#[derive(Debug)]
pub struct StructuredOutput {
    /// Task that produced it.
    pub task_id: TaskId,
    /// Task kind, so consumers can tell a critique from a finding.
    pub kind: String,
    /// Human-readable heading.
    pub title: String,
    /// The output text.
    pub content: String,
    /// Machine-readable form of the same output.
    pub data: serde_json::Value,
    /// Confidence attached by the producing agent, from zero to one.
    pub confidence: Real32,
}

/// A piece of output, with its texts as character sequences.
pub struct StructuredOutputView {
    /// Task that produced it.
    pub task_id: TaskId,
    /// Task kind.
    pub kind: Seq<char>,
    /// Heading.
    pub title: Seq<char>,
    /// The output text.
    pub content: Seq<char>,
    /// Machine-readable form.
    pub data: JsonView,
    /// Confidence.
    pub confidence: Real32,
}

impl View for StructuredOutput {
    type V = StructuredOutputView;

    open spec fn view(&self) -> StructuredOutputView {
        StructuredOutputView {
            task_id: self.task_id,
            kind: self.kind@,
            title: self.title@,
            content: self.content@,
            data: json_content(self.data),
            confidence: self.confidence,
        }
    }
}

impl Clone for StructuredOutput {
    fn clone(&self) -> (r: Self)
        ensures
            r@ == self@,
    {
        StructuredOutput {
            task_id: self.task_id,
            kind: self.kind.clone(),
            title: self.title.clone(),
            content: self.content.clone(),
            data: clone_json(&self.data),
            confidence: self.confidence,
        }
    }
}

/// A disagreement the platform detected and could not resolve automatically.
#[derive(Debug)]
pub struct Conflict {
    /// What the disagreement is about.
    pub description: String,
    /// The competing claims, verbatim.
    pub claims: Vec<String>,
    /// Tasks that produced the competing claims.
    pub task_ids: Vec<TaskId>,
    /// How the platform tried to resolve it.
    pub attempted_resolution: String,
}

/// A disagreement, with its texts and lists as sequences.
pub struct ConflictView {
    /// What the disagreement is about.
    pub description: Seq<char>,
    /// The competing claims.
    pub claims: Seq<Seq<char>>,
    /// Tasks that produced the competing claims.
    pub task_ids: Seq<TaskId>,
    /// How the platform tried to resolve it.
    pub attempted_resolution: Seq<char>,
}

impl View for Conflict {
    type V = ConflictView;

    open spec fn view(&self) -> ConflictView {
        ConflictView {
            description: self.description@,
            claims: views(self.claims@),
            task_ids: self.task_ids@,
            attempted_resolution: self.attempted_resolution@,
        }
    }
}

impl Clone for Conflict {
    fn clone(&self) -> (r: Self)
        ensures
            r@ == self@,
    {
        let mut task_ids: Vec<TaskId> = Vec::new();
        for i in 0..self.task_ids.len()
            invariant
                task_ids@ =~= self.task_ids@.take(i as int),
        {
            task_ids.push(self.task_ids[i]);
        }
        assert(task_ids@ =~= self.task_ids@);
        Conflict {
            description: self.description.clone(),
            claims: clone_strings(&self.claims),
            task_ids,
            attempted_resolution: self.attempted_resolution.clone(),
        }
    }
}

/// Counters describing how a job actually ran. Also the benchmark record.
#[derive(Clone, Copy, Debug, PartialEq, Eq, Structural)]
pub struct ExecutionStatistics {
    /// Total wall-clock time.
    pub wall_clock_ms: u64,
    /// Tasks in the final graph, including dynamically inserted ones.
    pub tasks_total: usize,
    /// Tasks that completed and passed validation.
    pub tasks_succeeded: u64,
    /// Tasks that ended dead-lettered or cancelled.
    pub tasks_failed: u64,
    /// Retry attempts across all tasks.
    pub tasks_retried: u64,
    /// Agents created for this job.
    pub agents_spawned: u64,
    /// Model calls issued, including retries but excluding cache hits.
    pub model_requests: u64,
    /// Cache hits served without a provider call.
    pub model_cache_hits: u64,
    /// Prompt tokens.
    pub tokens_in: u64,
    /// Completion tokens.
    pub tokens_out: u64,
    /// Estimated model spend in USD.
    pub cost_usd: Real64,
    /// Median task latency.
    pub median_task_latency_ms: u64,
    /// 95th percentile task latency.
    pub p95_task_latency_ms: u64,
    /// 99th percentile task latency.
    pub p99_task_latency_ms: u64,
    /// Total time tasks spent waiting in the queue.
    pub queue_wait_ms_total: u64,
    /// Scheduling decisions made.
    pub scheduling_decisions: u64,
    /// Events emitted on the job's stream.
    pub messages_sent: u64,
}

/// Statistics of a job that has not run yet.
pub open spec fn no_statistics() -> ExecutionStatistics {
    ExecutionStatistics {
        wall_clock_ms: 0,
        tasks_total: 0,
        tasks_succeeded: 0,
        tasks_failed: 0,
        tasks_retried: 0,
        agents_spawned: 0,
        model_requests: 0,
        model_cache_hits: 0,
        tokens_in: 0,
        tokens_out: 0,
        cost_usd: Real64 { bits: 0 },
        median_task_latency_ms: 0,
        p95_task_latency_ms: 0,
        p99_task_latency_ms: 0,
        queue_wait_ms_total: 0,
        scheduling_decisions: 0,
        messages_sent: 0,
    }
}

impl Default for ExecutionStatistics {
    fn default() -> (r: Self)
        ensures
            r == no_statistics(),
    {
        ExecutionStatistics {
            wall_clock_ms: 0,
            tasks_total: 0,
            tasks_succeeded: 0,
            tasks_failed: 0,
            tasks_retried: 0,
            agents_spawned: 0,
            model_requests: 0,
            model_cache_hits: 0,
            tokens_in: 0,
            tokens_out: 0,
            cost_usd: Real64::zero(),
            median_task_latency_ms: 0,
            p95_task_latency_ms: 0,
            p99_task_latency_ms: 0,
            queue_wait_ms_total: 0,
            scheduling_decisions: 0,
            messages_sent: 0,
        }
    }
}

/// How many of `n` samples lie at or below the given percentile, rounded up.
pub open spec fn percentile_rank(n: nat, percent: nat) -> nat {
    (percent * n + 99) / 100
}

/// The nearest-rank percentile of some samples: the smallest of them such that at least
/// that share of the samples is no larger.
pub open spec fn percentile_of(samples: Seq<u64>, percent: nat) -> u64 {
    ascending(samples)[percentile_rank(samples.len(), percent) - 1]
}

/// Nearest-rank percentile of a sorted list.
fn percentile(sorted: &Vec<u64>, percent: u64) -> (r: u64)
    requires
        sorted@.len() > 0,
        0 < percent <= 100,
    ensures
        r == sorted@[percentile_rank(sorted@.len(), percent as nat) - 1],
{
    let n: u128 = sorted.len() as u128;
    assert(percent * n <= 100 * n && percent * n >= n) by (nonlinear_arith)
        requires
            0 < percent <= 100,
    ;
    let product: u128 = percent as u128 * n;
    let rank: u128 = (product + 99) / 100;
    sorted[rank as usize - 1]
}

impl ExecutionStatistics {
    /// Fill the latency percentiles from a set of observed task latencies.
    ///
    /// Uses nearest-rank on a sorted copy: no interpolation, no surprises.
    pub fn set_latency_percentiles(&mut self, latencies_ms: &[u64])
        ensures
            *final(self) == (if latencies_ms@.len() == 0 {
                *old(self)
            } else {
                (ExecutionStatistics {
                    median_task_latency_ms: percentile_of(latencies_ms@, 50),
                    p95_task_latency_ms: percentile_of(latencies_ms@, 95),
                    p99_task_latency_ms: percentile_of(latencies_ms@, 99),
                    ..*old(self)
                })
            }),
    {
        if latencies_ms.len() == 0 {
            return ;
        }
        let sorted = sort_numbers(latencies_ms);
        self.median_task_latency_ms = percentile(&sorted, 50);
        self.p95_task_latency_ms = percentile(&sorted, 95);
        self.p99_task_latency_ms = percentile(&sorted, 99);
    }
}

/// The verified end product of a job.
#[derive(Debug)]
pub struct FinalResult {
    /// Which job this is the result of.
    pub job_id: JobId,
    /// Terminal status the job reached.
    pub status: JobStatus,
    /// Prose summary of the outcome.
    pub summary: String,
    /// Structured outputs, in dependency order.
    pub outputs: Vec<StructuredOutput>,
    /// Deduplicated evidence behind the summary.
    pub supporting_evidence: Vec<Evidence>,
    /// Aggregate confidence, from zero to one.
    pub confidence_score: Real32,
    /// Disagreements that survived aggregation.
    pub unresolved_conflicts: Vec<Conflict>,
    /// How the job ran.
    pub execution_statistics: ExecutionStatistics,
}

/// A final result, with its texts and lists as sequences.
pub struct FinalResultView {
    /// Which job this is the result of.
    pub job_id: JobId,
    /// Terminal status.
    pub status: JobStatus,
    /// Prose summary.
    pub summary: Seq<char>,
    /// Structured outputs.
    pub outputs: Seq<StructuredOutputView>,
    /// Evidence behind the summary.
    pub supporting_evidence: Seq<EvidenceView>,
    /// Aggregate confidence.
    pub confidence_score: Real32,
    /// Disagreements that survived aggregation.
    pub unresolved_conflicts: Seq<ConflictView>,
    /// How the job ran.
    pub execution_statistics: ExecutionStatistics,
}

/// The outputs behind a list.
pub open spec fn output_views(list: Seq<StructuredOutput>) -> Seq<StructuredOutputView> {
    list.map_values(|item: StructuredOutput| item@)
}

/// The conflicts behind a list.
pub open spec fn conflict_views(list: Seq<Conflict>) -> Seq<ConflictView> {
    list.map_values(|item: Conflict| item@)
}

impl View for FinalResult {
    type V = FinalResultView;

    open spec fn view(&self) -> FinalResultView {
        FinalResultView {
            job_id: self.job_id,
            status: self.status,
            summary: self.summary@,
            outputs: output_views(self.outputs@),
            supporting_evidence: evidence_views(self.supporting_evidence@),
            confidence_score: self.confidence_score,
            unresolved_conflicts: conflict_views(self.unresolved_conflicts@),
            execution_statistics: self.execution_statistics,
        }
    }
}

impl Clone for FinalResult {
    fn clone(&self) -> (r: Self)
        ensures
            r@ == self@,
    {
        let mut outputs: Vec<StructuredOutput> = Vec::new();
        for i in 0..self.outputs.len()
            invariant
                outputs@.len() == i,
                forall|k: int| 0 <= k < i ==> (#[trigger] outputs@[k])@ == self.outputs@[k]@,
        {
            outputs.push(self.outputs[i].clone());
        }
        let mut conflicts: Vec<Conflict> = Vec::new();
        for i in 0..self.unresolved_conflicts.len()
            invariant
                conflicts@.len() == i,
                forall|k: int|
                    0 <= k < i ==> (#[trigger] conflicts@[k])@ == self.unresolved_conflicts@[k]@,
        {
            conflicts.push(self.unresolved_conflicts[i].clone());
        }
        let supporting_evidence = clone_evidence(&self.supporting_evidence);
        assert(output_views(outputs@) =~= output_views(self.outputs@));
        assert(conflict_views(conflicts@) =~= conflict_views(self.unresolved_conflicts@));
        FinalResult {
            job_id: self.job_id,
            status: self.status,
            summary: self.summary.clone(),
            outputs,
            supporting_evidence,
            confidence_score: self.confidence_score,
            unresolved_conflicts: conflicts,
            execution_statistics: self.execution_statistics,
        }
    }
}

/// The priorities are in order: what is critical goes before what is high, that before what is
/// normal, and that before what is low.
pub proof fn law_priorities_are_in_order()
    ensures
        Priority::Critical.rank() > Priority::High.rank(),
        Priority::High.rank() > Priority::Normal.rank(),
        Priority::Normal.rank() > Priority::Low.rank(),
{
}

/// Every priority goes by its own label.
pub proof fn law_priorities_go_by_their_labels(priority: Priority)
    ensures
        Priority::named(priority.label()) == Some(priority),
        Priority::named("medium"@) == Some(Priority::Normal),
        Priority::named("urgent"@) == Some(Priority::Critical),
{
    reveal_strlit("low");
    reveal_strlit("normal");
    reveal_strlit("medium");
    reveal_strlit("high");
    reveal_strlit("critical");
    reveal_strlit("urgent");
    assert("normal"@[0] == 'n' && "medium"@[0] == 'm' && "high"@[0] == 'h' && "critical"@[0] == 'c'
        && "urgent"@[0] == 'u' && "low"@[0] == 'l');
}

/// A request is taken exactly where it has an objective that is not too long, asks for between
/// one agent and the ceiling, sets no limit that nothing could meet, and names no unusable key.
pub proof fn law_sound_requests_are_taken(request: JobRequestView)
    ensures
        request.refusal() is None <==> {
            &&& exists|i: int| 0 <= i < request.objective.len() && !is_space(#[trigger] request.objective[i])
            &&& encode_utf8(request.objective).len() <= 8_192
            &&& 1 <= request.max_agents <= 1_000
            &&& request.max_cost matches Some(cost) ==> 0 < cost.bits < INFINITY_BITS_64
            &&& request.max_runtime_seconds matches Some(limit) ==> limit > 0
            &&& request.idempotency_key matches Some(key) ==> (exists|i: int|
                0 <= i < key.len() && !is_space(#[trigger] key[i])) && encode_utf8(key).len()
                <= 256
        },
{
}

/// A job is past its deadline from the deadline on, and from the point where it has run for as
/// many whole seconds as it may; without either limit it never is.
pub proof fn law_deadlines_pass_in_time(job: JobView, now: Timestamp, later: Timestamp)
    requires
        now.nanos <= later.nanos,
    ensures
        job.past_deadline(now) ==> job.past_deadline(later),
        job.request.deadline is None && job.request.max_runtime_seconds is None
            ==> !job.past_deadline(now),
        job.request.deadline is None && job.started_at is None ==> !job.past_deadline(now),
        job.request.deadline matches Some(deadline) ==> (deadline.nanos <= now.nanos
            ==> job.past_deadline(now)),
        job.request.max_runtime_seconds is Some && job.started_at is Some && job.request.deadline is None
            ==> (job.past_deadline(now) <==> now.nanos >= job.started_at->0.nanos
            + job.request.max_runtime_seconds->0 * 1_000_000_000),
        job.request.max_runtime_seconds is None && job.request.deadline is Some ==> (
        job.past_deadline(now) <==> now.nanos >= job.request.deadline->0.nanos),
{
}

/// How many of some samples are at most `limit`.
pub open spec fn at_most(samples: Seq<u64>, limit: u64) -> nat
    decreases samples.len(),
{
    if samples.len() == 0 {
        0
    } else {
        at_most(samples.drop_last(), limit) + if samples.last() <= limit {
            1nat
        } else {
            0nat
        }
    }
}

/// Taking one sample out takes it out of the count.
proof fn lemma_at_most_remove(samples: Seq<u64>, k: int, limit: u64)
    requires
        0 <= k < samples.len(),
    ensures
        at_most(samples, limit) == at_most(samples.remove(k), limit) + if samples[k] <= limit {
            1nat
        } else {
            0nat
        },
    decreases samples.len(),
{
    if k == samples.len() - 1 {
        assert(samples.remove(k) =~= samples.drop_last());
    } else {
        lemma_at_most_remove(samples.drop_last(), k, limit);
        assert(samples.remove(k).drop_last() =~= samples.drop_last().remove(k));
        assert(samples.remove(k).last() == samples.last());
    }
}

/// The count does not depend on the order of the samples.
proof fn lemma_at_most_unordered(one: Seq<u64>, other: Seq<u64>, limit: u64)
    requires
        one.to_multiset() == other.to_multiset(),
    ensures
        at_most(one, limit) == at_most(other, limit),
    decreases one.len(),
{
    broadcast use vstd::seq_lib::group_to_multiset_ensures;

    vstd::seq_lib::to_multiset_len(one);
    vstd::seq_lib::to_multiset_len(other);
    if one.len() > 0 {
        let x = one.last();
        assert(one[one.len() - 1] == x);
        assert(one.to_multiset().contains(x));
        assert(other.contains(x));
        let k = other.index_of(x);
        let shorter = other.remove(k);
        assert(one.drop_last() =~= one.remove(one.len() - 1));
        assert(one.drop_last().to_multiset() =~= shorter.to_multiset());
        lemma_at_most_unordered(one.drop_last(), shorter, limit);
        lemma_at_most_remove(other, k, limit);
    }
}

/// In ascending samples, those up to a position are at most the one there.
proof fn lemma_at_most_sorted(samples: Seq<u64>, k: int, limit: u64)
    requires
        0 <= k <= samples.len(),
        forall|i: int, j: int|
            0 <= i < j < samples.len() ==> #[trigger] samples[i] <= #[trigger] samples[j],
    ensures
        k > 0 && samples[k - 1] <= limit ==> at_most(samples, limit) >= k,
        k < samples.len() && samples[k] > limit ==> at_most(samples, limit) <= k,
    decreases samples.len(),
{
    if samples.len() > 0 {
        let front = samples.drop_last();
        let last = samples.len() - 1;
        assert(samples[last] == samples.last());
        if k <= front.len() {
            lemma_at_most_sorted(front, k, limit);
            if k > 0 {
                assert(front[k - 1] == samples[k - 1]);
            }
            if k < front.len() {
                assert(front[k] == samples[k]);
                assert(samples[k] <= samples[last]);
            } else {
                lemma_at_most_bounded(front, limit);
            }
        } else {
            lemma_at_most_sorted(front, front.len() as int, limit);
            if front.len() > 0 {
                assert(front[front.len() - 1] == samples[last - 1]);
                assert(samples[last - 1] <= samples[last]);
            }
        }
    }
}

/// No more samples are at most some limit than there are.
proof fn lemma_at_most_bounded(samples: Seq<u64>, limit: u64)
    ensures
        at_most(samples, limit) <= samples.len(),
    decreases samples.len(),
{
    if samples.len() > 0 {
        lemma_at_most_bounded(samples.drop_last(), limit);
    }
}

/// A percentile is one of the samples: at least that share of them is no larger, and of those
/// that are smaller there are fewer than that share.
pub proof fn law_percentiles_split_the_samples(samples: Seq<u64>, percent: nat, smaller: u64)
    requires
        samples.len() > 0,
        1 <= percent <= 100,
    ensures
        samples.contains(percentile_of(samples, percent)),
        100 * at_most(samples, percentile_of(samples, percent)) >= percent * samples.len(),
        smaller < percentile_of(samples, percent) ==> 100 * at_most(samples, smaller) < percent
            * samples.len(),
{
    broadcast use vstd::seq_lib::group_to_multiset_ensures;

    let sorted = ascending(samples);
    law_sorting_keeps_everything(samples);
    let n = samples.len();
    let r = percentile_rank(n, percent);
    assert(percent * n >= 1 && percent * n <= 100 * n) by (nonlinear_arith)
        requires
            1 <= percent <= 100,
            n >= 1,
    ;
    assert(1 <= r <= n);
    let v = sorted[r - 1];
    assert(sorted.contains(v));
    assert(sorted.to_multiset().contains(v));
    assert(samples.contains(v));
    lemma_at_most_unordered(sorted, samples, v);
    lemma_at_most_unordered(sorted, samples, smaller);
    lemma_at_most_sorted(sorted, r as int, v);
    lemma_at_most_sorted(sorted, r - 1, smaller);
}

} // verus!
