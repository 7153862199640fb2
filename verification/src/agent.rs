//! Agents, their capabilities, and the resources of the nodes they run on.

use crate::clock::Timestamp;
use crate::figures::{Real32, ONE_BITS, ZERO_BITS};
use crate::ids::{AgentId, JobId, NodeId, TaskId};
use crate::job::Evidence;
use vstd::prelude::*;

verus! {

/// A skill an agent can offer and a task can require.
///
/// Scheduling is capability-based rather than type-based: a task says what it needs,
/// an agent says what it has, and the scheduler matches. This keeps new agent types
/// from requiring scheduler changes.
#[derive(Clone, Copy, Debug, PartialEq, Eq, Structural, Hash, PartialOrd, Ord)]
pub enum Capability {
    /// Decomposing objectives and revising plans.
    Planning,
    /// Gathering and citing external information.
    Research,
    /// Writing or modifying code.
    Coding,
    /// Critiquing another agent's output.
    Review,
    /// Checking claims and outputs against criteria.
    Verification,
    /// Condensing many outputs into one.
    Summarization,
    /// Calling external tools.
    ToolUse,
    /// Quantitative analysis of structured data.
    DataAnalysis,
    /// Looking for security problems.
    SecurityReview,
    /// Merging validated outputs into a final artifact.
    Merging,
    /// No special skill required.
    General,
}

impl Capability {
    /// The stable label of a capability.
    pub open spec fn label(self) -> Seq<char> {
        match self {
            Capability::Planning => "planning"@,
            Capability::Research => "research"@,
            Capability::Coding => "coding"@,
            Capability::Review => "review"@,
            Capability::Verification => "verification"@,
            Capability::Summarization => "summarization"@,
            Capability::ToolUse => "tool_use"@,
            Capability::DataAnalysis => "data_analysis"@,
            Capability::SecurityReview => "security_review"@,
            Capability::Merging => "merging"@,
            Capability::General => "general"@,
        }
    }

    /// Every capability, in declaration order.
    pub open spec fn every() -> Seq<Capability> {
        seq![
            Capability::Planning,
            Capability::Research,
            Capability::Coding,
            Capability::Review,
            Capability::Verification,
            Capability::Summarization,
            Capability::ToolUse,
            Capability::DataAnalysis,
            Capability::SecurityReview,
            Capability::Merging,
            Capability::General,
        ]
    }

    /// Every capability, for CLI help and exhaustive tests.
    pub fn all() -> (r: &'static [Self])
        ensures
            r@ == Self::every(),
            forall|c: Capability| #[trigger] r@.contains(c),
    {
        let r: &'static [Self] = &[
            Self::Planning,
            Self::Research,
            Self::Coding,
            Self::Review,
            Self::Verification,
            Self::Summarization,
            Self::ToolUse,
            Self::DataAnalysis,
            Self::SecurityReview,
            Self::Merging,
            Self::General,
        ];
        proof {
            assert(r@ =~= Self::every());
            lemma_every_capability();
        }
        r
    }

    /// Stable lowercase label used in metrics, protobuf, and the database.
    pub fn as_str(self) -> (r: &'static str)
        ensures
            r@ == self.label(),
    {
        match self {
            Self::Planning => "planning",
            Self::Research => "research",
            Self::Coding => "coding",
            Self::Review => "review",
            Self::Verification => "verification",
            Self::Summarization => "summarization",
            Self::ToolUse => "tool_use",
            Self::DataAnalysis => "data_analysis",
            Self::SecurityReview => "security_review",
            Self::Merging => "merging",
            Self::General => "general",
        }
    }
}

/// The list of every capability leaves none out.
pub proof fn lemma_every_capability()
    ensures
        forall|c: Capability| #[trigger] Capability::every().contains(c),
{
    let all = Capability::every();
    assert forall|c: Capability| #[trigger] all.contains(c) by {
        match c {
            Capability::Planning => assert(all[0] == c),
            Capability::Research => assert(all[1] == c),
            Capability::Coding => assert(all[2] == c),
            Capability::Review => assert(all[3] == c),
            Capability::Verification => assert(all[4] == c),
            Capability::Summarization => assert(all[5] == c),
            Capability::ToolUse => assert(all[6] == c),
            Capability::DataAnalysis => assert(all[7] == c),
            Capability::SecurityReview => assert(all[8] == c),
            Capability::Merging => assert(all[9] == c),
            Capability::General => assert(all[10] == c),
        }
    }
}

/// Whether `c` is among `list`.
pub fn has_capability(list: &[Capability], c: Capability) -> (r: bool)
    ensures
        r == list@.contains(c),
{
    for i in 0..list.len()
        invariant
            forall|k: int| 0 <= k < i ==> list@[k] != c,
    {
        if list[i] == c {
            return true;
        }
    }
    false
}

/// A copy of a capability list.
pub fn copy_capabilities(list: &[Capability]) -> (r: Vec<Capability>)
    ensures
        r@ == list@,
{
    let mut r: Vec<Capability> = Vec::new();
    for i in 0..list.len()
        invariant
            r@ =~= list@.take(i as int),
    {
        r.push(list[i]);
    }
    assert(list@.take(list@.len() as int) =~= list@);
    r
}

/// Whether `offered` holds every capability in `required`.
pub open spec fn covers(offered: Seq<Capability>, required: Seq<Capability>) -> bool {
    forall|i: int| 0 <= i < required.len() ==> offered.contains(#[trigger] required[i])
}

/// Whether `offered` holds every capability in `required`.
pub fn covers_all(offered: &[Capability], required: &[Capability]) -> (r: bool)
    ensures
        r == covers(offered@, required@),
{
    for i in 0..required.len()
        invariant
            forall|k: int| 0 <= k < i ==> offered@.contains(#[trigger] required@[k]),
    {
        if !has_capability(offered, required[i]) {
            return false;
        }
    }
    true
}

/// The kind of agent, which fixes its default capabilities, prompt, and model config.
#[derive(Clone, Copy, Debug, PartialEq, Eq, Structural, Hash)]
pub enum AgentType {
    /// Decomposes objectives into tasks.
    Planner,
    /// Investigates a subtopic and cites sources.
    Research,
    /// Implements code.
    Coding,
    /// Critiques other agents' output.
    Critic,
    /// Checks outputs against validation criteria.
    Verification,
    /// Condenses outputs.
    Summarization,
    /// Calls external tools.
    ToolUse,
    /// Analyses data.
    DataAnalysis,
    /// Reviews for security issues.
    SecurityReview,
    /// Merges validated outputs.
    ResultMerger,
    /// Fallback agent with no specialisation.
    General,
}

impl AgentType {
    /// Every agent type, in declaration order.
    pub open spec fn every() -> Seq<AgentType> {
        seq![
            AgentType::Planner,
            AgentType::Research,
            AgentType::Coding,
            AgentType::Critic,
            AgentType::Verification,
            AgentType::Summarization,
            AgentType::ToolUse,
            AgentType::DataAnalysis,
            AgentType::SecurityReview,
            AgentType::ResultMerger,
            AgentType::General,
        ]
    }

    /// Capabilities an agent of this type advertises.
    pub open spec fn offers(self) -> Seq<Capability> {
        match self {
            AgentType::Planner => seq![Capability::Planning, Capability::General],
            AgentType::Research => seq![Capability::Research, Capability::General],
            AgentType::Coding => seq![
                Capability::Coding,
                Capability::ToolUse,
                Capability::General,
            ],
            AgentType::Critic => seq![Capability::Review, Capability::General],
            AgentType::Verification => seq![
                Capability::Verification,
                Capability::Review,
                Capability::General,
            ],
            AgentType::Summarization => seq![Capability::Summarization, Capability::General],
            AgentType::ToolUse => seq![Capability::ToolUse, Capability::General],
            AgentType::DataAnalysis => seq![Capability::DataAnalysis, Capability::General],
            AgentType::SecurityReview => seq![
                Capability::SecurityReview,
                Capability::Review,
                Capability::General,
            ],
            AgentType::ResultMerger => seq![
                Capability::Merging,
                Capability::Summarization,
                Capability::General,
            ],
            AgentType::General => seq![Capability::General],
        }
    }

    /// The agent type chosen for a capability.
    pub open spec fn serving(capability: Capability) -> AgentType {
        match capability {
            Capability::Planning => AgentType::Planner,
            Capability::Research => AgentType::Research,
            Capability::Coding => AgentType::Coding,
            Capability::Review => AgentType::Critic,
            Capability::Verification => AgentType::Verification,
            Capability::Summarization => AgentType::Summarization,
            Capability::ToolUse => AgentType::ToolUse,
            Capability::DataAnalysis => AgentType::DataAnalysis,
            Capability::SecurityReview => AgentType::SecurityReview,
            Capability::Merging => AgentType::ResultMerger,
            Capability::General => AgentType::General,
        }
    }

    /// The stable label of an agent type.
    pub open spec fn label(self) -> Seq<char> {
        match self {
            AgentType::Planner => "planner"@,
            AgentType::Research => "research"@,
            AgentType::Coding => "coding"@,
            AgentType::Critic => "critic"@,
            AgentType::Verification => "verification"@,
            AgentType::Summarization => "summarization"@,
            AgentType::ToolUse => "tool_use"@,
            AgentType::DataAnalysis => "data_analysis"@,
            AgentType::SecurityReview => "security_review"@,
            AgentType::ResultMerger => "result_merger"@,
            AgentType::General => "general"@,
        }
    }

    /// Every agent type.
    pub fn all() -> (r: &'static [Self])
        ensures
            r@ == Self::every(),
            forall|t: AgentType| #[trigger] r@.contains(t),
    {
        let r: &'static [Self] = &[
            Self::Planner,
            Self::Research,
            Self::Coding,
            Self::Critic,
            Self::Verification,
            Self::Summarization,
            Self::ToolUse,
            Self::DataAnalysis,
            Self::SecurityReview,
            Self::ResultMerger,
            Self::General,
        ];
        proof {
            assert(r@ =~= Self::every());
            lemma_every_agent_type();
        }
        r
    }

    /// Capabilities an agent of this type advertises.
    ///
    /// Every type also offers [`Capability::General`].
    pub fn capabilities(self) -> (r: &'static [Capability])
        ensures
            r@ == self.offers(),
    {
        let r: &'static [Capability] = match self {
            Self::Planner => &[Capability::Planning, Capability::General],
            Self::Research => &[Capability::Research, Capability::General],
            Self::Coding => &[Capability::Coding, Capability::ToolUse, Capability::General],
            Self::Critic => &[Capability::Review, Capability::General],
            Self::Verification => &[
                Capability::Verification,
                Capability::Review,
                Capability::General,
            ],
            Self::Summarization => &[Capability::Summarization, Capability::General],
            Self::ToolUse => &[Capability::ToolUse, Capability::General],
            Self::DataAnalysis => &[Capability::DataAnalysis, Capability::General],
            Self::SecurityReview => &[
                Capability::SecurityReview,
                Capability::Review,
                Capability::General,
            ],
            Self::ResultMerger => &[
                Capability::Merging,
                Capability::Summarization,
                Capability::General,
            ],
            Self::General => &[Capability::General],
        };
        assert(r@ =~= self.offers());
        r
    }

    /// The cheapest agent type that offers `capability`.
    ///
    /// Used when the scheduler needs an agent for a task and none is warm.
    pub fn for_capability(capability: Capability) -> (r: Self)
        ensures
            r == Self::serving(capability),
            r.offers().contains(capability),
    {
        proof {
            law_every_capability_is_served(capability);
        }
        match capability {
            Capability::Planning => Self::Planner,
            Capability::Research => Self::Research,
            Capability::Coding => Self::Coding,
            Capability::Review => Self::Critic,
            Capability::Verification => Self::Verification,
            Capability::Summarization => Self::Summarization,
            Capability::ToolUse => Self::ToolUse,
            Capability::DataAnalysis => Self::DataAnalysis,
            Capability::SecurityReview => Self::SecurityReview,
            Capability::Merging => Self::ResultMerger,
            Capability::General => Self::General,
        }
    }

    /// Stable lowercase label for metrics and persistence.
    pub fn as_str(self) -> (r: &'static str)
        ensures
            r@ == self.label(),
    {
        match self {
            Self::Planner => "planner",
            Self::Research => "research",
            Self::Coding => "coding",
            Self::Critic => "critic",
            Self::Verification => "verification",
            Self::Summarization => "summarization",
            Self::ToolUse => "tool_use",
            Self::DataAnalysis => "data_analysis",
            Self::SecurityReview => "security_review",
            Self::ResultMerger => "result_merger",
            Self::General => "general",
        }
    }
}

/// The list of every agent type leaves none out.
pub proof fn lemma_every_agent_type()
    ensures
        forall|t: AgentType| #[trigger] AgentType::every().contains(t),
{
    let all = AgentType::every();
    assert forall|t: AgentType| #[trigger] all.contains(t) by {
        match t {
            AgentType::Planner => assert(all[0] == t),
            AgentType::Research => assert(all[1] == t),
            AgentType::Coding => assert(all[2] == t),
            AgentType::Critic => assert(all[3] == t),
            AgentType::Verification => assert(all[4] == t),
            AgentType::Summarization => assert(all[5] == t),
            AgentType::ToolUse => assert(all[6] == t),
            AgentType::DataAnalysis => assert(all[7] == t),
            AgentType::SecurityReview => assert(all[8] == t),
            AgentType::ResultMerger => assert(all[9] == t),
            AgentType::General => assert(all[10] == t),
        }
    }
}

/// Every agent type offers the general capability, whatever else it offers.
pub proof fn law_every_type_offers_general(agent_type: AgentType)
    ensures
        agent_type.offers().contains(Capability::General),
        agent_type.offers().last() == Capability::General,
{
    let offers = agent_type.offers();
    assert(offers[offers.len() - 1] == Capability::General);
}

/// The agent type chosen for a capability offers it.
pub proof fn law_every_capability_is_served(capability: Capability)
    ensures
        AgentType::serving(capability).offers().contains(capability),
{
    let offers = AgentType::serving(capability).offers();
    assert(offers[0] == capability);
}

/// Lifecycle state of an agent. Transitions are enforced in [`crate::state`].
#[derive(Clone, Copy, Debug, PartialEq, Eq, Structural, Hash)]
pub enum AgentStatus {
    /// Constructed but not yet announced to the coordinator.
    Created,
    /// Known to the coordinator, not yet in the idle pool.
    Registered,
    /// Warm and available for work.
    Idle,
    /// Picked by the scheduler for a specific task.
    Assigned,
    /// Actively executing a task.
    Running,
    /// Blocked on a peer, a consensus round, or a clarification.
    Waiting,
    /// Finished its task successfully.
    Completed,
    /// Its task failed.
    Failed,
    /// Retrying the same task.
    Retrying,
    /// Shut down; will not run again.
    Terminated,
}

/// Which model an agent talks to and how.
#[derive(Debug)]
pub struct ModelConfig {
    /// Provider name, matched against the gateway's registered providers.
    pub provider: String,
    /// Model identifier as the provider names it.
    pub model: String,
    /// Sampling temperature.
    pub temperature: Real32,
    /// Upper bound on generated tokens.
    pub max_tokens: u32,
}

/// A model configuration, with its texts as character sequences.
pub struct ModelConfigView {
    /// Provider name.
    pub provider: Seq<char>,
    /// Model identifier.
    pub model: Seq<char>,
    /// Sampling temperature.
    pub temperature: Real32,
    /// Upper bound on generated tokens.
    pub max_tokens: u32,
}

impl View for ModelConfig {
    type V = ModelConfigView;

    open spec fn view(&self) -> ModelConfigView {
        ModelConfigView {
            provider: self.provider@,
            model: self.model@,
            temperature: self.temperature,
            max_tokens: self.max_tokens,
        }
    }
}

/// Bit pattern of the default sampling temperature, one fifth.
pub const DEFAULT_TEMPERATURE_BITS: u32 = 0x3e4c_cccd;

/// The settings an agent starts with.
pub open spec fn default_model_config() -> ModelConfigView {
    ModelConfigView {
        provider: "mock"@,
        model: "mock-small"@,
        temperature: Real32 { bits: DEFAULT_TEMPERATURE_BITS },
        max_tokens: 2048,
    }
}

impl Default for ModelConfig {
    fn default() -> (r: Self)
        ensures
            r@ == default_model_config(),
    {
        ModelConfig {
            provider: "mock".to_owned(),
            model: "mock-small".to_owned(),
            temperature: Real32 { bits: DEFAULT_TEMPERATURE_BITS },
            max_tokens: 2048,
        }
    }
}

impl Clone for ModelConfig {
    fn clone(&self) -> (r: Self)
        ensures
            r@ == self@,
    {
        ModelConfig {
            provider: self.provider.clone(),
            model: self.model.clone(),
            temperature: self.temperature,
            max_tokens: self.max_tokens,
        }
    }
}

/// Everything the scheduler knows about one agent.
#[derive(Debug)]
pub struct AgentDescriptor {
    /// Agent identity.
    pub id: AgentId,
    /// Agent kind.
    pub agent_type: AgentType,
    /// Advertised capabilities.
    pub capabilities: Vec<Capability>,
    /// Lifecycle state.
    pub status: AgentStatus,
    /// Node hosting the agent.
    pub node_id: NodeId,
    /// Fraction of the agent's concurrency in use, from zero to one.
    pub current_load: Real32,
    /// Rolling success rate, from zero to one.
    pub success_rate: Real32,
    /// Rolling mean task latency.
    pub average_latency_ms: u64,
    /// Model settings.
    pub model_config: ModelConfig,
    /// Job the agent is pinned to, if any.
    pub job_id: Option<JobId>,
    /// Task currently assigned, if any.
    pub current_task: Option<TaskId>,
    /// Successful task count, feeds `success_rate`.
    pub tasks_completed: u64,
    /// Failed task count, feeds `success_rate`.
    pub tasks_failed: u64,
    /// When the agent was created.
    pub created_at: Timestamp,
    /// Last time the agent started or finished work; drives idle reaping.
    pub last_active_at: Timestamp,
}

/// An agent, with its lists and texts as sequences.
pub struct AgentView {
    /// Agent identity.
    pub id: AgentId,
    /// Agent kind.
    pub agent_type: AgentType,
    /// Advertised capabilities.
    pub capabilities: Seq<Capability>,
    /// Lifecycle state.
    pub status: AgentStatus,
    /// Node hosting the agent.
    pub node_id: NodeId,
    /// Fraction of the agent's concurrency in use.
    pub current_load: Real32,
    /// Rolling success rate.
    pub success_rate: Real32,
    /// Rolling mean task latency.
    pub average_latency_ms: u64,
    /// Model settings.
    pub model_config: ModelConfigView,
    /// Job the agent is pinned to.
    pub job_id: Option<JobId>,
    /// Task currently assigned.
    pub current_task: Option<TaskId>,
    /// Successful task count.
    pub tasks_completed: u64,
    /// Failed task count.
    pub tasks_failed: u64,
    /// When the agent was created.
    pub created_at: Timestamp,
    /// Last activity.
    pub last_active_at: Timestamp,
}

impl View for AgentDescriptor {
    type V = AgentView;

    open spec fn view(&self) -> AgentView {
        AgentView {
            id: self.id,
            agent_type: self.agent_type,
            capabilities: self.capabilities@,
            status: self.status,
            node_id: self.node_id,
            current_load: self.current_load,
            success_rate: self.success_rate,
            average_latency_ms: self.average_latency_ms,
            model_config: self.model_config@,
            job_id: self.job_id,
            current_task: self.current_task,
            tasks_completed: self.tasks_completed,
            tasks_failed: self.tasks_failed,
            created_at: self.created_at,
            last_active_at: self.last_active_at,
        }
    }
}

/// A counter after one more event. Lifetime counters stay at their maximum.
pub open spec fn counted(n: u64) -> u64 {
    if n < u64::MAX {
        (n + 1) as u64
    } else {
        n
    }
}

/// A counter after one more event.
pub fn count_one(n: u64) -> (r: u64)
    ensures
        r == counted(n),
{
    if n < u64::MAX {
        n + 1
    } else {
        n
    }
}

impl AgentView {
    /// A warm-but-unregistered agent.
    pub open spec fn fresh(
        id: AgentId,
        agent_type: AgentType,
        node_id: NodeId,
        model_config: ModelConfigView,
        now: Timestamp,
    ) -> AgentView {
        AgentView {
            id,
            agent_type,
            capabilities: agent_type.offers(),
            status: AgentStatus::Created,
            node_id,
            current_load: Real32 { bits: ZERO_BITS },
            success_rate: Real32 { bits: ONE_BITS },
            average_latency_ms: 0,
            model_config,
            job_id: None,
            current_task: None,
            tasks_completed: 0,
            tasks_failed: 0,
            created_at: now,
            last_active_at: now,
        }
    }

    /// Whether the agent can take work right now.
    pub open spec fn available(self) -> bool {
        self.status == AgentStatus::Idle || self.status == AgentStatus::Registered
    }

    /// The agent after one more attempt, with the success rate that came of it.
    pub open spec fn after_attempt(
        self,
        succeeded: bool,
        latency_ms: u64,
        success_rate: Real32,
        now: Timestamp,
    ) -> AgentView {
        AgentView {
            tasks_completed: if succeeded {
                counted(self.tasks_completed)
            } else {
                self.tasks_completed
            },
            tasks_failed: if succeeded {
                self.tasks_failed
            } else {
                counted(self.tasks_failed)
            },
            success_rate,
            average_latency_ms: smoothed_latency(self.average_latency_ms, latency_ms),
            last_active_at: now,
            ..self
        }
    }
}

/// A rolling mean that gives the newest latency one fifth of the weight; the first
/// latency stands alone.
pub open spec fn smoothed_latency(average_ms: u64, latency_ms: u64) -> u64 {
    if average_ms == 0 {
        latency_ms
    } else {
        ((average_ms * 4 + latency_ms) / 5) as u64
    }
}

/// The rolling mean never leaves the range of what it averages.
pub proof fn law_smoothed_latency_stays_between(average_ms: u64, latency_ms: u64)
    ensures
        smoothed_latency(average_ms, latency_ms) <= average_ms || smoothed_latency(
            average_ms,
            latency_ms,
        ) <= latency_ms,
        smoothed_latency(average_ms, latency_ms) >= average_ms || smoothed_latency(
            average_ms,
            latency_ms,
        ) >= latency_ms,
{
}

impl AgentDescriptor {
    /// Create a warm-but-unregistered agent of `agent_type` on `node_id`. The identity is
    /// fresh and the clock decides the two times.
    pub fn new(agent_type: AgentType, node_id: NodeId, model_config: ModelConfig) -> (r: Self)
        ensures
            r@ == AgentView::fresh(r.id, agent_type, node_id, model_config@, r.created_at),
    {
        Self::create(AgentId::new(), agent_type, node_id, model_config, Timestamp::now())
    }

    /// A warm-but-unregistered agent with the given identity, created at `now`.
    pub fn create(
        id: AgentId,
        agent_type: AgentType,
        node_id: NodeId,
        model_config: ModelConfig,
        now: Timestamp,
    ) -> (r: Self)
        ensures
            r@ == AgentView::fresh(id, agent_type, node_id, model_config@, now),
    {
        AgentDescriptor {
            id,
            agent_type,
            capabilities: copy_capabilities(agent_type.capabilities()),
            status: AgentStatus::Created,
            node_id,
            current_load: Real32::zero(),
            success_rate: Real32::one(),
            average_latency_ms: 0,
            model_config,
            job_id: None,
            current_task: None,
            tasks_completed: 0,
            tasks_failed: 0,
            created_at: now,
            last_active_at: now,
        }
    }

    /// Whether this agent offers every capability in `required`.
    pub fn supports(&self, required: &[Capability]) -> (r: bool)
        ensures
            r == covers(self@.capabilities, required@),
    {
        covers_all(self.capabilities.as_slice(), required)
    }

    /// Whether the agent can take work right now.
    pub fn is_available(&self) -> (r: bool)
        ensures
            r == self@.available(),
    {
        matches!(self.status, AgentStatus::Idle | AgentStatus::Registered)
    }

    /// Fold one completed attempt into the counts and the rolling latency, and store the
    /// rolling success rate that the caller worked out for it.
    pub fn record_attempt(
        &mut self,
        succeeded: bool,
        latency_ms: u64,
        success_rate: Real32,
        now: Timestamp,
    )
        ensures
            final(self)@ == old(self)@.after_attempt(succeeded, latency_ms, success_rate, now),
    {
        if succeeded {
            self.tasks_completed = count_one(self.tasks_completed);
        } else {
            self.tasks_failed = count_one(self.tasks_failed);
        }
        self.success_rate = success_rate;
        self.average_latency_ms = if self.average_latency_ms == 0 {
            latency_ms
        } else {
            ((self.average_latency_ms as u128 * 4 + latency_ms as u128) / 5) as u64
        };
        self.last_active_at = now;
    }
}

impl Clone for AgentDescriptor {
    fn clone(&self) -> (r: Self)
        ensures
            r@ == self@,
    {
        AgentDescriptor {
            id: self.id,
            agent_type: self.agent_type,
            capabilities: copy_capabilities(self.capabilities.as_slice()),
            status: self.status,
            node_id: self.node_id,
            current_load: self.current_load,
            success_rate: self.success_rate,
            average_latency_ms: self.average_latency_ms,
            model_config: self.model_config.clone(),
            job_id: self.job_id,
            current_task: self.current_task,
            tasks_completed: self.tasks_completed,
            tasks_failed: self.tasks_failed,
            created_at: self.created_at,
            last_active_at: self.last_active_at,
        }
    }
}

/// Lifecycle state of a worker node.
#[derive(Clone, Copy, Debug, PartialEq, Eq, Structural, Hash)]
pub enum NodeStatus {
    /// Registering.
    Joining,
    /// Healthy and accepting work.
    Ready,
    /// Reachable but unhealthy; deprioritised by the scheduler.
    Degraded,
    /// Finishing current work, accepting none.
    Draining,
    /// Heartbeats missed; its tasks are being rescheduled.
    Unreachable,
    /// Evicted from the cluster.
    Removed,
}

/// Resources a node advertises, refreshed on every heartbeat.
#[derive(Clone, Copy, Debug, PartialEq, Eq, Structural)]
pub struct NodeResources {
    /// Logical CPU count.
    pub cpu_cores: usize,
    /// Memory not currently committed.
    pub available_memory_bytes: u64,
    /// GPUs attached.
    pub gpu_count: usize,
    /// GPU memory not currently committed.
    pub available_gpu_memory_bytes: u64,
    /// Agents alive on this node.
    pub active_agents: usize,
    /// Tasks executing on this node.
    pub active_tasks: usize,
    /// Recent CPU utilisation, from zero to one.
    pub cpu_utilization: Real32,
    /// Tasks waiting in this node's local queue.
    pub queue_depth: usize,
}

impl Default for NodeResources {
    fn default() -> (r: Self)
        ensures
            r == (NodeResources {
                cpu_cores: 1,
                available_memory_bytes: 1_073_741_824,
                gpu_count: 0,
                available_gpu_memory_bytes: 0,
                active_agents: 0,
                active_tasks: 0,
                cpu_utilization: Real32 { bits: ZERO_BITS },
                queue_depth: 0,
            }),
    {
        NodeResources {
            cpu_cores: 1,
            available_memory_bytes: 1_073_741_824,
            gpu_count: 0,
            available_gpu_memory_bytes: 0,
            active_agents: 0,
            active_tasks: 0,
            cpu_utilization: Real32::zero(),
            queue_depth: 0,
        }
    }
}

/// One agent's answer in a consensus round.
///
/// `reasoning_summary` is a short, agent-authored summary. Raw provider reasoning
/// traces are deliberately never captured here.
#[derive(Debug)]
pub struct AgentDecision {
    /// Who voted.
    pub agent_id: AgentId,
    /// The proposed answer.
    pub answer: String,
    /// Self-reported confidence, from zero to one.
    pub confidence: Real32,
    /// Supporting evidence.
    pub evidence: Vec<Evidence>,
    /// Short summary of how the agent got there.
    pub reasoning_summary: String,
    /// When the vote was cast.
    pub timestamp: Timestamp,
    /// Position in a ranked-choice ballot, if the mode uses one.
    pub rank_order: Option<u32>,
}

/// An attempt is counted once, as a success or as a failure, and leaves the agent what it was.
pub proof fn law_an_attempt_is_counted_once(
    agent: AgentView,
    succeeded: bool,
    latency_ms: u64,
    success_rate: Real32,
    now: Timestamp,
)
    requires
        agent.tasks_completed < u64::MAX,
        agent.tasks_failed < u64::MAX,
    ensures
        ({
            let after = agent.after_attempt(succeeded, latency_ms, success_rate, now);
            &&& after.tasks_completed + after.tasks_failed == agent.tasks_completed
                + agent.tasks_failed + 1
            &&& succeeded <==> after.tasks_completed == agent.tasks_completed + 1
            &&& !succeeded <==> after.tasks_failed == agent.tasks_failed + 1
            &&& after.last_active_at == now
            &&& after.success_rate == success_rate
            &&& after.id == agent.id
            &&& after.status == agent.status
            &&& after.capabilities == agent.capabilities
        }),
{
}

/// The first latency is taken as it is; a steady latency stays; and a latency on either side
/// pulls the average towards it, by no more than a fifth of the way and a millisecond.
pub proof fn law_latency_is_smoothed_gently(average_ms: u64, latency_ms: u64)
    ensures
        smoothed_latency(0, latency_ms) == latency_ms,
        smoothed_latency(average_ms, average_ms) == average_ms,
        average_ms > 0 && latency_ms >= average_ms ==> 0 <= 5 * (smoothed_latency(
            average_ms,
            latency_ms,
        ) - average_ms) <= latency_ms - average_ms < 5 * (smoothed_latency(average_ms, latency_ms)
            - average_ms) + 5,
        average_ms > 0 && latency_ms <= average_ms ==> 0 <= average_ms - latency_ms <= 5 * (
        average_ms - smoothed_latency(average_ms, latency_ms)) < average_ms - latency_ms + 5,
{
}

/// Each capability has an agent type made for it, and what that type is made for comes first
/// among what it offers.
pub proof fn law_specialists_put_their_trade_first(capability: Capability)
    ensures
        AgentType::serving(capability).offers()[0] == capability,
        capability != Capability::General ==> AgentType::serving(capability) != AgentType::General,
{
}

/// A new agent has done nothing, offers what its type offers, and is not available before it is
/// registered.
pub proof fn law_new_agents_start_clean(
    id: AgentId,
    agent_type: AgentType,
    node_id: NodeId,
    model_config: ModelConfigView,
    now: Timestamp,
)
    ensures
        ({
            let agent = AgentView::fresh(id, agent_type, node_id, model_config, now);
            &&& agent.id == id
            &&& agent.agent_type == agent_type
            &&& agent.node_id == node_id
            &&& agent.capabilities == agent_type.offers()
            &&& agent.tasks_completed == 0 && agent.tasks_failed == 0
            &&& agent.job_id is None && agent.current_task is None
            &&& !agent.available()
            &&& agent.created_at == now && agent.last_active_at == now
        }),
{
}

} // verus!
