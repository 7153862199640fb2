//! Execution of one task by one agent.
//!
//! The agent runtime is where the platform's effectively-once guarantee is actually
//! enforced. Before doing any work it looks for a stored result, then claims an
//! execution record for its attempt; a duplicate delivery therefore returns the
//! original result instead of spending tokens and producing a second side effect.
//!
//! It also writes checkpoints, so a task that dies halfway can be resumed by whichever
//! agent picks it up next rather than starting over.
//!
//! Only concise reasoning summaries are persisted — never raw provider reasoning
//! traces.
//!
//! [`Phase`] decides what comes next; reading, writing, and calling the model are done by the
//! program around this library, one [`Move`] at a time.

use crate::agent::{covers, AgentDescriptor, AgentType, AgentView, ModelConfig};
use crate::clock::Timestamp;
use crate::error::{ErrorView, SwarmError};
use crate::figures::{Real32, Real64, HALF_BITS_64, ONE_BITS_64};
use crate::ids::{AgentId, JobId, NodeId, TaskId};
use crate::job::{evidence_views, Evidence, EvidenceView};
use crate::json::{
    as_text, json_content, json_contents, json_parsed, member_list, member_real, member_text,
    parse_json, text_object, JsonView,
};
use crate::memory::{memory_views, InMemoryStore, MemoryRecord, MemoryWrite, WriteView};
use crate::model::{
    last_user_content, message_views, CompletionRequest, CompletionResponse, CompletionView,
    Message, MessageView, ResponseView, Role,
};
use crate::ns::{checkpoints, executions, job_namespace, results};
use crate::order::{find_last_highest, last_highest, whole};
use crate::task::{
    law_attempts_have_distinct_keys, law_every_broken_rule_is_reported, output_failures,
    validate_output, TaskKind, TaskNode, TaskResult, TaskResultView, TaskView,
};
use crate::text::{
    clone_option, decimal, decimal_text, first_chars, holds, join, joined,
    law_joined_texts_hold_each, lemma_holds_between, lemma_holds_end, lemma_holds_later,
    lemma_holds_longer, lemma_holds_within, lemma_same_between, option_view, take_chars, trim,
    trimmed, views,
};
use vstd::prelude::*;

verus! {

/// A dependency's output, handed to the task that waited for it.
#[derive(Debug)]
pub struct UpstreamOutput {
    /// Task that produced it.
    pub task_id: TaskId,
    /// Its title.
    pub title: String,
    /// What it produced.
    pub output: String,
}

/// What a dependency's output holds.
#[verifier::ext_equal]
pub struct UpstreamView {
    /// Task that produced it.
    pub task_id: TaskId,
    /// Its title.
    pub title: Seq<char>,
    /// What it produced.
    pub output: Seq<char>,
}

impl View for UpstreamOutput {
    type V = UpstreamView;

    open spec fn view(&self) -> UpstreamView {
        UpstreamView { task_id: self.task_id, title: self.title@, output: self.output@ }
    }
}

/// What some outputs hold.
pub open spec fn upstream_views(list: Seq<UpstreamOutput>) -> Seq<UpstreamView> {
    Seq::new(list.len(), |i: int| list[i]@)
}

impl Clone for UpstreamOutput {
    fn clone(&self) -> (r: Self)
        ensures
            r@ == self@,
    {
        UpstreamOutput {
            task_id: self.task_id,
            title: self.title.clone(),
            output: self.output.clone(),
        }
    }
}

/// What an agent is told about the job around its task.
#[derive(Debug)]
pub struct TaskContext {
    /// The job's overall objective.
    pub objective: String,
    /// Extra background supplied with the job.
    pub context: Option<String>,
    /// Outputs of the tasks this one depends on.
    pub upstream: Vec<UpstreamOutput>,
    /// Tools the task is permitted to call, so no task is ever executed without an
    /// explicit permission list attached.
    pub allowed_tools: Vec<String>,
}

/// What a context holds.
#[verifier::ext_equal]
pub struct ContextView {
    /// The job's overall objective.
    pub objective: Seq<char>,
    /// Extra background.
    pub context: Option<Seq<char>>,
    /// Outputs of the tasks this one depends on.
    pub upstream: Seq<UpstreamView>,
    /// Permitted tools.
    pub allowed_tools: Seq<Seq<char>>,
}

impl View for TaskContext {
    type V = ContextView;

    open spec fn view(&self) -> ContextView {
        ContextView {
            objective: self.objective@,
            context: option_view(self.context),
            upstream: upstream_views(self.upstream@),
            allowed_tools: views(self.allowed_tools@),
        }
    }
}

impl TaskContext {
    /// A context for `objective` with no upstream outputs.
    pub fn new(objective: &str) -> (r: Self)
        ensures
            r@ == (ContextView {
                objective: objective@,
                context: None,
                upstream: seq![],
                allowed_tools: seq![],
            }),
    {
        let r = TaskContext {
            objective: objective.to_owned(),
            context: None,
            upstream: Vec::new(),
            allowed_tools: Vec::new(),
        };
        assert(r@.upstream =~= seq![]);
        assert(r@.allowed_tools =~= seq![]);
        r
    }

    /// Add an upstream task's output.
    pub fn with_upstream(self, upstream: Vec<UpstreamOutput>) -> (r: Self)
        ensures
            r@ == (ContextView { upstream: upstream_views(upstream@), ..self@ }),
    {
        TaskContext { upstream, ..self }
    }
}

/// The role an agent type is told to play.
pub open spec fn role_of(agent_type: AgentType) -> Seq<char> {
    match agent_type {
        AgentType::Planner =>
            "You break objectives into independent, verifiable subtasks. Prefer fewer, larger tasks over many trivial ones."@,
        AgentType::Research =>
            "You investigate one narrow question and report findings with sources. State what you could not establish."@,
        AgentType::Coding =>
            "You write correct, minimal code. Prefer the standard library. Explain only what is not obvious from the code."@,
        AgentType::Critic =>
            "You find the weakest claim in the work you are given and say precisely why it is weak. Do not rewrite the work."@,
        AgentType::Verification =>
            "You check claims against their stated evidence and report each as supported, unsupported, or contradicted."@,
        AgentType::Summarization =>
            "You compress inputs without inventing anything. Keep numbers and caveats."@,
        AgentType::ToolUse =>
            "You call only the tools you were permitted and report their raw results."@,
        AgentType::DataAnalysis =>
            "You compute over the data given and report figures with their units and sample sizes."@,
        AgentType::SecurityReview =>
            "You look for security weaknesses and rank them by exploitability and impact."@,
        AgentType::ResultMerger =>
            "You merge validated outputs, remove duplication, and surface contradictions instead of hiding them."@,
        AgentType::General => "You complete the task you are given, accurately and briefly."@,
    }
}

/// What every agent is told about the shape of its answer.
pub const ANSWER_SHAPE: &'static str =
    "\n\nRespond with a single JSON object containing: summary (string), findings (array of strings), confidence (number between 0 and 1), evidence (array of objects with source, claim, support), and reasoning_summary (one short sentence). Do not include private deliberation.";

/// The system prompt for each agent type.
pub fn system_prompt(agent_type: AgentType) -> (r: String)
    ensures
        r@ == role_of(agent_type) + ANSWER_SHAPE@,
{
    let role = match agent_type {
        AgentType::Planner =>
            "You break objectives into independent, verifiable subtasks. Prefer fewer, larger tasks over many trivial ones.",
        AgentType::Research =>
            "You investigate one narrow question and report findings with sources. State what you could not establish.",
        AgentType::Coding =>
            "You write correct, minimal code. Prefer the standard library. Explain only what is not obvious from the code.",
        AgentType::Critic =>
            "You find the weakest claim in the work you are given and say precisely why it is weak. Do not rewrite the work.",
        AgentType::Verification =>
            "You check claims against their stated evidence and report each as supported, unsupported, or contradicted.",
        AgentType::Summarization =>
            "You compress inputs without inventing anything. Keep numbers and caveats.",
        AgentType::ToolUse =>
            "You call only the tools you were permitted and report their raw results.",
        AgentType::DataAnalysis =>
            "You compute over the data given and report figures with their units and sample sizes.",
        AgentType::SecurityReview =>
            "You look for security weaknesses and rank them by exploitability and impact.",
        AgentType::ResultMerger =>
            "You merge validated outputs, remove duplication, and surface contradictions instead of hiding them.",
        AgentType::General => "You complete the task you are given, accurately and briefly.",
    };
    let mut r = role.to_owned();
    r.append(ANSWER_SHAPE);
    r
}

/// Longest excerpt of an upstream output in a prompt, in characters.
pub const EXCERPT_CHARS: usize = 1_200;

/// The upstream part of a prompt.
pub open spec fn upstream_text(list: Seq<UpstreamView>) -> Seq<char>
    decreases list.len(),
{
    if list.len() == 0 {
        seq![]
    } else {
        upstream_text(list.drop_last()) + "\n## "@ + list.last().title + "\n"@ + first_chars(
            list.last().output,
            EXCERPT_CHARS as nat,
        ) + "\n"@
    }
}

/// The user-side prompt for a task.
pub open spec fn prompt_of(task: TaskView, context: ContextView) -> Seq<char> {
    let head = "Task: "@ + task.title + "\nKind: "@ + task.kind.label() + "\nObjective: "@
        + context.objective + "\nInstruction: "@ + task.description + "\n"@;
    let background = match context.context {
        Some(extra) => "Background: "@ + extra + "\n"@,
        None => seq![],
    };
    let upstream = if context.upstream.len() > 0 {
        "\nUpstream results:\n"@ + upstream_text(context.upstream)
    } else {
        seq![]
    };
    let tools = if context.allowed_tools.len() > 0 {
        "\nPermitted tools: "@ + joined(context.allowed_tools, ", "@) + "\n"@
    } else {
        seq![]
    };
    head + background + upstream + tools
}

/// Render the user-side prompt for a task.
///
/// Upstream text is truncated: a fan-in task with 100 dependencies must not build an
/// unbounded prompt.
pub fn render_prompt(task: &TaskNode, context: &TaskContext) -> (r: String)
    ensures
        r@ == prompt_of(task@, context@),
{
    let mut prompt = "Task: ".to_owned();
    prompt.append(task.title.as_str());
    prompt.append("\nKind: ");
    prompt.append(task.kind.as_str());
    prompt.append("\nObjective: ");
    prompt.append(context.objective.as_str());
    prompt.append("\nInstruction: ");
    prompt.append(task.description.as_str());
    prompt.append("\n");
    let ghost head = prompt@;
    match &context.context {
        Some(extra) => {
            prompt.append("Background: ");
            prompt.append(extra.as_str());
            prompt.append("\n");
        },
        None => {},
    }
    let ghost background: Seq<char> = match context@.context {
        Some(extra) => "Background: "@ + extra + "\n"@,
        None => seq![],
    };
    assert(prompt@ =~= head + background);
    let ghost all = context@.upstream;
    let ghost before = prompt@;
    if context.upstream.len() > 0 {
        prompt.append("\nUpstream results:\n");
        let ghost opening = prompt@;
        proof {
            assert(all.take(0) =~= seq![]);
            assert(opening + upstream_text(all.take(0)) =~= opening);
        }
        for i in 0..context.upstream.len()
            invariant
                all == upstream_views(context.upstream@),
                prompt@ == opening + upstream_text(all.take(i as int)),
        {
            proof {
                assert(all.take(i + 1).drop_last() =~= all.take(i as int));
                assert(all.take(i + 1).last() == context.upstream@[i as int]@);
            }
            let excerpt = take_chars(context.upstream[i].output.as_str(), EXCERPT_CHARS);
            prompt.append("\n## ");
            prompt.append(context.upstream[i].title.as_str());
            prompt.append("\n");
            prompt.append(excerpt.as_str());
            prompt.append("\n");
            assert(prompt@ =~= opening + upstream_text(all.take(i + 1)));
        }
        assert(all.take(all.len() as int) =~= all);
    }
    let ghost upstream: Seq<char> = if all.len() > 0 {
        "\nUpstream results:\n"@ + upstream_text(all)
    } else {
        seq![]
    };
    assert(prompt@ =~= before + upstream);
    let ghost middle = prompt@;
    if context.allowed_tools.len() > 0 {
        prompt.append("\nPermitted tools: ");
        prompt.append(join(&context.allowed_tools, ", ").as_str());
        prompt.append("\n");
    }
    proof {
        let tools: Seq<char> = if context@.allowed_tools.len() > 0 {
            "\nPermitted tools: "@ + joined(context@.allowed_tools, ", "@) + "\n"@
        } else {
            seq![]
        };
        assert(prompt@ =~= middle + tools);
    }
    prompt
}

/// The agent type best suited to a task kind.
pub open spec fn type_for(kind: TaskKind) -> AgentType {
    match kind {
        TaskKind::Plan | TaskKind::Subplan | TaskKind::Supervise => AgentType::Planner,
        TaskKind::Work | TaskKind::MapStep | TaskKind::Answer => AgentType::Research,
        TaskKind::Critique => AgentType::Critic,
        TaskKind::Verify | TaskKind::Vote | TaskKind::Judge => AgentType::Verification,
        TaskKind::Reduce | TaskKind::Merge => AgentType::ResultMerger,
        TaskKind::Summarize => AgentType::Summarization,
    }
}

/// The agent type best suited to a task kind.
pub fn agent_type_for(kind: TaskKind) -> (r: AgentType)
    ensures
        r == type_for(kind),
{
    match kind {
        TaskKind::Plan | TaskKind::Subplan | TaskKind::Supervise => AgentType::Planner,
        TaskKind::Work | TaskKind::MapStep | TaskKind::Answer => AgentType::Research,
        TaskKind::Critique => AgentType::Critic,
        TaskKind::Verify | TaskKind::Vote | TaskKind::Judge => AgentType::Verification,
        TaskKind::Reduce | TaskKind::Merge => AgentType::ResultMerger,
        TaskKind::Summarize => AgentType::Summarization,
    }
}

/// The agent type for a kind of task has every capability the kind requires.
pub proof fn law_every_kind_is_served(kind: TaskKind)
    ensures
        covers(type_for(kind).offers(), kind.requires_capabilities()),
{
    let offered = type_for(kind).offers();
    let required = kind.requires_capabilities();
    assert forall|i: int| 0 <= i < required.len() implies offered.contains(
        #[trigger] required[i],
    ) by {
        assert(offered.len() >= 2);
        assert(offered[0] == required[i] || offered[1] == required[i]);
    }
}

/// A citation as an agent wrote it, with its support in double precision.
#[derive(Debug)]
pub struct Citation {
    /// URL, file path, tool name, or upstream task id.
    pub source: String,
    /// The claim it supports.
    pub claim: String,
    /// How strongly the source supports the claim, from zero to one.
    pub support: Real64,
    /// Place inside the source.
    pub locator: Option<String>,
}

/// What a citation holds.
#[verifier::ext_equal]
pub struct CitationView {
    /// Where it came from.
    pub source: Seq<char>,
    /// The claim.
    pub claim: Seq<char>,
    /// How strongly the source supports the claim.
    pub support: Real64,
    /// Place inside the source.
    pub locator: Option<Seq<char>>,
}

impl View for Citation {
    type V = CitationView;

    open spec fn view(&self) -> CitationView {
        CitationView {
            source: self.source@,
            claim: self.claim@,
            support: self.support,
            locator: option_view(self.locator),
        }
    }
}

/// What some citations hold.
pub open spec fn citation_views(list: Seq<Citation>) -> Seq<CitationView> {
    Seq::new(list.len(), |i: int| list[i]@)
}

/// A text, or nothing at all.
pub open spec fn or_nothing(text: Option<Seq<char>>) -> Seq<char> {
    match text {
        Some(text) => text,
        None => ""@,
    }
}

/// A number between zero and one; one half where there is none.
pub open spec fn or_half(number: Option<Real64>) -> Real64 {
    match number {
        Some(number) => number.clamped_spec(),
        None => Real64 { bits: HALF_BITS_64 },
    }
}

/// The citation an item of a response is, if it names a source.
pub open spec fn citation_of(item: JsonView) -> Option<CitationView> {
    match item.member_string("source"@) {
        Some(source) => Some(
            CitationView {
                source,
                claim: or_nothing(item.member_string("claim"@)),
                support: or_half(item.member_number("support"@)),
                locator: item.member_string("locator"@),
            },
        ),
        None => None,
    }
}

/// The citations among some items.
pub open spec fn citations_of(items: Seq<JsonView>) -> Seq<CitationView>
    decreases items.len(),
{
    if items.len() == 0 {
        seq![]
    } else {
        let rest = citations_of(items.drop_last());
        match citation_of(items.last()) {
            Some(citation) => rest.push(citation),
            None => rest,
        }
    }
}

/// The texts among some items.
pub open spec fn texts_of(items: Seq<JsonView>) -> Seq<Seq<char>>
    decreases items.len(),
{
    if items.len() == 0 {
        seq![]
    } else {
        let rest = texts_of(items.drop_last());
        match items.last().string() {
            Some(text) => rest.push(text),
            None => rest,
        }
    }
}

/// The structured shape agents are asked to produce, with tolerant fallbacks for
/// providers that ignore the instruction.
#[derive(Debug)]
pub struct ParsedOutput {
    /// What the agent concluded.
    pub summary: String,
    /// The findings behind it.
    pub findings: Vec<String>,
    /// The whole response.
    pub structured: serde_json::Value,
    /// Citations.
    pub evidence: Vec<Citation>,
    /// Summary of the agent's approach.
    pub reasoning_summary: String,
    /// How sure the agent is, from zero to one.
    pub confidence: Real64,
}

/// What a parsed response holds.
#[verifier::ext_equal]
pub struct ParsedView {
    /// What the agent concluded.
    pub summary: Seq<char>,
    /// The findings behind it.
    pub findings: Seq<Seq<char>>,
    /// The whole response.
    pub structured: JsonView,
    /// Citations.
    pub evidence: Seq<CitationView>,
    /// Summary of the agent's approach.
    pub reasoning_summary: Seq<char>,
    /// How sure the agent is.
    pub confidence: Real64,
}

impl View for ParsedOutput {
    type V = ParsedView;

    open spec fn view(&self) -> ParsedView {
        ParsedView {
            summary: self.summary@,
            findings: views(self.findings@),
            structured: json_content(self.structured),
            evidence: citation_views(self.evidence@),
            reasoning_summary: self.reasoning_summary@,
            confidence: self.confidence,
        }
    }
}

impl ParsedView {
    /// What a response that is JSON comes to.
    pub open spec fn of_json(value: JsonView, text: Seq<char>) -> ParsedView {
        ParsedView {
            summary: match value.member_string("summary"@) {
                Some(summary) => summary,
                None => trimmed(text),
            },
            findings: match value.member_items("findings"@) {
                Some(items) => texts_of(items),
                None => seq![],
            },
            structured: value,
            evidence: match value.member_items("evidence"@) {
                Some(items) => citations_of(items),
                None => seq![],
            },
            reasoning_summary: or_nothing(value.member_string("reasoning_summary"@)),
            confidence: or_half(value.member_number("confidence"@)),
        }
    }

    /// What a response in prose comes to: the whole of it is the summary.
    pub open spec fn of_prose(text: Seq<char>) -> ParsedView {
        ParsedView {
            summary: trimmed(text),
            findings: seq![],
            structured: JsonView::Object(
                Map::<Seq<char>, JsonView>::empty().insert("text"@, JsonView::Text(text)),
            ),
            evidence: seq![],
            reasoning_summary: ""@,
            confidence: Real64 { bits: HALF_BITS_64 },
        }
    }

    /// What a response comes to, given what it reads as in JSON.
    pub open spec fn of(text: Seq<char>, reading: Result<JsonView, Seq<char>>) -> ParsedView {
        match reading {
            Ok(value) => Self::of_json(value, text),
            Err(_) => Self::of_prose(text),
        }
    }

    /// Human-readable rendering.
    pub open spec fn shown(self) -> Seq<char> {
        if self.findings.len() == 0 {
            self.summary
        } else {
            self.summary + "\n"@ + listed(self.findings)
        }
    }
}

/// Some findings, one line each.
pub open spec fn listed(findings: Seq<Seq<char>>) -> Seq<char>
    decreases findings.len(),
{
    if findings.len() == 0 {
        seq![]
    } else {
        listed(findings.drop_last()) + "\n- "@ + findings.last()
    }
}

/// The citation an item of a response is, if it names a source.
fn parse_evidence(value: &serde_json::Value) -> (r: Option<Citation>)
    ensures
        match r {
            Some(citation) => citation_of(json_content(*value)) == Some(citation@),
            None => citation_of(json_content(*value)) is None,
        },
{
    let source = match member_text(value, "source") {
        Some(source) => source.to_owned(),
        None => {
            return None;
        },
    };
    let claim = match member_text(value, "claim") {
        Some(claim) => claim.to_owned(),
        None => "".to_owned(),
    };
    let support = match member_real(value, "support") {
        Some(support) => support.clamped(),
        None => Real64 { bits: HALF_BITS_64 },
    };
    let locator = match member_text(value, "locator") {
        Some(locator) => Some(locator.to_owned()),
        None => None,
    };
    Some(Citation { source, claim, support, locator })
}

impl ParsedOutput {
    /// Read a response.
    pub fn from_text(text: &str) -> (r: Self)
        ensures
            r@ == ParsedView::of(text@, json_parsed(text@)),
    {
        match parse_json(text) {
            Ok(value) => Self::from_json(value, text),
            Err(_) => {
                // A provider that ignored json_mode still produced usable prose; treat the
                // whole response as the summary rather than failing the task outright.
                let r = ParsedOutput {
                    summary: trim(text),
                    findings: Vec::new(),
                    structured: text_object("text", text),
                    evidence: Vec::new(),
                    reasoning_summary: "".to_owned(),
                    confidence: Real64 { bits: HALF_BITS_64 },
                };
                assert(r@ =~= ParsedView::of_prose(text@));
                r
            },
        }
    }

    /// Read a response that is JSON.
    pub fn from_json(value: serde_json::Value, text: &str) -> (r: Self)
        ensures
            r@ == ParsedView::of_json(json_content(value), text@),
    {
        let summary = match member_text(&value, "summary") {
            Some(summary) => summary.to_owned(),
            None => trim(text),
        };
        let mut findings: Vec<String> = Vec::new();
        match member_list(&value, "findings") {
            Some(items) => {
                let ghost all = json_contents(items@);
                assert(all.take(0) =~= seq![]);
                assert(views(findings@) =~= texts_of(all.take(0)));
                for i in 0..items.len()
                    invariant
                        all == json_contents(items@),
                        views(findings@) == texts_of(all.take(i as int)),
                {
                    let ghost before = views(findings@);
                    proof {
                        assert(all.take(i + 1).drop_last() =~= all.take(i as int));
                        assert(all.take(i + 1).last() == json_content(items@[i as int]));
                    }
                    match as_text(&items[i]) {
                        Some(text) => {
                            findings.push(text.to_owned());
                            assert(views(findings@) =~= before.push(text@));
                        },
                        None => {},
                    }
                }
                assert(all.take(all.len() as int) =~= all);
            },
            None => {
                assert(views(findings@) =~= seq![]);
            },
        }
        let confidence = match member_real(&value, "confidence") {
            Some(confidence) => confidence.clamped(),
            None => Real64 { bits: HALF_BITS_64 },
        };
        let reasoning_summary = match member_text(&value, "reasoning_summary") {
            Some(reasoning) => reasoning.to_owned(),
            None => "".to_owned(),
        };
        let mut evidence: Vec<Citation> = Vec::new();
        match member_list(&value, "evidence") {
            Some(items) => {
                let ghost all = json_contents(items@);
                assert(all.take(0) =~= seq![]);
                assert(citation_views(evidence@) =~= citations_of(all.take(0)));
                for i in 0..items.len()
                    invariant
                        all == json_contents(items@),
                        citation_views(evidence@) == citations_of(all.take(i as int)),
                {
                    let ghost before = citation_views(evidence@);
                    proof {
                        assert(all.take(i + 1).drop_last() =~= all.take(i as int));
                        assert(all.take(i + 1).last() == json_content(items@[i as int]));
                    }
                    match parse_evidence(&items[i]) {
                        Some(citation) => {
                            evidence.push(citation);
                            assert(citation_views(evidence@) =~= before.push(citation@));
                        },
                        None => {},
                    }
                }
                assert(all.take(all.len() as int) =~= all);
            },
            None => {
                assert(citation_views(evidence@) =~= seq![]);
            },
        }
        ParsedOutput {
            summary,
            findings,
            structured: value,
            evidence,
            reasoning_summary,
            confidence,
        }
    }

    /// Human-readable rendering, used by the aggregator and the CLI.
    pub fn display_text(&self) -> (r: String)
        ensures
            r@ == self@.shown(),
    {
        if self.findings.len() == 0 {
            return self.summary.clone();
        }
        let ghost all = self@.findings;
        let mut text = self.summary.clone();
        text.append("\n");
        let ghost head = text@;
        proof {
            assert(all.take(0) =~= seq![]);
            assert(head + listed(all.take(0)) =~= head);
        }
        for i in 0..self.findings.len()
            invariant
                all == views(self.findings@),
                text@ == head + listed(all.take(i as int)),
        {
            proof {
                assert(all.take(i + 1).drop_last() =~= all.take(i as int));
                assert(all.take(i + 1).last() == self.findings@[i as int]@);
            }
            text.append("\n- ");
            text.append(self.findings[i].as_str());
            assert(text@ =~= head + listed(all.take(i + 1)));
        }
        assert(all.take(all.len() as int) =~= all);
        text
    }
}

/// A stateful worker that executes tasks against a model.
#[derive(Debug)]
pub struct Agent {
    /// Scheduling-visible state: capabilities, load, reliability.
    pub descriptor: AgentDescriptor,
}

impl View for Agent {
    type V = AgentView;

    open spec fn view(&self) -> AgentView {
        self.descriptor@
    }
}

/// Who an agent is in the audit trail.
pub open spec fn agent_actor(agent: AgentId) -> Seq<char> {
    "agent:"@ + agent.text()
}

/// The write that claims an attempt.
pub open spec fn claim_of(agent: AgentId, task: TaskView, payload: JsonView) -> WriteView {
    WriteView {
        namespace: job_namespace(task.job_id, "executions"@),
        key: task.key_of_attempt(),
        value: payload,
        job_id: Some(task.job_id),
        agent_id: None,
        actor: agent_actor(agent),
        ttl_nanos: None,
    }
}

/// The write that publishes a result.
pub open spec fn publication_of(agent: AgentId, task: TaskView, payload: JsonView) -> WriteView {
    WriteView {
        namespace: job_namespace(task.job_id, "results"@),
        key: task.id.text(),
        value: payload,
        job_id: Some(task.job_id),
        agent_id: None,
        actor: agent_actor(agent),
        ttl_nanos: None,
    }
}

/// The write of a checkpoint.
pub open spec fn checkpoint_of(
    agent: AgentId,
    task: TaskView,
    seq: u32,
    payload: JsonView,
) -> WriteView {
    WriteView {
        namespace: job_namespace(task.job_id, "checkpoints"@),
        key: task.id.text() + "/"@ + decimal(task.attempt as nat) + "/"@ + decimal(seq as nat),
        value: payload,
        job_id: Some(task.job_id),
        agent_id: None,
        actor: agent_actor(agent),
        ttl_nanos: None,
    }
}

/// The model call for a task.
pub open spec fn call_for(agent: AgentView, task: TaskView, context: ContextView) -> CompletionView {
    CompletionView {
        model: agent.model_config.model,
        messages: seq![
            MessageView {
                role: Role::System,
                content: role_of(agent.agent_type) + ANSWER_SHAPE@,
            },
            MessageView { role: Role::User, content: prompt_of(task, context) },
        ],
        max_tokens: Some(agent.model_config.max_tokens),
        temperature: Some(agent.model_config.temperature),
        stop: seq![],
        json_mode: true,
        bypass_cache: task.attempt > 1,
        idempotency_key: task.key_of_attempt(),
        job_id: Some(task.job_id),
        task_id: Some(task.id),
        agent_id: Some(agent.id),
    }
}

/// The evidence some citations are, given their supports in single precision.
pub open spec fn evidence_of(citations: Seq<CitationView>, supports: Seq<Real32>) -> Seq<
    EvidenceView,
> {
    Seq::new(
        citations.len(),
        |i: int|
            EvidenceView {
                source: citations[i].source,
                claim: citations[i].claim,
                support: supports[i],
                locator: citations[i].locator,
            },
    )
}

/// The result of an attempt, given what the response came to.
pub open spec fn result_of(
    agent: AgentId,
    task: TaskView,
    response: ResponseView,
    parsed: ParsedView,
    confidence: Real32,
    supports: Seq<Real32>,
    elapsed_ms: u64,
    now: Timestamp,
) -> TaskResultView {
    TaskResultView {
        task_id: task.id,
        job_id: task.job_id,
        agent_id: agent,
        attempt: task.attempt,
        kind: task.kind,
        title: task.title,
        output: parsed.shown(),
        structured: parsed.structured,
        evidence: evidence_of(parsed.evidence, supports),
        reasoning_summary: parsed.reasoning_summary,
        confidence,
        validation_failures: output_failures(response.text, task.validation),
        tokens_in: response.tokens_in,
        tokens_out: response.tokens_out,
        cost_usd: response.cost_usd,
        duration_ms: elapsed_ms,
        deduplicated: false,
        finished_at: now,
    }
}

impl Agent {
    /// Create an agent of `agent_type` on `node_id`.
    pub fn new(agent_type: AgentType, node_id: NodeId) -> (r: Self)
        ensures
            r@ == AgentView::fresh(
                r@.id,
                agent_type,
                node_id,
                crate::agent::default_model_config(),
                r@.created_at,
            ),
    {
        Agent { descriptor: AgentDescriptor::new(agent_type, node_id, ModelConfig::default()) }
    }

    /// Wrap an existing descriptor, e.g. one restored from the database.
    pub fn from_descriptor(descriptor: AgentDescriptor) -> (r: Self)
        ensures
            r.descriptor == descriptor,
    {
        Agent { descriptor }
    }

    /// This agent's identity.
    pub fn id(&self) -> (r: AgentId)
        ensures
            r == self@.id,
    {
        self.descriptor.id
    }

    /// Who this agent is in the audit trail.
    fn actor(&self) -> (r: String)
        ensures
            r@ == agent_actor(self@.id),
    {
        let mut r = "agent:".to_owned();
        r.append(self.descriptor.id.to_string().as_str());
        r
    }

    /// The write that claims an attempt before any side effect. Losing the claim means another
    /// agent is executing the same attempt right now.
    pub fn claim_write(&self, task: &TaskNode, payload: serde_json::Value) -> (r: MemoryWrite)
        ensures
            r@ == claim_of(self@.id, task@, json_content(payload)),
    {
        MemoryWrite::new(
            executions(task.job_id).as_str(),
            task.attempt_key().as_str(),
            payload,
            self.actor().as_str(),
        ).for_job(task.job_id)
    }

    /// The write that publishes a result.
    pub fn result_write(&self, task: &TaskNode, payload: serde_json::Value) -> (r: MemoryWrite)
        ensures
            r@ == publication_of(self@.id, task@, json_content(payload)),
    {
        MemoryWrite::new(
            results(task.job_id).as_str(),
            task.id.to_string().as_str(),
            payload,
            self.actor().as_str(),
        ).for_job(task.job_id)
    }

    /// The write of a checkpoint.
    pub fn checkpoint_write(&self, task: &TaskNode, seq: u32, payload: serde_json::Value) -> (r:
        MemoryWrite)
        ensures
            r@ == checkpoint_of(self@.id, task@, seq, json_content(payload)),
    {
        let mut key = task.id.to_string();
        key.append("/");
        key.append(decimal_text(task.attempt as u64).as_str());
        key.append("/");
        key.append(decimal_text(seq as u64).as_str());
        MemoryWrite::new(
            checkpoints(task.job_id).as_str(),
            key.as_str(),
            payload,
            self.actor().as_str(),
        ).for_job(task.job_id)
    }

    /// The model call for a task.
    ///
    /// A retry means the previous identical call produced something unusable, so the cached
    /// copy of that answer must not be handed back.
    pub fn request(&self, task: &TaskNode, context: &TaskContext) -> (r: CompletionRequest)
        ensures
            r@ == call_for(self@, task@, context@),
    {
        let mut messages: Vec<Message> = Vec::new();
        messages.push(Message::system(system_prompt(self.descriptor.agent_type).as_str()));
        messages.push(Message::user(render_prompt(task, context).as_str()));
        assert(message_views(messages@) =~= call_for(self@, task@, context@).messages);
        CompletionRequest::new(
            self.descriptor.model_config.model.as_str(),
            messages,
        ).json().with_temperature(self.descriptor.model_config.temperature).with_max_tokens(
            self.descriptor.model_config.max_tokens,
        ).with_idempotency_key(task.attempt_key().as_str()).bypassing_cache(
            task.attempt > 1,
        ).attributed_to(task.job_id, task.id, self.descriptor.id)
    }

    /// The result of an attempt.
    ///
    /// Validation runs against the raw response, so the JSON rules see real JSON and the text
    /// rules see everything the model actually produced. The confidence and the supports come
    /// in single precision, in the order of the parsed evidence.
    pub fn result(
        &self,
        task: &TaskNode,
        response: &CompletionResponse,
        parsed: ParsedOutput,
        confidence: Real32,
        supports: &Vec<Real32>,
        elapsed_ms: u64,
        now: Timestamp,
    ) -> (r: TaskResult)
        requires
            supports@.len() == parsed@.evidence.len(),
        ensures
            r@ == result_of(
                self@.id,
                task@,
                response@,
                parsed@,
                confidence,
                supports@,
                elapsed_ms,
                now,
            ),
    {
        let output = parsed.display_text();
        let ghost citations = parsed@.evidence;
        let mut evidence: Vec<Evidence> = Vec::new();
        assert(citations.len() == parsed.evidence@.len());
        for i in 0..parsed.evidence.len()
            invariant
                citations == citation_views(parsed.evidence@),
                citations.len() == parsed.evidence@.len(),
                supports@.len() == citations.len(),
                evidence@.len() == i,
                forall|k: int|
                    0 <= k < i ==> (#[trigger] evidence@[k])@ == evidence_of(
                        citations,
                        supports@,
                    )[k],
        {
            assert(citations[i as int] == parsed.evidence@[i as int]@);
            evidence.push(
                Evidence {
                    source: parsed.evidence[i].source.clone(),
                    claim: parsed.evidence[i].claim.clone(),
                    support: supports[i],
                    locator: clone_option(&parsed.evidence[i].locator),
                },
            );
        }
        assert(evidence_views(evidence@) =~= evidence_of(citations, supports@));
        let validation_failures = validate_output(
            response.text.as_str(),
            task.validation.as_slice(),
        );
        TaskResult {
            task_id: task.id,
            job_id: task.job_id,
            agent_id: self.descriptor.id,
            attempt: task.attempt,
            kind: task.kind,
            title: task.title.clone(),
            output,
            structured: parsed.structured,
            evidence,
            reasoning_summary: parsed.reasoning_summary,
            confidence,
            validation_failures,
            tokens_in: response.tokens_in,
            tokens_out: response.tokens_out,
            cost_usd: response.cost_usd,
            duration_ms: elapsed_ms,
            deduplicated: false,
            finished_at: now,
        }
    }
}

impl Clone for Agent {
    fn clone(&self) -> (r: Self)
        ensures
            r@ == self@,
    {
        Agent { descriptor: self.descriptor.clone() }
    }
}

/// A stored result, handed back instead of doing the work again.
pub fn reused(existing: TaskResult) -> (r: TaskResult)
    ensures
        r@ == (TaskResultView { deduplicated: true, ..existing@ }),
{
    TaskResult { deduplicated: true, ..existing }
}

/// Why an attempt that another agent claimed cannot be executed here.
pub fn already_executing(task: &TaskNode) -> (r: SwarmError)
    ensures
        r@ == ErrorView::Internal(
            "attempt "@ + decimal(task@.attempt as nat) + " of task "@ + task@.id.text()
                + " is already being executed elsewhere"@,
        ),
{
    let mut text = "attempt ".to_owned();
    text.append(decimal_text(task.attempt as u64).as_str());
    text.append(" of task ");
    text.append(task.id.to_string().as_str());
    text.append(" is already being executed elsewhere");
    SwarmError::Internal(text)
}

/// The published result for a task, if one exists.
pub fn stored_result(memory: &InMemoryStore, job_id: JobId, task_id: TaskId, now: Timestamp) -> (r:
    Option<MemoryRecord>)
    requires
        memory.wf(),
    ensures
        crate::memory::record_view(r) == memory@.live(
            (job_namespace(job_id, "results"@), task_id.text()),
            now,
        ),
{
    memory.get_at(results(job_id).as_str(), task_id.to_string().as_str(), now)
}

/// When some records were last written.
pub open spec fn write_times(records: Seq<crate::memory::MemoryView>) -> Seq<int> {
    Seq::new(records.len(), |i: int| records[i].updated_at.nanos as int)
}

/// The most recent of some checkpoints, by position, for resumption after a crash.
pub fn latest_checkpoint(records: &Vec<MemoryRecord>) -> (r: Option<usize>)
    ensures
        match r {
            Some(i) => {
                &&& i < records@.len()
                &&& i == last_highest(write_times(memory_views(records@)))
                &&& forall|j: int|
                    0 <= j < records@.len() ==> (#[trigger] records@[j])@.updated_at.nanos
                        <= records@[i as int]@.updated_at.nanos
            },
            None => records@.len() == 0,
        },
{
    if records.len() == 0 {
        return None;
    }
    let ghost all = memory_views(records@);
    let mut times: Vec<i128> = Vec::new();
    for i in 0..records.len()
        invariant
            all == memory_views(records@),
            times@.len() == i,
            forall|k: int| 0 <= k < i ==> #[trigger] times@[k] == write_times(all)[k],
    {
        assert(all[i as int] == records@[i as int]@);
        times.push(records[i].updated_at.nanos);
    }
    assert(whole(times@) =~= write_times(all));
    let best: usize = find_last_highest(&times);
    proof {
        assert forall|j: int| 0 <= j < records@.len() implies (
        #[trigger] records@[j])@.updated_at.nanos <= records@[best as int]@.updated_at.nanos by {
            assert(whole(times@)[j] <= whole(times@)[best as int]);
        }
    }
    Some(best)
}

/// What the execution of an attempt is waiting for.
#[derive(Clone, Copy, Debug, PartialEq, Eq, Structural)]
pub enum Phase {
    /// Whether a result is stored already.
    Looking,
    /// Whether the attempt could be claimed.
    Claiming,
    /// Whether the agent that holds the claim has stored a result.
    LookingAgain,
    /// The checkpoint before the model call.
    Starting,
    /// The answer of the model.
    Calling,
    /// The checkpoint after the model call; whether the answer passed every check.
    Noting(bool),
    /// Whether the result could be published.
    Publishing,
    /// Whether the result that was published first is stored.
    LookingForWinner,
    /// The closing checkpoint.
    Completing,
    /// Nothing: the attempt is over.
    Over,
}

/// What came of a move.
#[derive(Clone, Copy, Debug, PartialEq, Eq, Structural)]
pub enum Event {
    /// Whether a result was stored.
    Stored(bool),
    /// Whether a claim was won.
    Claimed(bool),
    /// A checkpoint was written.
    Checkpointed,
    /// The model answered; whether the answer passed every check.
    Answered(bool),
    /// Whether the result was published first.
    Published(bool),
}

/// What to do next.
#[derive(Clone, Copy, Debug, PartialEq, Eq, Structural)]
pub enum Move {
    /// Read the stored result.
    ReadResult,
    /// Claim the attempt.
    ClaimAttempt,
    /// Write the checkpoint of that number.
    WriteCheckpoint(u32),
    /// Call the model.
    CallModel,
    /// Publish the result.
    PublishResult,
    /// Hand back the stored result.
    ReturnStored,
    /// Hand back the result of this attempt.
    ReturnOwn,
    /// Fail: the attempt is being executed elsewhere.
    FailBusy,
}

impl Phase {
    /// Whether an event answers what a phase is waiting for.
    pub open spec fn awaits(self, event: Event) -> bool {
        match self {
            Phase::Looking | Phase::LookingAgain | Phase::LookingForWinner => event is Stored,
            Phase::Claiming => event is Claimed,
            Phase::Starting | Phase::Noting(_) | Phase::Completing => event is Checkpointed,
            Phase::Calling => event is Answered,
            Phase::Publishing => event is Published,
            Phase::Over => false,
        }
    }

    /// What follows an event.
    pub open spec fn after(self, event: Event) -> (Phase, Move) {
        match (self, event) {
            (Phase::Looking, Event::Stored(found)) => if found {
                (Phase::Over, Move::ReturnStored)
            } else {
                (Phase::Claiming, Move::ClaimAttempt)
            },
            (Phase::Claiming, Event::Claimed(won)) => if won {
                (Phase::Starting, Move::WriteCheckpoint(0))
            } else {
                (Phase::LookingAgain, Move::ReadResult)
            },
            (Phase::LookingAgain, Event::Stored(found)) => if found {
                (Phase::Over, Move::ReturnStored)
            } else {
                (Phase::Over, Move::FailBusy)
            },
            (Phase::Starting, Event::Checkpointed) => (Phase::Calling, Move::CallModel),
            (Phase::Calling, Event::Answered(validated)) => (
                Phase::Noting(validated),
                Move::WriteCheckpoint(1),
            ),
            (Phase::Noting(validated), Event::Checkpointed) => if validated {
                (Phase::Publishing, Move::PublishResult)
            } else {
                (Phase::Completing, Move::WriteCheckpoint(2))
            },
            (Phase::Publishing, Event::Published(first)) => if first {
                (Phase::Completing, Move::WriteCheckpoint(2))
            } else {
                (Phase::LookingForWinner, Move::ReadResult)
            },
            (Phase::LookingForWinner, Event::Stored(found)) => if found {
                (Phase::Over, Move::ReturnStored)
            } else {
                (Phase::Completing, Move::WriteCheckpoint(2))
            },
            (Phase::Completing, Event::Checkpointed) => (Phase::Over, Move::ReturnOwn),
            _ => (Phase::Over, Move::FailBusy),
        }
    }

    /// How far an execution has come.
    pub open spec fn progress(self) -> int {
        match self {
            Phase::Looking => 0,
            Phase::Claiming => 1,
            Phase::LookingAgain => 2,
            Phase::Starting => 2,
            Phase::Calling => 3,
            Phase::Noting(_) => 4,
            Phase::Publishing => 5,
            Phase::LookingForWinner => 6,
            Phase::Completing => 7,
            Phase::Over => 8,
        }
    }

    /// Where an execution begins, and its first move.
    pub fn begin() -> (r: (Phase, Move))
        ensures
            r == (Phase::Looking, Move::ReadResult),
    {
        (Phase::Looking, Move::ReadResult)
    }

    /// What follows an event that the phase was waiting for.
    pub fn next(self, event: Event) -> (r: (Phase, Move))
        requires
            self.awaits(event),
        ensures
            r == self.after(event),
    {
        match (self, event) {
            (Phase::Looking, Event::Stored(found)) => if found {
                (Phase::Over, Move::ReturnStored)
            } else {
                (Phase::Claiming, Move::ClaimAttempt)
            },
            (Phase::Claiming, Event::Claimed(won)) => if won {
                (Phase::Starting, Move::WriteCheckpoint(0))
            } else {
                (Phase::LookingAgain, Move::ReadResult)
            },
            (Phase::LookingAgain, Event::Stored(found)) => if found {
                (Phase::Over, Move::ReturnStored)
            } else {
                (Phase::Over, Move::FailBusy)
            },
            (Phase::Starting, Event::Checkpointed) => (Phase::Calling, Move::CallModel),
            (Phase::Calling, Event::Answered(validated)) => (
                Phase::Noting(validated),
                Move::WriteCheckpoint(1),
            ),
            // Only a validated result is published, so a failed attempt does not block the
            // retry from running.
            (Phase::Noting(validated), Event::Checkpointed) => if validated {
                (Phase::Publishing, Move::PublishResult)
            } else {
                (Phase::Completing, Move::WriteCheckpoint(2))
            },
            // Another agent may have published first; theirs is authoritative so the job
            // sees exactly one result per task.
            (Phase::Publishing, Event::Published(first)) => if first {
                (Phase::Completing, Move::WriteCheckpoint(2))
            } else {
                (Phase::LookingForWinner, Move::ReadResult)
            },
            (Phase::LookingForWinner, Event::Stored(found)) => if found {
                (Phase::Over, Move::ReturnStored)
            } else {
                (Phase::Completing, Move::WriteCheckpoint(2))
            },
            (Phase::Completing, Event::Checkpointed) => (Phase::Over, Move::ReturnOwn),
            _ => (Phase::Over, Move::FailBusy),
        }
    }
}

/// The label of a checkpoint.
pub open spec fn checkpoint_label(seq: u32) -> Seq<char> {
    if seq == 0 {
        "started"@
    } else if seq == 1 {
        "model_responded"@
    } else {
        "completed"@
    }
}

/// The label of a checkpoint.
pub fn label_of_checkpoint(seq: u32) -> (r: &'static str)
    ensures
        r@ == checkpoint_label(seq),
{
    if seq == 0 {
        "started"
    } else if seq == 1 {
        "model_responded"
    } else {
        "completed"
    }
}

/// The model is called only by an execution that has won the claim on its attempt: the call
/// follows the opening checkpoint, and that follows nothing but a won claim.
pub proof fn law_the_model_is_called_under_a_claim(phase: Phase, event: Event)
    requires
        phase.awaits(event),
    ensures
        phase.after(event).1 == Move::CallModel ==> phase == Phase::Starting,
        phase.after(event).0 == Phase::Starting ==> phase == Phase::Claiming && event
            == Event::Claimed(true),
        phase.after(event).0 == Phase::Calling <==> phase.after(event).1 == Move::CallModel,
{
}

/// A delivery of work that is already done returns the stored result and touches nothing else.
pub proof fn law_a_duplicate_returns_the_stored_result(phase: Phase)
    requires
        phase == Phase::Looking || phase == Phase::LookingAgain,
    ensures
        phase.after(Event::Stored(true)) == (Phase::Over, Move::ReturnStored),
{
}

/// Only a result that passed every check is published.
pub proof fn law_only_validated_results_are_published(phase: Phase, event: Event)
    requires
        phase.awaits(event),
    ensures
        phase.after(event).1 == Move::PublishResult ==> phase == Phase::Noting(true),
        phase.after(event).0 == Phase::Noting(true) ==> event == Event::Answered(true),
{
}

/// Every execution ends: each event takes it further, and there is an end to how far it can
/// come.
pub proof fn law_every_execution_ends(phase: Phase, event: Event)
    requires
        phase.awaits(event),
    ensures
        phase.progress() < phase.after(event).0.progress() <= 8,
        phase.after(event).0 == Phase::Over <==> phase.after(event).1 == Move::ReturnStored
            || phase.after(event).1 == Move::ReturnOwn || phase.after(event).1 == Move::FailBusy,
{
}

/// The upstream part of two lists behind each other is that of the one behind that of the other.
proof fn lemma_upstream_concat(first: Seq<UpstreamView>, second: Seq<UpstreamView>)
    ensures
        upstream_text(first + second) == upstream_text(first) + upstream_text(second),
    decreases second.len(),
{
    if second.len() == 0 {
        assert(first + second =~= first);
        assert(upstream_text(first) + upstream_text(second) =~= upstream_text(first));
    } else {
        assert((first + second).drop_last() =~= first + second.drop_last());
        lemma_upstream_concat(first, second.drop_last());
        assert(upstream_text(first + second) =~= upstream_text(first) + upstream_text(second));
    }
}

/// The upstream part around one output: what stands before it does not depend on it, nor does
/// what stands behind it.
proof fn lemma_upstream_around(list: Seq<UpstreamView>, i: int)
    requires
        0 <= i < list.len(),
    ensures
        upstream_text(list) == upstream_text(list.take(i)) + ("\n## "@ + list[i].title + "\n"@
            + first_chars(list[i].output, EXCERPT_CHARS as nat) + "\n"@) + upstream_text(
            list.skip(i + 1),
        ),
{
    let one = seq![list[i]];
    assert(list =~= list.take(i) + (one + list.skip(i + 1)));
    lemma_upstream_concat(list.take(i), one + list.skip(i + 1));
    lemma_upstream_concat(one, list.skip(i + 1));
    assert(one.drop_last() =~= seq![]);
    reveal_with_fuel(upstream_text, 2);
    assert(upstream_text(one) =~= "\n## "@ + list[i].title + "\n"@ + first_chars(
        list[i].output,
        EXCERPT_CHARS as nat,
    ) + "\n"@);
    assert(upstream_text(list) =~= upstream_text(list.take(i)) + ("\n## "@ + list[i].title
        + "\n"@ + first_chars(list[i].output, EXCERPT_CHARS as nat) + "\n"@) + upstream_text(
        list.skip(i + 1),
    ));
}

/// What stands in a prompt before the upstream part, and behind it.
spec fn around_upstream(task: TaskView, context: ContextView) -> (Seq<char>, Seq<char>) {
    let none = ContextView { upstream: seq![], ..context };
    let tools = if context.allowed_tools.len() > 0 {
        "\nPermitted tools: "@ + joined(context.allowed_tools, ", "@) + "\n"@
    } else {
        seq![]
    };
    let all = prompt_of(task, none);
    (all.take(all.len() - tools.len()) + "\nUpstream results:\n"@, tools)
}

/// A prompt with upstream outputs is the upstream part between the rest.
proof fn lemma_prompt_around(task: TaskView, context: ContextView)
    requires
        context.upstream.len() > 0,
    ensures
        prompt_of(task, context) == around_upstream(task, context).0 + upstream_text(
            context.upstream,
        ) + around_upstream(task, context).1,
{
    let (before, after) = around_upstream(task, context);
    let none = ContextView { upstream: seq![], ..context };
    let all = prompt_of(task, none);
    let head = "Task: "@ + task.title + "\nKind: "@ + task.kind.label() + "\nObjective: "@
        + context.objective + "\nInstruction: "@ + task.description + "\n"@;
    let background: Seq<char> = match context.context {
        Some(extra) => "Background: "@ + extra + "\n"@,
        None => seq![],
    };
    assert(all =~= head + background + after);
    assert(all.take(all.len() - after.len()) =~= head + background);
    assert(prompt_of(task, context) =~= before + upstream_text(context.upstream) + after);
}

/// Every upstream output reaches the prompt: behind its title stand its first 1,200 characters,
/// or the whole of it where it is shorter.
pub proof fn law_upstream_outputs_reach_the_prompt(task: TaskView, context: ContextView, i: int)
    requires
        0 <= i < context.upstream.len(),
    ensures
        ({
            let source = context.upstream[i];
            &&& source.output.len() <= 1_200 ==> holds(
                prompt_of(task, context),
                "\n## "@ + source.title + "\n"@ + source.output,
            )
            &&& source.output.len() >= 1_200 ==> holds(
                prompt_of(task, context),
                "\n## "@ + source.title + "\n"@ + source.output.take(1_200),
            )
        }),
{
    let list = context.upstream;
    let source = list[i];
    let part = first_chars(source.output, EXCERPT_CHARS as nat);
    let piece = "\n## "@ + source.title + "\n"@ + part;
    let before = upstream_text(list.take(i));
    let after = upstream_text(list.skip(i + 1));
    lemma_prompt_around(task, context);
    lemma_upstream_around(list, i);
    lemma_holds_between(before, piece, "\n"@ + after);
    assert(before + piece + ("\n"@ + after) =~= upstream_text(list));
    let (head, tail) = around_upstream(task, context);
    lemma_holds_within(head, upstream_text(list), tail, piece);
    if source.output.len() == 1_200 {
        assert(source.output.take(1_200) =~= source.output);
    }
}

/// The excerpt of an output with everything that stands before it and behind it.
proof fn lemma_regrouped(
    head: Seq<char>,
    before: Seq<char>,
    title: Seq<char>,
    part: Seq<char>,
    end: Seq<char>,
    after: Seq<char>,
    tail: Seq<char>,
)
    ensures
        head + (before + (title + part + end) + after) + tail == (head + before + title) + part + (
        end + after + tail),
{
    assert(head + (before + (title + part + end) + after) + tail =~= (head + before + title) + part
        + (end + after + tail));
}

/// Two prompts that differ in nothing but one upstream output are different, where the outputs
/// differ within their first 1,200 characters.
pub proof fn law_prompts_tell_upstream_outputs_apart(
    task: TaskView,
    context: ContextView,
    i: int,
    output: Seq<char>,
    at: int,
)
    requires
        0 <= i < context.upstream.len(),
        0 <= at < 1_200,
        at < context.upstream[i].output.len(),
        at < output.len() ==> output[at] != context.upstream[i].output[at],
    ensures
        prompt_of(task, context) != prompt_of(
            task,
            ContextView {
                upstream: context.upstream.update(
                    i,
                    UpstreamView { output, ..context.upstream[i] },
                ),
                ..context
            },
        ),
{
    let list = context.upstream;
    let changed = UpstreamView { output, ..list[i] };
    let others = list.update(i, changed);
    let second = ContextView { upstream: others, ..context };
    let (head, tail) = around_upstream(task, context);
    assert(around_upstream(task, second) == (head, tail));
    lemma_prompt_around(task, context);
    lemma_prompt_around(task, second);
    lemma_upstream_around(list, i);
    lemma_upstream_around(others, i);
    assert(others.take(i) =~= list.take(i));
    assert(others.skip(i + 1) =~= list.skip(i + 1));
    let before = upstream_text(list.take(i));
    let after = upstream_text(list.skip(i + 1));
    let old_part = first_chars(list[i].output, EXCERPT_CHARS as nat);
    let new_part = first_chars(output, EXCERPT_CHARS as nat);
    let lead = head + before + ("\n## "@ + list[i].title + "\n"@);
    let rest = "\n"@ + after + tail;
    lemma_regrouped(head, before, "\n## "@ + list[i].title + "\n"@, old_part, "\n"@, after, tail);
    lemma_regrouped(head, before, "\n## "@ + list[i].title + "\n"@, new_part, "\n"@, after, tail);
    if prompt_of(task, context) == prompt_of(task, second) {
        lemma_same_between(lead, old_part, new_part, rest);
        assert(old_part[at] == list[i].output[at]);
        assert(old_part.len() > at);
        assert(new_part[at] == output[at]);
    }
}

/// A prompt says what the task is: its title, its kind, the objective, the instruction, the
/// background, and every tool the agent may use.
pub proof fn law_prompts_say_what_to_do(task: TaskView, context: ContextView)
    ensures
        holds(prompt_of(task, context), task.title),
        holds(prompt_of(task, context), task.kind.label()),
        holds(prompt_of(task, context), context.objective),
        holds(prompt_of(task, context), task.description),
        context.context matches Some(extra) ==> holds(prompt_of(task, context), extra),
        forall|i: int|
            0 <= i < context.allowed_tools.len() ==> holds(
                prompt_of(task, context),
                #[trigger] context.allowed_tools[i],
            ),
{
    let background: Seq<char> = match context.context {
        Some(extra) => "Background: "@ + extra + "\n"@,
        None => seq![],
    };
    let upstream: Seq<char> = if context.upstream.len() > 0 {
        "\nUpstream results:\n"@ + upstream_text(context.upstream)
    } else {
        seq![]
    };
    let tools: Seq<char> = if context.allowed_tools.len() > 0 {
        "\nPermitted tools: "@ + joined(context.allowed_tools, ", "@) + "\n"@
    } else {
        seq![]
    };
    let a = "Task: "@ + task.title;
    let b = a + "\nKind: "@ + task.kind.label();
    let c = b + "\nObjective: "@ + context.objective;
    let d = c + "\nInstruction: "@ + task.description;
    let head = d + "\n"@;
    lemma_holds_end("Task: "@, task.title);
    lemma_holds_longer(a, "\nKind: "@, task.title);
    lemma_holds_longer(a + "\nKind: "@, task.kind.label(), task.title);
    lemma_holds_end(a + "\nKind: "@, task.kind.label());
    assert forall|piece: Seq<char>| #[trigger] holds(b, piece) implies holds(c, piece) by {
        lemma_holds_longer(b, "\nObjective: "@, piece);
        lemma_holds_longer(b + "\nObjective: "@, context.objective, piece);
    }
    lemma_holds_end(b + "\nObjective: "@, context.objective);
    assert forall|piece: Seq<char>| #[trigger] holds(c, piece) implies holds(d, piece) by {
        lemma_holds_longer(c, "\nInstruction: "@, piece);
        lemma_holds_longer(c + "\nInstruction: "@, task.description, piece);
    }
    lemma_holds_end(c + "\nInstruction: "@, task.description);
    assert forall|piece: Seq<char>| #[trigger] holds(d, piece) implies holds(
        head + background + upstream + tools,
        piece,
    ) by {
        lemma_holds_longer(d, "\n"@, piece);
        lemma_holds_longer(head, background, piece);
        lemma_holds_longer(head + background, upstream, piece);
        lemma_holds_longer(head + background + upstream, tools, piece);
    }
    if let Some(extra) = context.context {
        lemma_holds_end("Background: "@, extra);
        lemma_holds_longer("Background: "@ + extra, "\n"@, extra);
        lemma_holds_later(head, background, extra);
        lemma_holds_longer(head + background, upstream, extra);
        lemma_holds_longer(head + background + upstream, tools, extra);
    }
    assert forall|i: int| 0 <= i < context.allowed_tools.len() implies holds(
        prompt_of(task, context),
        #[trigger] context.allowed_tools[i],
    ) by {
        let tool = context.allowed_tools[i];
        law_joined_texts_hold_each(context.allowed_tools, ", "@, i);
        lemma_holds_within("\nPermitted tools: "@, joined(context.allowed_tools, ", "@), "\n"@, tool);
        lemma_holds_later(head + background + upstream, tools, tool);
    }
}

/// Every item that names a source is a citation of that source, and no other item is.
pub proof fn law_citations_name_their_source(items: Seq<JsonView>)
    ensures
        forall|i: int|
            0 <= i < items.len() && (#[trigger] items[i]).member_string("source"@) is Some
                ==> exists|k: int|
                0 <= k < citations_of(items).len() && Some(
                    (#[trigger] citations_of(items)[k]).source,
                ) == items[i].member_string("source"@) && citations_of(items)[k].locator
                    == items[i].member_string("locator"@) && (items[i].member_string(
                    "claim"@,
                ) matches Some(claim) ==> citations_of(items)[k].claim == claim),
        forall|k: int|
            0 <= k < citations_of(items).len() ==> exists|i: int|
                0 <= i < items.len() && (#[trigger] items[i]).member_string("source"@) == Some(
                    (#[trigger] citations_of(items)[k]).source,
                ),
    decreases items.len(),
{
    let all = citations_of(items);
    if items.len() > 0 {
        let front = items.drop_last();
        let rest = citations_of(front);
        law_citations_name_their_source(front);
        assert forall|i: int|
            0 <= i < items.len() && (#[trigger] items[i]).member_string(
                "source"@,
            ) is Some implies exists|k: int|
            0 <= k < all.len() && Some((#[trigger] all[k]).source) == items[i].member_string(
                "source"@,
            ) && all[k].locator == items[i].member_string("locator"@) && (items[i].member_string(
                "claim"@,
            ) matches Some(claim) ==> all[k].claim == claim) by {
            if i < front.len() {
                assert(front[i] == items[i]);
                let k = choose|k: int|
                    0 <= k < rest.len() && Some((#[trigger] rest[k]).source)
                        == front[i].member_string("source"@) && rest[k].locator
                        == front[i].member_string("locator"@) && (front[i].member_string(
                        "claim"@,
                    ) matches Some(claim) ==> rest[k].claim == claim);
                assert(all[k] == rest[k]);
            } else {
                assert(items[i] == items.last());
                assert(all[rest.len() as int] == citation_of(items.last())->0);
            }
        }
        assert forall|k: int| 0 <= k < all.len() implies exists|i: int|
            0 <= i < items.len() && (#[trigger] items[i]).member_string("source"@) == Some(
                (#[trigger] all[k]).source,
            ) by {
            if k < rest.len() {
                assert(all[k] == rest[k]);
                let i = choose|i: int|
                    0 <= i < front.len() && (#[trigger] front[i]).member_string("source"@) == Some(
                        rest[k].source,
                    );
                assert(items[i] == front[i]);
            } else {
                assert(items[items.len() - 1] == items.last());
            }
        }
    }
}

/// What an agent answers is shown whole: first its summary, and behind it every finding.
pub proof fn law_every_finding_is_shown(parsed: ParsedView, i: int)
    requires
        0 <= i < parsed.findings.len(),
    ensures
        holds(parsed.shown(), parsed.findings[i]),
        parsed.shown().len() >= parsed.summary.len(),
        parsed.shown().take(parsed.summary.len() as int) == parsed.summary,
{
    let none: Seq<char> = seq![];
    lemma_listed(parsed.findings, i);
    lemma_holds_within(
        parsed.summary + "\n"@,
        listed(parsed.findings),
        none,
        parsed.findings[i],
    );
    assert(parsed.summary + "\n"@ + listed(parsed.findings) + none =~= parsed.shown());
    assert(parsed.shown().take(parsed.summary.len() as int) =~= parsed.summary);
}

/// A list of findings holds each of them.
proof fn lemma_listed(findings: Seq<Seq<char>>, i: int)
    requires
        0 <= i < findings.len(),
    ensures
        holds(listed(findings), findings[i]),
    decreases findings.len(),
{
    let none: Seq<char> = seq![];
    let front = findings.drop_last();
    if i < front.len() {
        assert(front[i] == findings[i]);
        lemma_listed(front, i);
        lemma_holds_within(none, listed(front), "\n- "@ + findings.last(), findings[i]);
        assert(none + listed(front) + ("\n- "@ + findings.last()) =~= listed(findings));
    } else {
        lemma_holds_between(listed(front) + "\n- "@, findings.last(), none);
        assert(listed(front) + "\n- "@ + findings.last() + none =~= listed(findings));
    }
}

/// A response that is not JSON is its own summary, and loses nothing but the space around it.
pub proof fn law_prose_is_its_own_summary(text: Seq<char>, error: Seq<char>)
    ensures
        ParsedView::of(text, Err(error)).shown() == trimmed(text),
        ParsedView::of(text, Err(error)).evidence.len() == 0,
{
}

/// A response that is JSON is summed up by its own summary, and is as sure as it says, within
/// zero and one.
pub proof fn law_structured_answers_are_taken_at_their_word(
    value: JsonView,
    text: Seq<char>,
    summary: Seq<char>,
    sure: Real64,
)
    requires
        value.member_string("summary"@) == Some(summary),
        value.member_number("confidence"@) == Some(sure),
        sure.bits <= ONE_BITS_64,
    ensures
        ParsedView::of(text, Ok(value)).summary == summary,
        ParsedView::of(text, Ok(value)).confidence == sure,
        ParsedView::of(text, Ok(value)).structured == value,
{
}

/// A result says whose it is and what it cost: it carries the task, the attempt, and the agent,
/// what the model answered, and one piece of evidence for each citation; and it has passed
/// exactly where the answer broke no rule of the task.
pub proof fn law_a_result_says_whose_it_is(
    agent: AgentId,
    task: TaskView,
    response: ResponseView,
    parsed: ParsedView,
    confidence: Real32,
    supports: Seq<Real32>,
    elapsed_ms: u64,
    now: Timestamp,
)
    ensures
        ({
            let result = result_of(
                agent,
                task,
                response,
                parsed,
                confidence,
                supports,
                elapsed_ms,
                now,
            );
            &&& result.task_id == task.id
            &&& result.job_id == task.job_id
            &&& result.agent_id == agent
            &&& result.attempt == task.attempt
            &&& result.kind == task.kind
            &&& result.title == task.title
            &&& result.confidence == confidence
            &&& result.tokens_in == response.tokens_in
            &&& result.tokens_out == response.tokens_out
            &&& result.cost_usd == response.cost_usd
            &&& result.duration_ms == elapsed_ms
            &&& result.finished_at == now
            &&& !result.deduplicated
            &&& parsed.findings.len() == 0 ==> result.output == parsed.summary
            &&& result.evidence.len() == parsed.evidence.len()
            &&& forall|i: int|
                0 <= i < parsed.evidence.len() ==> (#[trigger] result.evidence[i]).source
                    == parsed.evidence[i].source && result.evidence[i].claim
                    == parsed.evidence[i].claim && result.evidence[i].support == supports[i]
                    && result.evidence[i].locator == parsed.evidence[i].locator
            &&& result.passed() <==> forall|i: int|
                0 <= i < task.validation.len() ==> (#[trigger] task.validation[i]).failure(
                    response.text,
                ) is None
        }),
{
    law_every_broken_rule_is_reported(response.text, task.validation);
}

/// The model is asked what the prompt says, under the agent's own settings and on behalf of the
/// attempt; a repeated attempt is not answered from the cache.
pub proof fn law_the_model_is_asked_the_prompt(
    agent: AgentView,
    task: TaskView,
    context: ContextView,
)
    ensures
        ({
            let call = call_for(agent, task, context);
            &&& last_user_content(call.messages) == prompt_of(task, context)
            &&& call.messages.len() == 2
            &&& call.messages[0].role == Role::System
            &&& call.model == agent.model_config.model
            &&& call.max_tokens == Some(agent.model_config.max_tokens)
            &&& call.temperature == Some(agent.model_config.temperature)
            &&& call.json_mode
            &&& call.bypass_cache <==> task.attempt >= 2
            &&& call.job_id == Some(task.job_id)
            &&& call.task_id == Some(task.id)
            &&& call.agent_id == Some(agent.id)
        }),
{
    let call = call_for(agent, task, context);
    assert(call.messages.last().role == Role::User);
}

/// Every attempt is claimed under a name of its own, and all attempts at a task publish under the
/// same name: what one published the next one finds.
pub proof fn law_attempts_are_claimed_apart(
    agent: AgentId,
    other: AgentId,
    task: TaskView,
    first: u32,
    second: u32,
    payload: JsonView,
)
    requires
        first != second,
    ensures
        claim_of(agent, TaskView { attempt: first, ..task }, payload).name() != claim_of(
            other,
            TaskView { attempt: second, ..task },
            payload,
        ).name(),
        claim_of(agent, task, payload).name() == claim_of(other, task, payload).name(),
        publication_of(agent, TaskView { attempt: first, ..task }, payload).name()
            == publication_of(other, TaskView { attempt: second, ..task }, payload).name(),
        claim_of(agent, task, payload).value == payload,
        publication_of(agent, task, payload).value == payload,
        claim_of(agent, task, payload).job_id == Some(task.job_id),
        publication_of(agent, task, payload).job_id == Some(task.job_id),
        claim_of(agent, task, payload).ttl_nanos is None,
        publication_of(agent, task, payload).ttl_nanos is None,
{
    law_attempts_have_distinct_keys(task, first, second);
}

/// An attempt that nobody else made runs through: it claims, calls the model, publishes what was
/// validated, and returns its own result; one that lost the race returns the winner's; and one
/// that another agent is at gives up.
pub proof fn law_an_attempt_runs_through()
    ensures
        Phase::Looking.after(Event::Stored(false)) == (Phase::Claiming, Move::ClaimAttempt),
        Phase::Claiming.after(Event::Claimed(true)).0 == Phase::Starting,
        Phase::Starting.after(Event::Checkpointed) == (Phase::Calling, Move::CallModel),
        Phase::Noting(true).after(Event::Checkpointed) == (Phase::Publishing, Move::PublishResult),
        Phase::Noting(false).after(Event::Checkpointed).0 == Phase::Completing,
        Phase::Publishing.after(Event::Published(true)).0 == Phase::Completing,
        Phase::Completing.after(Event::Checkpointed) == (Phase::Over, Move::ReturnOwn),
        Phase::Publishing.after(Event::Published(false)) == (
            Phase::LookingForWinner,
            Move::ReadResult,
        ),
        Phase::LookingForWinner.after(Event::Stored(true)) == (Phase::Over, Move::ReturnStored),
        Phase::Claiming.after(Event::Claimed(false)) == (Phase::LookingAgain, Move::ReadResult),
        Phase::LookingAgain.after(Event::Stored(false)) == (Phase::Over, Move::FailBusy),
{
}

} // verus!
