//! What the command line asks for and shows.

use crate::handle::{JobEvent, JobEventKind};
use crate::job::{ConflictView, ExecutionStatistics, ExecutionStrategy, FinalResult,
    FinalResultView, JobRequest, JobRequestView};
use crate::schedule::SchedulerKind;
use crate::text::{decimal, decimal_text};
use vstd::prelude::*;
use vstd::string::*;

verus! {

/// The placement strategies the command line offers.
#[derive(Clone, Copy, Debug, PartialEq, Eq, Structural)]
pub enum Placement {
    /// Even distribution.
    RoundRobin,
    /// The least busy agent.
    LeastLoaded,
    /// A weighted mix.
    CapabilityWeighted,
    /// A weighted mix that learns.
    Adaptive,
}

impl Placement {
    /// The scheduler a flag stands for.
    pub open spec fn chosen(self) -> SchedulerKind {
        match self {
            Placement::RoundRobin => SchedulerKind::RoundRobin,
            Placement::LeastLoaded => SchedulerKind::LeastLoaded,
            Placement::CapabilityWeighted => SchedulerKind::CapabilityWeighted,
            Placement::Adaptive => SchedulerKind::Adaptive,
        }
    }

    /// The scheduler a flag stands for.
    pub fn kind(self) -> (r: SchedulerKind)
        ensures
            r == self.chosen(),
    {
        match self {
            Placement::RoundRobin => SchedulerKind::RoundRobin,
            Placement::LeastLoaded => SchedulerKind::LeastLoaded,
            Placement::CapabilityWeighted => SchedulerKind::CapabilityWeighted,
            Placement::Adaptive => SchedulerKind::Adaptive,
        }
    }
}

/// The flags cover every scheduler, each once.
pub proof fn law_flags_cover_every_scheduler(kind: SchedulerKind)
    ensures
        exists|flag: Placement| #[trigger] flag.chosen() == kind,
        forall|one: Placement, other: Placement|
            #[trigger] one.chosen() == #[trigger] other.chosen() ==> one == other,
{
    let flag = match kind {
        SchedulerKind::RoundRobin => Placement::RoundRobin,
        SchedulerKind::LeastLoaded => Placement::LeastLoaded,
        SchedulerKind::CapabilityWeighted => Placement::CapabilityWeighted,
        SchedulerKind::Adaptive => Placement::Adaptive,
    };
    assert(flag.chosen() == kind);
}

/// The built-in demonstration workflows.
#[derive(Clone, Copy, Debug, PartialEq, Eq, Structural)]
pub enum Demo {
    /// A planner fans research out, critics check it, a merger concludes.
    Research,
    /// A planner splits a feature, coders implement, critics and testers verify.
    Codegen,
    /// Agents answer independently, critique each other, a judge decides.
    Debate,
    /// All three, in order.
    All,
}

/// A request of a demonstration.
pub open spec fn demo_request(
    objective: Seq<char>,
    strategy: ExecutionStrategy,
    agents: usize,
) -> JobRequestView {
    JobRequestView {
        execution_strategy: strategy,
        max_agents: agents,
        ..JobRequestView::plain(objective)
    }
}

/// The request of a single demonstration.
pub open spec fn demo_job(which: Demo, agents: usize) -> JobRequestView {
    match which {
        Demo::Research => demo_request(
            "Survey how distributed systems achieve consensus, replicate state, detect failures, and recover from partitions"@,
            ExecutionStrategy::Hierarchical,
            agents,
        ),
        Demo::Codegen => demo_request(
            "Implement a rate limiter: token bucket core, a middleware layer, persistence, and a benchmark harness"@,
            ExecutionStrategy::PlannerExecutor,
            agents,
        ),
        _ => demo_request(
            "Is leader-based consensus simpler to operate than leaderless consensus?"@,
            ExecutionStrategy::Debate,
            agents,
        ),
    }
}

/// Research in parallel.
pub fn research_demo(agents: usize) -> (r: JobRequest)
    ensures
        r@ == demo_job(Demo::Research, agents),
{
    JobRequest::new(
        "Survey how distributed systems achieve consensus, replicate state, detect failures, and recover from partitions",
    ).with_strategy(ExecutionStrategy::Hierarchical).with_max_agents(agents)
}

/// Code generation.
pub fn codegen_demo(agents: usize) -> (r: JobRequest)
    ensures
        r@ == demo_job(Demo::Codegen, agents),
{
    JobRequest::new(
        "Implement a rate limiter: token bucket core, a middleware layer, persistence, and a benchmark harness",
    ).with_strategy(ExecutionStrategy::PlannerExecutor).with_max_agents(agents)
}

/// A debate.
pub fn debate_demo(agents: usize) -> (r: JobRequest)
    ensures
        r@ == demo_job(Demo::Debate, agents),
{
    JobRequest::new(
        "Is leader-based consensus simpler to operate than leaderless consensus?",
    ).with_strategy(ExecutionStrategy::Debate).with_max_agents(agents)
}

/// The title a demonstration is announced with.
pub open spec fn demo_title(which: Demo) -> Seq<char> {
    match which {
        Demo::Research => "Parallel research swarm"@,
        Demo::Codegen => "Distributed code-generation swarm"@,
        _ => "Debate and consensus swarm"@,
    }
}

/// The single demonstrations that one stands for, in order.
pub open spec fn demo_parts(which: Demo) -> Seq<Demo> {
    match which {
        Demo::All => seq![Demo::Research, Demo::Codegen, Demo::Debate],
        _ => seq![which],
    }
}

/// The jobs of a demonstration, each with its title, in order.
pub fn demo(which: Demo, agents: usize) -> (r: Vec<(&'static str, JobRequest)>)
    ensures
        r@.len() == demo_parts(which).len(),
        forall|i: int|
            0 <= i < r@.len() ==> (#[trigger] r@[i]).0@ == demo_title(demo_parts(which)[i])
                && r@[i].1@ == demo_job(demo_parts(which)[i], agents),
{
    let mut r: Vec<(&'static str, JobRequest)> = Vec::new();
    if which == Demo::Research || which == Demo::All {
        r.push(("Parallel research swarm", research_demo(agents)));
    }
    if which == Demo::Codegen || which == Demo::All {
        r.push(("Distributed code-generation swarm", codegen_demo(agents)));
    }
    if which == Demo::Debate || which == Demo::All {
        r.push(("Debate and consensus swarm", debate_demo(agents)));
    }
    r
}

/// The colour an event is shown in.
pub open spec fn event_colour(kind: JobEventKind) -> Seq<char> {
    match kind {
        JobEventKind::TaskCompleted => "\x1b[32m"@,
        JobEventKind::TaskFailed => "\x1b[31m"@,
        JobEventKind::TaskDeadLettered => "\x1b[31m"@,
        JobEventKind::TaskRetrying => "\x1b[33m"@,
        JobEventKind::TaskStarted => "\x1b[36m"@,
        JobEventKind::AgentSpawned => "\x1b[35m"@,
        JobEventKind::JobFinished => "\x1b[1m"@,
        _ => "\x1b[90m"@,
    }
}

/// The label an event is shown under, as wide as the longest.
pub open spec fn event_label(kind: JobEventKind) -> Seq<char> {
    match kind {
        JobEventKind::TaskCompleted => " done"@,
        JobEventKind::TaskFailed => " fail"@,
        JobEventKind::TaskDeadLettered => " fail"@,
        JobEventKind::TaskRetrying => "retry"@,
        JobEventKind::TaskStarted => "start"@,
        JobEventKind::TaskQueued => "queue"@,
        JobEventKind::AgentSpawned => "agent"@,
        JobEventKind::JobFinished => "  job"@,
        _ => " info"@,
    }
}

/// The line an event is shown as. The percentage is given as it is printed.
pub fn event_line(event: &JobEvent, percent: &str) -> (r: String)
    ensures
        r@ == event_colour(event.kind) + "["@ + percent@ + "%] "@ + event_label(event.kind)
            + "\x1b[0m "@ + event.detail@,
{
    let (colour, label) = match event.kind {
        JobEventKind::TaskCompleted => ("\x1b[32m", " done"),
        JobEventKind::TaskFailed | JobEventKind::TaskDeadLettered => ("\x1b[31m", " fail"),
        JobEventKind::TaskRetrying => ("\x1b[33m", "retry"),
        JobEventKind::TaskStarted => ("\x1b[36m", "start"),
        JobEventKind::TaskQueued => ("\x1b[90m", "queue"),
        JobEventKind::AgentSpawned => ("\x1b[35m", "agent"),
        JobEventKind::JobFinished => ("\x1b[1m", "  job"),
        _ => ("\x1b[90m", " info"),
    };
    let mut line = colour.to_owned();
    line.append("[");
    line.append(percent);
    line.append("%] ");
    line.append(label);
    line.append("\x1b[0m ");
    line.append(event.detail.as_str());
    line
}

/// The descriptions of the first `n` conflicts, one to a line.
pub open spec fn conflict_lines(conflicts: Seq<ConflictView>, n: nat) -> Seq<char>
    decreases n,
{
    if n == 0 {
        "\x1b[33mUnresolved conflicts:\x1b[0m\n"@
    } else {
        conflict_lines(conflicts, (n - 1) as nat) + "  - "@ + conflicts[n - 1].description + "\n"@
    }
}

/// What a report says of the outcome.
pub open spec fn outcome_part(result: FinalResultView) -> Seq<char> {
    let head = "\n\x1b[1mResult\x1b[0m ("@ + result.status.label() + ")\n"@ + result.summary
        + "\n\n"@;
    if result.unresolved_conflicts.len() == 0 {
        head
    } else {
        head + conflict_lines(result.unresolved_conflicts, result.unresolved_conflicts.len())
            + "\n"@
    }
}

/// What a report says of how the job ran. Spend and confidence are given as they are printed.
pub open spec fn execution_part(
    before: Seq<char>,
    statistics: ExecutionStatistics,
    cost: Seq<char>,
    confidence: Seq<char>,
    outputs: nat,
    evidence: nat,
) -> Seq<char> {
    before + "\x1b[1mExecution\x1b[0m\n  tasks         "@ + decimal(
        statistics.tasks_succeeded as nat,
    ) + "/"@ + decimal(statistics.tasks_total as nat) + " succeeded ("@ + decimal(
        statistics.tasks_retried as nat,
    ) + " retried, "@ + decimal(statistics.tasks_failed as nat) + " failed)\n  agents        "@
        + decimal(statistics.agents_spawned as nat) + "\n  latency       p50 "@ + decimal(
        statistics.median_task_latency_ms as nat,
    ) + "ms · p95 "@ + decimal(statistics.p95_task_latency_ms as nat) + "ms · p99 "@ + decimal(
        statistics.p99_task_latency_ms as nat,
    ) + "ms\n  wall clock    "@ + decimal(statistics.wall_clock_ms as nat)
        + "ms\n  tokens        "@ + decimal(statistics.tokens_in as nat) + " in · "@ + decimal(
        statistics.tokens_out as nat,
    ) + " out\n  cost          $"@ + cost + "\n  confidence    "@ + confidence
        + "\n  outputs       "@ + decimal(outputs) + "\n  evidence      "@ + decimal(evidence)
        + "\n"@
}

/// What a finished job is reported as. Spend and confidence are given as they are printed.
pub fn report(result: &FinalResult, cost: &str, confidence: &str) -> (r: String)
    ensures
        r@ == execution_part(
            outcome_part(result@),
            result@.execution_statistics,
            cost@,
            confidence@,
            result@.outputs.len(),
            result@.supporting_evidence.len(),
        ),
{
    let mut out = "\n\x1b[1mResult\x1b[0m (".to_owned();
    out.append(result.status.as_str());
    out.append(")\n");
    out.append(result.summary.as_str());
    out.append("\n\n");
    let ghost conflicts = result@.unresolved_conflicts;
    if result.unresolved_conflicts.len() > 0 {
        let mut lines = "\x1b[33mUnresolved conflicts:\x1b[0m\n".to_owned();
        for i in 0..result.unresolved_conflicts.len()
            invariant
                conflicts == result@.unresolved_conflicts,
                conflicts.len() == result.unresolved_conflicts@.len(),
                lines@ == conflict_lines(conflicts, i as nat),
        {
            assert(conflicts[i as int] == result.unresolved_conflicts@[i as int]@);
            lines.append("  - ");
            lines.append(result.unresolved_conflicts[i].description.as_str());
            lines.append("\n");
        }
        out.append(lines.as_str());
        out.append("\n");
    }
    assert(out@ == outcome_part(result@));
    let statistics = &result.execution_statistics;
    out.append("\x1b[1mExecution\x1b[0m\n  tasks         ");
    out.append(decimal_text(statistics.tasks_succeeded).as_str());
    out.append("/");
    out.append(decimal_text(statistics.tasks_total as u64).as_str());
    out.append(" succeeded (");
    out.append(decimal_text(statistics.tasks_retried).as_str());
    out.append(" retried, ");
    out.append(decimal_text(statistics.tasks_failed).as_str());
    out.append(" failed)\n  agents        ");
    out.append(decimal_text(statistics.agents_spawned).as_str());
    out.append("\n  latency       p50 ");
    out.append(decimal_text(statistics.median_task_latency_ms).as_str());
    out.append("ms · p95 ");
    out.append(decimal_text(statistics.p95_task_latency_ms).as_str());
    out.append("ms · p99 ");
    out.append(decimal_text(statistics.p99_task_latency_ms).as_str());
    out.append("ms\n  wall clock    ");
    out.append(decimal_text(statistics.wall_clock_ms).as_str());
    out.append("ms\n  tokens        ");
    out.append(decimal_text(statistics.tokens_in).as_str());
    out.append(" in · ");
    out.append(decimal_text(statistics.tokens_out).as_str());
    out.append(" out\n  cost          $");
    out.append(cost);
    out.append("\n  confidence    ");
    out.append(confidence);
    out.append("\n  outputs       ");
    out.append(decimal_text(result.outputs.len() as u64).as_str());
    out.append("\n  evidence      ");
    out.append(decimal_text(result.supporting_evidence.len() as u64).as_str());
    out.append("\n");
    out
}

/// The first `n` execution strategies, one to a line.
pub open spec fn strategy_lines(n: nat) -> Seq<char>
    decreases n,
{
    if n == 0 {
        "\x1b[1mExecution strategies\x1b[0m (--strategy)\n"@
    } else {
        strategy_lines((n - 1) as nat) + "  "@ + ExecutionStrategy::every()[n - 1].label() + "\n"@
    }
}

/// The first `n` placement strategies, one to a line, after all execution strategies.
pub open spec fn placement_lines(n: nat) -> Seq<char>
    decreases n,
{
    if n == 0 {
        strategy_lines(ExecutionStrategy::every().len())
            + "\n\x1b[1mPlacement strategies\x1b[0m (--placement)\n"@
    } else {
        placement_lines((n - 1) as nat) + "  "@ + SchedulerKind::listed()[n - 1].label() + "\n"@
    }
}

/// The execution and scheduling strategies this build supports, one to a line.
pub fn strategies() -> (r: String)
    ensures
        r@ == placement_lines(SchedulerKind::listed().len()),
{
    let mut out = "\x1b[1mExecution strategies\x1b[0m (--strategy)\n".to_owned();
    let all = ExecutionStrategy::all();
    for i in 0..all.len()
        invariant
            all@ == ExecutionStrategy::every(),
            out@ == strategy_lines(i as nat),
    {
        out.append("  ");
        out.append(all[i].as_str());
        out.append("\n");
    }
    out.append("\n\x1b[1mPlacement strategies\x1b[0m (--placement)\n");
    let kinds = SchedulerKind::all();
    for i in 0..kinds.len()
        invariant
            kinds@ == SchedulerKind::listed(),
            out@ == placement_lines(i as nat),
    {
        out.append("  ");
        out.append(kinds[i].name());
        out.append("\n");
    }
    out
}

} // verus!
