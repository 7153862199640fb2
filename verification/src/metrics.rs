//! Prometheus exposition.
//!
//! The platform already keeps these counters as first-class state, so they are rendered from it
//! directly: a registry would only be a second copy that could disagree with the first.

use crate::api::{active_count, count_active, count_status, status_count};
use crate::clock::Timestamp;
use crate::coordinator::{lists_jobs, Coordinator, JobStateView};
use crate::gateway::Usage;
use crate::job::JobStatus;
use crate::queue::QueueStats;
use crate::schedule::Scheduler;
use crate::text::{
    decimal, decimal_text, holds, lemma_holds_end, lemma_holds_later, lemma_holds_longer,
};
use vstd::prelude::*;
use vstd::string::*;

verus! {

/// The lines that introduce a series.
pub open spec fn heading(name: Seq<char>, help: Seq<char>, kind: Seq<char>) -> Seq<char> {
    "# HELP "@ + name + " "@ + help + "\n# TYPE "@ + name + " "@ + kind + "\n"@
}

/// A series with one sample.
#[verifier::opaque]
pub open spec fn sample(
    name: Seq<char>,
    help: Seq<char>,
    kind: Seq<char>,
    value: Seq<char>,
) -> Seq<char> {
    heading(name, help, kind) + name + " "@ + value + "\n"@
}

/// The lines that introduce a series.
fn heading_text(name: &str, help: &str, kind: &str) -> (r: String)
    ensures
        r@ == heading(name@, help@, kind@),
{
    let mut out = "# HELP ".to_owned();
    out.append(name);
    out.append(" ");
    out.append(help);
    out.append("\n# TYPE ");
    out.append(name);
    out.append(" ");
    out.append(kind);
    out.append("\n");
    out
}

/// Add a series with one sample.
fn put(out: &mut String, name: &str, help: &str, kind: &str, value: &str)
    ensures
        final(out)@ == old(out)@ + sample(name@, help@, kind@, value@),
{
    proof {
        reveal(sample);
    }
    let mut text = heading_text(name, help, kind);
    text.append(name);
    text.append(" ");
    text.append(value);
    text.append("\n");
    out.append(text.as_str());
}

/// The gauges.
pub open spec fn gauges(jobs: Seq<JobStateView>, stats: QueueStats, agents: nat) -> Seq<char> {
    Seq::<char>::empty() + sample(
        "swarm_jobs_active"@,
        "Jobs that have not reached a terminal state."@,
        "gauge"@,
        decimal(active_count(jobs)),
    ) + sample(
        "swarm_queue_ready"@,
        "Tasks visible to consumers right now."@,
        "gauge"@,
        decimal(stats.ready as nat),
    ) + sample(
        "swarm_queue_delayed"@,
        "Tasks waiting on a delay or retry backoff."@,
        "gauge"@,
        decimal(stats.delayed as nat),
    ) + sample(
        "swarm_queue_leased"@,
        "Tasks currently held under a lease."@,
        "gauge"@,
        decimal(stats.leased as nat),
    ) + sample(
        "swarm_dead_letter_depth"@,
        "Tasks parked after exhausting their retries."@,
        "gauge"@,
        decimal(stats.dead_lettered as nat),
    ) + sample(
        "swarm_cluster_agents"@,
        "Agents allocated across every job on this coordinator."@,
        "gauge"@,
        decimal(agents),
    )
}

/// The counters of the queue.
pub open spec fn queue_counters(before: Seq<char>, stats: QueueStats) -> Seq<char> {
    before + sample(
        "swarm_tasks_enqueued_total"@,
        "Tasks admitted to the queue."@,
        "counter"@,
        decimal(stats.enqueued_total as nat),
    ) + sample(
        "swarm_tasks_acknowledged_total"@,
        "Tasks acknowledged after a successful run."@,
        "counter"@,
        decimal(stats.acknowledged_total as nat),
    ) + sample(
        "swarm_tasks_retried_total"@,
        "Task attempts re-queued after a failure or an expiry."@,
        "counter"@,
        decimal(stats.retried_total as nat),
    ) + sample(
        "swarm_leases_expired_total"@,
        "Leases that lapsed before being acknowledged."@,
        "counter"@,
        decimal(stats.expired_total as nat),
    )
}

/// The counters of the gateway. The spend is given as it is printed.
pub open spec fn model_counters(before: Seq<char>, usage: Usage, cost: Seq<char>) -> Seq<char> {
    before + sample(
        "swarm_model_requests_total"@,
        "Model calls that reached a provider."@,
        "counter"@,
        decimal(usage.requests as nat),
    ) + sample(
        "swarm_model_cache_hits_total"@,
        "Model calls served from the gateway cache."@,
        "counter"@,
        decimal(usage.cache_hits as nat),
    ) + sample(
        "swarm_model_failures_total"@,
        "Model calls that returned an error."@,
        "counter"@,
        decimal(usage.failures as nat),
    ) + sample(
        "swarm_tokens_in_total"@,
        "Prompt tokens consumed."@,
        "counter"@,
        decimal(usage.tokens_in as nat),
    ) + sample(
        "swarm_tokens_out_total"@,
        "Completion tokens produced."@,
        "counter"@,
        decimal(usage.tokens_out as nat),
    ) + sample(
        "swarm_cost_usd_total"@,
        "Estimated model spend in USD."@,
        "counter"@,
        cost,
    )
}

/// The statuses jobs are counted by.
pub open spec fn shown_statuses() -> Seq<JobStatus> {
    seq![
        JobStatus::Planning,
        JobStatus::Running,
        JobStatus::Paused,
        JobStatus::Completed,
        JobStatus::PartiallyCompleted,
        JobStatus::Failed,
        JobStatus::Cancelled,
    ]
}

/// The sample of the jobs with a status.
pub open spec fn status_sample(jobs: Seq<JobStateView>, status: JobStatus) -> Seq<char> {
    "swarm_jobs_total{status=\""@ + status.label() + "\"} "@ + decimal(status_count(jobs, status))
        + "\n"@
}

/// The samples of the first `n` statuses.
pub open spec fn status_samples(before: Seq<char>, jobs: Seq<JobStateView>, n: nat) -> Seq<char>
    decreases n,
{
    if n == 0 {
        before
    } else {
        status_samples(before, jobs, (n - 1) as nat) + status_sample(
            jobs,
            shown_statuses()[n - 1],
        )
    }
}

/// The metrics in Prometheus text format.
pub open spec fn exposition(
    jobs: Seq<JobStateView>,
    stats: QueueStats,
    agents: nat,
    usage: Usage,
    cost: Seq<char>,
) -> Seq<char> {
    status_samples(
        model_counters(queue_counters(gauges(jobs, stats, agents), stats), usage, cost) + heading(
            "swarm_jobs_total"@,
            "Jobs by current status."@,
            "gauge"@,
        ),
        jobs,
        7,
    )
}

/// The gauges.
fn gauges_text(jobs: &Vec<JobStateView>, stats: QueueStats, agents: usize) -> (r: String)
    ensures
        r@ == gauges(jobs@, stats, agents as nat),
{
    let mut out = String::new();
    let active: usize = count_active(jobs);
    put(
        &mut out,
        "swarm_jobs_active",
        "Jobs that have not reached a terminal state.",
        "gauge",
        decimal_text(active as u64).as_str(),
    );
    put(
        &mut out,
        "swarm_queue_ready",
        "Tasks visible to consumers right now.",
        "gauge",
        decimal_text(stats.ready as u64).as_str(),
    );
    put(
        &mut out,
        "swarm_queue_delayed",
        "Tasks waiting on a delay or retry backoff.",
        "gauge",
        decimal_text(stats.delayed as u64).as_str(),
    );
    put(
        &mut out,
        "swarm_queue_leased",
        "Tasks currently held under a lease.",
        "gauge",
        decimal_text(stats.leased as u64).as_str(),
    );
    put(
        &mut out,
        "swarm_dead_letter_depth",
        "Tasks parked after exhausting their retries.",
        "gauge",
        decimal_text(stats.dead_lettered as u64).as_str(),
    );
    put(
        &mut out,
        "swarm_cluster_agents",
        "Agents allocated across every job on this coordinator.",
        "gauge",
        decimal_text(agents as u64).as_str(),
    );
    out
}

/// Add the counters of the queue.
fn put_queue_counters(out: &mut String, stats: QueueStats)
    ensures
        final(out)@ == queue_counters(old(out)@, stats),
{
    put(
        out,
        "swarm_tasks_enqueued_total",
        "Tasks admitted to the queue.",
        "counter",
        decimal_text(stats.enqueued_total).as_str(),
    );
    put(
        out,
        "swarm_tasks_acknowledged_total",
        "Tasks acknowledged after a successful run.",
        "counter",
        decimal_text(stats.acknowledged_total).as_str(),
    );
    put(
        out,
        "swarm_tasks_retried_total",
        "Task attempts re-queued after a failure or an expiry.",
        "counter",
        decimal_text(stats.retried_total).as_str(),
    );
    put(
        out,
        "swarm_leases_expired_total",
        "Leases that lapsed before being acknowledged.",
        "counter",
        decimal_text(stats.expired_total).as_str(),
    );
}

/// Add the counters of the gateway.
fn put_model_counters(out: &mut String, usage: Usage, cost: &str)
    ensures
        final(out)@ == model_counters(old(out)@, usage, cost@),
{
    put(
        out,
        "swarm_model_requests_total",
        "Model calls that reached a provider.",
        "counter",
        decimal_text(usage.requests).as_str(),
    );
    put(
        out,
        "swarm_model_cache_hits_total",
        "Model calls served from the gateway cache.",
        "counter",
        decimal_text(usage.cache_hits).as_str(),
    );
    put(
        out,
        "swarm_model_failures_total",
        "Model calls that returned an error.",
        "counter",
        decimal_text(usage.failures).as_str(),
    );
    put(
        out,
        "swarm_tokens_in_total",
        "Prompt tokens consumed.",
        "counter",
        decimal_text(usage.tokens_in).as_str(),
    );
    put(
        out,
        "swarm_tokens_out_total",
        "Completion tokens produced.",
        "counter",
        decimal_text(usage.tokens_out).as_str(),
    );
    put(out, "swarm_cost_usd_total", "Estimated model spend in USD.", "counter", cost);
}

/// The metrics of some jobs, a queue and a gateway in Prometheus text format.
pub fn expose(
    jobs: &Vec<JobStateView>,
    stats: QueueStats,
    agents: usize,
    usage: Usage,
    cost: &str,
) -> (r: String)
    ensures
        r@ == exposition(jobs@, stats, agents as nat, usage, cost@),
{
    let mut out = gauges_text(jobs, stats, agents);
    put_queue_counters(&mut out, stats);
    put_model_counters(&mut out, usage, cost);
    out.append(
        heading_text("swarm_jobs_total", "Jobs by current status.", "gauge").as_str(),
    );
    let ghost before = out@;
    let shown = [
        JobStatus::Planning,
        JobStatus::Running,
        JobStatus::Paused,
        JobStatus::Completed,
        JobStatus::PartiallyCompleted,
        JobStatus::Failed,
        JobStatus::Cancelled,
    ];
    assert(shown@ =~= shown_statuses());
    for i in 0..7usize
        invariant
            shown@ == shown_statuses(),
            out@ == status_samples(before, jobs@, i as nat),
    {
        let status = shown[i];
        let count: usize = count_status(jobs, status);
        let mut line = "swarm_jobs_total{status=\"".to_owned();
        line.append(status.as_str());
        line.append("\"} ");
        line.append(decimal_text(count as u64).as_str());
        line.append("\n");
        out.append(line.as_str());
    }
    out
}

/// Collect and render the current metrics in Prometheus text format. The spend is given as it
/// is printed.
pub fn render<S: Scheduler>(
    coordinator: &Coordinator<S>,
    usage: Usage,
    cost: &str,
    now: Timestamp,
) -> (r: String)
    requires
        coordinator.wf(),
    ensures
        exists|jobs: Seq<JobStateView>| #[trigger]
            lists_jobs(coordinator@, jobs) && r@ == exposition(
                jobs,
                coordinator@.queue.stats(now),
                coordinator@.cluster_agents,
                usage,
                cost@,
            ),
{
    let jobs = coordinator.list_jobs();
    let stats = coordinator.queue().stats_at(now);
    expose(&jobs, stats, coordinator.cluster_agent_count(), usage, cost)
}

/// A line behind a heading is the heading with each part of the line behind it.
proof fn lemma_line(
    head: Seq<char>,
    name: Seq<char>,
    space: Seq<char>,
    value: Seq<char>,
    end: Seq<char>,
)
    ensures
        head + (name + space + value + end) == head + name + space + value + end,
{
    assert(head + (name + space + value + end) =~= head + name + space + value + end);
}

/// A sample shows its value behind its name, and hides nothing that stands before it.
proof fn lemma_sample(
    before: Seq<char>,
    name: Seq<char>,
    help: Seq<char>,
    kind: Seq<char>,
    value: Seq<char>,
)
    ensures
        holds(before + sample(name, help, kind, value), name + " "@ + value + "\n"@),
        forall|piece: Seq<char>| #[trigger]
            holds(before, piece) ==> holds(before + sample(name, help, kind, value), piece),
{
    let line = name + " "@ + value + "\n"@;
    lemma_holds_end(heading(name, help, kind), line);
    reveal(sample);
    lemma_line(heading(name, help, kind), name, " "@, value, "\n"@);
    lemma_holds_later(before, sample(name, help, kind, value), line);
    assert forall|piece: Seq<char>| #[trigger] holds(before, piece) implies holds(
        before + sample(name, help, kind, value),
        piece,
    ) by {
        lemma_holds_longer(before, sample(name, help, kind, value), piece);
    }
}

/// The gauges show what is going on now: each value stands behind the name of its gauge.
pub proof fn law_gauges_show_the_present(jobs: Seq<JobStateView>, stats: QueueStats, agents: nat)
    ensures
        ({
            let text = gauges(jobs, stats, agents);
            &&& holds(text, "swarm_jobs_active"@ + " "@ + decimal(active_count(jobs)) + "\n"@)
            &&& holds(text, "swarm_queue_ready"@ + " "@ + decimal(stats.ready as nat) + "\n"@)
            &&& holds(text, "swarm_queue_delayed"@ + " "@ + decimal(stats.delayed as nat) + "\n"@)
            &&& holds(text, "swarm_queue_leased"@ + " "@ + decimal(stats.leased as nat) + "\n"@)
            &&& holds(
                text,
                "swarm_dead_letter_depth"@ + " "@ + decimal(stats.dead_lettered as nat) + "\n"@,
            )
            &&& holds(text, "swarm_cluster_agents"@ + " "@ + decimal(agents) + "\n"@)
        }),
{
    let a = Seq::<char>::empty();
    let b = a + sample(
        "swarm_jobs_active"@,
        "Jobs that have not reached a terminal state."@,
        "gauge"@,
        decimal(active_count(jobs)),
    );
    let c = b + sample(
        "swarm_queue_ready"@,
        "Tasks visible to consumers right now."@,
        "gauge"@,
        decimal(stats.ready as nat),
    );
    let d = c + sample(
        "swarm_queue_delayed"@,
        "Tasks waiting on a delay or retry backoff."@,
        "gauge"@,
        decimal(stats.delayed as nat),
    );
    let e = d + sample(
        "swarm_queue_leased"@,
        "Tasks currently held under a lease."@,
        "gauge"@,
        decimal(stats.leased as nat),
    );
    let f = e + sample(
        "swarm_dead_letter_depth"@,
        "Tasks parked after exhausting their retries."@,
        "gauge"@,
        decimal(stats.dead_lettered as nat),
    );
    lemma_sample(
        a,
        "swarm_jobs_active"@,
        "Jobs that have not reached a terminal state."@,
        "gauge"@,
        decimal(active_count(jobs)),
    );
    lemma_sample(
        b,
        "swarm_queue_ready"@,
        "Tasks visible to consumers right now."@,
        "gauge"@,
        decimal(stats.ready as nat),
    );
    lemma_sample(
        c,
        "swarm_queue_delayed"@,
        "Tasks waiting on a delay or retry backoff."@,
        "gauge"@,
        decimal(stats.delayed as nat),
    );
    lemma_sample(
        d,
        "swarm_queue_leased"@,
        "Tasks currently held under a lease."@,
        "gauge"@,
        decimal(stats.leased as nat),
    );
    lemma_sample(
        e,
        "swarm_dead_letter_depth"@,
        "Tasks parked after exhausting their retries."@,
        "gauge"@,
        decimal(stats.dead_lettered as nat),
    );
    lemma_sample(
        f,
        "swarm_cluster_agents"@,
        "Agents allocated across every job on this coordinator."@,
        "gauge"@,
        decimal(agents),
    );
}

/// The counters of the queue and of the models show each total behind its name, and keep what was
/// shown before.
pub proof fn law_counters_show_the_totals(
    before: Seq<char>,
    stats: QueueStats,
    usage: Usage,
    cost: Seq<char>,
)
    ensures
        ({
            let text = queue_counters(before, stats);
            &&& holds(
                text,
                "swarm_tasks_enqueued_total"@ + " "@ + decimal(stats.enqueued_total as nat) + "\n"@,
            )
            &&& holds(
                text,
                "swarm_tasks_acknowledged_total"@ + " "@ + decimal(stats.acknowledged_total as nat)
                    + "\n"@,
            )
            &&& holds(
                text,
                "swarm_tasks_retried_total"@ + " "@ + decimal(stats.retried_total as nat) + "\n"@,
            )
            &&& holds(
                text,
                "swarm_leases_expired_total"@ + " "@ + decimal(stats.expired_total as nat) + "\n"@,
            )
            &&& forall|piece: Seq<char>| #[trigger] holds(before, piece) ==> holds(text, piece)
        }),
        ({
            let text = model_counters(before, usage, cost);
            &&& holds(
                text,
                "swarm_model_requests_total"@ + " "@ + decimal(usage.requests as nat) + "\n"@,
            )
            &&& holds(
                text,
                "swarm_model_cache_hits_total"@ + " "@ + decimal(usage.cache_hits as nat) + "\n"@,
            )
            &&& holds(
                text,
                "swarm_model_failures_total"@ + " "@ + decimal(usage.failures as nat) + "\n"@,
            )
            &&& holds(
                text,
                "swarm_tokens_in_total"@ + " "@ + decimal(usage.tokens_in as nat) + "\n"@,
            )
            &&& holds(
                text,
                "swarm_tokens_out_total"@ + " "@ + decimal(usage.tokens_out as nat) + "\n"@,
            )
            &&& holds(text, "swarm_cost_usd_total"@ + " "@ + cost + "\n"@)
            &&& forall|piece: Seq<char>| #[trigger] holds(before, piece) ==> holds(text, piece)
        }),
{
    let counter = "counter"@;
    let q1 = before + sample(
        "swarm_tasks_enqueued_total"@,
        "Tasks admitted to the queue."@,
        counter,
        decimal(stats.enqueued_total as nat),
    );
    let q2 = q1 + sample(
        "swarm_tasks_acknowledged_total"@,
        "Tasks acknowledged after a successful run."@,
        counter,
        decimal(stats.acknowledged_total as nat),
    );
    let q3 = q2 + sample(
        "swarm_tasks_retried_total"@,
        "Task attempts re-queued after a failure or an expiry."@,
        counter,
        decimal(stats.retried_total as nat),
    );
    lemma_sample(
        before,
        "swarm_tasks_enqueued_total"@,
        "Tasks admitted to the queue."@,
        counter,
        decimal(stats.enqueued_total as nat),
    );
    lemma_sample(
        q1,
        "swarm_tasks_acknowledged_total"@,
        "Tasks acknowledged after a successful run."@,
        counter,
        decimal(stats.acknowledged_total as nat),
    );
    lemma_sample(
        q2,
        "swarm_tasks_retried_total"@,
        "Task attempts re-queued after a failure or an expiry."@,
        counter,
        decimal(stats.retried_total as nat),
    );
    lemma_sample(
        q3,
        "swarm_leases_expired_total"@,
        "Leases that lapsed before being acknowledged."@,
        counter,
        decimal(stats.expired_total as nat),
    );
    let m1 = before + sample(
        "swarm_model_requests_total"@,
        "Model calls that reached a provider."@,
        counter,
        decimal(usage.requests as nat),
    );
    let m2 = m1 + sample(
        "swarm_model_cache_hits_total"@,
        "Model calls served from the gateway cache."@,
        counter,
        decimal(usage.cache_hits as nat),
    );
    let m3 = m2 + sample(
        "swarm_model_failures_total"@,
        "Model calls that returned an error."@,
        counter,
        decimal(usage.failures as nat),
    );
    let m4 = m3 + sample(
        "swarm_tokens_in_total"@,
        "Prompt tokens consumed."@,
        counter,
        decimal(usage.tokens_in as nat),
    );
    let m5 = m4 + sample(
        "swarm_tokens_out_total"@,
        "Completion tokens produced."@,
        counter,
        decimal(usage.tokens_out as nat),
    );
    lemma_sample(
        before,
        "swarm_model_requests_total"@,
        "Model calls that reached a provider."@,
        counter,
        decimal(usage.requests as nat),
    );
    lemma_sample(
        m1,
        "swarm_model_cache_hits_total"@,
        "Model calls served from the gateway cache."@,
        counter,
        decimal(usage.cache_hits as nat),
    );
    lemma_sample(
        m2,
        "swarm_model_failures_total"@,
        "Model calls that returned an error."@,
        counter,
        decimal(usage.failures as nat),
    );
    lemma_sample(
        m3,
        "swarm_tokens_in_total"@,
        "Prompt tokens consumed."@,
        counter,
        decimal(usage.tokens_in as nat),
    );
    lemma_sample(
        m4,
        "swarm_tokens_out_total"@,
        "Completion tokens produced."@,
        counter,
        decimal(usage.tokens_out as nat),
    );
    lemma_sample(m5, "swarm_cost_usd_total"@, "Estimated model spend in USD."@, counter, cost);
}

} // verus!
