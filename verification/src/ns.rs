//! Namespace naming. Keeping this in one place stops agents from inventing their own
//! layout and quietly colliding.

use crate::ids::{AgentId, JobId};
use vstd::prelude::*;

verus! {

/// The namespace of a job for one purpose.
pub open spec fn job_namespace(job_id: JobId, purpose: Seq<char>) -> Seq<char> {
    "job/"@ + job_id.text() + "/"@ + purpose
}

/// The namespace of a job for one purpose.
fn of_job(job_id: JobId, purpose: &str) -> (r: String)
    ensures
        r@ == job_namespace(job_id, purpose@),
{
    let mut r = "job/".to_owned();
    r.append(job_id.to_string().as_str());
    r.append("/");
    r.append(purpose);
    r
}

/// Scratch space for a job's in-progress reasoning, cleared when the job ends.
pub fn working(job_id: JobId) -> (r: String)
    ensures
        r@ == job_namespace(job_id, "working"@),
{
    of_job(job_id, "working")
}

/// Durable facts about a job: plan, decisions, final outputs.
pub fn job(job_id: JobId) -> (r: String)
    ensures
        r@ == job_namespace(job_id, "memory"@),
{
    of_job(job_id, "memory")
}

/// Completed task results, keyed by attempt idempotency key.
pub fn results(job_id: JobId) -> (r: String)
    ensures
        r@ == job_namespace(job_id, "results"@),
{
    of_job(job_id, "results")
}

/// Execution records claimed before side effects, to make retries safe.
pub fn executions(job_id: JobId) -> (r: String)
    ensures
        r@ == job_namespace(job_id, "executions"@),
{
    of_job(job_id, "executions")
}

/// Resumable checkpoints written during a task attempt.
pub fn checkpoints(job_id: JobId) -> (r: String)
    ensures
        r@ == job_namespace(job_id, "checkpoints"@),
{
    of_job(job_id, "checkpoints")
}

/// An agent's private memory, invisible to its peers.
pub fn agent(agent_id: AgentId) -> (r: String)
    ensures
        r@ == "agent/"@ + agent_id.text(),
{
    let mut r = "agent/".to_owned();
    r.append(agent_id.to_string().as_str());
    r
}

/// Cross-job semantic memory.
pub fn semantic() -> (r: String)
    ensures
        r@ == "semantic"@,
{
    "semantic".to_owned()
}

} // verus!
