//! Merging results.

use swarm_platform::aggregate::{
    aggregate, cluster, conflicts, consensus, headline, overlap, survey, tokens, ConsensusMode,
    ConsensusReport, Figures, Standing, MAX_EVIDENCE,
};
use swarm_platform::clock::Timestamp;
use swarm_platform::figures::{Real32, Real64};
use swarm_platform::graph::TaskGraph;
use swarm_platform::ids::{AgentId, JobId, TaskId};
use swarm_platform::job::{
    Evidence, ExecutionStatistics, ExecutionStrategy, FinalResult, Job, JobRequest, JobStatus,
};
use swarm_platform::task::{TaskKind, TaskNode, TaskResult, TaskState};

const SAME_ANSWER: f32 = 0.60;
const DISAGREEMENT: f32 = 0.30;

fn number(x: f32) -> Real32 {
    Real32 { bits: x.to_bits() }
}

fn value(x: Real32) -> f32 {
    f32::from_bits(x.bits)
}

fn similarity(left: &Vec<String>, right: &Vec<String>) -> f32 {
    let (shared, all) = overlap(left, right);
    shared as f32 / all as f32
}

/// The standing of each position: what its answers weigh, and their share of all.
fn standings(results: &[&TaskResult], mode: ConsensusMode) -> Vec<Standing> {
    let weigh = |members: &[usize]| -> f32 {
        match mode {
            ConsensusMode::Majority => members.len() as f32,
            ConsensusMode::ConfidenceWeighted => {
                members.iter().map(|index| value(results[*index].confidence)).sum()
            }
        }
    };
    let everyone: Vec<usize> = (0..results.len()).collect();
    let total = weigh(&everyone);
    cluster(results)
        .iter()
        .map(|members| {
            let weight = weigh(members);
            let share = if total > 0.0 { weight / total } else { 0.0 };
            Standing {
                weight: number(weight),
                share: number(share),
                percent: format!("{:.0}", share * 100.0),
            }
        })
        .collect()
}

fn decide(results: &[&TaskResult], mode: ConsensusMode) -> Option<ConsensusReport> {
    consensus(results, mode, &standings(results, mode))
}

/// Merge with the figures that go with the results.
fn merge(
    job: &Job,
    graph: &TaskGraph,
    results: &[TaskResult],
    status: JobStatus,
    statistics: ExecutionStatistics,
) -> FinalResult {
    let seen = survey(graph, results);
    let answers: Vec<&TaskResult> = seen.answers.iter().map(|index| &results[*index]).collect();
    let kept = seen.kept.len() as f32;
    let mean: f32 =
        seen.kept.iter().map(|index| value(results[*index].confidence)).sum::<f32>() / kept;
    let (done, total) = (graph.counts().completed, graph.len());
    let completion = if total == 0 { 0.0 } else { done as f32 / total as f32 };
    let confidence = if seen.kept.is_empty() {
        0.0
    } else {
        (mean * completion - 0.1 * seen.conflicts as f32).clamp(0.0, 1.0)
    };
    let figures = Figures {
        standings: standings(&answers, ConsensusMode::ConfidenceWeighted),
        confidence: number(confidence),
    };
    aggregate(job, graph, results, status, statistics, &figures)
}

fn result(
    job_id: JobId,
    task_id: TaskId,
    kind: TaskKind,
    title: &str,
    output: &str,
    confidence: f32,
) -> TaskResult {
    TaskResult {
        task_id,
        job_id,
        agent_id: AgentId::new(),
        attempt: 1,
        kind,
        title: title.to_owned(),
        output: output.to_owned(),
        structured: serde_json::Value::from(output),
        evidence: vec![Evidence {
            source: format!("mock://{title}"),
            claim: output.to_owned(),
            support: number(confidence),
            locator: None,
        }],
        reasoning_summary: "considered the sources".to_owned(),
        confidence: number(confidence),
        validation_failures: Vec::new(),
        tokens_in: 10,
        tokens_out: 20,
        cost_usd: Real64 { bits: 0.001_f64.to_bits() },
        duration_ms: 5,
        deduplicated: false,
        finished_at: Timestamp::now(),
    }
}

/// A graph of `count` completed work tasks, so completion ratio is 1.0.
fn completed_graph(job_id: JobId, results: &[TaskResult]) -> TaskGraph {
    let mut graph = TaskGraph::new(job_id);
    for result in results {
        let mut node = TaskNode::new(job_id, result.kind, &result.title, "do it", 1);
        node.id = result.task_id;
        node.state = TaskState::Completed;
        node.idempotency_key = format!("{}-{}", result.title, result.task_id.to_string());
        graph.insert(node).unwrap();
    }
    graph
}

#[test]
fn similarity_recognises_the_same_answer_in_different_words() {
    let raft = tokens("Raft elects exactly one leader per term using randomised timeouts");
    let same = tokens("Using randomised timeouts, Raft elects exactly one leader each term");
    let other = tokens("Paxos requires no leader and tolerates duelling proposers");

    assert!(similarity(&raft, &same) > SAME_ANSWER);
    assert!(similarity(&raft, &other) < DISAGREEMENT);
    assert_eq!(similarity(&raft, &raft), 1.0);
}

#[test]
fn majority_consensus_picks_the_largest_agreeing_group() {
    let job_id = JobId::new();
    let answers = [
        result(
            job_id,
            TaskId::new(),
            TaskKind::Answer,
            "a",
            "Raft elects one leader per term with randomised timeouts",
            0.6,
        ),
        result(
            job_id,
            TaskId::new(),
            TaskKind::Answer,
            "b",
            "Raft elects one leader each term using randomised timeouts",
            0.6,
        ),
        result(
            job_id,
            TaskId::new(),
            TaskKind::Answer,
            "c",
            "Paxos tolerates duelling proposers without any leader",
            0.9,
        ),
    ];
    let refs: Vec<&TaskResult> = answers.iter().collect();

    let report = decide(&refs, ConsensusMode::Majority).unwrap();
    assert!(report.winner.contains("Raft"));
    assert_eq!(report.votes, 3);
    assert_eq!(report.distinct_positions, 2);
    assert!((f32::from_bits(report.agreement_rate.bits) - 2.0 / 3.0).abs() < 0.01);
}

#[test]
fn confidence_weighting_can_overturn_a_numerical_majority() {
    let job_id = JobId::new();
    let answers = [
        result(
            job_id,
            TaskId::new(),
            TaskKind::Answer,
            "a",
            "Raft elects one leader per term with randomised timeouts",
            0.2,
        ),
        result(
            job_id,
            TaskId::new(),
            TaskKind::Answer,
            "b",
            "Raft elects one leader each term using randomised timeouts",
            0.2,
        ),
        result(
            job_id,
            TaskId::new(),
            TaskKind::Answer,
            "c",
            "Paxos tolerates duelling proposers without any leader",
            0.99,
        ),
    ];
    let refs: Vec<&TaskResult> = answers.iter().collect();

    assert!(decide(&refs, ConsensusMode::Majority)
        .unwrap()
        .winner
        .contains("Raft"));
    assert!(decide(&refs, ConsensusMode::ConfidenceWeighted)
        .unwrap()
        .winner
        .contains("Paxos"));
}

#[test]
fn a_single_answer_needs_no_consensus_round() {
    let job_id = JobId::new();
    let only = [result(
        job_id,
        TaskId::new(),
        TaskKind::Answer,
        "a",
        "x",
        0.5,
    )];
    let refs: Vec<&TaskResult> = only.iter().collect();
    assert!(decide(&refs, ConsensusMode::Majority).is_none());
    assert!(decide(&[], ConsensusMode::Majority).is_none());
}

#[test]
fn genuinely_different_answers_are_reported_as_conflicts() {
    let job_id = JobId::new();
    let answers = [
        result(
            job_id,
            TaskId::new(),
            TaskKind::Answer,
            "pro",
            "Raft elects exactly one leader per term with randomised election timeouts",
            0.8,
        ),
        result(
            job_id,
            TaskId::new(),
            TaskKind::Answer,
            "con",
            "Paxos permits duelling proposers and never designates any leader",
            0.8,
        ),
    ];
    let refs: Vec<&TaskResult> = answers.iter().collect();

    let found = conflicts(&refs);
    assert_eq!(found.len(), 1);
    assert_eq!(found[0].claims.len(), 2);
    assert_eq!(found[0].task_ids.len(), 2);
}

#[test]
fn rephrasings_of_one_answer_are_not_a_conflict() {
    let job_id = JobId::new();
    let answers = [
        result(
            job_id,
            TaskId::new(),
            TaskKind::Answer,
            "a",
            "Raft elects exactly one leader per term using randomised timeouts",
            0.8,
        ),
        result(
            job_id,
            TaskId::new(),
            TaskKind::Answer,
            "b",
            "Using randomised timeouts Raft elects exactly one leader per term",
            0.8,
        ),
    ];
    let refs: Vec<&TaskResult> = answers.iter().collect();
    assert!(conflicts(&refs).is_empty());
}

#[test]
fn redundant_outputs_are_dropped_from_the_report() {
    let job_id = JobId::new();
    let results = vec![
        result(
            job_id,
            TaskId::new(),
            TaskKind::Work,
            "first",
            "Raft elects exactly one leader per term using randomised timeouts",
            0.8,
        ),
        result(
            job_id,
            TaskId::new(),
            TaskKind::Work,
            "second",
            "Raft elects exactly one leader per term using randomised timeouts",
            0.7,
        ),
        result(
            job_id,
            TaskId::new(),
            TaskKind::Work,
            "third",
            "Paxos needs no leader and tolerates duelling proposers entirely",
            0.9,
        ),
    ];
    let graph = completed_graph(job_id, &results);
    let job = Job::new(JobRequest::new("compare consensus algorithms"));

    let final_result = merge(
        &job,
        &graph,
        &results,
        JobStatus::Completed,
        ExecutionStatistics::default(),
    );
    assert_eq!(
        final_result.outputs.len(),
        2,
        "the duplicated finding must appear once"
    );
}

#[test]
fn unvalidated_results_never_reach_the_final_output() {
    let job_id = JobId::new();
    let mut bad = result(
        job_id,
        TaskId::new(),
        TaskKind::Work,
        "bad",
        "too short",
        0.9,
    );
    bad.validation_failures = vec!["output has 2 words, needs 15".to_owned()];
    let good = result(
        job_id,
        TaskId::new(),
        TaskKind::Work,
        "good",
        "a properly supported finding about consensus",
        0.7,
    );
    let results = vec![bad, good];

    let graph = completed_graph(job_id, &results);
    let job = Job::new(JobRequest::new("objective"));
    let final_result = merge(
        &job,
        &graph,
        &results,
        JobStatus::Completed,
        ExecutionStatistics::default(),
    );

    assert_eq!(final_result.outputs.len(), 1);
    assert_eq!(final_result.outputs[0].title, "good");
}

#[test]
fn the_concluding_task_becomes_the_summary() {
    let job_id = JobId::new();
    let results = vec![
        result(
            job_id,
            TaskId::new(),
            TaskKind::Work,
            "finding",
            "a finding about consensus algorithms",
            0.7,
        ),
        result(
            job_id,
            TaskId::new(),
            TaskKind::Merge,
            "merge",
            "The merged conclusion of the swarm.",
            0.9,
        ),
    ];
    let graph = completed_graph(job_id, &results);
    let job = Job::new(JobRequest::new("objective"));

    let final_result = merge(
        &job,
        &graph,
        &results,
        JobStatus::Completed,
        ExecutionStatistics::default(),
    );
    assert_eq!(final_result.summary, "The merged conclusion of the swarm.");
}

#[test]
fn debate_jobs_summarise_through_consensus_when_nothing_concluded() {
    let job_id = JobId::new();
    let results = vec![
        result(
            job_id,
            TaskId::new(),
            TaskKind::Answer,
            "a",
            "Raft elects exactly one leader per term using randomised timeouts",
            0.8,
        ),
        result(
            job_id,
            TaskId::new(),
            TaskKind::Answer,
            "b",
            "Using randomised timeouts Raft elects exactly one leader per term",
            0.7,
        ),
    ];
    let graph = completed_graph(job_id, &results);
    let job = Job::new(
        JobRequest::new("Does Raft elect one leader?").with_strategy(ExecutionStrategy::Debate),
    );

    let final_result = merge(
        &job,
        &graph,
        &results,
        JobStatus::Completed,
        ExecutionStatistics::default(),
    );
    assert!(
        final_result.summary.starts_with("Consensus ("),
        "got: {}",
        final_result.summary
    );
    assert!(final_result.summary.contains("100% agreement"));
    assert_eq!(
        final_result.outputs.len(),
        1,
        "the restatement is still dropped from the output listing"
    );
}

#[test]
fn confidence_falls_with_incomplete_work_and_unresolved_conflicts() {
    let job_id = JobId::new();
    let results = vec![result(
        job_id,
        TaskId::new(),
        TaskKind::Work,
        "a",
        "a finding about consensus",
        0.8,
    )];
    let graph = completed_graph(job_id, &results);
    let job = Job::new(JobRequest::new("objective"));

    let full = merge(
        &job,
        &graph,
        &results,
        JobStatus::Completed,
        ExecutionStatistics::default(),
    );
    assert!((value(full.confidence_score) - 0.8).abs() < 0.01);

    // Same results, but half the graph never finished.
    let mut partial_graph = completed_graph(job_id, &results);
    let mut pending = TaskNode::new(job_id, TaskKind::Work, "never ran", "x", 1);
    pending.idempotency_key = "pending".to_owned();
    partial_graph.insert(pending).unwrap();

    let partial = merge(
        &job,
        &partial_graph,
        &results,
        JobStatus::PartiallyCompleted,
        ExecutionStatistics::default(),
    );
    assert!(
        value(partial.confidence_score) < value(full.confidence_score),
        "unfinished work must lower confidence"
    );
}

#[test]
fn an_empty_job_reports_zero_confidence_rather_than_pretending() {
    let job_id = JobId::new();
    let graph = TaskGraph::new(job_id);
    let job = Job::new(JobRequest::new("nothing happened"));

    let final_result = merge(
        &job,
        &graph,
        &[],
        JobStatus::Failed,
        ExecutionStatistics::default(),
    );
    assert_eq!(value(final_result.confidence_score), 0.0);
    assert!(final_result.outputs.is_empty());
    assert!(final_result.summary.contains("No validated output"));
}

#[test]
fn evidence_is_deduplicated_ranked_and_capped() {
    let job_id = JobId::new();
    let mut results = Vec::new();
    for index in 0..30 {
        let mut item = result(
            job_id,
            TaskId::new(),
            TaskKind::Work,
            &format!("task {index}"),
            &format!("finding number {index} about a distinct subject entirely"),
            0.5,
        );
        item.evidence[0].support = number(index as f32 / 30.0);
        // Every result also cites the same shared source.
        item.evidence.push(Evidence {
            source: "mock://shared".to_owned(),
            claim: "shared claim".to_owned(),
            support: number(0.99),
            locator: None,
        });
        results.push(item);
    }
    let graph = completed_graph(job_id, &results);
    let job = Job::new(JobRequest::new("objective"));

    let final_result = merge(
        &job,
        &graph,
        &results,
        JobStatus::Completed,
        ExecutionStatistics::default(),
    );
    assert!(final_result.supporting_evidence.len() <= MAX_EVIDENCE);
    assert_eq!(
        final_result
            .supporting_evidence
            .iter()
            .filter(|item| item.source == "mock://shared")
            .count(),
        1,
        "the shared citation must appear once"
    );
    assert!(
        value(final_result.supporting_evidence[0].support)
            >= value(final_result.supporting_evidence[1].support)
    );
}

#[test]
fn the_first_sentence_is_the_headline() {
    assert_eq!(headline("One thing. Another thing."), "One thing");
}

#[test]
fn answers_that_agree_stand_together() {
    let job_id = JobId::new();
    let say = |output: &str| {
        result(job_id, TaskId::new(), TaskKind::Answer, "t", output, 0.5)
    };
    let answers = [
        say("Raft elects exactly one leader per term using randomised timeouts"),
        say("Paxos permits duelling proposers and never designates any leader"),
        say("Using randomised timeouts Raft elects exactly one leader per term"),
    ];
    let refs: Vec<&TaskResult> = answers.iter().collect();
    assert_eq!(cluster(&refs), vec![vec![0, 2], vec![1]]);
}
