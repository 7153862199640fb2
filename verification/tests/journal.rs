//! The journal.

use swarm_platform::clock::Timestamp;
use swarm_platform::ids::{CorrelationId, JobId, TaskId};
use swarm_platform::job::{Job, JobRequest, JobStatus};
use swarm_platform::journal::{read_records, JournalLine, JournalRecord, MemoryJournal};
use swarm_platform::state::Transition;
use swarm_platform::task::{TaskKind, TaskNode, TaskState};

fn planned() -> JournalRecord {
    let job = Job::new(JobRequest::new("do the thing"));
    let task = TaskNode::new(job.id, TaskKind::Work, "a task", "do it", 0);
    JournalRecord::JobPlanned {
        job: Box::new(job),
        tasks: vec![task],
    }
}


#[test]
fn every_record_reports_its_job_and_kind() {
    let job_id = JobId::new();
    let records = [
        planned(),
        JournalRecord::JobStatusChanged {
            job_id,
            status: JobStatus::Running,
            reason: None,
            at: Timestamp::now(),
        },
        JournalRecord::TaskTransitioned {
            job_id,
            transition: Box::new(Transition::new(
                Some(TaskState::Created),
                TaskState::Queued,
                "coordinator",
                None,
                CorrelationId::new(),
            )),
            task_id: TaskId::new(),
            attempt: 0,
        },
    ];

    assert_eq!(records[1].job_id(), job_id);
    assert_eq!(records[1].kind(), "job_status_changed");
    assert_eq!(records[2].kind(), "task_transitioned");
    assert!(!records[0].kind().is_empty());
}

#[test]
fn the_memory_journal_preserves_append_order() {
    let mut journal = MemoryJournal::new();
    assert!(journal.is_empty());

    let job_id = JobId::new();
    for index in 0..5 {
        journal
            .append(&JournalRecord::JobStatusChanged {
                job_id,
                status: JobStatus::Running,
                reason: Some(index.to_string()),
                at: Timestamp::now(),
            })
            .unwrap();
    }

    let replayed = journal.replay().unwrap();
    assert_eq!(replayed.len(), 5);
    for (index, record) in replayed.iter().enumerate() {
        let JournalRecord::JobStatusChanged { reason, .. } = record else {
            panic!("wrong record kind");
        };
        assert_eq!(reason.as_deref(), Some(index.to_string().as_str()));
    }
}

fn status(job_id: JobId, reason: &str) -> JournalRecord {
    JournalRecord::JobStatusChanged {
        job_id,
        status: JobStatus::Running,
        reason: Some(reason.to_owned()),
        at: Timestamp::now(),
    }
}

fn intact(record: JournalRecord) -> JournalLine {
    JournalLine { text: "{...}".to_owned(), reading: Ok(record) }
}

fn broken(text: &str) -> JournalLine {
    JournalLine { text: text.to_owned(), reading: Err("expected value".to_owned()) }
}

#[test]
fn a_torn_final_record_is_dropped_not_fatal() {
    let job_id = JobId::new();
    let records = read_records(
        "swarm.journal",
        vec![intact(status(job_id, "complete")), broken("{\"record\":\"job_status_ch")],
    )
    .unwrap();
    assert_eq!(records.len(), 1, "the intact record must survive");
}

#[test]
fn corruption_in_the_middle_is_reported_rather_than_hidden() {
    let job_id = JobId::new();
    let error = read_records(
        "swarm.journal",
        vec![
            intact(status(job_id, "first")),
            broken("not json at all"),
            intact(status(job_id, "last")),
        ],
    )
    .unwrap_err();
    assert!(
        error.to_string().contains("corrupt"),
        "expected a corruption error, got: {}",
        error.to_string()
    );
}

#[test]
fn an_empty_journal_replays_to_nothing() {
    assert!(read_records("fresh.journal", Vec::new()).unwrap().is_empty());
    assert!(MemoryJournal::new().replay().unwrap().is_empty());
}

#[test]
fn the_file_and_memory_journals_agree_on_behaviour() {
    let job_id = JobId::new();
    let mut memory = MemoryJournal::new();
    let mut lines = Vec::new();
    for index in 0..4 {
        let record = status(job_id, &index.to_string());
        memory.append(&record).unwrap();
        lines.push(intact(record));
        lines.push(JournalLine { text: "  ".to_owned(), reading: Err("eof".to_owned()) });
    }
    let from_file = read_records("j", lines).unwrap();
    let from_memory = memory.replay().unwrap();
    assert_eq!(from_file.len(), from_memory.len());
    for (one, other) in from_file.iter().zip(&from_memory) {
        let (
            JournalRecord::JobStatusChanged { reason, at, .. },
            JournalRecord::JobStatusChanged { reason: kept, at: then, .. },
        ) = (one, other) else {
            panic!("wrong record kind");
        };
        assert_eq!(reason, kept);
        assert_eq!(at, then);
    }
}
