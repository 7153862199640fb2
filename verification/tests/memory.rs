//! Shared memory.

use swarm_platform::clock::Timestamp;
use swarm_platform::error::SwarmError;
use swarm_platform::ids::{AgentId, JobId, MemoryId};
use swarm_platform::memory::{InMemoryStore, MemoryOperation, MemoryWrite};
use swarm_platform::ns;

const MILLISECOND: u128 = 1_000_000;

fn json(text: &str) -> serde_json::Value {
    serde_json::from_str(text).unwrap()
}

fn write(key: &str, value: serde_json::Value) -> MemoryWrite {
    MemoryWrite::new("test", key, value, "agent:test")
}

#[test]
fn writes_are_versioned_from_one_upwards() {
    let mut store = InMemoryStore::new();

    let first = store.put(write("plan", json(r#"{"step": 1}"#))).unwrap();
    assert_eq!(first.version, 1);
    assert_eq!(first.created_at, first.updated_at);

    let second = store.put(write("plan", json(r#"{"step": 2}"#))).unwrap();
    assert_eq!(second.version, 2);
    assert_eq!(second.id, first.id, "the record keeps its identity");
    assert_eq!(second.created_at, first.created_at);

    let read = store.get("test", "plan").unwrap().unwrap();
    assert_eq!(read.version, 2);
    assert_eq!(read.value, json(r#"{"step": 2}"#));
}

#[test]
fn missing_keys_read_as_none() {
    let mut store = InMemoryStore::new();
    assert!(store.get("test", "absent").unwrap().is_none());
}

#[test]
fn compare_and_swap_lets_exactly_one_writer_win() {
    let mut store = InMemoryStore::new();
    let base = store.put(write("shared", json(r#"0"#))).unwrap();

    let winner = store
        .compare_and_swap(write("shared", json(r#"1"#)), base.version)
        .unwrap();
    assert_eq!(winner.version, 2);

    // The loser held a stale version and is told so, with the real one attached.
    let err = store
        .compare_and_swap(write("shared", json(r#"2"#)), base.version)
        .unwrap_err();
    match err {
        SwarmError::VersionConflict {
            expected, actual, ..
        } => {
            assert_eq!(expected, 1);
            assert_eq!(actual, 2);
        }
        other => panic!("expected VersionConflict, got {other:?}"),
    }

    assert_eq!(
        store.get("test", "shared").unwrap().unwrap().value,
        json(r#"1"#),
        "the losing write must not have landed"
    );
}

#[test]
fn claiming_a_key_succeeds_once_and_only_once() {
    // This is the mechanism that stops a duplicate task delivery from doing the
    // work twice: the second claimant is told the work is already owned.
    let mut store = InMemoryStore::new();

    let claimed = store
        .claim(write("task-42", json(r#""running""#)))
        .unwrap();
    assert!(claimed.is_some());
    assert_eq!(claimed.unwrap().version, 1);

    let second = store
        .claim(write("task-42", json(r#""running""#)))
        .unwrap();
    assert!(second.is_none(), "the second claim must lose quietly");
}

#[test]
fn compare_and_swap_against_a_missing_key_reports_version_zero() {
    let mut store = InMemoryStore::new();
    let err = store
        .compare_and_swap(write("ghost", json(r#"1"#)), 7)
        .unwrap_err();
    assert!(matches!(
        err,
        SwarmError::VersionConflict {
            actual: 0,
            expected: 7,
            ..
        }
    ));
}



#[test]
fn listing_is_scoped_by_namespace_and_prefix() {
    let mut store = InMemoryStore::new();
    for key in ["result/a", "result/b", "checkpoint/a"] {
        store.put(write(key, serde_json::Value::from(key))).unwrap();
    }
    store
        .put(MemoryWrite::new("other", "result/c", json(r#""c""#), "test"))
        .unwrap();

    let results = store.list("test", "result/").unwrap();
    assert_eq!(results.len(), 2);
    assert_eq!(results[0].key, "result/a");
    assert_eq!(results[1].key, "result/b");
    assert_eq!(store.list("test", "").unwrap().len(), 3);
}

#[test]
fn history_records_every_operation_with_its_actor() {
    let mut store = InMemoryStore::new();
    store
        .put(MemoryWrite::new("test", "k", json(r#"1"#), "agent:one"))
        .unwrap();
    store
        .compare_and_swap(MemoryWrite::new("test", "k", json(r#"2"#), "agent:two"), 1)
        .unwrap();
    store.delete("test", "k").unwrap();

    let history = store.audit("test", "k").unwrap();
    assert_eq!(history.len(), 3);
    assert_eq!(history[0].operation, MemoryOperation::Create);
    assert_eq!(history[0].actor, "agent:one");
    assert_eq!(history[1].operation, MemoryOperation::CompareAndSwap);
    assert_eq!(history[1].actor, "agent:two");
    assert_eq!(history[1].version, 2);
    assert_eq!(history[2].operation, MemoryOperation::Delete);
}

#[test]
fn deleting_reports_whether_anything_was_there() {
    let mut store = InMemoryStore::new();
    store.put(write("k", json(r#"1"#))).unwrap();
    assert!(store.delete("test", "k").unwrap());
    assert!(!store.delete("test", "k").unwrap());
}

#[test]
fn purging_a_job_leaves_other_jobs_alone() {
    let mut store = InMemoryStore::new();
    let doomed = JobId::new();
    let survivor = JobId::new();

    store
        .put(MemoryWrite::new(&ns::job(doomed), "a", json(r#"1"#), "t").for_job(doomed))
        .unwrap();
    store
        .put(MemoryWrite::new(&ns::job(doomed), "b", json(r#"2"#), "t").for_job(doomed))
        .unwrap();
    store
        .put(MemoryWrite::new(&ns::job(survivor), "c", json(r#"3"#), "t").for_job(survivor))
        .unwrap();

    assert_eq!(store.purge_job(doomed).unwrap(), 2);
    assert_eq!(store.len(), 1);
    assert!(store.get(&ns::job(survivor), "c").unwrap().is_some());
}

#[test]
fn expired_records_are_invisible_before_compaction_runs() {
    let mut store = InMemoryStore::new();
    let now = Timestamp::now();
    store.put_at(
        write("ephemeral", json(r#""x""#)).expiring_in(MILLISECOND),
        MemoryId::new(),
        now,
    );
    store.put_at(write("durable", json(r#""y""#)), MemoryId::new(), now);

    let later = now.plus_millis(5);

    assert!(store.get_at("test", "ephemeral", later).is_none());
    assert!(store.get_at("test", "durable", later).is_some());
    assert_eq!(store.list_at("test", "", later).len(), 1);

    assert_eq!(store.compact_at(later), 1);
    assert_eq!(store.len(), 1);
    assert_eq!(store.compact_at(later), 0);
}

#[test]
fn an_expired_key_can_be_claimed_again() {
    let mut store = InMemoryStore::new();
    let now = Timestamp::now();
    store.put_at(
        write("lease", json(r#""held""#)).expiring_in(MILLISECOND),
        MemoryId::new(),
        now,
    );

    let reclaimed = store.claim_at(
        write("lease", json(r#""held again""#)),
        MemoryId::new(),
        now.plus_millis(5),
    );
    assert_eq!(reclaimed.unwrap().version, 1, "a new lineage starts at 1");
}

#[test]
fn a_hundred_concurrent_writers_lose_no_updates() {
    let mut store = InMemoryStore::new();
    store.put(write("counter", json("0"))).unwrap();

    // All writers read before any of them writes, so all but one find that they lost.
    let mut waiting: Vec<u32> = (0..100).collect();
    let mut total_conflicts = 0;
    while !waiting.is_empty() {
        let current = store.get("test", "counter").unwrap().unwrap();
        let mut lost = Vec::new();
        for id in waiting {
            let next = current.value.as_i64().unwrap() + 1;
            let write = MemoryWrite::new(
                "test",
                "counter",
                serde_json::Value::from(next),
                &format!("agent:{id}"),
            );
            match store.compare_and_swap(write, current.version) {
                Ok(_) => {}
                Err(SwarmError::VersionConflict { .. }) => {
                    total_conflicts += 1;
                    lost.push(id);
                }
                Err(other) => panic!("unexpected error: {other:?}"),
            }
        }
        waiting = lost;
    }

    let final_record = store.get("test", "counter").unwrap().unwrap();
    assert_eq!(
        final_record.value.as_i64().unwrap(),
        100,
        "every increment must survive; {total_conflicts} conflicts were detected"
    );
    assert_eq!(final_record.version, 101);
}

#[test]
fn namespaces_keep_jobs_apart() {
    let job = JobId::from_uuid(1);
    assert_eq!(ns::results(job), "job/00000000-0000-0000-0000-000000000001/results");
    assert_ne!(ns::results(job), ns::executions(job));
    assert_ne!(ns::job(job), ns::job(JobId::from_uuid(2)));
    assert_ne!(ns::agent(AgentId::from_uuid(1)), ns::job(job));
}

#[test]
fn a_record_remembers_whose_it_is() {
    let mut store = InMemoryStore::new();
    let job = JobId::new();
    let agent = AgentId::new();
    let record = store
        .put(write("k", json("1")).for_job(job).by_agent(agent))
        .unwrap();
    assert_eq!(record.job_id, Some(job));
    assert_eq!(record.agent_id, Some(agent));
    assert!(!record.is_expired(Timestamp::now()));
    assert!(!store.is_empty());
}
