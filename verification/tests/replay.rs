use eventlog::errors::RepoError;
use eventlog::events::{Event, EventRepository};
use eventlog::models::Tweet;
use eventlog::payload::{Field, FieldValue, Payload};
use eventlog::replay::Restore;

fn content_event(id: &str, agg: &str, ts: u64, content: &str) -> Event {
    Event {
        id: id.to_string(),
        kind: "Tweets".to_string(),
        aggregate_id: agg.to_string(),
        payload: Payload::Fields(vec![Field {
            name: "content".to_string(),
            value: FieldValue::Text(content.to_string()),
        }]),
        timestamp: ts,
    }
}

fn tweet(id: &str, content: &str, user_id: &str, ts: u64) -> Tweet {
    Tweet {
        id: id.to_string(),
        content: content.to_string(),
        user_id: user_id.to_string(),
        timestamp: ts,
    }
}

fn creation_event(event_id: &str, t: &Tweet, ts: u64) -> Event {
    Event {
        id: event_id.to_string(),
        kind: "Tweets".to_string(),
        aggregate_id: t.id.clone(),
        payload: t.encode_create(),
        timestamp: ts,
    }
}

#[test]
fn fresh_creation_replays_to_created_value() {
    let t = tweet("t1", "hello", "u1", 44);
    let mut repo = EventRepository::new();
    repo.create(creation_event("e1", &t, 44)).unwrap();
    let restored: Tweet = repo.restore("t1").unwrap();
    assert_eq!(restored.id, "t1");
    assert_eq!(restored.content, "hello");
    assert_eq!(restored.user_id, "u1");
    assert_eq!(restored.timestamp, 44);
}

#[test]
fn replay_is_idempotent() {
    let t = tweet("t1", "hello", "u1", 44);
    let mut repo = EventRepository::new();
    repo.create(creation_event("e1", &t, 44)).unwrap();
    repo.create(content_event("e2", "t1", 50, "later")).unwrap();
    let once: Tweet = repo.restore("t1").unwrap();
    let twice: Tweet = repo.restore("t1").unwrap();
    assert_eq!(once.id, twice.id);
    assert_eq!(once.content, twice.content);
    assert_eq!(once.user_id, twice.user_id);
    assert_eq!(once.timestamp, twice.timestamp);
    assert_eq!(once.content, "later");
}

#[test]
fn equal_timestamps_keep_append_order() {
    let mut repo = EventRepository::new();
    repo.create(content_event("a", "t1", 10, "first")).unwrap();
    repo.create(content_event("b", "t1", 10, "second")).unwrap();
    let restored: Tweet = repo.restore("t1").unwrap();
    // the tie is broken by append order: "a" merges before "b"
    assert_eq!(restored.content, "second");
}

#[test]
fn ties_keep_append_order_among_many_events() {
    let mut repo = EventRepository::new();
    repo.create(content_event("a1", "t1", 10, "first")).unwrap();
    repo.create(content_event("x1", "t2", 10, "other-first")).unwrap();
    repo.create(content_event("a2", "t1", 10, "second")).unwrap();
    repo.create(content_event("x2", "t2", 10, "other-second")).unwrap();
    repo.create(content_event("a3", "t1", 10, "third")).unwrap();
    // every timestamp is equal: each aggregate's events merge in append
    // order, with other aggregates' events interleaved in the log
    let t1: Tweet = repo.restore("t1").unwrap();
    assert_eq!(t1.content, "third");
    let t2: Tweet = repo.restore("t2").unwrap();
    assert_eq!(t2.content, "other-second");
    let all: Vec<Tweet> = repo.restore_all("Tweets").unwrap();
    assert_eq!(all.len(), 2);
    assert!(all.iter().any(|t| t.content == "third"));
    assert!(all.iter().any(|t| t.content == "other-second"));
}

#[test]
fn events_sorted_chronologically_before_merge() {
    let mut repo = EventRepository::new();
    repo.create(content_event("late", "t1", 90, "new")).unwrap();
    repo.create(content_event("early", "t1", 10, "old")).unwrap();
    let restored: Tweet = repo.restore("t1").unwrap();
    // the event with the greater timestamp wins although appended first
    assert_eq!(restored.content, "new");
}

#[test]
fn malformed_payload_surfaces_from_single_restore() {
    let mut repo = EventRepository::new();
    repo.create(Event {
        id: "bad".to_string(),
        kind: "Tweets".to_string(),
        aggregate_id: "x".to_string(),
        payload: Payload::Malformed,
        timestamp: 1,
    })
    .unwrap();
    let restored: Result<Tweet, RepoError> = repo.restore("x");
    assert_eq!(restored.unwrap_err(), RepoError::PayloadMalformed);
}

#[test]
fn malformed_payload_is_isolated() {
    let mut repo = EventRepository::new();
    repo.create(Event {
        id: "bad".to_string(),
        kind: "Tweets".to_string(),
        aggregate_id: "x".to_string(),
        payload: Payload::Malformed,
        timestamp: 1,
    })
    .unwrap();
    let t = tweet("y", "alive", "u2", 5);
    repo.create(creation_event("good", &t, 5)).unwrap();
    let all: Vec<Tweet> = repo.restore_all("Tweets").unwrap();
    // both aggregates yield a value; y's is reconstructed untouched
    assert_eq!(all.len(), 2);
    let y = all.iter().find(|t| t.id == "y").unwrap();
    assert_eq!(y.content, "alive");
    assert_eq!(y.user_id, "u2");
}

#[test]
fn restore_all_groups_by_aggregate_and_filters_kind() {
    let mut repo = EventRepository::new();
    let t1 = tweet("t1", "one", "u1", 1);
    let t2 = tweet("t2", "two", "u2", 2);
    repo.create(creation_event("e1", &t1, 1)).unwrap();
    repo.create(creation_event("e2", &t2, 2)).unwrap();
    repo.create(Event {
        id: "e3".to_string(),
        kind: "Other".to_string(),
        aggregate_id: "t3".to_string(),
        payload: Payload::Fields(vec![]),
        timestamp: 3,
    })
    .unwrap();
    let all: Vec<Tweet> = repo.restore_all("Tweets").unwrap();
    assert_eq!(all.len(), 2);
    assert!(all.iter().any(|t| t.id == "t1" && t.content == "one"));
    assert!(all.iter().any(|t| t.id == "t2" && t.content == "two"));
    assert!(all.iter().all(|t| t.id != "t3"));
}

#[test]
fn merge_ignores_unknown_and_mismatched_fields() {
    let mut base = tweet("t1", "keep", "u1", 7);
    let e = Event {
        id: "e1".to_string(),
        kind: "Tweets".to_string(),
        aggregate_id: "t1".to_string(),
        payload: Payload::Fields(vec![
            Field { name: "stranger".to_string(), value: FieldValue::Text("zzz".to_string()) },
            Field { name: "content".to_string(), value: FieldValue::Number(9) },
            Field { name: "timestamp".to_string(), value: FieldValue::Number(99) },
        ]),
        timestamp: 9,
    };
    base.restore(&e).unwrap();
    // unknown name and wrong-shaped content value are skipped
    assert_eq!(base.content, "keep");
    assert_eq!(base.timestamp, 99);
    assert_eq!(base.id, "t1");
    assert_eq!(base.user_id, "u1");
}
