use eventlog::events::{Event, EventRepository, PublishProps};
use eventlog::payload::{Field, FieldValue, Payload};

fn event(id: &str, kind: &str, agg: &str, ts: u64) -> Event {
    Event {
        id: id.to_string(),
        kind: kind.to_string(),
        aggregate_id: agg.to_string(),
        payload: Payload::Fields(vec![Field {
            name: "content".to_string(),
            value: FieldValue::Text(id.to_string()),
        }]),
        timestamp: ts,
    }
}

#[test]
fn empty_log_reads_empty() {
    let repo = EventRepository::new();
    let events = repo.all().unwrap();
    assert!(events.is_empty());
}

#[test]
fn append_is_durable_and_ordered() {
    let mut repo = EventRepository::new();
    repo.create(event("e1", "Tweets", "a", 5)).unwrap();
    repo.create(event("e2", "Tweets", "b", 3)).unwrap();
    repo.create(event("e3", "Other", "a", 4)).unwrap();
    let first = repo.all().unwrap();
    let ids: Vec<String> = first.iter().map(|e| e.id.clone()).collect();
    assert_eq!(ids, vec!["e1".to_string(), "e2".to_string(), "e3".to_string()]);
    // a second read with no intervening write sees the same history
    let second = repo.all().unwrap();
    assert_eq!(second.len(), 3);
    for (x, y) in first.iter().zip(second.iter()) {
        assert_eq!(x.id, y.id);
        assert_eq!(x.kind, y.kind);
        assert_eq!(x.aggregate_id, y.aggregate_id);
        assert_eq!(x.timestamp, y.timestamp);
    }
}

#[test]
fn from_events_keeps_history() {
    let stored = vec![event("e1", "Tweets", "a", 1), event("e2", "Tweets", "a", 2)];
    let repo = EventRepository::from_events(stored);
    let read = repo.all().unwrap();
    assert_eq!(read.len(), 2);
    assert_eq!(read[0].id, "e1");
    assert_eq!(read[1].id, "e2");
}

#[test]
fn publish_appends_ready_made_event() {
    let mut repo = EventRepository::new();
    Event::publish(&mut repo, PublishProps::Event(event("e9", "Tweets", "z", 7))).unwrap();
    let read = repo.all().unwrap();
    assert_eq!(read.len(), 1);
    assert_eq!(read[0].id, "e9");
    assert_eq!(read[0].timestamp, 7);
}

#[test]
fn publish_builds_fresh_event_from_props() {
    let mut repo = EventRepository::new();
    Event::publish(
        &mut repo,
        PublishProps::Props {
            kind: "Tweets".to_string(),
            aggregate_id: "agg-1".to_string(),
            payload: Payload::Malformed,
        },
    )
    .unwrap();
    let read = repo.all().unwrap();
    assert_eq!(read.len(), 1);
    assert_eq!(read[0].kind, "Tweets");
    assert_eq!(read[0].aggregate_id, "agg-1");
    // the fresh identifier is a hyphenated UUID
    assert_eq!(read[0].id.len(), 36);
}
