use eventlog::events::Event;
use eventlog::models::Tweet;
use eventlog::payload::{Field, FieldValue, Payload};
use eventlog::replay::Restore;
use eventlog::tweet_controller::Diff;

fn tweet(id: &str, content: &str, user_id: &str, ts: u64) -> Tweet {
    Tweet {
        id: id.to_string(),
        content: content.to_string(),
        user_id: user_id.to_string(),
        timestamp: ts,
    }
}

fn fields(p: &Payload) -> &Vec<Field> {
    match p {
        Payload::Fields(fs) => fs,
        Payload::Malformed => panic!("expected a field mapping"),
    }
}

fn text(v: &FieldValue) -> &str {
    match v {
        FieldValue::Text(s) => s.as_str(),
        _ => panic!("expected text"),
    }
}

#[test]
fn encode_create_holds_every_field() {
    let t = tweet("t1", "hello", "u1", 123);
    let p = t.encode_create();
    let fs = fields(&p);
    assert_eq!(fs.len(), 4);
    assert_eq!(fs[0].name, "id");
    assert_eq!(text(&fs[0].value), "t1");
    assert_eq!(fs[1].name, "content");
    assert_eq!(text(&fs[1].value), "hello");
    assert_eq!(fs[2].name, "user_id");
    assert_eq!(text(&fs[2].value), "u1");
    assert_eq!(fs[3].name, "timestamp");
    assert!(matches!(fs[3].value, FieldValue::Number(123)));
}

#[test]
fn diff_of_equal_tweets_is_empty() {
    let a = tweet("t1", "same", "u1", 5);
    let b = tweet("t1", "same", "u1", 5);
    let p = a.diff(&b).unwrap();
    assert!(fields(&p).is_empty());
}

#[test]
fn diff_holds_only_the_changed_field() {
    let a = tweet("t1", "hello", "u1", 5);
    let b = tweet("t1", "hi", "u1", 5);
    let p = a.diff(&b).unwrap();
    let fs = fields(&p);
    assert_eq!(fs.len(), 1);
    assert_eq!(fs[0].name, "content");
    assert_eq!(text(&fs[0].value), "hi");
}

#[test]
fn diff_covers_each_field_independently() {
    let a = tweet("t1", "c", "u1", 5);
    let b = tweet("t2", "c", "u2", 9);
    let p = a.diff(&b).unwrap();
    let fs = fields(&p);
    assert_eq!(fs.len(), 3);
    assert_eq!(fs[0].name, "id");
    assert_eq!(text(&fs[0].value), "t2");
    assert_eq!(fs[1].name, "user_id");
    assert_eq!(text(&fs[1].value), "u2");
    assert_eq!(fs[2].name, "timestamp");
    assert!(matches!(fs[2].value, FieldValue::Number(9)));
}

#[test]
fn single_field_diff_merges_back_partially() {
    let a = tweet("t1", "hello", "u1", 5);
    let mut b = a.clone();
    b.content = "hi".to_string();
    let p = a.diff(&b).unwrap();
    let mut replayed = a.clone();
    let e = Event {
        id: "e1".to_string(),
        kind: "Tweets".to_string(),
        aggregate_id: "t1".to_string(),
        payload: p,
        timestamp: 6,
    };
    replayed.restore(&e).unwrap();
    // only the changed field moved; the rest of `a` is untouched
    assert_eq!(replayed.content, "hi");
    assert_eq!(replayed.id, "t1");
    assert_eq!(replayed.user_id, "u1");
    assert_eq!(replayed.timestamp, 5);
}

#[test]
fn diff_then_merge_restores_the_target() {
    let a = tweet("t1", "old", "u1", 5);
    let b = tweet("t9", "new", "u2", 77);
    let p = a.diff(&b).unwrap();
    let mut replayed = a.clone();
    let e = Event {
        id: "e1".to_string(),
        kind: "Tweets".to_string(),
        aggregate_id: "t1".to_string(),
        payload: p,
        timestamp: 78,
    };
    replayed.restore(&e).unwrap();
    assert_eq!(replayed.id, b.id);
    assert_eq!(replayed.content, b.content);
    assert_eq!(replayed.user_id, b.user_id);
    assert_eq!(replayed.timestamp, b.timestamp);
}

#[test]
fn fresh_tweet_draws_hyphenated_identifier() {
    let t = Tweet::new("hello".to_string(), "u1".to_string());
    assert_eq!(t.content, "hello");
    assert_eq!(t.user_id, "u1");
    assert_eq!(t.id.len(), 36);
}
