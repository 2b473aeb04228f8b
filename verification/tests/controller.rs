use eventlog::dtos::{CreateTweet, UpdateTweet, User};
use eventlog::errors::{RepoError, UserError};
use eventlog::events::EventRepository;
use eventlog::models::Tweet;
use eventlog::payload::{FieldValue, Payload};
use eventlog::tweet_controller::{all, create, delete, update};
use eventlog::users::{create_user, login};

#[test]
fn create_then_update_scenario() {
    let mut repo = EventRepository::new();
    let mut tweets: Vec<Tweet> = Vec::new();

    let created = create(
        &mut repo,
        &mut tweets,
        CreateTweet { content: "hello".to_string(), user_id: "u1".to_string() },
    )
    .unwrap();
    assert_eq!(created.content, "hello");
    assert_eq!(created.user_id, "u1");

    // the creation event carries the full snapshot
    let log = repo.all().unwrap();
    assert_eq!(log.len(), 1);
    assert_eq!(log[0].kind, "Tweets");
    assert_eq!(log[0].aggregate_id, created.id);
    match &log[0].payload {
        Payload::Fields(fs) => {
            let names: Vec<&str> = fs.iter().map(|f| f.name.as_str()).collect();
            assert_eq!(names, vec!["id", "content", "user_id", "timestamp"]);
        },
        Payload::Malformed => panic!("creation payload must be a mapping"),
    }

    let updated = update(
        &mut repo,
        &mut tweets,
        UpdateTweet { id: created.id.clone(), content: "hi".to_string() },
    )
    .unwrap();
    assert_eq!(updated.id, created.id);
    assert_eq!(updated.content, "hi");
    assert_eq!(updated.user_id, "u1");

    // the update event carries only what changed
    let log = repo.all().unwrap();
    assert_eq!(log.len(), 2);
    assert_eq!(log[1].aggregate_id, created.id);
    match &log[1].payload {
        Payload::Fields(fs) => {
            let content = fs.iter().find(|f| f.name == "content").unwrap();
            match &content.value {
                FieldValue::Text(s) => assert_eq!(s, "hi"),
                _ => panic!("content must be text"),
            }
            assert!(fs.iter().all(|f| f.name != "id" && f.name != "user_id"));
        },
        Payload::Malformed => panic!("diff payload must be a mapping"),
    }

    // replaying the whole log yields exactly one tweet, in its new state
    let listed = all(&repo).unwrap();
    assert_eq!(listed.len(), 1);
    assert_eq!(listed[0].id, created.id);
    assert_eq!(listed[0].content, "hi");
    assert_eq!(listed[0].user_id, "u1");
    assert_eq!(listed[0].timestamp, updated.timestamp);
}

#[test]
fn update_unknown_id_is_not_found() {
    let mut repo = EventRepository::new();
    let mut tweets: Vec<Tweet> = Vec::new();
    let r = update(
        &mut repo,
        &mut tweets,
        UpdateTweet { id: "missing".to_string(), content: "x".to_string() },
    );
    assert_eq!(r.unwrap_err(), RepoError::NotFound);
    assert!(repo.all().unwrap().is_empty());
}

#[test]
fn list_orders_freshest_first() {
    let mut repo = EventRepository::new();
    let mut tweets: Vec<Tweet> = Vec::new();
    let a = create(
        &mut repo,
        &mut tweets,
        CreateTweet { content: "a".to_string(), user_id: "u".to_string() },
    )
    .unwrap();
    let b = create(
        &mut repo,
        &mut tweets,
        CreateTweet { content: "b".to_string(), user_id: "u".to_string() },
    )
    .unwrap();
    let listed = all(&repo).unwrap();
    assert_eq!(listed.len(), 2);
    assert!(listed[0].timestamp >= listed[1].timestamp);
    let ids: Vec<&str> = listed.iter().map(|t| t.id.as_str()).collect();
    assert!(ids.contains(&a.id.as_str()));
    assert!(ids.contains(&b.id.as_str()));
}

#[test]
fn delete_removes_from_list_but_not_from_history() {
    let mut repo = EventRepository::new();
    let mut tweets: Vec<Tweet> = Vec::new();
    let created = create(
        &mut repo,
        &mut tweets,
        CreateTweet { content: "gone".to_string(), user_id: "u".to_string() },
    )
    .unwrap();
    delete(&mut tweets, created.id.as_str()).unwrap();
    assert!(tweets.is_empty());
    // no tombstone event exists, so replay still reconstructs the entity
    let replayed = all(&repo).unwrap();
    assert_eq!(replayed.len(), 1);
    assert_eq!(replayed[0].id, created.id);
}

#[test]
fn delete_unknown_id_is_not_found() {
    let mut tweets: Vec<Tweet> = vec![Tweet {
        id: "kept".to_string(),
        content: "stay".to_string(),
        user_id: "u".to_string(),
        timestamp: 1,
    }];
    let r = delete(&mut tweets, "missing");
    assert_eq!(r.unwrap_err(), RepoError::NotFound);
    // the list is untouched when the target is absent
    assert_eq!(tweets.len(), 1);
    assert_eq!(tweets[0].id, "kept");
}

#[test]
fn duplicate_user_name_is_rejected() {
    let mut users: Vec<User> = Vec::new();
    create_user(&mut users, User { name: "ana".to_string(), pass: "p1".to_string() }).unwrap();
    let r = create_user(&mut users, User { name: "ana".to_string(), pass: "p2".to_string() });
    assert_eq!(r.unwrap_err(), UserError::AlreadyExists);
    assert_eq!(users.len(), 1);
}

#[test]
fn login_checks_name_and_password() {
    let mut users: Vec<User> = Vec::new();
    create_user(&mut users, User { name: "ana".to_string(), pass: "secret".to_string() })
        .unwrap();
    assert!(login(&users, "ana", "secret").is_ok());
    assert_eq!(login(&users, "ana", "wrong").unwrap_err(), UserError::WrongPassword);
    assert_eq!(login(&users, "bob", "secret").unwrap_err(), UserError::UnknownUser);
}
