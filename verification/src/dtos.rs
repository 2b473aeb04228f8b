use vstd::prelude::*;

verus! {

/// A user account record: a flat name/password pair kept in its own
/// denormalized list, unrelated to the event log.
pub struct User {
    pub name: String,
    pub pass: String,
}

/// The input of a tweet creation request.
pub struct CreateTweet {
    pub content: String,
    pub user_id: String,
}

/// The input of a tweet update request: the target id and the new content.
pub struct UpdateTweet {
    pub id: String,
    pub content: String,
}

} // verus!
