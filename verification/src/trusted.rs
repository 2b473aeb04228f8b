use vstd::prelude::*;

verus! {

/// Relies on uuid::Uuid::new_v4 and its Display impl: a freshly drawn
/// random version-4 UUID, rendered in hyphenated form as 36 ASCII
/// characters. Nothing is promised of which identifier comes back.
#[verifier::external_body]
pub(crate) fn fresh_id() -> (r: String)
    ensures
        r@.len() == 36,
{
    uuid::Uuid::new_v4().to_string()
}

/// Relies on std::time::SystemTime::now and duration_since: the current
/// wall-clock time as whole milliseconds since the Unix epoch, zero if
/// the clock reads before the epoch. Nothing is promised of the value:
/// callers must tolerate repeats and collisions.
#[verifier::external_body]
pub(crate) fn now_millis() -> u64 {
    std::time::SystemTime::now()
        .duration_since(std::time::SystemTime::UNIX_EPOCH)
        .unwrap_or_default()
        .as_millis() as u64
}

} // verus!
