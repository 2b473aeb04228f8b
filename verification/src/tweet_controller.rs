use vstd::prelude::*;

use crate::dtos::{CreateTweet, UpdateTweet};
use crate::errors::RepoError;
use crate::events::{EventRepository, EventView, PublishProps};
use crate::events::Event as LogEvent;
use crate::models::{Tweet, TweetView, create_fields};
use crate::payload::{Payload, PayloadView, str_eq};
use crate::replay::{Restore, chronological, for_aggregate, for_kind, group_ids, replay};

verus! {

/// A JSON-encoded value, as produced by an external serializer.
pub type JsonString = String;

/// Rendering an entity as JSON text. The encoding itself is supplied by
/// the unverified boundary that owns the serializer; no implementation
/// lives in this crate.
pub trait ToJson {
    fn to_json(&self) -> Result<JsonString, RepoError>;
}

/// The diff half of the change encoder: the payload holding exactly the
/// fields on which `other` differs from `self`, each with `other`'s
/// value.
pub trait Diff: View + Sized {
    /// The payload value that encoding the difference produces.
    spec fn diff_spec(a: Self::V, b: Self::V) -> PayloadView;

    /// Encodes the field-level difference from `self` to `other`.
    fn diff(&self, other: &Self) -> (r: Result<Payload, RepoError>)
        ensures
            r matches Ok(p) && p@ == Self::diff_spec(self@, other@),
    ;
}

/// The view of a tweet list.
pub open spec fn tweets_view(s: Seq<Tweet>) -> Seq<TweetView> {
    s.map_values(|t: Tweet| t@)
}

pub proof fn lemma_tweets_view_push(s: Seq<Tweet>, t: Tweet)
    ensures
        tweets_view(s.push(t)) == tweets_view(s).push(t@),
{
    assert(tweets_view(s.push(t)) =~= tweets_view(s).push(t@));
}

/// Inserts `t` after every tweet whose timestamp is at least `t`'s: in
/// the freshest-first order, a tie never overtakes what was there.
pub open spec fn insert_fresh(s: Seq<TweetView>, t: TweetView) -> Seq<TweetView>
    decreases s.len(),
{
    if s.len() == 0 {
        seq![t]
    } else if s.last().timestamp >= t.timestamp {
        s.push(t)
    } else {
        insert_fresh(s.drop_last(), t).push(s.last())
    }
}

/// The stable descending-by-timestamp (freshest first) ordering of `s`.
pub open spec fn by_freshness(s: Seq<TweetView>) -> Seq<TweetView>
    decreases s.len(),
{
    if s.len() == 0 {
        Seq::empty()
    } else {
        insert_fresh(by_freshness(s.drop_last()), s.last())
    }
}

proof fn lemma_insert_fresh_at(s: Seq<TweetView>, t: TweetView, j: int)
    requires
        0 <= j <= s.len(),
        j == 0 || s[j - 1].timestamp >= t.timestamp,
        forall|k: int| j <= k < s.len() ==> s[k].timestamp < t.timestamp,
    ensures
        insert_fresh(s, t) == s.take(j) + seq![t] + s.skip(j),
    decreases s.len(),
{
    if j == s.len() {
        if s.len() == 0 {
            assert(insert_fresh(s, t) =~= s.take(j) + seq![t] + s.skip(j));
        } else {
            assert(s.last().timestamp >= t.timestamp);
            assert(s.push(t) =~= s.take(j) + seq![t] + s.skip(j));
        }
    } else {
        assert(s.last().timestamp < t.timestamp);
        assert(forall|k: int| j <= k < s.len() - 1 ==> s.drop_last()[k].timestamp < t.timestamp);
        lemma_insert_fresh_at(s.drop_last(), t, j);
        assert((s.drop_last().take(j) + seq![t] + s.drop_last().skip(j)).push(s.last()) =~= s.take(
            j,
        ) + seq![t] + s.skip(j));
    }
}

/// Orders tweets freshest first with a stable insertion sort: tweets
/// with equal timestamps keep their input order.
pub fn sort_by_freshness(tweets: Vec<Tweet>) -> (r: Vec<Tweet>)
    ensures
        tweets_view(r@) == by_freshness(tweets_view(tweets@)),
{
    let ghost sv = tweets_view(tweets@);
    let mut out: Vec<Tweet> = Vec::new();
    let mut i: usize = 0;
    while i < tweets.len()
        invariant
            i <= tweets.len(),
            sv == tweets_view(tweets@),
            tweets_view(out@) == by_freshness(sv.take(i as int)),
        decreases tweets.len() - i,
    {
        let t = tweets[i].clone();
        let ghost tv = t@;
        let ghost cur = tweets_view(out@);
        let mut j: usize = out.len();
        while j > 0 && out[j - 1].timestamp < t.timestamp
            invariant
                j <= out.len(),
                tweets_view(out@) == cur,
                t@ == tv,
                forall|k: int| j <= k < cur.len() ==> cur[k].timestamp < tv.timestamp,
            decreases j,
        {
            j = j - 1;
        }
        proof {
            lemma_insert_fresh_at(cur, tv, j as int);
        }
        out.insert(j, t);
        proof {
            assert(tweets_view(out@) =~= cur.take(j as int) + seq![tv] + cur.skip(j as int));
            assert(sv.take(i + 1).drop_last() =~= sv.take(i as int));
            assert(sv.take(i + 1).last() == sv[i as int]);
        }
        i = i + 1;
    }
    proof {
        assert(sv.take(sv.len() as int) =~= sv);
    }
    out
}

/// The tweets that replaying the whole log reconstructs: one per
/// aggregate that has a "Tweets" event, in order of first appearance.
pub open spec fn restored_tweets(log: Seq<EventView>) -> Seq<TweetView> {
    let f = for_kind(log, "Tweets"@);
    group_ids(f).map_values(
        |ag: Seq<char>|
            replay::<Tweet>(<Tweet as Restore>::init_spec(), chronological(for_aggregate(f, ag))),
    )
}

/// Lists every tweet reconstructed from the log, freshest first.
pub fn all(repo: &EventRepository) -> (r: Result<Vec<Tweet>, RepoError>)
    ensures
        r matches Ok(ts) && tweets_view(ts@) == by_freshness(restored_tweets(repo@)),
{
    let list = match repo.restore_all::<Tweet>("Tweets") {
        Result::Ok(list) => list,
        Result::Err(e) => {
            // unreachable: reading an in-memory log never fails
            proof {
                assert(false);
            }
            return Result::Err(e);
        },
    };
    proof {
        assert(tweets_view(list@) =~= restored_tweets(repo@));
    }
    Result::Ok(sort_by_freshness(list))
}

/// Creates a tweet: builds a fresh entity from the input, appends its
/// full-snapshot creation event to the log, and appends the entity to
/// the denormalized list used for fast reads.
pub fn create(repo: &mut EventRepository, tweets: &mut Vec<Tweet>, input: CreateTweet) -> (r:
    Result<Tweet, RepoError>)
    ensures
        r matches Ok(t) && ({
            &&& t@.content == input.content@
            &&& t@.user_id == input.user_id@
            &&& tweets_view(final(tweets)@) == tweets_view(old(tweets)@).push(t@)
            &&& final(repo)@ == old(repo)@.push(final(repo)@.last())
            &&& final(repo)@.last().kind == "Tweets"@
            &&& final(repo)@.last().aggregate_id == t@.id
            &&& final(repo)@.last().payload == PayloadView::Fields(create_fields(t@))
        }),
{
    let new_tweet = Tweet::new(input.content, input.user_id);
    let ghost prev = tweets@;
    tweets.push(new_tweet.clone());
    proof {
        lemma_tweets_view_push(prev, tweets@.last());
    }
    let payload = new_tweet.encode_create();
    let published = LogEvent::publish(
        repo,
        PublishProps::Props {
            kind: "Tweets".to_owned(),
            aggregate_id: new_tweet.id.clone(),
            payload,
        },
    );
    match published {
        Result::Ok(_) => Result::Ok(new_tweet),
        Result::Err(e) => {
            // unreachable: publishing onto an in-memory log never fails
            proof {
                assert(false);
            }
            Result::Err(e)
        },
    }
}

/// The first position in `s` holding a tweet with the given id, or -1.
pub open spec fn tweet_index(s: Seq<TweetView>, id: Seq<char>) -> int
    decreases s.len(),
{
    if s.len() == 0 {
        -1
    } else if s[0].id == id {
        0
    } else {
        let r = tweet_index(s.drop_first(), id);
        if r == -1 {
            -1
        } else {
            r + 1
        }
    }
}

pub proof fn lemma_tweet_index_props(s: Seq<TweetView>, id: Seq<char>)
    ensures
        ({
            let r = tweet_index(s, id);
            &&& (r == -1 <==> forall|k: int| 0 <= k < s.len() ==> (#[trigger] s[k]).id != id)
            &&& (r != -1 ==> 0 <= r < s.len() && s[r].id == id && (forall|k: int|
                0 <= k < r ==> (#[trigger] s[k]).id != id))
        }),
    decreases s.len(),
{
    if s.len() == 0 {
    } else if s[0].id == id {
    } else {
        lemma_tweet_index_props(s.drop_first(), id);
        assert(forall|k: int|
            1 <= k < s.len() ==> (#[trigger] s[k]) == s.drop_first()[k - 1]);
    }
}

/// Updates a tweet: finds it in the denormalized list, rewrites its
/// content and timestamp, appends the field-level diff event to the log,
/// and replaces the list entry. Fails with `NotFound` exactly when no
/// listed tweet carries the requested id.
pub fn update(repo: &mut EventRepository, tweets: &mut Vec<Tweet>, dto: UpdateTweet) -> (r: Result<
    Tweet,
    RepoError,
>)
    ensures
        ({
            let pre = tweets_view(old(tweets)@);
            let i = tweet_index(pre, dto.id@);
            match r {
                Result::Ok(t) => {
                    &&& i != -1
                    &&& t@.id == pre[i].id
                    &&& t@.user_id == pre[i].user_id
                    &&& t@.content == dto.content@
                    &&& tweets_view(final(tweets)@) == pre.update(i, t@)
                    &&& final(repo)@ == old(repo)@.push(final(repo)@.last())
                    &&& final(repo)@.last().kind == "Tweets"@
                    &&& final(repo)@.last().aggregate_id == dto.id@
                    &&& final(repo)@.last().payload == <Tweet as Diff>::diff_spec(pre[i], t@)
                },
                Result::Err(e) => {
                    &&& e == RepoError::NotFound
                    &&& i == -1
                    &&& final(tweets)@ == old(tweets)@
                    &&& final(repo)@ == old(repo)@
                },
            }
        }),
{
    let ghost pre = tweets_view(tweets@);
    let mut i: usize = 0;
    let n = tweets.len();
    while i < n
        invariant
            n == tweets.len(),
            i <= n,
            tweets@ == old(tweets)@,
            repo@ == old(repo)@,
            pre == tweets_view(tweets@),
            forall|k: int| 0 <= k < i ==> (#[trigger] pre[k]).id != dto.id@,
        decreases n - i,
    {
        if str_eq(tweets[i].id.as_str(), dto.id.as_str()) {
            proof {
                lemma_tweet_index_props(pre, dto.id@);
                assert(pre.len() == tweets@.len());
                assert(pre[i as int].id == dto.id@);
                let r = tweet_index(pre, dto.id@);
                assert(r != -1);
                if r < i as int {
                    assert(pre[r].id != dto.id@);
                }
                if r > i as int {
                    assert(pre[i as int].id != dto.id@);
                }
                assert(r == i as int);
            }
            let old_tweet = tweets[i].clone();
            let mut new_tweet = tweets[i].clone();
            new_tweet.content = dto.content;
            new_tweet.timestamp = crate::trusted::now_millis();
            let payload = match old_tweet.diff(&new_tweet) {
                Result::Ok(p) => p,
                Result::Err(e) => {
                    // unreachable: the tweet diff encoder never fails
                    proof {
                        assert(false);
                    }
                    return Result::Err(e);
                },
            };
            let published = LogEvent::publish(
                repo,
                PublishProps::Props {
                    kind: "Tweets".to_owned(),
                    aggregate_id: old_tweet.id.clone(),
                    payload,
                },
            );
            match published {
                Result::Ok(_) => {},
                Result::Err(e) => {
                    // unreachable: publishing onto an in-memory log never fails
                    proof {
                        assert(false);
                    }
                    return Result::Err(e);
                },
            }
            let _ = tweets.remove(i);
            tweets.insert(i, new_tweet.clone());
            proof {
                assert(tweets_view(tweets@) =~= pre.update(i as int, new_tweet@));
            }
            return Result::Ok(new_tweet);
        }
        i = i + 1;
    }
    proof {
        lemma_tweet_index_props(pre, dto.id@);
        assert(pre.len() == tweets@.len());
        assert(tweet_index(pre, dto.id@) == -1);
    }
    Result::Err(RepoError::NotFound)
}

/// The tweets of `s` that do not carry the given id, in their order.
pub open spec fn remaining(s: Seq<TweetView>, id: Seq<char>) -> Seq<TweetView>
    decreases s.len(),
{
    if s.len() == 0 {
        Seq::empty()
    } else {
        let pre = remaining(s.drop_last(), id);
        if s.last().id == id {
            pre
        } else {
            pre.push(s.last())
        }
    }
}

/// Deletes a tweet from the denormalized list only: no tombstone event
/// is appended, so replay still reconstructs the entity from history.
/// Fails with `NotFound` exactly when no listed tweet carries the id;
/// the list is then left unchanged.
pub fn delete(tweets: &mut Vec<Tweet>, tweet_id: &str) -> (r: Result<(), RepoError>)
    ensures
        ({
            let pre = tweets_view(old(tweets)@);
            match r {
                Result::Ok(_) => tweet_index(pre, tweet_id@) != -1 && tweets_view(final(tweets)@)
                    == remaining(pre, tweet_id@),
                Result::Err(e) => e == RepoError::NotFound && tweet_index(pre, tweet_id@) == -1
                    && final(tweets)@ == old(tweets)@,
            }
        }),
{
    let ghost sv = tweets_view(tweets@);
    let mut kept: Vec<Tweet> = Vec::new();
    let mut found = false;
    let mut i: usize = 0;
    while i < tweets.len()
        invariant
            i <= tweets.len(),
            tweets@ == old(tweets)@,
            sv == tweets_view(tweets@),
            tweets_view(kept@) == remaining(sv.take(i as int), tweet_id@),
            found == (exists|m: int| 0 <= m < i && (#[trigger] sv[m]).id == tweet_id@),
        decreases tweets.len() - i,
    {
        let ghost prev = kept@;
        if str_eq(tweets[i].id.as_str(), tweet_id) {
            found = true;
            proof {
                assert(sv[i as int].id == tweet_id@);
            }
        } else {
            kept.push(tweets[i].clone());
            proof {
                lemma_tweets_view_push(prev, kept@.last());
            }
        }
        proof {
            assert(sv.take(i + 1).drop_last() =~= sv.take(i as int));
            assert(sv.take(i + 1).last() == sv[i as int]);
        }
        i = i + 1;
    }
    proof {
        lemma_tweet_index_props(sv, tweet_id@);
        assert(sv.len() == tweets@.len());
        assert(sv.take(sv.len() as int) =~= sv);
    }
    if found {
        *tweets = kept;
        Result::Ok(())
    } else {
        proof {
            assert(tweet_index(sv, tweet_id@) == -1);
        }
        Result::Err(RepoError::NotFound)
    }
}

} // verus!
