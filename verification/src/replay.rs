use vstd::prelude::*;

use crate::errors::RepoError;
use crate::events::{Event, EventView, events_view, lemma_events_view_push};

verus! {

/// An entity type that can be rebuilt from history: it has a default
/// (empty) value and a merge operation that folds one event into it.
pub trait Restore: View + Sized {
    /// The default value replay starts from.
    spec fn init_spec() -> Self::V;

    /// Whether the event's payload is a field mapping this entity can
    /// merge (replay surfaces `PayloadMalformed` otherwise).
    spec fn merges(v: Self::V, e: EventView) -> bool;

    /// The value after folding one event into the entity: every field
    /// named in the payload is overwritten, absent fields stay.
    spec fn merged(v: Self::V, e: EventView) -> Self::V;

    /// The default value, as an executable constructor.
    fn fresh() -> (r: Self)
        ensures
            r@ == Self::init_spec(),
    ;

    /// Folds one event into the entity in place.
    fn restore(&mut self, event: &Event) -> (r: Result<(), RepoError>)
        ensures
            match r {
                Result::Ok(_) => Self::merges(old(self)@, event@) && final(self)@ == Self::merged(
                    old(self)@,
                    event@,
                ),
                Result::Err(err) => err == RepoError::PayloadMalformed && !Self::merges(
                    old(self)@,
                    event@,
                ) && final(self)@ == old(self)@,
            },
    ;
}

/// One lenient replay step: merge the event if its payload allows it,
/// keep the value unchanged otherwise.
pub open spec fn replay_step<T: Restore>(v: T::V, e: EventView) -> T::V {
    if T::merges(v, e) {
        T::merged(v, e)
    } else {
        v
    }
}

/// The lenient fold of an event sequence into an entity value: events
/// whose payloads cannot be merged are skipped.
pub open spec fn replay<T: Restore>(v: T::V, s: Seq<EventView>) -> T::V
    decreases s.len(),
{
    if s.len() == 0 {
        v
    } else {
        replay::<T>(replay_step::<T>(v, s[0]), s.drop_first())
    }
}

/// Whether every event of the sequence merges cleanly when folded in
/// order from `v` (the strict replay path raises no error exactly here).
pub open spec fn replays_clean<T: Restore>(v: T::V, s: Seq<EventView>) -> bool
    decreases s.len(),
{
    if s.len() == 0 {
        true
    } else {
        T::merges(v, s[0]) && replays_clean::<T>(T::merged(v, s[0]), s.drop_first())
    }
}

pub proof fn lemma_replay_push<T: Restore>(v: T::V, s: Seq<EventView>, e: EventView)
    ensures
        replay::<T>(v, s.push(e)) == replay_step::<T>(replay::<T>(v, s), e),
    decreases s.len(),
{
    if s.len() == 0 {
        assert(s.push(e)[0] == e);
        assert(s.push(e).drop_first() =~= s);
        assert(replay::<T>(v, s.push(e)) == replay::<T>(replay_step::<T>(v, e), s));
        assert(replay::<T>(replay_step::<T>(v, e), s) == replay_step::<T>(v, e));
        assert(replay::<T>(v, s) == v);
    } else {
        assert(s.push(e)[0] == s[0]);
        assert(s.push(e).drop_first() =~= s.drop_first().push(e));
        lemma_replay_push::<T>(replay_step::<T>(v, s[0]), s.drop_first(), e);
        assert(replay::<T>(v, s.push(e)) == replay::<T>(
            replay_step::<T>(v, s[0]),
            s.drop_first().push(e),
        ));
        assert(replay::<T>(v, s) == replay::<T>(replay_step::<T>(v, s[0]), s.drop_first()));
    }
}

pub proof fn lemma_clean_push<T: Restore>(v: T::V, s: Seq<EventView>, e: EventView)
    ensures
        replays_clean::<T>(v, s.push(e)) == (replays_clean::<T>(v, s) && T::merges(
            replay::<T>(v, s),
            e,
        )),
    decreases s.len(),
{
    if s.len() == 0 {
        assert(s.push(e)[0] == e);
        assert(s.push(e).drop_first() =~= s);
        assert(replays_clean::<T>(v, s.push(e)) == (T::merges(v, e) && replays_clean::<T>(
            T::merged(v, e),
            s,
        )));
        assert(replays_clean::<T>(v, s));
        assert(replay::<T>(v, s) == v);
    } else {
        assert(s.push(e)[0] == s[0]);
        assert(s.push(e).drop_first() =~= s.drop_first().push(e));
        assert(replays_clean::<T>(v, s.push(e)) == (T::merges(v, s[0]) && replays_clean::<T>(
            T::merged(v, s[0]),
            s.drop_first().push(e),
        )));
        assert(replays_clean::<T>(v, s) == (T::merges(v, s[0]) && replays_clean::<T>(
            T::merged(v, s[0]),
            s.drop_first(),
        )));
        assert(replay::<T>(v, s) == replay::<T>(replay_step::<T>(v, s[0]), s.drop_first()));
        if T::merges(v, s[0]) {
            lemma_clean_push::<T>(T::merged(v, s[0]), s.drop_first(), e);
            assert(replay_step::<T>(v, s[0]) == T::merged(v, s[0]));
        }
    }
}

pub proof fn lemma_clean_take<T: Restore>(v: T::V, s: Seq<EventView>, i: int)
    requires
        0 <= i <= s.len(),
        replays_clean::<T>(v, s),
    ensures
        replays_clean::<T>(v, s.take(i)),
    decreases s.len() - i,
{
    if i == s.len() {
        assert(s.take(i) =~= s);
    } else {
        lemma_clean_take::<T>(v, s, i + 1);
        assert(s.take(i + 1) =~= s.take(i).push(s[i]));
        lemma_clean_push::<T>(v, s.take(i), s[i]);
    }
}

/// The subsequence of `s` whose events belong to the given aggregate,
/// in the order they stand in `s` (the filter is stable).
pub open spec fn for_aggregate(s: Seq<EventView>, agg: Seq<char>) -> Seq<EventView>
    decreases s.len(),
{
    if s.len() == 0 {
        Seq::empty()
    } else {
        let pre = for_aggregate(s.drop_last(), agg);
        if s.last().aggregate_id == agg {
            pre.push(s.last())
        } else {
            pre
        }
    }
}

/// The subsequence of `s` whose events carry the given kind tag, in the
/// order they stand in `s`.
pub open spec fn for_kind(s: Seq<EventView>, kind: Seq<char>) -> Seq<EventView>
    decreases s.len(),
{
    if s.len() == 0 {
        Seq::empty()
    } else {
        let pre = for_kind(s.drop_last(), kind);
        if s.last().kind == kind {
            pre.push(s.last())
        } else {
            pre
        }
    }
}

/// The distinct aggregate ids of `s`, in order of first appearance.
pub open spec fn group_ids(s: Seq<EventView>) -> Seq<Seq<char>>
    decreases s.len(),
{
    if s.len() == 0 {
        Seq::empty()
    } else {
        let pre = group_ids(s.drop_last());
        if pre.contains(s.last().aggregate_id) {
            pre
        } else {
            pre.push(s.last().aggregate_id)
        }
    }
}

/// Inserts `e` after every event whose timestamp is at most `e`'s:
/// a tie never overtakes what was already there.
pub open spec fn insert_chrono(s: Seq<EventView>, e: EventView) -> Seq<EventView>
    decreases s.len(),
{
    if s.len() == 0 {
        seq![e]
    } else if s.last().timestamp <= e.timestamp {
        s.push(e)
    } else {
        insert_chrono(s.drop_last(), e).push(s.last())
    }
}

/// The stable ascending-by-timestamp ordering of `s`: events with equal
/// timestamps keep the order they had in `s`.
pub open spec fn chronological(s: Seq<EventView>) -> Seq<EventView>
    decreases s.len(),
{
    if s.len() == 0 {
        Seq::empty()
    } else {
        insert_chrono(chronological(s.drop_last()), s.last())
    }
}

proof fn lemma_insert_chrono_at(s: Seq<EventView>, e: EventView, j: int)
    requires
        0 <= j <= s.len(),
        j == 0 || s[j - 1].timestamp <= e.timestamp,
        forall|k: int| j <= k < s.len() ==> s[k].timestamp > e.timestamp,
    ensures
        insert_chrono(s, e) == s.take(j) + seq![e] + s.skip(j),
    decreases s.len(),
{
    if j == s.len() {
        if s.len() == 0 {
            assert(insert_chrono(s, e) =~= s.take(j) + seq![e] + s.skip(j));
        } else {
            assert(s.last().timestamp <= e.timestamp);
            assert(s.push(e) =~= s.take(j) + seq![e] + s.skip(j));
        }
    } else {
        assert(s.last().timestamp > e.timestamp);
        assert(s.drop_last().len() == s.len() - 1);
        assert(forall|k: int| j <= k < s.len() - 1 ==> s.drop_last()[k].timestamp > e.timestamp);
        lemma_insert_chrono_at(s.drop_last(), e, j);
        assert((s.drop_last().take(j) + seq![e] + s.drop_last().skip(j)).push(s.last()) =~= s.take(
            j,
        ) + seq![e] + s.skip(j));
    }
}

/// Law: replay is deterministic — two replays of the same ordered
/// event sequence from the same starting value agree; nothing outside
/// the sequence influences the result.
pub proof fn lemma_replay_deterministic<T: Restore>(
    v: T::V,
    s: Seq<EventView>,
    t1: T::V,
    t2: T::V,
)
    requires
        t1 == replay::<T>(v, s),
        t2 == replay::<T>(v, s),
    ensures
        t1 == t2,
{
}

/// Whether `s` is already in ascending timestamp order.
pub open spec fn chronologically_sorted(s: Seq<EventView>) -> bool {
    forall|i: int, j: int| 0 <= i < j < s.len() ==> s[i].timestamp <= s[j].timestamp
}

/// Law (tie-break stability): a log already in chronological order —
/// in particular one whose events all carry one timestamp, in append
/// order — is never reordered by the sort, so replay applies such
/// events exactly in append order.
pub proof fn lemma_chronological_stable(s: Seq<EventView>)
    requires
        chronologically_sorted(s),
    ensures
        chronological(s) == s,
    decreases s.len(),
{
    if s.len() == 0 {
        assert(chronological(s) =~= s);
    } else {
        assert(chronologically_sorted(s.drop_last())) by {
            assert(forall|i: int, j: int|
                0 <= i < j < s.len() - 1 ==> s.drop_last()[i].timestamp
                    <= s.drop_last()[j].timestamp);
        };
        lemma_chronological_stable(s.drop_last());
        if s.len() == 1 {
            assert(s.drop_last().len() == 0);
            assert(chronological(s) == insert_chrono(Seq::<EventView>::empty(), s.last()));
            assert(insert_chrono(Seq::<EventView>::empty(), s.last()) =~= s);
        } else {
            assert(s.drop_last().last().timestamp <= s.last().timestamp);
            assert(chronological(s) == insert_chrono(s.drop_last(), s.last()));
            assert(insert_chrono(s.drop_last(), s.last()) == s.drop_last().push(s.last()));
            assert(s.drop_last().push(s.last()) =~= s);
        }
    }
}

proof fn lemma_insert_chrono_sorted(s: Seq<EventView>, e: EventView)
    requires
        chronologically_sorted(s),
    ensures
        chronologically_sorted(insert_chrono(s, e)),
        insert_chrono(s, e).len() == s.len() + 1,
        insert_chrono(s, e).last().timestamp == (if s.len() > 0 && s.last().timestamp
            > e.timestamp {
            s.last().timestamp
        } else {
            e.timestamp
        }),
    decreases s.len(),
{
    let r = insert_chrono(s, e);
    if s.len() == 0 {
        assert(r == seq![e]);
        assert(r.last() == e);
    } else if s.last().timestamp <= e.timestamp {
        assert(r == s.push(e));
        assert(forall|i: int| 0 <= i < s.len() ==> s[i].timestamp <= s.last().timestamp);
        assert(forall|i: int, j: int|
            0 <= i < j < r.len() ==> r[i].timestamp <= r[j].timestamp);
    } else {
        assert(chronologically_sorted(s.drop_last())) by {
            assert(forall|i: int, j: int|
                0 <= i < j < s.len() - 1 ==> s.drop_last()[i].timestamp
                    <= s.drop_last()[j].timestamp);
        };
        lemma_insert_chrono_sorted(s.drop_last(), e);
        let inner = insert_chrono(s.drop_last(), e);
        assert(r == inner.push(s.last()));
        assert(inner.last().timestamp <= s.last().timestamp);
        assert(forall|i: int|
            0 <= i < inner.len() ==> inner[i].timestamp <= inner.last().timestamp);
        assert(forall|i: int, j: int|
            0 <= i < j < r.len() ==> r[i].timestamp <= r[j].timestamp);
    }
}

/// Law: the replay order is genuinely chronological — ordering any log
/// selection yields an ascending-by-timestamp sequence of the same
/// length.
pub proof fn lemma_chronological_sorted(s: Seq<EventView>)
    ensures
        chronologically_sorted(chronological(s)),
        chronological(s).len() == s.len(),
    decreases s.len(),
{
    if s.len() == 0 {
    } else {
        lemma_chronological_sorted(s.drop_last());
        lemma_insert_chrono_sorted(chronological(s.drop_last()), s.last());
    }
}

/// The subsequence of `s` whose events carry exactly the given
/// timestamp, in the order they stand in `s`.
pub open spec fn with_timestamp(s: Seq<EventView>, ts: u64) -> Seq<EventView>
    decreases s.len(),
{
    if s.len() == 0 {
        Seq::empty()
    } else {
        let pre = with_timestamp(s.drop_last(), ts);
        if s.last().timestamp == ts {
            pre.push(s.last())
        } else {
            pre
        }
    }
}

proof fn lemma_insert_chrono_ties(p: Seq<EventView>, e: EventView, ts: u64)
    ensures
        with_timestamp(insert_chrono(p, e), ts) == (if e.timestamp == ts {
            with_timestamp(p, ts).push(e)
        } else {
            with_timestamp(p, ts)
        }),
    decreases p.len(),
{
    if p.len() == 0 {
        assert(insert_chrono(p, e) == seq![e]);
        assert(seq![e].drop_last() =~= p);
        assert(seq![e].last() == e);
    } else if p.last().timestamp <= e.timestamp {
        assert(insert_chrono(p, e) == p.push(e));
        assert(p.push(e).drop_last() =~= p);
        assert(p.push(e).last() == e);
    } else {
        lemma_insert_chrono_ties(p.drop_last(), e, ts);
        let inner = insert_chrono(p.drop_last(), e);
        assert(insert_chrono(p, e) == inner.push(p.last()));
        assert(inner.push(p.last()).drop_last() =~= inner);
        assert(inner.push(p.last()).last() == p.last());
        // p.last() outranks e, so for any one timestamp at most one of
        // the two is appended and the two append orders coincide
        assert(p.last().timestamp > e.timestamp);
    }
}

/// Law (general tie-break stability): for every timestamp, the events
/// carrying it stand in `chronological(s)` exactly as they stand in
/// `s`. Events with equal timestamps are never reordered, however many
/// there are and whatever else the log holds around them.
pub proof fn lemma_chronological_preserves_ties(s: Seq<EventView>, ts: u64)
    ensures
        with_timestamp(chronological(s), ts) == with_timestamp(s, ts),
    decreases s.len(),
{
    if s.len() == 0 {
    } else {
        lemma_chronological_preserves_ties(s.drop_last(), ts);
        lemma_insert_chrono_ties(chronological(s.drop_last()), s.last(), ts);
    }
}

pub proof fn lemma_for_aggregate_push(p: Seq<EventView>, e: EventView, agg: Seq<char>)
    ensures
        for_aggregate(p.push(e), agg) == (if e.aggregate_id == agg {
            for_aggregate(p, agg).push(e)
        } else {
            for_aggregate(p, agg)
        }),
{
    assert(p.push(e).drop_last() =~= p);
    assert(p.push(e).last() == e);
}

pub proof fn lemma_for_kind_push(p: Seq<EventView>, e: EventView, kind: Seq<char>)
    ensures
        for_kind(p.push(e), kind) == (if e.kind == kind {
            for_kind(p, kind).push(e)
        } else {
            for_kind(p, kind)
        }),
{
    assert(p.push(e).drop_last() =~= p);
    assert(p.push(e).last() == e);
}

/// Law (malformed payload isolation): if two logs agree except for the
/// payload of one event of aggregate `x`, then for any other aggregate
/// the selected, ordered event sequence — and hence every replayed
/// value — is identical in the two logs.
pub proof fn lemma_corrupt_event_isolated(
    s1: Seq<EventView>,
    s2: Seq<EventView>,
    x: int,
    kind: Seq<char>,
    agg: Seq<char>,
)
    requires
        s1.len() == s2.len(),
        0 <= x < s1.len(),
        forall|i: int| 0 <= i < s1.len() && i != x ==> s1[i] == s2[i],
        s2[x].kind == s1[x].kind,
        s2[x].aggregate_id == s1[x].aggregate_id,
        s1[x].aggregate_id != agg,
    ensures
        for_aggregate(for_kind(s1, kind), agg) == for_aggregate(for_kind(s2, kind), agg),
    decreases s1.len(),
{
    let t1 = s1.drop_last();
    let t2 = s2.drop_last();
    assert(s1 =~= t1.push(s1.last()));
    assert(s2 =~= t2.push(s2.last()));
    if x == s1.len() - 1 {
        assert(t1 =~= t2);
        lemma_for_kind_push(t1, s1.last(), kind);
        lemma_for_kind_push(t2, s2.last(), kind);
        if s1.last().kind == kind {
            lemma_for_aggregate_push(for_kind(t1, kind), s1.last(), agg);
            lemma_for_aggregate_push(for_kind(t2, kind), s2.last(), agg);
        }
    } else {
        assert(s1.last() == s2.last());
        assert(forall|i: int| 0 <= i < t1.len() && i != x ==> t1[i] == t2[i]) by {
            assert(forall|i: int| 0 <= i < t1.len() ==> t1[i] == s1[i] && t2[i] == s2[i]);
        };
        assert(t1[x] == s1[x] && t2[x] == s2[x]);
        lemma_corrupt_event_isolated(t1, t2, x, kind, agg);
        lemma_for_kind_push(t1, s1.last(), kind);
        lemma_for_kind_push(t2, s2.last(), kind);
        if s1.last().kind == kind {
            lemma_for_aggregate_push(for_kind(t1, kind), s1.last(), agg);
            lemma_for_aggregate_push(for_kind(t2, kind), s2.last(), agg);
        }
    }
}

/// The view of a string list.
pub open spec fn strings_view(s: Seq<String>) -> Seq<Seq<char>> {
    s.map_values(|x: String| x@)
}

pub proof fn lemma_strings_view_push(s: Seq<String>, x: String)
    ensures
        strings_view(s.push(x)) == strings_view(s).push(x@),
{
    assert(strings_view(s.push(x)) =~= strings_view(s).push(x@));
}

/// The distinct aggregate ids of `events`, in order of first appearance.
pub fn collect_group_ids(events: &Vec<Event>) -> (r: Vec<String>)
    ensures
        strings_view(r@) == group_ids(events_view(events@)),
{
    let ghost sv = events_view(events@);
    let mut ids: Vec<String> = Vec::new();
    let mut i: usize = 0;
    while i < events.len()
        invariant
            i <= events.len(),
            sv == events_view(events@),
            strings_view(ids@) == group_ids(sv.take(i as int)),
        decreases events.len() - i,
    {
        let ghost ag = sv[i as int].aggregate_id;
        let mut found = false;
        let mut k: usize = 0;
        while k < ids.len()
            invariant
                k <= ids.len(),
                i < events.len(),
                sv == events_view(events@),
                ag == sv[i as int].aggregate_id,
                found == (exists|m: int|
                    0 <= m < k && (#[trigger] strings_view(ids@)[m]) == ag),
            decreases ids.len() - k,
        {
            if crate::payload::str_eq(ids[k].as_str(), events[i].aggregate_id.as_str()) {
                found = true;
                proof {
                    assert(strings_view(ids@)[k as int] == ag);
                }
            }
            k = k + 1;
        }
        proof {
            assert(found == strings_view(ids@).contains(ag));
        }
        if !found {
            let ghost prev = ids@;
            ids.push(events[i].aggregate_id.clone());
            proof {
                lemma_strings_view_push(prev, ids@.last());
            }
        }
        proof {
            assert(sv.take(i + 1).drop_last() =~= sv.take(i as int));
            assert(sv.take(i + 1).last() == sv[i as int]);
        }
        i = i + 1;
    }
    proof {
        assert(sv.take(sv.len() as int) =~= sv);
    }
    ids
}

/// The events of `events` belonging to the given aggregate, in log order.
pub fn filter_by_aggregate(events: &Vec<Event>, aggregate_id: &str) -> (r: Vec<Event>)
    ensures
        events_view(r@) == for_aggregate(events_view(events@), aggregate_id@),
{
    let ghost sv = events_view(events@);
    let mut out: Vec<Event> = Vec::new();
    let mut i: usize = 0;
    while i < events.len()
        invariant
            i <= events.len(),
            sv == events_view(events@),
            events_view(out@) == for_aggregate(sv.take(i as int), aggregate_id@),
        decreases events.len() - i,
    {
        let ghost prev = out@;
        if crate::payload::str_eq(events[i].aggregate_id.as_str(), aggregate_id) {
            out.push(events[i].clone());
            proof {
                lemma_events_view_push(prev, out@.last());
            }
        }
        proof {
            assert(sv.take(i + 1).drop_last() =~= sv.take(i as int));
            assert(sv.take(i + 1).last() == sv[i as int]);
        }
        i = i + 1;
    }
    proof {
        assert(sv.take(sv.len() as int) =~= sv);
    }
    out
}

/// The events of `events` carrying the given kind tag, in log order.
pub fn filter_by_kind(events: &Vec<Event>, kind: &str) -> (r: Vec<Event>)
    ensures
        events_view(r@) == for_kind(events_view(events@), kind@),
{
    let ghost sv = events_view(events@);
    let mut out: Vec<Event> = Vec::new();
    let mut i: usize = 0;
    while i < events.len()
        invariant
            i <= events.len(),
            sv == events_view(events@),
            events_view(out@) == for_kind(sv.take(i as int), kind@),
        decreases events.len() - i,
    {
        let ghost prev = out@;
        if crate::payload::str_eq(events[i].kind.as_str(), kind) {
            out.push(events[i].clone());
            proof {
                lemma_events_view_push(prev, out@.last());
            }
        }
        proof {
            assert(sv.take(i + 1).drop_last() =~= sv.take(i as int));
            assert(sv.take(i + 1).last() == sv[i as int]);
        }
        i = i + 1;
    }
    proof {
        assert(sv.take(sv.len() as int) =~= sv);
    }
    out
}

/// Orders events ascending by timestamp with a stable insertion sort:
/// events with equal timestamps keep their input order.
pub fn sort_chronological(events: Vec<Event>) -> (r: Vec<Event>)
    ensures
        events_view(r@) == chronological(events_view(events@)),
{
    let ghost sv = events_view(events@);
    let mut out: Vec<Event> = Vec::new();
    let mut i: usize = 0;
    while i < events.len()
        invariant
            i <= events.len(),
            sv == events_view(events@),
            events_view(out@) == chronological(sv.take(i as int)),
        decreases events.len() - i,
    {
        let e = events[i].clone();
        let ghost ev = e@;
        let ghost cur = events_view(out@);
        let mut j: usize = out.len();
        while j > 0 && out[j - 1].timestamp > e.timestamp
            invariant
                j <= out.len(),
                events_view(out@) == cur,
                e@ == ev,
                forall|k: int| j <= k < cur.len() ==> cur[k].timestamp > ev.timestamp,
            decreases j,
        {
            j = j - 1;
        }
        proof {
            lemma_insert_chrono_at(cur, ev, j as int);
        }
        out.insert(j, e);
        proof {
            assert(events_view(out@) =~= cur.take(j as int) + seq![ev] + cur.skip(j as int));
            assert(sv.take(i + 1).drop_last() =~= sv.take(i as int));
            assert(sv.take(i + 1).last() == sv[i as int]);
            assert(chronological(sv.take(i + 1)) == insert_chrono(
                chronological(sv.take(i as int)),
                sv[i as int],
            ));
        }
        i = i + 1;
    }
    proof {
        assert(sv.take(sv.len() as int) =~= sv);
    }
    out
}

} // verus!
