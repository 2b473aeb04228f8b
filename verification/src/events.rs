use vstd::prelude::*;

use crate::errors::RepoError;
use crate::payload::{Payload, PayloadView};
use crate::replay::{
    Restore, chronological, collect_group_ids, filter_by_aggregate, filter_by_kind, for_aggregate,
    for_kind, group_ids, lemma_clean_push, lemma_clean_take, lemma_replay_push, replay,
    replay_step, replays_clean, sort_chronological, strings_view,
};
use crate::trusted::{fresh_id, now_millis};

verus! {

/// The mathematical value of an event record.
pub struct EventView {
    pub id: Seq<char>,
    pub kind: Seq<char>,
    pub aggregate_id: Seq<char>,
    pub payload: PayloadView,
    pub timestamp: u64,
}

/// One immutable unit of history: a change to one aggregate.
///
/// `kind` tags the entity type the event belongs to, `aggregate_id`
/// names the specific entity instance, `payload` carries the encoded
/// change, and `timestamp` is the creation time in milliseconds (not
/// guaranteed strictly increasing; ties are broken by log order).
#[derive(Debug)]
pub struct Event {
    pub id: String,
    pub kind: String,
    pub aggregate_id: String,
    pub payload: Payload,
    pub timestamp: u64,
}

impl View for Event {
    type V = EventView;

    open spec fn view(&self) -> EventView {
        EventView {
            id: self.id@,
            kind: self.kind@,
            aggregate_id: self.aggregate_id@,
            payload: self.payload@,
            timestamp: self.timestamp,
        }
    }
}

impl Clone for Event {
    fn clone(&self) -> (res: Self)
        ensures
            res@ == self@,
    {
        Event {
            id: self.id.clone(),
            kind: self.kind.clone(),
            aggregate_id: self.aggregate_id.clone(),
            payload: self.payload.clone(),
            timestamp: self.timestamp,
        }
    }
}

/// The view of an event list.
pub open spec fn events_view(s: Seq<Event>) -> Seq<EventView> {
    s.map_values(|e: Event| e@)
}

pub proof fn lemma_events_view_push(s: Seq<Event>, e: Event)
    ensures
        events_view(s.push(e)) == events_view(s).push(e@),
{
    assert(events_view(s.push(e)) =~= events_view(s).push(e@));
}

/// The input of `Event::publish`: either a ready-made event, or the
/// parts from which a fresh one (new id, current time) is built.
pub enum PublishProps {
    Event(Event),
    Props { kind: String, aggregate_id: String, payload: Payload },
}

impl Event {
    /// Builds a fresh event with a newly drawn identifier and the
    /// current time; the given kind, aggregate id and payload are taken
    /// as they stand.
    pub fn new(kind: &str, aggregate_id: &str, payload: Payload) -> (r: Event)
        ensures
            r@.kind == kind@,
            r@.aggregate_id == aggregate_id@,
            r@.payload == payload@,
            r@.id.len() == 36,
    {
        Event {
            id: fresh_id(),
            kind: kind.to_owned(),
            aggregate_id: aggregate_id.to_owned(),
            payload,
            timestamp: now_millis(),
        }
    }

    /// Appends one event to the log: the given one, or a fresh one built
    /// from the given parts. The log grows by exactly that event.
    pub fn publish(repo: &mut EventRepository, props: PublishProps) -> (r: Result<(), RepoError>)
        ensures
            r is Ok,
            final(repo)@.len() == old(repo)@.len() + 1,
            final(repo)@ == old(repo)@.push(final(repo)@.last()),
            match props {
                PublishProps::Event(e) => final(repo)@.last() == e@,
                PublishProps::Props { kind, aggregate_id, payload } => {
                    &&& final(repo)@.last().kind == kind@
                    &&& final(repo)@.last().aggregate_id == aggregate_id@
                    &&& final(repo)@.last().payload == payload@
                },
            },
    {
        let event = match props {
            PublishProps::Event(event) => event,
            PublishProps::Props { kind, aggregate_id, payload } => {
                Event::new(kind.as_str(), aggregate_id.as_str(), payload)
            },
        };
        repo.create(event)
    }
}

/// The durable, ordered holder of all events across all entity kinds:
/// an append-only log. Its view is the sequence of event values in
/// append order.
pub struct EventRepository {
    events: Vec<Event>,
}

impl View for EventRepository {
    type V = Seq<EventView>;

    closed spec fn view(&self) -> Seq<EventView> {
        events_view(self.events@)
    }
}

impl EventRepository {
    /// An empty log.
    pub fn new() -> (r: Self)
        ensures
            r@ == Seq::<EventView>::empty(),
    {
        let r = EventRepository { events: Vec::new() };
        proof {
            assert(r@ =~= Seq::<EventView>::empty());
        }
        r
    }

    /// A log holding exactly the given events, in their order; the entry
    /// point for a caller that loaded persisted history.
    pub fn from_events(events: Vec<Event>) -> (r: Self)
        ensures
            r@ == events_view(events@),
    {
        EventRepository { events }
    }

    /// Appends one event at the end of the log. The log is append-only:
    /// nothing already stored moves or changes.
    pub fn create(&mut self, event: Event) -> (r: Result<(), RepoError>)
        ensures
            r is Ok,
            final(self)@ == old(self)@.push(event@),
    {
        let ghost prev = self.events@;
        let ghost ev = event@;
        self.events.push(event);
        proof {
            lemma_events_view_push(prev, self.events@.last());
            assert(self.events@.last()@ == ev);
        }
        Ok(())
    }

    /// Returns every stored event, in append order. Reading never fails
    /// and never changes the log.
    pub fn all(&self) -> (r: Result<Vec<Event>, RepoError>)
        ensures
            r matches Ok(es) && events_view(es@) == self@,
    {
        let mut out: Vec<Event> = Vec::new();
        let mut i: usize = 0;
        while i < self.events.len()
            invariant
                i <= self.events.len(),
                events_view(out@) == events_view(self.events@).take(i as int),
            decreases self.events.len() - i,
        {
            let ghost prev = out@;
            out.push(self.events[i].clone());
            proof {
                lemma_events_view_push(prev, out@.last());
                assert(events_view(self.events@).take(i + 1) =~= events_view(
                    self.events@,
                ).take(i as int).push(self.events@[i as int]@));
            }
            i = i + 1;
        }
        proof {
            assert(events_view(self.events@).take(self.events@.len() as int) =~= events_view(
                self.events@,
            ));
        }
        Ok(out)
    }

    /// Rebuilds one entity: selects the aggregate's events (of any
    /// kind), orders them chronologically (ties keep log order), and
    /// folds them from the default value. Fails with `PayloadMalformed`
    /// exactly when some selected event's payload is not mergeable at
    /// the point replay reaches it.
    pub fn restore<T: Restore>(&self, aggregate_id: &str) -> (r: Result<T, RepoError>)
        ensures
            ({
                let ordered = chronological(for_aggregate(self@, aggregate_id@));
                match r {
                    Result::Ok(t) => replays_clean::<T>(T::init_spec(), ordered) && t@
                        == replay::<T>(T::init_spec(), ordered),
                    Result::Err(e) => e == RepoError::PayloadMalformed && !replays_clean::<T>(
                        T::init_spec(),
                        ordered,
                    ),
                }
            }),
    {
        let selected = filter_by_aggregate(&self.events, aggregate_id);
        let ordered = sort_chronological(selected);
        let ghost ov = chronological(for_aggregate(self@, aggregate_id@));
        proof {
            assert(events_view(ordered@) == ov);
        }
        let mut t = T::fresh();
        let mut i: usize = 0;
        while i < ordered.len()
            invariant
                i <= ordered.len(),
                ov == chronological(for_aggregate(self@, aggregate_id@)),
                events_view(ordered@) == ov,
                replays_clean::<T>(T::init_spec(), ov.take(i as int)),
                t@ == replay::<T>(T::init_spec(), ov.take(i as int)),
            decreases ordered.len() - i,
        {
            let ghost pre = t@;
            let res = t.restore(&ordered[i]);
            proof {
                assert(ordered@[i as int]@ == ov[i as int]);
                assert(ov.take(i + 1) =~= ov.take(i as int).push(ov[i as int]));
            }
            match res {
                Result::Ok(_) => {
                    proof {
                        lemma_clean_push::<T>(T::init_spec(), ov.take(i as int), ov[i as int]);
                        lemma_replay_push::<T>(T::init_spec(), ov.take(i as int), ov[i as int]);
                    }
                },
                Result::Err(err) => {
                    proof {
                        if replays_clean::<T>(T::init_spec(), ov) {
                            lemma_clean_take::<T>(T::init_spec(), ov, i + 1);
                            lemma_clean_push::<T>(T::init_spec(), ov.take(i as int), ov[i as int]);
                            assert(false);
                        }
                    }
                    return Result::Err(err);
                },
            }
            i = i + 1;
        }
        proof {
            assert(ov.take(ov.len() as int) =~= ov);
        }
        Result::Ok(t)
    }

    /// Rebuilds every entity of one kind: the kind's events are grouped
    /// by aggregate id (groups in order of first appearance), each group
    /// is ordered chronologically and folded independently from the
    /// default value, skipping events whose payloads cannot be merged.
    /// Never fails: a malformed payload in one group leaves every other
    /// group's result untouched.
    pub fn restore_all<T: Restore>(&self, kind: &str) -> (r: Result<Vec<T>, RepoError>)
        ensures
            r matches Ok(out) && ({
                let f = for_kind(self@, kind@);
                let ids = group_ids(f);
                &&& out@.len() == ids.len()
                &&& forall|g: int|
                    0 <= g < ids.len() ==> (#[trigger] out@[g])@ == replay::<T>(
                        T::init_spec(),
                        chronological(for_aggregate(f, ids[g])),
                    )
            }),
    {
        let filtered = filter_by_kind(&self.events, kind);
        let ghost f = for_kind(self@, kind@);
        let ids = collect_group_ids(&filtered);
        let ghost idsv = group_ids(f);
        proof {
            assert(events_view(filtered@) == f);
            assert(strings_view(ids@) == idsv);
        }
        let mut out: Vec<T> = Vec::new();
        let mut g: usize = 0;
        while g < ids.len()
            invariant
                g <= ids.len(),
                f == for_kind(self@, kind@),
                idsv == group_ids(f),
                events_view(filtered@) == f,
                strings_view(ids@) == idsv,
                out@.len() == g,
                forall|k: int|
                    0 <= k < g ==> (#[trigger] out@[k])@ == replay::<T>(
                        T::init_spec(),
                        chronological(for_aggregate(f, idsv[k])),
                    ),
            decreases ids.len() - g,
        {
            let selected = filter_by_aggregate(&filtered, ids[g].as_str());
            let ordered = sort_chronological(selected);
            let ghost ov = chronological(for_aggregate(f, idsv[g as int]));
            proof {
                assert(ids@[g as int]@ == idsv[g as int]);
                assert(events_view(ordered@) == ov);
            }
            let mut t = T::fresh();
            let mut i: usize = 0;
            while i < ordered.len()
                invariant
                    i <= ordered.len(),
                    events_view(ordered@) == ov,
                    t@ == replay::<T>(T::init_spec(), ov.take(i as int)),
                decreases ordered.len() - i,
            {
                let ghost pre = t@;
                let res = t.restore(&ordered[i]);
                proof {
                    assert(ordered@[i as int]@ == ov[i as int]);
                    assert(ov.take(i + 1) =~= ov.take(i as int).push(ov[i as int]));
                    lemma_replay_push::<T>(T::init_spec(), ov.take(i as int), ov[i as int]);
                    assert(t@ == replay_step::<T>(pre, ov[i as int]));
                }
                i = i + 1;
            }
            proof {
                assert(ov.take(ov.len() as int) =~= ov);
            }
            out.push(t);
            g = g + 1;
        }
        Result::Ok(out)
    }
}

} // verus!
