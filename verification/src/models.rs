use vstd::prelude::*;

use crate::errors::RepoError;
use crate::events::{Event, EventView};
use crate::payload::{
    Field, FieldValue, FieldValueView, FieldView, Payload, PayloadView, fields_view,
    lemma_fields_view_push, str_eq,
};
use crate::replay::{
    Restore, chronological, for_aggregate, insert_chrono, replay, replay_step, replays_clean,
};
use crate::trusted::{fresh_id, now_millis};
use crate::tweet_controller::Diff;

verus! {

/// The mathematical value of a tweet.
pub struct TweetView {
    pub id: Seq<char>,
    pub content: Seq<char>,
    pub user_id: Seq<char>,
    pub timestamp: u64,
}

/// The example entity kind: a tweet. Its current value is always the
/// fold of its events; each field is independently patchable by a diff
/// payload.
#[derive(Debug)]
pub struct Tweet {
    pub id: String,
    pub content: String,
    pub user_id: String,
    pub timestamp: u64,
}

impl View for Tweet {
    type V = TweetView;

    open spec fn view(&self) -> TweetView {
        TweetView {
            id: self.id@,
            content: self.content@,
            user_id: self.user_id@,
            timestamp: self.timestamp,
        }
    }
}

impl Clone for Tweet {
    fn clone(&self) -> (res: Self)
        ensures
            res@ == self@,
    {
        Tweet {
            id: self.id.clone(),
            content: self.content.clone(),
            user_id: self.user_id.clone(),
            timestamp: self.timestamp,
        }
    }
}

impl Tweet {
    /// Builds a brand-new tweet: a freshly drawn identifier, the current
    /// time, and the given content and author.
    pub fn new(content: String, user_id: String) -> (r: Tweet)
        ensures
            r@.content == content@,
            r@.user_id == user_id@,
            r@.id.len() == 36,
    {
        Tweet { id: fresh_id(), content, user_id, timestamp: now_millis() }
    }

    /// Encodes the whole tweet as a creation payload: every field is
    /// present.
    pub fn encode_create(&self) -> (r: Payload)
        ensures
            r@ == PayloadView::Fields(create_fields(self@)),
    {
        let mut fs: Vec<Field> = Vec::new();
        fs.push(Field { name: "id".to_owned(), value: FieldValue::Text(self.id.clone()) });
        fs.push(
            Field { name: "content".to_owned(), value: FieldValue::Text(self.content.clone()) },
        );
        fs.push(
            Field { name: "user_id".to_owned(), value: FieldValue::Text(self.user_id.clone()) },
        );
        fs.push(
            Field { name: "timestamp".to_owned(), value: FieldValue::Number(self.timestamp) },
        );
        proof {
            assert(fields_view(fs@) =~= create_fields(self@));
        }
        Payload::Fields(fs)
    }
}

/// The full-snapshot payload of a created tweet.
pub open spec fn create_fields(t: TweetView) -> Seq<FieldView> {
    seq![
        FieldView { name: "id"@, value: FieldValueView::Text(t.id) },
        FieldView { name: "content"@, value: FieldValueView::Text(t.content) },
        FieldView { name: "user_id"@, value: FieldValueView::Text(t.user_id) },
        FieldView { name: "timestamp"@, value: FieldValueView::Number(t.timestamp) },
    ]
}

/// One payload entry folded into a tweet: a recognized field name with a
/// value of the right shape overwrites that field; an unknown name or a
/// value of the wrong shape is ignored.
pub open spec fn apply_field(t: TweetView, f: FieldView) -> TweetView {
    if f.name == "id"@ {
        match f.value {
            FieldValueView::Text(s) => TweetView { id: s, ..t },
            _ => t,
        }
    } else if f.name == "content"@ {
        match f.value {
            FieldValueView::Text(s) => TweetView { content: s, ..t },
            _ => t,
        }
    } else if f.name == "user_id"@ {
        match f.value {
            FieldValueView::Text(s) => TweetView { user_id: s, ..t },
            _ => t,
        }
    } else if f.name == "timestamp"@ {
        match f.value {
            FieldValueView::Number(n) => TweetView { timestamp: n, ..t },
            _ => t,
        }
    } else {
        t
    }
}

/// A payload's entries folded into a tweet in order: a later entry for
/// the same field wins.
pub open spec fn apply_fields(t: TweetView, fs: Seq<FieldView>) -> TweetView
    decreases fs.len(),
{
    if fs.len() == 0 {
        t
    } else {
        apply_fields(apply_field(t, fs[0]), fs.drop_first())
    }
}

pub proof fn lemma_apply_fields_push(t: TweetView, fs: Seq<FieldView>, f: FieldView)
    ensures
        apply_fields(t, fs.push(f)) == apply_field(apply_fields(t, fs), f),
    decreases fs.len(),
{
    if fs.len() == 0 {
        assert(fs.push(f)[0] == f);
        assert(fs.push(f).drop_first() =~= fs);
        assert(apply_fields(t, fs.push(f)) == apply_fields(apply_field(t, f), fs));
        assert(apply_fields(apply_field(t, f), fs) == apply_field(t, f));
        assert(apply_fields(t, fs) == t);
    } else {
        assert(fs.push(f)[0] == fs[0]);
        assert(fs.push(f).drop_first() =~= fs.drop_first().push(f));
        lemma_apply_fields_push(apply_field(t, fs[0]), fs.drop_first(), f);
        assert(apply_fields(t, fs.push(f)) == apply_fields(
            apply_field(t, fs[0]),
            fs.drop_first().push(f),
        ));
        assert(apply_fields(t, fs) == apply_fields(apply_field(t, fs[0]), fs.drop_first()));
    }
}

pub proof fn lemma_apply_fields_append(t: TweetView, s1: Seq<FieldView>, s2: Seq<FieldView>)
    ensures
        apply_fields(t, s1 + s2) == apply_fields(apply_fields(t, s1), s2),
    decreases s1.len(),
{
    if s1.len() == 0 {
        assert(s1 + s2 =~= s2);
    } else {
        assert((s1 + s2)[0] == s1[0]);
        assert((s1 + s2).drop_first() =~= s1.drop_first() + s2);
        lemma_apply_fields_append(apply_field(t, s1[0]), s1.drop_first(), s2);
    }
}

impl Restore for Tweet {
    open spec fn init_spec() -> TweetView {
        TweetView {
            id: Seq::empty(),
            content: Seq::empty(),
            user_id: Seq::empty(),
            timestamp: 0,
        }
    }

    open spec fn merges(v: TweetView, e: EventView) -> bool {
        e.payload is Fields
    }

    open spec fn merged(v: TweetView, e: EventView) -> TweetView {
        match e.payload {
            PayloadView::Fields(fs) => apply_fields(v, fs),
            PayloadView::Malformed => v,
        }
    }

    fn fresh() -> (r: Self) {
        Tweet {
            id: String::new(),
            content: String::new(),
            user_id: String::new(),
            timestamp: 0,
        }
    }

    fn restore(&mut self, event: &Event) -> (r: Result<(), RepoError>) {
        match &event.payload {
            Payload::Malformed => Result::Err(RepoError::PayloadMalformed),
            Payload::Fields(fs) => {
                let ghost start = self@;
                let ghost fv = fields_view(fs@);
                let mut i: usize = 0;
                while i < fs.len()
                    invariant
                        i <= fs.len(),
                        fv == fields_view(fs@),
                        self@ == apply_fields(start, fv.take(i as int)),
                    decreases fs.len() - i,
                {
                    proof {
                        assert(fs@[i as int]@ == fv[i as int]);
                    }
                    let f = &fs[i];
                    if str_eq(f.name.as_str(), "id") {
                        if let FieldValue::Text(s) = &f.value {
                            self.id = s.clone();
                        }
                    } else if str_eq(f.name.as_str(), "content") {
                        if let FieldValue::Text(s) = &f.value {
                            self.content = s.clone();
                        }
                    } else if str_eq(f.name.as_str(), "user_id") {
                        if let FieldValue::Text(s) = &f.value {
                            self.user_id = s.clone();
                        }
                    } else if str_eq(f.name.as_str(), "timestamp") {
                        if let FieldValue::Number(n) = &f.value {
                            self.timestamp = *n;
                        }
                    }
                    proof {
                        assert(fv.take(i + 1) =~= fv.take(i as int).push(fv[i as int]));
                        lemma_apply_fields_push(start, fv.take(i as int), fv[i as int]);
                    }
                    i = i + 1;
                }
                proof {
                    assert(fv.take(fv.len() as int) =~= fv);
                }
                Result::Ok(())
            },
        }
    }
}

impl Default for Tweet {
    /// The empty tweet value replay starts from.
    fn default() -> (r: Tweet)
        ensures
            r@ == <Tweet as Restore>::init_spec(),
    {
        Tweet::fresh()
    }
}

/// The entries of a diff payload from `a` to `b`: exactly the fields on
/// which the two differ, each carrying `b`'s value.
pub open spec fn diff_fields(a: TweetView, b: TweetView) -> Seq<FieldView> {
    (if a.id == b.id {
        Seq::<FieldView>::empty()
    } else {
        seq![FieldView { name: "id"@, value: FieldValueView::Text(b.id) }]
    }) + (if a.content == b.content {
        Seq::<FieldView>::empty()
    } else {
        seq![FieldView { name: "content"@, value: FieldValueView::Text(b.content) }]
    }) + (if a.user_id == b.user_id {
        Seq::<FieldView>::empty()
    } else {
        seq![FieldView { name: "user_id"@, value: FieldValueView::Text(b.user_id) }]
    }) + (if a.timestamp == b.timestamp {
        Seq::<FieldView>::empty()
    } else {
        seq![FieldView { name: "timestamp"@, value: FieldValueView::Number(b.timestamp) }]
    })
}

impl Diff for Tweet {
    open spec fn diff_spec(a: TweetView, b: TweetView) -> PayloadView {
        PayloadView::Fields(diff_fields(a, b))
    }

    fn diff(&self, other: &Self) -> (r: Result<Payload, RepoError>) {
        let ghost a = self@;
        let ghost b = other@;
        let mut fs: Vec<Field> = Vec::new();
        if !str_eq(self.id.as_str(), other.id.as_str()) {
            let ghost prev = fs@;
            fs.push(Field { name: "id".to_owned(), value: FieldValue::Text(other.id.clone()) });
            proof {
                lemma_fields_view_push(prev, fs@.last());
            }
        }
        if !str_eq(self.content.as_str(), other.content.as_str()) {
            let ghost prev = fs@;
            fs.push(
                Field { name: "content".to_owned(), value: FieldValue::Text(other.content.clone()) },
            );
            proof {
                lemma_fields_view_push(prev, fs@.last());
            }
        }
        if !str_eq(self.user_id.as_str(), other.user_id.as_str()) {
            let ghost prev = fs@;
            fs.push(
                Field { name: "user_id".to_owned(), value: FieldValue::Text(other.user_id.clone()) },
            );
            proof {
                lemma_fields_view_push(prev, fs@.last());
            }
        }
        if self.timestamp != other.timestamp {
            let ghost prev = fs@;
            fs.push(
                Field { name: "timestamp".to_owned(), value: FieldValue::Number(other.timestamp) },
            );
            proof {
                lemma_fields_view_push(prev, fs@.last());
            }
        }
        proof {
            assert(fields_view(fs@) =~= diff_fields(a, b));
        }
        Result::Ok(Payload::Fields(fs))
    }
}

/// Law: a creation payload overwrites every field, so merging it yields
/// the created value whatever value replay had reached before.
proof fn lemma_field_names_distinct()
    ensures
        "content"@ != "id"@,
        "user_id"@ != "id"@,
        "user_id"@ != "content"@,
        "timestamp"@ != "id"@,
        "timestamp"@ != "content"@,
        "timestamp"@ != "user_id"@,
{
    reveal_strlit("id");
    reveal_strlit("content");
    reveal_strlit("user_id");
    reveal_strlit("timestamp");
    assert("id"@.len() == 2);
    assert("content"@.len() == 7);
    assert("user_id"@.len() == 7);
    assert("timestamp"@.len() == 9);
    assert("content"@[0] == 'c');
    assert("user_id"@[0] == 'u');
}

pub proof fn lemma_create_merge(v: TweetView, t: TweetView)
    ensures
        apply_fields(v, create_fields(t)) == t,
{
    lemma_field_names_distinct();
    let fs = create_fields(t);
    let s1 = fs.drop_first();
    let s2 = s1.drop_first();
    let s3 = s2.drop_first();
    let s4 = s3.drop_first();
    assert(s1[0] == fs[1] && s1.len() == 3);
    assert(s2[0] == fs[2] && s2.len() == 2);
    assert(s3[0] == fs[3] && s3.len() == 1);
    assert(s4.len() == 0);
    let v1 = apply_field(v, fs[0]);
    let v2 = apply_field(v1, fs[1]);
    let v3 = apply_field(v2, fs[2]);
    let v4 = apply_field(v3, fs[3]);
    assert(v1 == (TweetView { id: t.id, ..v }));
    assert(v2 == (TweetView { id: t.id, content: t.content, ..v }));
    assert(v3 == (TweetView { id: t.id, content: t.content, user_id: t.user_id, ..v }));
    assert(v4 == t);
    assert(apply_fields(v, fs) == apply_fields(v1, s1));
    assert(apply_fields(v1, s1) == apply_fields(v2, s2));
    assert(apply_fields(v2, s2) == apply_fields(v3, s3));
    assert(apply_fields(v3, s3) == apply_fields(v4, s4));
    assert(apply_fields(v4, s4) == v4);
}

/// Law: applying the diff from `a` to `b` onto `a` restores exactly
/// `b` — the present fields are overwritten with `b`'s values and the
/// absent fields were equal already.
pub proof fn lemma_apply_fields_singleton(t: TweetView, f: FieldView)
    ensures
        apply_fields(t, seq![f]) == apply_field(t, f),
{
    assert(seq![f].len() == 1);
    assert(seq![f][0] == f);
    assert(seq![f].drop_first() =~= Seq::<FieldView>::empty());
    assert(apply_fields(t, seq![f]) == apply_fields(apply_field(t, f), seq![f].drop_first()));
}

pub proof fn lemma_diff_merge(a: TweetView, b: TweetView)
    ensures
        apply_fields(a, diff_fields(a, b)) == b,
{
    lemma_field_names_distinct();
    let seg1: Seq<FieldView> = if a.id == b.id {
        Seq::<FieldView>::empty()
    } else {
        seq![FieldView { name: "id"@, value: FieldValueView::Text(b.id) }]
    };
    let seg2: Seq<FieldView> = if a.content == b.content {
        Seq::<FieldView>::empty()
    } else {
        seq![FieldView { name: "content"@, value: FieldValueView::Text(b.content) }]
    };
    let seg3: Seq<FieldView> = if a.user_id == b.user_id {
        Seq::<FieldView>::empty()
    } else {
        seq![FieldView { name: "user_id"@, value: FieldValueView::Text(b.user_id) }]
    };
    let seg4: Seq<FieldView> = if a.timestamp == b.timestamp {
        Seq::<FieldView>::empty()
    } else {
        seq![FieldView { name: "timestamp"@, value: FieldValueView::Number(b.timestamp) }]
    };
    assert(diff_fields(a, b) == seg1 + seg2 + seg3 + seg4);
    lemma_apply_fields_append(a, seg1 + seg2 + seg3, seg4);
    lemma_apply_fields_append(a, seg1 + seg2, seg3);
    lemma_apply_fields_append(a, seg1, seg2);
    let v1 = apply_fields(a, seg1);
    assert(v1 == (TweetView { id: b.id, ..a })) by {
        if a.id != b.id {
            lemma_apply_fields_singleton(
                a,
                FieldView { name: "id"@, value: FieldValueView::Text(b.id) },
            );
        }
    };
    let v2 = apply_fields(v1, seg2);
    assert(v2 == (TweetView { id: b.id, content: b.content, ..a })) by {
        if a.content != b.content {
            lemma_apply_fields_singleton(
                v1,
                FieldView { name: "content"@, value: FieldValueView::Text(b.content) },
            );
        }
    };
    let v3 = apply_fields(v2, seg3);
    assert(v3 == (TweetView { id: b.id, content: b.content, user_id: b.user_id, ..a })) by {
        if a.user_id != b.user_id {
            lemma_apply_fields_singleton(
                v2,
                FieldView { name: "user_id"@, value: FieldValueView::Text(b.user_id) },
            );
        }
    };
    let v4 = apply_fields(v3, seg4);
    assert(v4 == b) by {
        if a.timestamp != b.timestamp {
            lemma_apply_fields_singleton(
                v3,
                FieldView { name: "timestamp"@, value: FieldValueView::Number(b.timestamp) },
            );
        }
    };
    assert(apply_fields(a, (seg1 + seg2) + seg3) == v3);
}

/// Law: a freshly created entity with no further events replays to the
/// very value that was encoded — selecting its one event, ordering it,
/// and folding it from the default value yields the created entity.
pub proof fn lemma_fresh_create_replays(e: EventView, t: TweetView)
    requires
        e.payload == PayloadView::Fields(create_fields(t)),
    ensures
        for_aggregate(seq![e], e.aggregate_id) == seq![e],
        chronological(seq![e]) == seq![e],
        replays_clean::<Tweet>(<Tweet as Restore>::init_spec(), seq![e]),
        replay::<Tweet>(<Tweet as Restore>::init_spec(), seq![e]) == t,
{
    let init = <Tweet as Restore>::init_spec();
    let s = seq![e];
    assert(s.len() == 1 && s[0] == e && s.last() == e);
    assert(s.drop_last() =~= Seq::<EventView>::empty());
    assert(s.drop_first() =~= Seq::<EventView>::empty());
    assert(for_aggregate(Seq::<EventView>::empty(), e.aggregate_id)
        == Seq::<EventView>::empty());
    assert(for_aggregate(s, e.aggregate_id) == for_aggregate(
        s.drop_last(),
        e.aggregate_id,
    ).push(e));
    assert(for_aggregate(s, e.aggregate_id) =~= s);
    assert(chronological(Seq::<EventView>::empty()) == Seq::<EventView>::empty());
    assert(chronological(s) == insert_chrono(Seq::<EventView>::empty(), e));
    assert(insert_chrono(Seq::<EventView>::empty(), e) =~= s);
    assert(<Tweet as Restore>::merges(init, e));
    lemma_create_merge(init, t);
    assert(replay_step::<Tweet>(init, e) == t);
    assert(replay::<Tweet>(init, s) == replay::<Tweet>(replay_step::<Tweet>(init, e), s.drop_first()));
    assert(replay::<Tweet>(t, Seq::<EventView>::empty()) == t);
    assert(replays_clean::<Tweet>(t, Seq::<EventView>::empty()));
}

/// Law: when only the content differs, the diff payload holds exactly
/// one entry — the content — with the new value.
pub proof fn lemma_diff_single_field(a: TweetView, b: TweetView)
    requires
        a.id == b.id,
        a.user_id == b.user_id,
        a.timestamp == b.timestamp,
        a.content != b.content,
    ensures
        diff_fields(a, b) == seq![
            FieldView { name: "content"@, value: FieldValueView::Text(b.content) },
        ],
{
    assert(diff_fields(a, b) =~= seq![
        FieldView { name: "content"@, value: FieldValueView::Text(b.content) },
    ]);
}

} // verus!
