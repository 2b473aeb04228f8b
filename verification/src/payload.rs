use vstd::prelude::*;

verus! {

/// The mathematical value of one payload field: text, an unsigned
/// number, or something the replay engine does not interpret.
pub enum FieldValueView {
    Text(Seq<char>),
    Number(u64),
    Other,
}

/// One value inside an event payload. `Other` stands for structured data
/// of a shape replay does not read (it is carried, and ignored on merge).
#[derive(Debug)]
pub enum FieldValue {
    Text(String),
    Number(u64),
    Other,
}

impl View for FieldValue {
    type V = FieldValueView;

    open spec fn view(&self) -> FieldValueView {
        match self {
            FieldValue::Text(s) => FieldValueView::Text(s@),
            FieldValue::Number(n) => FieldValueView::Number(*n),
            FieldValue::Other => FieldValueView::Other,
        }
    }
}

impl Clone for FieldValue {
    fn clone(&self) -> (res: Self)
        ensures
            res@ == self@,
    {
        match self {
            FieldValue::Text(s) => FieldValue::Text(s.clone()),
            FieldValue::Number(n) => FieldValue::Number(*n),
            FieldValue::Other => FieldValue::Other,
        }
    }
}

/// The mathematical value of a named payload entry.
pub struct FieldView {
    pub name: Seq<char>,
    pub value: FieldValueView,
}

/// One named entry of a payload mapping.
#[derive(Debug)]
pub struct Field {
    pub name: String,
    pub value: FieldValue,
}

impl View for Field {
    type V = FieldView;

    open spec fn view(&self) -> FieldView {
        FieldView { name: self.name@, value: self.value@ }
    }
}

impl Clone for Field {
    fn clone(&self) -> (res: Self)
        ensures
            res@ == self@,
    {
        Field { name: self.name.clone(), value: self.value.clone() }
    }
}

/// The mathematical value of a payload: either an ordered field mapping
/// or an unparseable blob.
pub enum PayloadView {
    Fields(Seq<FieldView>),
    Malformed,
}

/// An event payload: the serialized structured data carried by an event.
///
/// A well-formed payload is an ordered list of named entries (a field
/// mapping; a later entry for the same name wins, as duplicate keys do in
/// textual encodings). `Malformed` stands for stored data that could not
/// be decoded as a mapping at all; replay surfaces it as
/// `RepoError::PayloadMalformed`.
#[derive(Debug)]
pub enum Payload {
    Fields(Vec<Field>),
    Malformed,
}

/// The view of a payload entry list.
pub open spec fn fields_view(s: Seq<Field>) -> Seq<FieldView> {
    s.map_values(|f: Field| f@)
}

/// Compares two strings by their character sequences.
pub fn str_eq(a: &str, b: &str) -> (r: bool)
    ensures
        r == (a@ == b@),
{
    let ao: String = a.to_owned();
    let bo: String = b.to_owned();
    ao == bo
}

pub proof fn lemma_fields_view_push(s: Seq<Field>, f: Field)
    ensures
        fields_view(s.push(f)) == fields_view(s).push(f@),
{
    assert(fields_view(s.push(f)) =~= fields_view(s).push(f@));
}

impl View for Payload {
    type V = PayloadView;

    open spec fn view(&self) -> PayloadView {
        match self {
            Payload::Fields(fs) => PayloadView::Fields(fields_view(fs@)),
            Payload::Malformed => PayloadView::Malformed,
        }
    }
}

impl Clone for Payload {
    fn clone(&self) -> (res: Self)
        ensures
            res@ == self@,
    {
        match self {
            Payload::Malformed => Payload::Malformed,
            Payload::Fields(fs) => {
                let mut out: Vec<Field> = Vec::new();
                let mut i: usize = 0;
                while i < fs.len()
                    invariant
                        i <= fs.len(),
                        fields_view(out@) =~= fields_view(fs@).take(i as int),
                    decreases fs.len() - i,
                {
                    let ghost prev = out@;
                    out.push(fs[i].clone());
                    proof {
                        lemma_fields_view_push(prev, out@.last());
                        assert(fields_view(fs@).take(i + 1) =~= fields_view(fs@).take(i as int).push(fs@[i as int]@));
                    }
                    i = i + 1;
                }
                assert(fields_view(fs@).take(fs@.len() as int) =~= fields_view(fs@));
                Payload::Fields(out)
            }
        }
    }
}

} // verus!
