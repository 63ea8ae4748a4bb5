use vstd::prelude::*;

verus! {

/// The mathematical model of a JSON value.
pub enum Json {
    Null,
    Bool(bool),
    /// The number literal exactly as written in the source text.
    Number(Seq<char>),
    Str(Seq<char>),
    Array(Seq<Json>),
    /// Entries in insertion order.
    Object(Seq<(Seq<char>, Json)>),
}

/// An in-memory JSON value tree.
#[derive(Debug, PartialEq, Eq)]
pub enum Value {
    Null,
    Bool(bool),
    /// The number literal, kept verbatim so that no precision is lost or invented.
    Number(String),
    Str(String),
    Array(Vec<Value>),
    /// Entries in insertion order, each key at most once.
    Object(Vec<(String, Value)>),
}

pub open spec fn view_values(s: Seq<Value>) -> Seq<Json>
    decreases s,
{
    if s.len() == 0 {
        Seq::empty()
    } else {
        view_values(s.drop_last()).push(s.last().view())
    }
}

pub open spec fn view_entries(s: Seq<(String, Value)>) -> Seq<(Seq<char>, Json)>
    decreases s,
{
    if s.len() == 0 {
        Seq::empty()
    } else {
        view_entries(s.drop_last()).push((s.last().0@, s.last().1.view()))
    }
}

impl View for Value {
    type V = Json;

    open spec fn view(&self) -> Json
        decreases self,
    {
        match self {
            Value::Null => Json::Null,
            Value::Bool(b) => Json::Bool(*b),
            Value::Number(n) => Json::Number(n@),
            Value::Str(s) => Json::Str(s@),
            Value::Array(a) => Json::Array(view_values(a@)),
            Value::Object(o) => Json::Object(view_entries(o@)),
        }
    }
}

/// Relies on `String::push`: the character is appended at the end.
#[verifier::external_body]
pub(crate) fn push_char(s: &mut String, c: char)
    ensures
        final(s)@ == old(s)@.push(c),
{
    s.push(c);
}

pub proof fn lemma_view_values_len(s: Seq<Value>)
    ensures
        view_values(s).len() == s.len(),
    decreases s.len(),
{
    if s.len() > 0 {
        lemma_view_values_len(s.drop_last());
        assert(view_values(s) == view_values(s.drop_last()).push(s.last().view()));
    } else {
        assert(view_values(s) == Seq::<Json>::empty());
    }
}

pub proof fn lemma_view_entries_len(s: Seq<(String, Value)>)
    ensures
        view_entries(s).len() == s.len(),
    decreases s.len(),
{
    if s.len() > 0 {
        lemma_view_entries_len(s.drop_last());
        assert(view_entries(s) == view_entries(s.drop_last()).push((s.last().0@, s.last().1.view())));
    } else {
        assert(view_entries(s) == Seq::<(Seq<char>, Json)>::empty());
    }
}

pub proof fn lemma_view_entries_index(s: Seq<(String, Value)>, j: int)
    requires
        0 <= j < s.len(),
    ensures
        view_entries(s)[j] == (s[j].0@, s[j].1@),
    decreases s.len(),
{
    lemma_view_entries_len(s.drop_last());
    assert(view_entries(s) == view_entries(s.drop_last()).push((s.last().0@, s.last().1.view())));
    if j < s.len() - 1 {
        lemma_view_entries_index(s.drop_last(), j);
    }
}

} // verus!
