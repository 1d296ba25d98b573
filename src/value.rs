//! The values that the format carries, and their mathematical model.
use vstd::prelude::*;

verus! {

broadcast use vstd::std_specs::vec::group_vec_axioms;

/// A decoded or to-be-encoded value. A double is held as the bits of its
/// IEEE 754 binary64 representation.
#[derive(Debug, PartialEq)]
pub enum Value {
    Null,
    Bool(bool),
    Int(i64),
    UInt(u64),
    Double(u64),
    String(String),
    Array(Vec<Value>),
    Object(Vec<(String, Value)>),
}

/// The mathematical model of a [`Value`]: strings are character sequences and
/// containers are sequences.
pub enum ValueView {
    Null,
    Bool(bool),
    Int(i64),
    UInt(u64),
    Double(u64),
    Str(Seq<char>),
    Array(Seq<ValueView>),
    Object(Seq<(Seq<char>, ValueView)>),
}

impl Value {
    pub open spec fn view(&self) -> ValueView
        decreases self,
    {
        match self {
            Value::Null => ValueView::Null,
            Value::Bool(b) => ValueView::Bool(*b),
            Value::Int(i) => ValueView::Int(*i),
            Value::UInt(u) => ValueView::UInt(*u),
            Value::Double(d) => ValueView::Double(*d),
            Value::String(s) => ValueView::Str(s@),
            Value::Array(items) => ValueView::Array(
                Seq::new(
                    items.len() as nat,
                    |i: int|
                        if 0 <= i < items.len() {
                            items[i].view()
                        } else {
                            ValueView::Null
                        },
                ),
            ),
            Value::Object(entries) => ValueView::Object(
                Seq::new(
                    entries.len() as nat,
                    |i: int|
                        if 0 <= i < entries.len() {
                            (entries[i].0@, entries[i].1.view())
                        } else {
                            (Seq::empty(), ValueView::Null)
                        },
                ),
            ),
        }
    }
}

/// The models of a list of values.
pub open spec fn views(vs: Seq<Value>) -> Seq<ValueView> {
    vs.map_values(|v: Value| v@)
}

/// The models of a list of object entries.
pub open spec fn entry_views(es: Seq<(String, Value)>) -> Seq<(Seq<char>, ValueView)> {
    es.map_values(|e: (String, Value)| (e.0@, e.1@))
}

/// How an array's or object's model is made from its contents.
pub proof fn lemma_value_views(v: Value)
    ensures
        v matches Value::Array(items) ==> v@ == ValueView::Array(views(items@)),
        v matches Value::Object(es) ==> v@ == ValueView::Object(entry_views(es@)),
{
    match v {
        Value::Array(items) => lemma_array_view(items),
        Value::Object(es) => lemma_object_view(es),
        _ => {},
    }
}

pub proof fn lemma_array_view(items: Vec<Value>)
    ensures
        Value::Array(items)@ == ValueView::Array(views(items@)),
{
    if let ValueView::Array(x) = Value::Array(items)@ {
        assert(x =~= views(items@));
    }
}

pub proof fn lemma_object_view(es: Vec<(String, Value)>)
    ensures
        Value::Object(es)@ == ValueView::Object(entry_views(es@)),
{
    if let ValueView::Object(x) = Value::Object(es)@ {
        assert(x =~= entry_views(es@));
    }
}

} // verus!
