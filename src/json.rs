use vstd::prelude::*;
use crate::value::{BValue, BencodeTypes, view_items, view_entries};
use crate::text::{lossy_utf8, utf8_lossy};

verus! {

/// serde_json's generic JSON document.
#[verifier::external_type_specification]
#[verifier::external_body]
pub struct ExJsonValue(serde_json::Value);

/// The JSON number holding an integer.
pub uninterp spec fn json_number(n: int) -> serde_json::Value;

/// The JSON string holding these characters.
pub uninterp spec fn json_string(s: Seq<char>) -> serde_json::Value;

/// The JSON array holding these elements in order.
pub uninterp spec fn json_array(items: Seq<serde_json::Value>) -> serde_json::Value;

/// The JSON object built by inserting these pairs in order (a later key
/// replaces an equal earlier one).
pub uninterp spec fn json_object(pairs: Seq<(Seq<char>, serde_json::Value)>) -> serde_json::Value;

/// Relies on `serde_json::Number::from(i64)` wrapped in `Value::Number`.
#[verifier::external_body]
fn json_from_i64(n: i64) -> (r: serde_json::Value)
    ensures
        r == json_number(n as int),
{
    serde_json::Value::Number(serde_json::Number::from(n))
}

/// Relies on `serde_json::Value::String`.
#[verifier::external_body]
fn json_from_string(s: String) -> (r: serde_json::Value)
    ensures
        r == json_string(s@),
{
    serde_json::Value::String(s)
}

/// Relies on `serde_json::Value::Array`.
#[verifier::external_body]
fn json_from_items(items: Vec<serde_json::Value>) -> (r: serde_json::Value)
    ensures
        r == json_array(items@),
{
    serde_json::Value::Array(items)
}

/// The pairs with their keys viewed as characters.
pub open spec fn pairs_view(p: Seq<(String, serde_json::Value)>) -> Seq<(Seq<char>, serde_json::Value)> {
    Seq::new(p.len(), |i: int| (p[i].0@, p[i].1))
}

/// Relies on `serde_json::Map`'s `FromIterator`, which inserts the pairs in
/// order, wrapped in `Value::Object`.
#[verifier::external_body]
fn json_from_pairs(pairs: Vec<(String, serde_json::Value)>) -> (r: serde_json::Value)
    ensures
        r == json_object(pairs_view(pairs@)),
{
    serde_json::Value::Object(pairs.into_iter().collect())
}

/// The display form of a value: integers become numbers, byte strings
/// become strings (invalid UTF-8 replaced), lists arrays, dictionaries objects.
pub open spec fn json_of(v: BValue) -> serde_json::Value
    decreases v,
{
    match v {
        BValue::Int(n) => json_number(n),
        BValue::Bytes(b) => json_string(lossy_utf8(b)),
        BValue::List(xs) => json_array(json_items(xs)),
        BValue::Dict(es) => json_object(json_pairs(es)),
    }
}

/// The display forms of list items, in order.
pub open spec fn json_items(xs: Seq<BValue>) -> Seq<serde_json::Value>
    decreases xs,
{
    if xs.len() == 0 {
        Seq::empty()
    } else {
        json_items(xs.drop_last()).push(json_of(xs.last()))
    }
}

/// The display keys and values of dictionary entries, in order.
pub open spec fn json_pairs(es: Seq<(Seq<u8>, BValue)>) -> Seq<(Seq<char>, serde_json::Value)>
    decreases es,
{
    if es.len() == 0 {
        Seq::empty()
    } else {
        json_pairs(es.drop_last()).push((lossy_utf8(es.last().0), json_of(es.last().1)))
    }
}

impl BencodeTypes {
    /// A lossy JSON view of the value, for display only.
    pub fn serialize_to_json(&self) -> (r: serde_json::Value)
        ensures
            r == json_of(self@),
        decreases self,
    {
        match self {
            BencodeTypes::Integer(n) => json_from_i64(*n),
            BencodeTypes::ByteString(b) => json_from_string(utf8_lossy(b.as_slice())),
            BencodeTypes::List(xs) => {
                let mut items: Vec<serde_json::Value> = Vec::new();
                let mut i: usize = 0;
                assert(xs@.take(0) =~= Seq::<BencodeTypes>::empty());
                assert(view_items(xs@.take(0)) =~= Seq::<BValue>::empty());
                while i < xs.len()
                    invariant
                        0 <= i <= xs.len(),
                        *self == BencodeTypes::List(*xs),
                        items@ == json_items(view_items(xs@.take(i as int))),
                    decreases xs.len() - i,
                {
                    proof {
                        assert(decreases_to!(*self => self->List_0));
                        assert(decreases_to!(*xs => xs[i as int]));
                    }
                    let j = xs[i].serialize_to_json();
                    proof {
                        let t = xs@.take(i as int + 1);
                        assert(t.drop_last() =~= xs@.take(i as int));
                        assert(view_items(t) == view_items(t.drop_last()).push(t.last()@));
                        assert(view_items(t).drop_last() =~= view_items(xs@.take(i as int)));
                    }
                    items.push(j);
                    i = i + 1;
                }
                assert(xs@.take(xs.len() as int) =~= xs@);
                json_from_items(items)
            },
            BencodeTypes::Dictionary(d) => {
                let es = &d.entries;
                let mut pairs: Vec<(String, serde_json::Value)> = Vec::new();
                let mut i: usize = 0;
                assert(es@.take(0) =~= Seq::<(Vec<u8>, BencodeTypes)>::empty());
                assert(view_entries(es@.take(0)) =~= Seq::<(Seq<u8>, BValue)>::empty());
                assert(pairs_view(pairs@) =~= Seq::<(Seq<char>, serde_json::Value)>::empty());
                while i < es.len()
                    invariant
                        0 <= i <= es.len(),
                        es == &d.entries,
                        *self == BencodeTypes::Dictionary(*d),
                        pairs_view(pairs@) == json_pairs(view_entries(es@.take(i as int))),
                    decreases es.len() - i,
                {
                    proof {
                        assert(decreases_to!(*self => self->Dictionary_0));
                        assert(decreases_to!(*d => d.entries));
                        assert(decreases_to!(d.entries => d.entries[i as int]));
                        assert(decreases_to!(d.entries[i as int] => d.entries[i as int].1));
                    }
                    let k = utf8_lossy(es[i].0.as_slice());
                    let j = es[i].1.serialize_to_json();
                    proof {
                        let t = es@.take(i as int + 1);
                        assert(t.drop_last() =~= es@.take(i as int));
                        assert(view_entries(t) == view_entries(t.drop_last()).push(
                            (t.last().0@, t.last().1@),
                        ));
                        assert(view_entries(t).drop_last() =~= view_entries(es@.take(i as int)));
                    }
                    let ghost before = pairs@;
                    pairs.push((k, j));
                    assert(pairs_view(pairs@) =~= pairs_view(before).push((k@, j)));
                    i = i + 1;
                }
                assert(es@.take(es.len() as int) =~= es@);
                json_from_pairs(pairs)
            },
        }
    }
}

/// Values that have a JSON form for display.
pub trait ToJSON {
    fn serialize(&self) -> serde_json::Value;
}

impl ToJSON for BencodeTypes {
    /// The same projection as `serialize_to_json`.
    fn serialize(&self) -> (r: serde_json::Value)
        ensures
            r == json_of(self@),
    {
        self.serialize_to_json()
    }
}

} // verus!
