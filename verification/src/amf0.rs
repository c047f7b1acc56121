//! AMF0: values, their decoder and their encoder.

use vstd::prelude::*;
use crate::amf0::model::Property;
use crate::amf0::model::ValueView;
use crate::amf3;
use crate::Pair;

pub mod decoder;
pub mod encoder;
pub mod grammar;
pub mod laws;
pub mod marker;
pub mod model;

pub use crate::amf0::decoder::Decoder;
pub use crate::amf0::encoder::Encoder;

verus! {

/// An AMF0 value.
///
/// A number is held as its 64 bits in IEEE 754 layout, a date as whole
/// milliseconds since the epoch.
///
/// Two values are equal where they are the same as mathematics: the same
/// texts, the same numbers bit for bit, the same parts in the same order.
#[derive(Debug, Eq)]
pub enum Value {
    Number(u64),
    Boolean(bool),
    String(String),
    Object { name: Option<String>, pairs: Vec<Pair<String, Value>> },
    Null,
    Undefined,
    EcmaArray { pairs: Vec<Pair<String, Value>> },
    Array { values: Vec<Value> },
    Date { unixtime: u64 },
    LongString(String),
    XmlDoc(String),
    AvmPlus(amf3::Value),
}

/// The models of a list of values.
pub open spec fn values_view(values: Seq<Value>) -> Seq<ValueView>
    decreases values,
{
    Seq::new(
        values.len(),
        |i: int|
            if 0 <= i < values.len() {
                values[i].view()
            } else {
                ValueView::Null
            },
    )
}

/// The models of a list of named properties.
pub open spec fn properties_view(pairs: Seq<Pair<String, Value>>) -> Seq<Property>
    decreases pairs,
{
    Seq::new(
        pairs.len(),
        |i: int|
            Pair {
                key: pairs[i].key@,
                value: if 0 <= i < pairs.len() {
                    pairs[i].value.view()
                } else {
                    ValueView::Null
                },
            },
    )
}

impl View for Value {
    type V = ValueView;

    open spec fn view(&self) -> ValueView
        decreases self,
    {
        match self {
            Value::Number(bits) => ValueView::Number(*bits),
            Value::Boolean(b) => ValueView::Boolean(*b),
            Value::String(s) => ValueView::String(s@),
            Value::Object { name, pairs } => ValueView::Object {
                name: amf3::name_view(*name),
                pairs: properties_view(pairs@),
            },
            Value::Null => ValueView::Null,
            Value::Undefined => ValueView::Undefined,
            Value::EcmaArray { pairs } => ValueView::EcmaArray { pairs: properties_view(pairs@) },
            Value::Array { values } => ValueView::Array { values: values_view(values@) },
            Value::Date { unixtime } => ValueView::Date { unixtime: *unixtime },
            Value::LongString(s) => ValueView::LongString(s@),
            Value::XmlDoc(s) => ValueView::XmlDoc(s@),
            Value::AvmPlus(inner) => ValueView::AvmPlus(inner@),
        }
    }
}

/// A copy of a list of values.
pub fn clone_values(values: &Vec<Value>) -> (r: Vec<Value>)
    ensures
        values_view(r@) == values_view(values@),
    decreases values,
{
    let mut r: Vec<Value> = Vec::new();
    let mut i: usize = 0;
    while i < values.len()
        invariant
            i <= values.len(),
            r@.len() == i,
            forall|j: int| 0 <= j < i ==> r@[j]@ == values@[j]@,
        decreases values.len() - i,
    {
        r.push(values[i].clone());
        i += 1;
    }
    assert(values_view(r@) =~= values_view(values@));
    r
}

/// A copy of a list of named properties.
pub fn clone_properties(pairs: &Vec<Pair<String, Value>>) -> (r: Vec<Pair<String, Value>>)
    ensures
        properties_view(r@) == properties_view(pairs@),
    decreases pairs,
{
    let mut r: Vec<Pair<String, Value>> = Vec::new();
    let mut i: usize = 0;
    while i < pairs.len()
        invariant
            i <= pairs.len(),
            r@.len() == i,
            forall|j: int|
                0 <= j < i ==> r@[j].key@ == pairs@[j].key@ && r@[j].value@ == pairs@[j].value@,
        decreases pairs.len() - i,
    {
        r.push(Pair { key: pairs[i].key.clone(), value: pairs[i].value.clone() });
        i += 1;
    }
    assert(properties_view(r@) =~= properties_view(pairs@));
    r
}

impl Clone for Value {
    /// A deep copy: the same value, in storage of its own.
    fn clone(&self) -> (r: Self)
        ensures
            r@ == self@,
        decreases self,
    {
        match self {
            Value::Number(bits) => Value::Number(*bits),
            Value::Boolean(b) => Value::Boolean(*b),
            Value::String(s) => Value::String(s.clone()),
            Value::Object { name, pairs } => Value::Object {
                name: amf3::clone_name(name),
                pairs: clone_properties(pairs),
            },
            Value::Null => Value::Null,
            Value::Undefined => Value::Undefined,
            Value::EcmaArray { pairs } => Value::EcmaArray { pairs: clone_properties(pairs) },
            Value::Array { values } => Value::Array { values: clone_values(values) },
            Value::Date { unixtime } => Value::Date { unixtime: *unixtime },
            Value::LongString(s) => Value::LongString(s.clone()),
            Value::XmlDoc(s) => Value::XmlDoc(s.clone()),
            Value::AvmPlus(inner) => Value::AvmPlus(inner.clone()),
        }
    }
}

/// Whether two lists of values are the same.
pub fn same_values(a: &Vec<Value>, b: &Vec<Value>) -> (r: bool)
    ensures
        r == (values_view(a@) == values_view(b@)),
    decreases a,
{
    if a.len() != b.len() {
        assert(values_view(a@).len() != values_view(b@).len());
        return false;
    }
    let mut i: usize = 0;
    while i < a.len()
        invariant
            i <= a.len(),
            a.len() == b.len(),
            forall|j: int| 0 <= j < i ==> a@[j]@ == b@[j]@,
        decreases a.len() - i,
    {
        if !same(&a[i], &b[i]) {
            assert(values_view(a@)[i as int] != values_view(b@)[i as int]);
            return false;
        }
        i += 1;
    }
    assert(values_view(a@) =~= values_view(b@));
    true
}

/// Whether two lists of named properties are the same.
pub fn same_properties(a: &Vec<Pair<String, Value>>, b: &Vec<Pair<String, Value>>) -> (r: bool)
    ensures
        r == (properties_view(a@) == properties_view(b@)),
    decreases a,
{
    if a.len() != b.len() {
        assert(properties_view(a@).len() != properties_view(b@).len());
        return false;
    }
    let mut i: usize = 0;
    while i < a.len()
        invariant
            i <= a.len(),
            a.len() == b.len(),
            forall|j: int|
                0 <= j < i ==> a@[j].key@ == b@[j].key@ && a@[j].value@ == b@[j].value@,
        decreases a.len() - i,
    {
        if !(a[i].key == b[i].key) || !same(&a[i].value, &b[i].value) {
            assert(properties_view(a@)[i as int] != properties_view(b@)[i as int]);
            return false;
        }
        i += 1;
    }
    assert(properties_view(a@) =~= properties_view(b@));
    true
}

/// Whether two values are the same as mathematics.
pub fn same(a: &Value, b: &Value) -> (r: bool)
    ensures
        r == (a@ == b@),
    decreases a,
{
    match (a, b) {
        (Value::Number(x), Value::Number(y)) => *x == *y,
        (Value::Boolean(x), Value::Boolean(y)) => *x == *y,
        (Value::String(x), Value::String(y)) => *x == *y,
        (Value::Object { name: n1, pairs: p1 }, Value::Object { name: n2, pairs: p2 }) => {
            amf3::same_name(n1, n2) && same_properties(p1, p2)
        },
        (Value::Null, Value::Null) => true,
        (Value::Undefined, Value::Undefined) => true,
        (Value::EcmaArray { pairs: p1 }, Value::EcmaArray { pairs: p2 }) => same_properties(
            p1,
            p2,
        ),
        (Value::Array { values: v1 }, Value::Array { values: v2 }) => same_values(v1, v2),
        (Value::Date { unixtime: x }, Value::Date { unixtime: y }) => *x == *y,
        (Value::LongString(x), Value::LongString(y)) => *x == *y,
        (Value::XmlDoc(x), Value::XmlDoc(y)) => *x == *y,
        (Value::AvmPlus(x), Value::AvmPlus(y)) => amf3::same(x, y),
        _ => false,
    }
}

impl PartialEq for Value {
    fn eq(&self, other: &Self) -> (r: bool) {
        same(self, other)
    }
}

impl vstd::std_specs::cmp::PartialEqSpecImpl for Value {
    open spec fn obeys_eq_spec() -> bool {
        true
    }

    /// Equal as mathematics.
    open spec fn eq_spec(&self, other: &Self) -> bool {
        self@ == other@
    }
}

} // verus!
