//! AMF3: values, their decoder and their encoder.

use vstd::prelude::*;
use crate::amf3::model::Entry;
use crate::amf3::model::Property;
use crate::amf3::model::ValueView;
use crate::Pair;

pub mod decoder;
pub mod encoder;
pub mod grammar;
pub mod laws;
pub mod marker;
pub mod model;

pub use crate::amf3::decoder::Decoder;
pub use crate::amf3::encoder::Encoder;

verus! {

/// The largest integer that the integer type of AMF3 holds.
pub const MAX_29B_INT: i32 = 0x0FFF_FFFF;

/// The smallest integer that the integer type of AMF3 holds.
pub const MIN_29B_INT: i32 = -0x1000_0000;

/// An AMF3 value.
///
/// A double is held as its 64 bits in IEEE 754 layout, a date as whole
/// milliseconds since the epoch.
///
/// The pairs of an object are its sealed fields, `sealed_count` of them,
/// in the order of its class, and after them its dynamic pairs.
///
/// Two values are equal where they are the same as mathematics: the same
/// texts, the same numbers bit for bit, the same parts in the same order.
#[derive(Debug, Eq)]
#[allow(inconsistent_fields)]
pub enum Value {
    Undefined,
    Null,
    Boolean(bool),
    Integer(i32),
    Double(u64),
    String(String),
    XmlDoc(String),
    Date { unixtime: u64 },
    Object { name: Option<String>, sealed_count: usize, pairs: Vec<Pair<String, Value>> },
    Xml(String),
    Array { assoc_entries: Vec<Pair<String, Value>>, dense_entries: Vec<Value> },
    ByteArray(Vec<u8>),
    IntVector { is_fixed: bool, entries: Vec<i32> },
    UintVector { is_fixed: bool, entries: Vec<u32> },
    DoubleVector { is_fixed: bool, entries: Vec<u64> },
    ObjectVector { name: Option<String>, is_fixed: bool, entries: Vec<Value> },
    Dictionary { is_weak: bool, entries: Vec<Pair<Value, Value>> },
}

/// The text of an optional name.
pub open spec fn name_view(name: Option<String>) -> Option<Seq<char>> {
    match name {
        Some(s) => Some(s@),
        None => None,
    }
}

/// The models of a list of values.
pub open spec fn values_view(values: Seq<Value>) -> Seq<ValueView>
    decreases values,
{
    Seq::new(
        values.len(),
        |i: int|
            if 0 <= i < values.len() {
                values[i].view()
            } else {
                ValueView::Null
            },
    )
}

/// The models of a list of named properties.
pub open spec fn properties_view(pairs: Seq<Pair<String, Value>>) -> Seq<Property>
    decreases pairs,
{
    Seq::new(
        pairs.len(),
        |i: int|
            Pair {
                key: pairs[i].key@,
                value: if 0 <= i < pairs.len() {
                    pairs[i].value.view()
                } else {
                    ValueView::Null
                },
            },
    )
}

/// The models of a list of dictionary entries.
pub open spec fn entries_view(entries: Seq<Pair<Value, Value>>) -> Seq<Entry>
    decreases entries,
{
    Seq::new(
        entries.len(),
        |i: int|
            if 0 <= i < entries.len() {
                Pair { key: entries[i].key.view(), value: entries[i].value.view() }
            } else {
                Pair { key: ValueView::Null, value: ValueView::Null }
            },
    )
}

impl View for Value {
    type V = ValueView;

    open spec fn view(&self) -> ValueView
        decreases self,
    {
        match self {
            Value::Undefined => ValueView::Undefined,
            Value::Null => ValueView::Null,
            Value::Boolean(b) => ValueView::Boolean(*b),
            Value::Integer(i) => ValueView::Integer(*i),
            Value::Double(bits) => ValueView::Double(*bits),
            Value::String(s) => ValueView::String(s@),
            Value::XmlDoc(s) => ValueView::XmlDoc(s@),
            Value::Date { unixtime } => ValueView::Date { unixtime: *unixtime },
            Value::Object { name, sealed_count, pairs } => ValueView::Object {
                name: name_view(*name),
                sealed_count: *sealed_count as nat,
                pairs: properties_view(pairs@),
            },
            Value::Xml(s) => ValueView::Xml(s@),
            Value::Array { assoc_entries, dense_entries } => ValueView::Array {
                assoc_entries: properties_view(assoc_entries@),
                dense_entries: values_view(dense_entries@),
            },
            Value::ByteArray(bytes) => ValueView::ByteArray(bytes@),
            Value::IntVector { is_fixed, entries } => ValueView::IntVector {
                is_fixed: *is_fixed,
                entries: entries@,
            },
            Value::UintVector { is_fixed, entries } => ValueView::UintVector {
                is_fixed: *is_fixed,
                entries: entries@,
            },
            Value::DoubleVector { is_fixed, entries } => ValueView::DoubleVector {
                is_fixed: *is_fixed,
                entries: entries@,
            },
            Value::ObjectVector { name, is_fixed, entries } => ValueView::ObjectVector {
                name: name_view(*name),
                is_fixed: *is_fixed,
                entries: values_view(entries@),
            },
            Value::Dictionary { is_weak, entries } => ValueView::Dictionary {
                is_weak: *is_weak,
                entries: entries_view(entries@),
            },
        }
    }
}

/// A copy of an optional name.
pub fn clone_name(name: &Option<String>) -> (r: Option<String>)
    ensures
        name_view(r) == name_view(*name),
{
    match name {
        Some(s) => Some(s.clone()),
        None => None,
    }
}

/// A copy of a list of values.
pub fn clone_values(values: &Vec<Value>) -> (r: Vec<Value>)
    ensures
        values_view(r@) == values_view(values@),
    decreases values,
{
    let mut r: Vec<Value> = Vec::new();
    let mut i: usize = 0;
    while i < values.len()
        invariant
            i <= values.len(),
            r@.len() == i,
            forall|j: int| 0 <= j < i ==> r@[j]@ == values@[j]@,
        decreases values.len() - i,
    {
        r.push(values[i].clone());
        i += 1;
    }
    assert(values_view(r@) =~= values_view(values@));
    r
}

/// A copy of a list of named properties.
pub fn clone_properties(pairs: &Vec<Pair<String, Value>>) -> (r: Vec<Pair<String, Value>>)
    ensures
        properties_view(r@) == properties_view(pairs@),
    decreases pairs,
{
    let mut r: Vec<Pair<String, Value>> = Vec::new();
    let mut i: usize = 0;
    while i < pairs.len()
        invariant
            i <= pairs.len(),
            r@.len() == i,
            forall|j: int| 0 <= j < i ==> r@[j].key@ == pairs@[j].key@ && r@[j].value@ == pairs@[j].value@,
        decreases pairs.len() - i,
    {
        r.push(Pair { key: pairs[i].key.clone(), value: pairs[i].value.clone() });
        i += 1;
    }
    assert(properties_view(r@) =~= properties_view(pairs@));
    r
}

/// A copy of a list of dictionary entries.
pub fn clone_entries(entries: &Vec<Pair<Value, Value>>) -> (r: Vec<Pair<Value, Value>>)
    ensures
        entries_view(r@) == entries_view(entries@),
    decreases entries,
{
    let mut r: Vec<Pair<Value, Value>> = Vec::new();
    let mut i: usize = 0;
    while i < entries.len()
        invariant
            i <= entries.len(),
            r@.len() == i,
            forall|j: int| 0 <= j < i ==> r@[j].key@ == entries@[j].key@ && r@[j].value@ == entries@[j].value@,
        decreases entries.len() - i,
    {
        r.push(Pair { key: entries[i].key.clone(), value: entries[i].value.clone() });
        i += 1;
    }
    assert(entries_view(r@) =~= entries_view(entries@));
    r
}

impl Clone for Value {
    /// A deep copy: the same value, in storage of its own.
    fn clone(&self) -> (r: Self)
        ensures
            r@ == self@,
        decreases self,
    {
        match self {
            Value::Undefined => Value::Undefined,
            Value::Null => Value::Null,
            Value::Boolean(b) => Value::Boolean(*b),
            Value::Integer(i) => Value::Integer(*i),
            Value::Double(bits) => Value::Double(*bits),
            Value::String(s) => Value::String(s.clone()),
            Value::XmlDoc(s) => Value::XmlDoc(s.clone()),
            Value::Date { unixtime } => Value::Date { unixtime: *unixtime },
            Value::Object { name, sealed_count, pairs } => Value::Object {
                name: clone_name(name),
                sealed_count: *sealed_count,
                pairs: clone_properties(pairs),
            },
            Value::Xml(s) => Value::Xml(s.clone()),
            Value::Array { assoc_entries, dense_entries } => Value::Array {
                assoc_entries: clone_properties(assoc_entries),
                dense_entries: clone_values(dense_entries),
            },
            Value::ByteArray(bytes) => Value::ByteArray(bytes.clone()),
            Value::IntVector { is_fixed, entries } => Value::IntVector {
                is_fixed: *is_fixed,
                entries: entries.clone(),
            },
            Value::UintVector { is_fixed, entries } => Value::UintVector {
                is_fixed: *is_fixed,
                entries: entries.clone(),
            },
            Value::DoubleVector { is_fixed, entries } => Value::DoubleVector {
                is_fixed: *is_fixed,
                entries: entries.clone(),
            },
            Value::ObjectVector { name, is_fixed, entries } => Value::ObjectVector {
                name: clone_name(name),
                is_fixed: *is_fixed,
                entries: clone_values(entries),
            },
            Value::Dictionary { is_weak, entries } => Value::Dictionary {
                is_weak: *is_weak,
                entries: clone_entries(entries),
            },
        }
    }
}

/// Whether two optional names are the same.
pub fn same_name(a: &Option<String>, b: &Option<String>) -> (r: bool)
    ensures
        r == (name_view(*a) == name_view(*b)),
{
    match (a, b) {
        (Some(x), Some(y)) => *x == *y,
        (None, None) => true,
        _ => false,
    }
}

/// Whether two lists of values are the same.
pub fn same_values(a: &Vec<Value>, b: &Vec<Value>) -> (r: bool)
    ensures
        r == (values_view(a@) == values_view(b@)),
    decreases a,
{
    if a.len() != b.len() {
        assert(values_view(a@).len() != values_view(b@).len());
        return false;
    }
    let mut i: usize = 0;
    while i < a.len()
        invariant
            i <= a.len(),
            a.len() == b.len(),
            forall|j: int| 0 <= j < i ==> a@[j]@ == b@[j]@,
        decreases a.len() - i,
    {
        if !same(&a[i], &b[i]) {
            assert(values_view(a@)[i as int] != values_view(b@)[i as int]);
            return false;
        }
        i += 1;
    }
    assert(values_view(a@) =~= values_view(b@));
    true
}

/// Whether two lists of named properties are the same.
pub fn same_properties(a: &Vec<Pair<String, Value>>, b: &Vec<Pair<String, Value>>) -> (r: bool)
    ensures
        r == (properties_view(a@) == properties_view(b@)),
    decreases a,
{
    if a.len() != b.len() {
        assert(properties_view(a@).len() != properties_view(b@).len());
        return false;
    }
    let mut i: usize = 0;
    while i < a.len()
        invariant
            i <= a.len(),
            a.len() == b.len(),
            forall|j: int|
                0 <= j < i ==> a@[j].key@ == b@[j].key@ && a@[j].value@ == b@[j].value@,
        decreases a.len() - i,
    {
        if !(a[i].key == b[i].key) || !same(&a[i].value, &b[i].value) {
            assert(properties_view(a@)[i as int] != properties_view(b@)[i as int]);
            return false;
        }
        i += 1;
    }
    assert(properties_view(a@) =~= properties_view(b@));
    true
}

/// Whether two lists of dictionary entries are the same.
pub fn same_entries(a: &Vec<Pair<Value, Value>>, b: &Vec<Pair<Value, Value>>) -> (r: bool)
    ensures
        r == (entries_view(a@) == entries_view(b@)),
    decreases a,
{
    if a.len() != b.len() {
        assert(entries_view(a@).len() != entries_view(b@).len());
        return false;
    }
    let mut i: usize = 0;
    while i < a.len()
        invariant
            i <= a.len(),
            a.len() == b.len(),
            forall|j: int|
                0 <= j < i ==> a@[j].key@ == b@[j].key@ && a@[j].value@ == b@[j].value@,
        decreases a.len() - i,
    {
        if !same(&a[i].key, &b[i].key) || !same(&a[i].value, &b[i].value) {
            assert(entries_view(a@)[i as int] != entries_view(b@)[i as int]);
            return false;
        }
        i += 1;
    }
    assert(entries_view(a@) =~= entries_view(b@));
    true
}

/// Whether two lists of bytes are the same.
fn same_bytes(a: &Vec<u8>, b: &Vec<u8>) -> (r: bool)
    ensures
        r == (a@ == b@),
{
    if a.len() != b.len() {
        return false;
    }
    let mut i: usize = 0;
    while i < a.len()
        invariant
            i <= a.len(),
            a.len() == b.len(),
            forall|j: int| 0 <= j < i ==> a@[j] == b@[j],
        decreases a.len() - i,
    {
        if a[i] != b[i] {
            return false;
        }
        i += 1;
    }
    assert(a@ =~= b@);
    true
}

/// Whether two lists of integers are the same.
fn same_ints(a: &Vec<i32>, b: &Vec<i32>) -> (r: bool)
    ensures
        r == (a@ == b@),
{
    if a.len() != b.len() {
        return false;
    }
    let mut i: usize = 0;
    while i < a.len()
        invariant
            i <= a.len(),
            a.len() == b.len(),
            forall|j: int| 0 <= j < i ==> a@[j] == b@[j],
        decreases a.len() - i,
    {
        if a[i] != b[i] {
            return false;
        }
        i += 1;
    }
    assert(a@ =~= b@);
    true
}

/// Whether two lists of unsigned integers are the same.
fn same_uints(a: &Vec<u32>, b: &Vec<u32>) -> (r: bool)
    ensures
        r == (a@ == b@),
{
    if a.len() != b.len() {
        return false;
    }
    let mut i: usize = 0;
    while i < a.len()
        invariant
            i <= a.len(),
            a.len() == b.len(),
            forall|j: int| 0 <= j < i ==> a@[j] == b@[j],
        decreases a.len() - i,
    {
        if a[i] != b[i] {
            return false;
        }
        i += 1;
    }
    assert(a@ =~= b@);
    true
}

/// Whether two lists of doubles are the same, bit for bit.
fn same_doubles(a: &Vec<u64>, b: &Vec<u64>) -> (r: bool)
    ensures
        r == (a@ == b@),
{
    if a.len() != b.len() {
        return false;
    }
    let mut i: usize = 0;
    while i < a.len()
        invariant
            i <= a.len(),
            a.len() == b.len(),
            forall|j: int| 0 <= j < i ==> a@[j] == b@[j],
        decreases a.len() - i,
    {
        if a[i] != b[i] {
            return false;
        }
        i += 1;
    }
    assert(a@ =~= b@);
    true
}

/// Whether two values are the same as mathematics.
pub fn same(a: &Value, b: &Value) -> (r: bool)
    ensures
        r == (a@ == b@),
    decreases a,
{
    match (a, b) {
        (Value::Undefined, Value::Undefined) => true,
        (Value::Null, Value::Null) => true,
        (Value::Boolean(x), Value::Boolean(y)) => *x == *y,
        (Value::Integer(x), Value::Integer(y)) => *x == *y,
        (Value::Double(x), Value::Double(y)) => *x == *y,
        (Value::String(x), Value::String(y)) => *x == *y,
        (Value::XmlDoc(x), Value::XmlDoc(y)) => *x == *y,
        (Value::Date { unixtime: x }, Value::Date { unixtime: y }) => *x == *y,
        (
            Value::Object { name: n1, sealed_count: c1, pairs: p1 },
            Value::Object { name: n2, sealed_count: c2, pairs: p2 },
        ) => same_name(n1, n2) && *c1 == *c2 && same_properties(p1, p2),
        (Value::Xml(x), Value::Xml(y)) => *x == *y,
        (
            Value::Array { assoc_entries: a1, dense_entries: d1 },
            Value::Array { assoc_entries: a2, dense_entries: d2 },
        ) => same_properties(a1, a2) && same_values(d1, d2),
        (Value::ByteArray(x), Value::ByteArray(y)) => same_bytes(x, y),
        (
            Value::IntVector { is_fixed: f1, entries: e1 },
            Value::IntVector { is_fixed: f2, entries: e2 },
        ) => *f1 == *f2 && same_ints(e1, e2),
        (
            Value::UintVector { is_fixed: f1, entries: e1 },
            Value::UintVector { is_fixed: f2, entries: e2 },
        ) => *f1 == *f2 && same_uints(e1, e2),
        (
            Value::DoubleVector { is_fixed: f1, entries: e1 },
            Value::DoubleVector { is_fixed: f2, entries: e2 },
        ) => *f1 == *f2 && same_doubles(e1, e2),
        (
            Value::ObjectVector { name: n1, is_fixed: f1, entries: e1 },
            Value::ObjectVector { name: n2, is_fixed: f2, entries: e2 },
        ) => same_name(n1, n2) && *f1 == *f2 && same_values(e1, e2),
        (
            Value::Dictionary { is_weak: w1, entries: e1 },
            Value::Dictionary { is_weak: w2, entries: e2 },
        ) => *w1 == *w2 && same_entries(e1, e2),
        _ => false,
    }
}

impl PartialEq for Value {
    fn eq(&self, other: &Self) -> (r: bool) {
        same(self, other)
    }
}

impl vstd::std_specs::cmp::PartialEqSpecImpl for Value {
    open spec fn obeys_eq_spec() -> bool {
        true
    }

    /// Equal as mathematics.
    open spec fn eq_spec(&self, other: &Self) -> bool {
        self@ == other@
    }
}

} // verus!
