//! The mathematical model of AMF0 values and of their encoding.

use vstd::prelude::*;
use vstd::utf8::encode_utf8;
use crate::amf0::marker;
use crate::amf3;
use crate::double::spec_double_of_millis;
use crate::Pair;
use crate::wire::u16_be;
use crate::wire::u32_be;
use crate::wire::u64_be;

verus! {

/// An AMF0 value as mathematics: text is a sequence of characters, every
/// list a sequence.
#[verifier::ext_equal]
pub ghost enum ValueView {
    Number(u64),
    Boolean(bool),
    String(Seq<char>),
    Object { name: Option<Seq<char>>, pairs: Seq<Pair<Seq<char>, ValueView>> },
    Null,
    Undefined,
    EcmaArray { pairs: Seq<Pair<Seq<char>, ValueView>> },
    Array { values: Seq<ValueView> },
    Date { unixtime: u64 },
    LongString(Seq<char>),
    XmlDoc(Seq<char>),
    AvmPlus(amf3::model::ValueView),
}

/// A named property of an object, or an entry of an associative array.
pub type Property = Pair<Seq<char>, ValueView>;

/// The longest text, in bytes, that a 16-bit length announces.
pub const SHORT_MAX: usize = 0xFFFF;

/// The longest text, in bytes, that a 32-bit length announces.
pub const LONG_MAX: u64 = 0xFFFF_FFFF;

/// Whether a text, as UTF-8, fits a 16-bit length.
pub open spec fn is_short(s: Seq<char>) -> bool {
    encode_utf8(s).len() <= SHORT_MAX
}

/// Whether a text, as UTF-8, fits a 32-bit length.
pub open spec fn is_long(s: Seq<char>) -> bool {
    encode_utf8(s).len() <= LONG_MAX
}

/// A text behind a 16-bit length.
pub open spec fn short_text(s: Seq<char>) -> Seq<u8> {
    u16_be(encode_utf8(s).len() as u16) + encode_utf8(s)
}

/// A text behind a 32-bit length.
pub open spec fn long_text(s: Seq<char>) -> Seq<u8> {
    u32_be(encode_utf8(s).len() as u32) + encode_utf8(s)
}

/// A string value: under the string marker where its text fits a 16-bit
/// length, under the long-string marker where it does not.
pub open spec fn string_encoding(s: Seq<char>) -> Seq<u8> {
    if is_short(s) {
        seq![marker::STRING] + short_text(s)
    } else {
        seq![marker::LONG_STRING] + long_text(s)
    }
}

/// A number of items as a 32-bit count: the low 32 bits of the number.
pub open spec fn count(len: nat) -> u32 {
    (len % 0x1_0000_0000) as u32
}

/// What ends a list of pairs: an empty key and the object-end marker.
pub open spec fn pairs_end() -> Seq<u8> {
    seq![0u8, 0u8, marker::OBJECT_END]
}

/// Whether a value can be encoded: every key and class name in it fits a
/// 16-bit length, every other text a 32-bit length. An embedded AMF3 value
/// has no such limit.
pub open spec fn encodable(v: ValueView) -> bool
    decreases v, 0nat,
{
    match v {
        ValueView::String(s) => is_long(s),
        ValueView::LongString(s) => is_long(s),
        ValueView::XmlDoc(s) => is_long(s),
        ValueView::Object { name, pairs } => (name matches Some(s) ==> is_short(s))
            && properties_encodable(pairs, pairs.len() as int),
        ValueView::EcmaArray { pairs } => properties_encodable(pairs, pairs.len() as int),
        ValueView::Array { values } => values_encodable(values, values.len() as int),
        _ => true,
    }
}

/// Whether the first `hi` values of a list can be encoded.
pub open spec fn values_encodable(values: Seq<ValueView>, hi: int) -> bool
    decreases values, hi,
{
    if hi <= 0 || hi > values.len() {
        true
    } else {
        values_encodable(values, hi - 1) && encodable(values[hi - 1])
    }
}

/// Whether the first `hi` pairs of a list can be encoded.
pub open spec fn properties_encodable(pairs: Seq<Property>, hi: int) -> bool
    decreases pairs, hi,
{
    if hi <= 0 || hi > pairs.len() {
        true
    } else {
        properties_encodable(pairs, hi - 1) && is_short(pairs[hi - 1].key) && encodable(
            pairs[hi - 1].value,
        )
    }
}

/// The bytes of a value: its marker and what the marker calls for. Every
/// composite is written out in full, never as a reference.
pub open spec fn encoding(v: ValueView) -> Seq<u8>
    decreases v, 0nat,
{
    match v {
        ValueView::Number(bits) => seq![marker::NUMBER] + u64_be(bits),
        ValueView::Boolean(b) => seq![marker::BOOLEAN, amf3::model::flag_byte(b)],
        ValueView::String(s) => string_encoding(s),
        ValueView::Object { name, pairs } => (match name {
            Some(s) => seq![marker::TYPED_OBJECT] + short_text(s),
            None => seq![marker::OBJECT],
        }) + properties_encoding(pairs, pairs.len() as int) + pairs_end(),
        ValueView::Null => seq![marker::NULL],
        ValueView::Undefined => seq![marker::UNDEFINED],
        ValueView::EcmaArray { pairs } => seq![marker::ECMA_ARRAY] + u32_be(count(pairs.len()))
            + properties_encoding(pairs, pairs.len() as int) + pairs_end(),
        ValueView::Array { values } => seq![marker::STRICT_ARRAY] + u32_be(count(values.len()))
            + values_encoding(values, values.len() as int),
        ValueView::Date { unixtime } => seq![marker::DATE] + u64_be(
            spec_double_of_millis(unixtime),
        ) + seq![0u8, 0u8],
        ValueView::LongString(s) => string_encoding(s),
        ValueView::XmlDoc(s) => seq![marker::XML_DOC] + long_text(s),
        ValueView::AvmPlus(inner) => seq![marker::AVMPLUS] + amf3::model::encoding(inner),
    }
}

/// The first `hi` values of a list, one after another.
pub open spec fn values_encoding(values: Seq<ValueView>, hi: int) -> Seq<u8>
    decreases values, hi,
{
    if hi <= 0 || hi > values.len() {
        Seq::empty()
    } else {
        values_encoding(values, hi - 1) + encoding(values[hi - 1])
    }
}

/// The first `hi` pairs of a list, each as its key and its value.
pub open spec fn properties_encoding(pairs: Seq<Property>, hi: int) -> Seq<u8>
    decreases pairs, hi,
{
    if hi <= 0 || hi > pairs.len() {
        Seq::empty()
    } else {
        properties_encoding(pairs, hi - 1) + short_text(pairs[hi - 1].key) + encoding(
            pairs[hi - 1].value,
        )
    }
}

/// The first magnitude, in the order of writing, that does not fit the
/// variable-length integer format of an embedded AMF3 value; none where
/// there is no such magnitude.
pub open spec fn overflow(v: ValueView) -> Option<u32>
    decreases v, 0nat,
{
    match v {
        ValueView::Object { name, pairs } => properties_overflow(pairs, pairs.len() as int),
        ValueView::EcmaArray { pairs } => properties_overflow(pairs, pairs.len() as int),
        ValueView::Array { values } => values_overflow(values, values.len() as int),
        ValueView::AvmPlus(inner) => amf3::model::overflow(inner),
        _ => None,
    }
}

/// The first overflow among the first `hi` values of a list.
pub open spec fn values_overflow(values: Seq<ValueView>, hi: int) -> Option<u32>
    decreases values, hi,
{
    if hi <= 0 || hi > values.len() {
        None
    } else {
        amf3::model::first_of(values_overflow(values, hi - 1), overflow(values[hi - 1]))
    }
}

/// The first overflow among the values of the first `hi` pairs.
pub open spec fn properties_overflow(pairs: Seq<Property>, hi: int) -> Option<u32>
    decreases pairs, hi,
{
    if hi <= 0 || hi > pairs.len() {
        None
    } else {
        amf3::model::first_of(properties_overflow(pairs, hi - 1), overflow(pairs[hi - 1].value))
    }
}

/// Once an overflow has been met among the first values, it stays the
/// first.
pub proof fn lemma_values_overflow_stable(values: Seq<ValueView>, k: int, hi: int)
    requires
        0 <= k <= hi <= values.len(),
        values_overflow(values, k) is Some,
    ensures
        values_overflow(values, hi) == values_overflow(values, k),
    decreases hi - k,
{
    if hi > k {
        lemma_values_overflow_stable(values, k, hi - 1);
    }
}

/// Once an overflow has been met among the first pairs, it stays the
/// first.
pub proof fn lemma_properties_overflow_stable(pairs: Seq<Property>, k: int, hi: int)
    requires
        0 <= k <= hi <= pairs.len(),
        properties_overflow(pairs, k) is Some,
    ensures
        properties_overflow(pairs, hi) == properties_overflow(pairs, k),
    decreases hi - k,
{
    if hi > k {
        lemma_properties_overflow_stable(pairs, k, hi - 1);
    }
}

/// A list that can be encoded has only such items.
pub proof fn lemma_values_encodable(values: Seq<ValueView>, hi: int, i: int)
    requires
        0 <= i < hi <= values.len(),
        values_encodable(values, hi),
    ensures
        encodable(values[i]),
        values_encodable(values, i),
    decreases hi,
{
    if i < hi - 1 {
        lemma_values_encodable(values, hi - 1, i);
    }
}

/// A list of pairs that can be encoded has only such pairs.
pub proof fn lemma_properties_encodable(pairs: Seq<Property>, hi: int, i: int)
    requires
        0 <= i < hi <= pairs.len(),
        properties_encodable(pairs, hi),
    ensures
        is_short(pairs[i].key),
        encodable(pairs[i].value),
        properties_encodable(pairs, i),
    decreases hi,
{
    if i < hi - 1 {
        lemma_properties_encodable(pairs, hi - 1, i);
    }
}

} // verus!
