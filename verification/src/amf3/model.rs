//! The mathematical model of AMF3 values and of their encoding.

use vstd::prelude::*;
use vstd::utf8::encode_utf8;
use crate::amf3::marker;
use crate::double::spec_double_of_millis;
use crate::Pair;
use crate::wire::bits_of_i32;
use crate::wire::u32_be;
use crate::wire::u64_be;

verus! {

/// An AMF3 value as mathematics: text is a sequence of characters, every
/// list a sequence.
#[allow(inconsistent_fields)]
#[verifier::ext_equal]
pub ghost enum ValueView {
    Undefined,
    Null,
    Boolean(bool),
    Integer(i32),
    Double(u64),
    String(Seq<char>),
    XmlDoc(Seq<char>),
    Date { unixtime: u64 },
    Object { name: Option<Seq<char>>, sealed_count: nat, pairs: Seq<Pair<Seq<char>, ValueView>> },
    Xml(Seq<char>),
    Array { assoc_entries: Seq<Pair<Seq<char>, ValueView>>, dense_entries: Seq<ValueView> },
    ByteArray(Seq<u8>),
    IntVector { is_fixed: bool, entries: Seq<i32> },
    UintVector { is_fixed: bool, entries: Seq<u32> },
    DoubleVector { is_fixed: bool, entries: Seq<u64> },
    ObjectVector { name: Option<Seq<char>>, is_fixed: bool, entries: Seq<ValueView> },
    Dictionary { is_weak: bool, entries: Seq<Pair<ValueView, ValueView>> },
}

/// A named property of an object, or an associative entry of an array.
pub type Property = Pair<Seq<char>, ValueView>;

/// An entry of a dictionary: its key is a value too.
pub type Entry = Pair<ValueView, ValueView>;

/// One more than the largest magnitude that the variable-length integer
/// format takes.
pub const U29_LIMIT: u32 = 0x4000_0000;

/// The variable-length form of a magnitude below [`U29_LIMIT`]: seven bits
/// to a byte with the high bit as a continuation flag, and a full last byte
/// in the form of four bytes, where the first byte keeps seven of the eight
/// bits above the other three. Nothing for larger magnitudes.
pub open spec fn u29_bytes(n: u32) -> Seq<u8> {
    if n < 0x80 {
        seq![n as u8]
    } else if n < 0x4000 {
        seq![(n / 0x80 + 0x80) as u8, (n % 0x80) as u8]
    } else if n < 0x20_0000 {
        seq![(n / 0x4000 + 0x80) as u8, (n / 0x80 % 0x80 + 0x80) as u8, (n % 0x80) as u8]
    } else if n < U29_LIMIT {
        seq![
            (n / 0x40_0000 % 0x80 + 0x80) as u8,
            (n / 0x8000 % 0x80 + 0x80) as u8,
            (n / 0x100 % 0x80 + 0x80) as u8,
            (n % 0x100) as u8,
        ]
    } else {
        Seq::empty()
    }
}

/// A magnitude as the 32-bit number that an overflow error reports: itself
/// where it fits, the largest number where it does not.
pub open spec fn reported(m: int) -> u32 {
    if m > u32::MAX {
        u32::MAX
    } else if m < 0 {
        0
    } else {
        m as u32
    }
}

/// The overflow that writing the magnitude `m` meets, if any.
pub open spec fn magnitude_overflow(m: int) -> Option<u32> {
    if m >= U29_LIMIT {
        Some(reported(m))
    } else {
        None
    }
}

/// The first of two overflows, in the order of writing.
pub open spec fn first_of(a: Option<u32>, b: Option<u32>) -> Option<u32> {
    if a is Some {
        a
    } else {
        b
    }
}

/// The magnitude that announces `len` items or bytes that follow: the
/// length shifted by one bit, with the low bit set to tell a literal from a
/// reference.
pub open spec fn literal_header(len: nat) -> int {
    2 * (len as int) + 1
}

/// The bytes of a magnitude, where it does not overflow.
pub open spec fn magnitude_bytes(m: int) -> Seq<u8> {
    u29_bytes(reported(m))
}

/// A signed integer as a 29-bit magnitude: itself where it is not
/// negative, else 2^29 added to it, in 32-bit two's complement.
pub open spec fn integer_magnitude(i: i32) -> u32 {
    if i >= 0 {
        i as u32
    } else {
        bits_of_i32((i + 0x2000_0000) as i32)
    }
}

/// A literal string: its length in bytes as a literal header, then its
/// UTF-8 bytes.
pub open spec fn text_bytes(s: Seq<char>) -> Seq<u8> {
    magnitude_bytes(literal_header(encode_utf8(s).len())) + encode_utf8(s)
}

/// The overflow that writing a literal string meets, if any.
pub open spec fn text_overflow(s: Seq<char>) -> Option<u32> {
    magnitude_overflow(literal_header(encode_utf8(s).len()))
}

/// The class name of an object on the wire: empty for an anonymous one.
pub open spec fn class_name_text(name: Option<Seq<char>>) -> Seq<char> {
    match name {
        Some(s) => s,
        None => Seq::empty(),
    }
}

/// The element type of an object vector on the wire: an asterisk where
/// none is named.
pub open spec fn element_type_text(name: Option<Seq<char>>) -> Seq<char> {
    match name {
        Some(s) => s,
        None => seq!['*'],
    }
}

/// The byte of a flag.
pub open spec fn flag_byte(b: bool) -> u8 {
    if b {
        1
    } else {
        0
    }
}

/// How many of an object's pairs are written as sealed fields.
pub open spec fn sealed_len(sealed_count: nat, pairs: Seq<Property>) -> int {
    if sealed_count < pairs.len() {
        sealed_count as int
    } else {
        pairs.len() as int
    }
}

/// The magnitude that opens an object literal: the number of sealed
/// fields above four flag bits, which say whether dynamic pairs follow, that
/// the object is not externalizable, that its trait is written out and that
/// the object itself is.
pub open spec fn object_header(sealed_count: nat, pairs: Seq<Property>) -> int {
    (sealed_count as int) * 16 + (if sealed_count < pairs.len() {
        8int
    } else {
        0int
    }) + 3
}

/// The 32-bit integers of a vector on the wire, `hi` of them.
pub open spec fn ints_bytes(entries: Seq<i32>, hi: int) -> Seq<u8>
    decreases hi,
{
    if hi <= 0 {
        Seq::empty()
    } else {
        ints_bytes(entries, hi - 1) + u32_be(bits_of_i32(entries[hi - 1]))
    }
}

/// The unsigned 32-bit integers of a vector on the wire, `hi` of them.
pub open spec fn uints_bytes(entries: Seq<u32>, hi: int) -> Seq<u8>
    decreases hi,
{
    if hi <= 0 {
        Seq::empty()
    } else {
        uints_bytes(entries, hi - 1) + u32_be(entries[hi - 1])
    }
}

/// The doubles of a vector on the wire, `hi` of them.
pub open spec fn doubles_bytes(entries: Seq<u64>, hi: int) -> Seq<u8>
    decreases hi,
{
    if hi <= 0 {
        Seq::empty()
    } else {
        doubles_bytes(entries, hi - 1) + u64_be(entries[hi - 1])
    }
}

/// The keys of the pairs from `lo` up to `hi`, each as a literal string.
pub open spec fn keys_bytes(pairs: Seq<Property>, hi: int) -> Seq<u8>
    decreases hi,
{
    if hi <= 0 {
        Seq::empty()
    } else {
        keys_bytes(pairs, hi - 1) + text_bytes(pairs[hi - 1].key)
    }
}

/// The first overflow among the keys of the first `hi` pairs.
pub open spec fn keys_overflow(pairs: Seq<Property>, hi: int) -> Option<u32>
    decreases hi,
{
    if hi <= 0 {
        None
    } else {
        first_of(keys_overflow(pairs, hi - 1), text_overflow(pairs[hi - 1].key))
    }
}

/// The bytes of a value: its marker and what the marker calls for. Every
/// composite is written out in full, and every string as a literal.
pub open spec fn encoding(v: ValueView) -> Seq<u8>
    decreases v, 0nat,
{
    match v {
        ValueView::Undefined => seq![marker::UNDEFINED],
        ValueView::Null => seq![marker::NULL],
        ValueView::Boolean(b) => if b {
            seq![marker::TRUE]
        } else {
            seq![marker::FALSE]
        },
        ValueView::Integer(i) => seq![marker::INTEGER] + u29_bytes(integer_magnitude(i)),
        ValueView::Double(bits) => seq![marker::DOUBLE] + u64_be(bits),
        ValueView::String(s) => seq![marker::STRING] + text_bytes(s),
        ValueView::XmlDoc(s) => seq![marker::XML_DOC] + text_bytes(s),
        ValueView::Date { unixtime } => seq![marker::DATE] + u29_bytes(1) + u64_be(
            spec_double_of_millis(unixtime),
        ),
        ValueView::Object { name, sealed_count, pairs } => {
            let n = sealed_len(sealed_count, pairs);
            seq![marker::OBJECT] + magnitude_bytes(object_header(sealed_count, pairs))
                + text_bytes(class_name_text(name)) + keys_bytes(pairs, n) + property_values_encoding(
                pairs,
                n,
            ) + (if sealed_count < pairs.len() {
                properties_encoding(pairs, n, pairs.len() as int) + text_bytes(Seq::empty())
            } else {
                Seq::empty()
            })
        },
        ValueView::Xml(s) => seq![marker::XML] + text_bytes(s),
        ValueView::Array { assoc_entries, dense_entries } => seq![marker::ARRAY] + magnitude_bytes(
            literal_header(dense_entries.len()),
        ) + properties_encoding(assoc_entries, 0, assoc_entries.len() as int) + text_bytes(
            Seq::empty(),
        ) + values_encoding(dense_entries, dense_entries.len() as int),
        ValueView::ByteArray(bytes) => seq![marker::BYTE_ARRAY] + magnitude_bytes(
            literal_header(bytes.len()),
        ) + bytes,
        ValueView::IntVector { is_fixed, entries } => seq![marker::VECTOR_INT] + magnitude_bytes(
            literal_header(entries.len()),
        ) + seq![flag_byte(is_fixed)] + ints_bytes(entries, entries.len() as int),
        ValueView::UintVector { is_fixed, entries } => seq![marker::VECTOR_UINT] + magnitude_bytes(
            literal_header(entries.len()),
        ) + seq![flag_byte(is_fixed)] + uints_bytes(entries, entries.len() as int),
        ValueView::DoubleVector { is_fixed, entries } => seq![marker::VECTOR_DOUBLE]
            + magnitude_bytes(literal_header(entries.len())) + seq![flag_byte(is_fixed)]
            + doubles_bytes(entries, entries.len() as int),
        ValueView::ObjectVector { name, is_fixed, entries } => seq![marker::VECTOR_OBJECT]
            + magnitude_bytes(literal_header(entries.len())) + seq![flag_byte(is_fixed)]
            + text_bytes(element_type_text(name)) + values_encoding(entries, entries.len() as int),
        ValueView::Dictionary { is_weak, entries } => seq![marker::DICTIONARY] + magnitude_bytes(
            literal_header(entries.len()),
        ) + seq![flag_byte(is_weak)] + entries_encoding(entries, entries.len() as int),
    }
}

/// The first `hi` values of a list, one after another.
pub open spec fn values_encoding(values: Seq<ValueView>, hi: int) -> Seq<u8>
    decreases values, hi,
{
    if hi <= 0 || hi > values.len() {
        Seq::empty()
    } else {
        values_encoding(values, hi - 1) + encoding(values[hi - 1])
    }
}

/// The values of the first `hi` pairs, one after another, without their
/// keys: the sealed fields of an object.
pub open spec fn property_values_encoding(pairs: Seq<Property>, hi: int) -> Seq<u8>
    decreases pairs, hi,
{
    if hi <= 0 || hi > pairs.len() {
        Seq::empty()
    } else {
        property_values_encoding(pairs, hi - 1) + encoding(pairs[hi - 1].value)
    }
}

/// The pairs from `lo` up to `hi`, each as its key and its value.
pub open spec fn properties_encoding(pairs: Seq<Property>, lo: int, hi: int) -> Seq<u8>
    decreases pairs, hi - lo,
{
    if hi <= lo || lo < 0 || hi > pairs.len() {
        Seq::empty()
    } else {
        properties_encoding(pairs, lo, hi - 1) + text_bytes(pairs[hi - 1].key) + encoding(
            pairs[hi - 1].value,
        )
    }
}

/// The first `hi` entries of a dictionary, each as its key and its value.
pub open spec fn entries_encoding(entries: Seq<Entry>, hi: int) -> Seq<u8>
    decreases entries, hi,
{
    if hi <= 0 || hi > entries.len() {
        Seq::empty()
    } else {
        entries_encoding(entries, hi - 1) + encoding(entries[hi - 1].key) + encoding(
            entries[hi - 1].value,
        )
    }
}

/// The first magnitude, in the order of writing, that does not fit the
/// variable-length integer format; none where the value can be encoded.
pub open spec fn overflow(v: ValueView) -> Option<u32>
    decreases v, 0nat,
{
    match v {
        ValueView::Undefined => None,
        ValueView::Null => None,
        ValueView::Boolean(_) => None,
        ValueView::Integer(i) => magnitude_overflow(integer_magnitude(i) as int),
        ValueView::Double(_) => None,
        ValueView::String(s) => text_overflow(s),
        ValueView::XmlDoc(s) => text_overflow(s),
        ValueView::Date { unixtime } => None,
        ValueView::Object { name, sealed_count, pairs } => {
            let n = sealed_len(sealed_count, pairs);
            first_of(
                magnitude_overflow(object_header(sealed_count, pairs)),
                first_of(
                    text_overflow(class_name_text(name)),
                    first_of(
                        keys_overflow(pairs, n),
                        first_of(
                            property_values_overflow(pairs, n),
                            properties_overflow(pairs, n, pairs.len() as int),
                        ),
                    ),
                ),
            )
        },
        ValueView::Xml(s) => text_overflow(s),
        ValueView::Array { assoc_entries, dense_entries } => first_of(
            magnitude_overflow(literal_header(dense_entries.len())),
            first_of(
                properties_overflow(assoc_entries, 0, assoc_entries.len() as int),
                values_overflow(dense_entries, dense_entries.len() as int),
            ),
        ),
        ValueView::ByteArray(bytes) => magnitude_overflow(literal_header(bytes.len())),
        ValueView::IntVector { is_fixed, entries } => magnitude_overflow(
            literal_header(entries.len()),
        ),
        ValueView::UintVector { is_fixed, entries } => magnitude_overflow(
            literal_header(entries.len()),
        ),
        ValueView::DoubleVector { is_fixed, entries } => magnitude_overflow(
            literal_header(entries.len()),
        ),
        ValueView::ObjectVector { name, is_fixed, entries } => first_of(
            magnitude_overflow(literal_header(entries.len())),
            first_of(
                text_overflow(element_type_text(name)),
                values_overflow(entries, entries.len() as int),
            ),
        ),
        ValueView::Dictionary { is_weak, entries } => first_of(
            magnitude_overflow(literal_header(entries.len())),
            entries_overflow(entries, entries.len() as int),
        ),
    }
}

/// The first overflow among the first `hi` values of a list.
pub open spec fn values_overflow(values: Seq<ValueView>, hi: int) -> Option<u32>
    decreases values, hi,
{
    if hi <= 0 || hi > values.len() {
        None
    } else {
        first_of(values_overflow(values, hi - 1), overflow(values[hi - 1]))
    }
}

/// The first overflow among the values of the first `hi` pairs.
pub open spec fn property_values_overflow(pairs: Seq<Property>, hi: int) -> Option<u32>
    decreases pairs, hi,
{
    if hi <= 0 || hi > pairs.len() {
        None
    } else {
        first_of(property_values_overflow(pairs, hi - 1), overflow(pairs[hi - 1].value))
    }
}

/// The first overflow among the keys and values of the pairs from `lo` up
/// to `hi`.
pub open spec fn properties_overflow(pairs: Seq<Property>, lo: int, hi: int) -> Option<u32>
    decreases pairs, hi - lo,
{
    if hi <= lo || lo < 0 || hi > pairs.len() {
        None
    } else {
        first_of(
            properties_overflow(pairs, lo, hi - 1),
            first_of(text_overflow(pairs[hi - 1].key), overflow(pairs[hi - 1].value)),
        )
    }
}

/// The first overflow among the first `hi` entries of a dictionary.
pub open spec fn entries_overflow(entries: Seq<Entry>, hi: int) -> Option<u32>
    decreases entries, hi,
{
    if hi <= 0 || hi > entries.len() {
        None
    } else {
        first_of(
            entries_overflow(entries, hi - 1),
            first_of(overflow(entries[hi - 1].key), overflow(entries[hi - 1].value)),
        )
    }
}

/// Once an overflow has been met among the first keys, it stays the first.
pub proof fn lemma_keys_overflow_stable(pairs: Seq<Property>, k: int, hi: int)
    requires
        0 <= k <= hi,
        keys_overflow(pairs, k) is Some,
    ensures
        keys_overflow(pairs, hi) == keys_overflow(pairs, k),
    decreases hi - k,
{
    if hi > k {
        lemma_keys_overflow_stable(pairs, k, hi - 1);
    }
}

/// Once an overflow has been met among the first values, it stays the
/// first.
pub proof fn lemma_values_overflow_stable(values: Seq<ValueView>, k: int, hi: int)
    requires
        0 <= k <= hi <= values.len(),
        values_overflow(values, k) is Some,
    ensures
        values_overflow(values, hi) == values_overflow(values, k),
    decreases hi - k,
{
    if hi > k {
        lemma_values_overflow_stable(values, k, hi - 1);
    }
}

/// Once an overflow has been met among the values of the first pairs, it
/// stays the first.
pub proof fn lemma_property_values_overflow_stable(pairs: Seq<Property>, k: int, hi: int)
    requires
        0 <= k <= hi <= pairs.len(),
        property_values_overflow(pairs, k) is Some,
    ensures
        property_values_overflow(pairs, hi) == property_values_overflow(pairs, k),
    decreases hi - k,
{
    if hi > k {
        lemma_property_values_overflow_stable(pairs, k, hi - 1);
    }
}

/// Once an overflow has been met among the first pairs, it stays the
/// first.
pub proof fn lemma_properties_overflow_stable(pairs: Seq<Property>, lo: int, k: int, hi: int)
    requires
        0 <= lo <= k <= hi <= pairs.len(),
        properties_overflow(pairs, lo, k) is Some,
    ensures
        properties_overflow(pairs, lo, hi) == properties_overflow(pairs, lo, k),
    decreases hi - k,
{
    if hi > k {
        lemma_properties_overflow_stable(pairs, lo, k, hi - 1);
    }
}

/// Once an overflow has been met among the first entries, it stays the
/// first.
pub proof fn lemma_entries_overflow_stable(entries: Seq<Entry>, k: int, hi: int)
    requires
        0 <= k <= hi <= entries.len(),
        entries_overflow(entries, k) is Some,
    ensures
        entries_overflow(entries, hi) == entries_overflow(entries, k),
    decreases hi - k,
{
    if hi > k {
        lemma_entries_overflow_stable(entries, k, hi - 1);
    }
}

} // verus!
