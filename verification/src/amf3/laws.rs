//! What holds of the AMF3 encoding and the AMF3 grammar together: what the
//! encoder writes, the decoder reads back.

use vstd::prelude::*;
use vstd::utf8::encode_utf8;
use vstd::utf8::encode_utf8_decode_utf8;
use vstd::utf8::encode_utf8_valid_utf8;
use crate::amf3::grammar;
use crate::amf3::grammar::advanced;
use crate::amf3::grammar::decode_integer;
use crate::amf3::grammar::decode_u29;
use crate::amf3::grammar::decode_utf8;
use crate::amf3::grammar::decode_value;
use crate::amf3::grammar::done;
use crate::amf3::grammar::follows;
use crate::amf3::grammar::integer_of_magnitude;
use crate::amf3::grammar::remaining;
use crate::amf3::grammar::State;
use crate::amf3::grammar::Step;
use crate::amf3::marker;
use crate::amf3::model::class_name_text;
use crate::amf3::model::doubles_bytes;
use crate::amf3::model::element_type_text;
use crate::amf3::model::encoding;
use crate::amf3::model::entries_encoding;
use crate::amf3::model::entries_overflow;
use crate::amf3::model::Entry;
use crate::amf3::model::flag_byte;
use crate::amf3::model::integer_magnitude;
use crate::amf3::model::ints_bytes;
use crate::amf3::model::keys_bytes;
use crate::amf3::model::keys_overflow;
use crate::amf3::model::literal_header;
use crate::amf3::model::magnitude_bytes;
use crate::amf3::model::magnitude_overflow;
use crate::amf3::model::object_header;
use crate::amf3::model::overflow;
use crate::amf3::model::properties_encoding;
use crate::amf3::model::properties_overflow;
use crate::amf3::model::Property;
use crate::amf3::model::property_values_encoding;
use crate::amf3::model::property_values_overflow;
use crate::amf3::model::text_bytes;
use crate::amf3::model::text_overflow;
use crate::amf3::model::u29_bytes;
use crate::amf3::model::U29_LIMIT;
use crate::amf3::model::uints_bytes;
use crate::amf3::model::values_encoding;
use crate::amf3::model::values_overflow;
use crate::amf3::model::ValueView;
use crate::double::spec_double_of_millis;
use crate::double::spec_millis_of_double;
use crate::error::DecodeErrorView;
use crate::Pair;
use crate::wire::be_u32;
use crate::wire::be_u64;
use crate::wire::bits_of_i32;
use crate::wire::bytes_at;
use crate::wire::holds;
use crate::wire::i32_of_bits;
use crate::wire::lemma_holds_bytes;
use crate::wire::lemma_holds_part;
use crate::wire::lemma_holds_split;
use crate::wire::lemma_i32_round_trip;
use crate::wire::lemma_u32_round_trip;
use crate::wire::lemma_u64_round_trip;
use crate::wire::u32_be;
use crate::wire::u64_be;

verus! {

/// The largest magnitude that is read back as it was written: 29 bits.
pub const U29_MAX: u32 = 0x1FFF_FFFF;

/// The magnitude that is read back where `n` was written: the low 29 bits
/// of `n`.
pub open spec fn u29_read_back(n: u32) -> u32 {
    (n % 0x2000_0000) as u32
}

/// The number that the decoder puts together from the digits of a
/// magnitude is the magnitude, or its low 29 bits in the form of four bytes.
#[verifier::rlimit(50)]
proof fn lemma_u29_digits(n: u32)
    requires
        n < U29_LIMIT,
    ensures
        0x80 <= n < 0x4000 ==> (n / 0x80) * 0x80 + n % 0x80 == n && n / 0x80 < 0x80,
        0x4000 <= n < 0x20_0000 ==> ((n / 0x4000) * 0x80 + n / 0x80 % 0x80) * 0x80 + n % 0x80 == n
            && n / 0x4000 < 0x80,
        0x20_0000 <= n ==> (((n / 0x40_0000 % 0x80) * 0x80 + n / 0x8000 % 0x80) * 0x80 + n / 0x100
            % 0x80) * 0x100 + n % 0x100 == n % 0x2000_0000,
{
    assert(0x80 <= n < 0x4000 ==> (n / 0x80) * 0x80 + n % 0x80 == n && n / 0x80 < 0x80)
        by (bit_vector);
    assert(0x4000 <= n < 0x20_0000 ==> ((n / 0x4000) * 0x80 + n / 0x80 % 0x80) * 0x80 + n % 0x80
        == n && n / 0x4000 < 0x80) by (bit_vector);
    assert(0x20_0000 <= n < 0x4000_0000 ==> (((n / 0x40_0000 % 0x80) * 0x80 + n / 0x8000 % 0x80)
        * 0x80 + n / 0x100 % 0x80) * 0x100 + n % 0x100 == n % 0x2000_0000) by (bit_vector);
}

/// A magnitude below 2^30 is written in one to four bytes, and the
/// decoder reads from them the low 29 bits of the magnitude: the magnitude
/// itself where it is below 2^29. The forms change at 0x80, 0x4000 and
/// 0x200000.
#[verifier::rlimit(50)]
pub proof fn lemma_u29_round_trip(n: u32, bytes: Seq<u8>, st: State)
    requires
        n < U29_LIMIT,
        holds(bytes, st.pos, u29_bytes(n)),
    ensures
        1 <= u29_bytes(n).len() <= 4,
        u29_bytes(n).len() == (if n < 0x80 {
            1int
        } else if n < 0x4000 {
            2int
        } else if n < 0x20_0000 {
            3int
        } else {
            4int
        }),
        decode_u29(bytes, st) == done(u29_read_back(n), st.skip(u29_bytes(n).len() as int)),
        n <= U29_MAX ==> u29_read_back(n) == n,
{
    lemma_holds_bytes(bytes, st.pos, u29_bytes(n));
    lemma_u29_digits(n);
    let enc = u29_bytes(n);
    let p = st.pos;
    if n < 0x80 {
        assert(bytes[p] == enc[0]);
    } else if n < 0x4000 {
        assert(bytes[p] == enc[0]);
        assert(bytes[p + 1] == enc[1]);
        let d0 = (n / 0x80) as int;
        let d1 = (n % 0x80) as int;
        assert(bytes[p] == d0 + 0x80);
        assert(bytes[p + 1] == d1);
    } else if n < 0x20_0000 {
        assert(bytes[p] == enc[0]);
        assert(bytes[p + 1] == enc[1]);
        assert(bytes[p + 2] == enc[2]);
        let d0 = (n / 0x4000) as int;
        let d1 = (n / 0x80 % 0x80) as int;
        let d2 = (n % 0x80) as int;
        assert(bytes[p] == d0 + 0x80);
        assert(bytes[p + 1] == d1 + 0x80);
        assert(bytes[p + 2] == d2);
    } else {
        assert(bytes[p] == enc[0]);
        assert(bytes[p + 1] == enc[1]);
        assert(bytes[p + 2] == enc[2]);
        assert(bytes[p + 3] == enc[3]);
        let d0 = (n / 0x40_0000 % 0x80) as int;
        let d1 = (n / 0x8000 % 0x80) as int;
        let d2 = (n / 0x100 % 0x80) as int;
        let d3 = (n % 0x100) as int;
        assert(bytes[p] == d0 + 0x80);
        assert(bytes[p + 1] == d1 + 0x80);
        assert(bytes[p + 2] == d2 + 0x80);
        assert(bytes[p + 3] == d3);
    }
}

/// A magnitude of 2^30 or more cannot be written.
pub proof fn lemma_u29_overflow(n: u32)
    requires
        n >= U29_LIMIT,
    ensures
        magnitude_overflow(n as int) == Some(n),
{
}

/// An integer of 29 bits, from -2^28 up to 2^28 - 1, is read back from
/// the magnitude that it is written as; the negative ones are written as
/// magnitudes from 2^28 on.
#[verifier::rlimit(50)]
pub proof fn lemma_integer_round_trip(i: i32)
    requires
        -0x1000_0000 <= i < 0x1000_0000,
    ensures
        integer_magnitude(i) <= U29_MAX,
        i < 0 ==> integer_magnitude(i) >= 0x1000_0000,
        integer_of_magnitude(integer_magnitude(i)) == i,
{
}

/// Whether a text is short enough for its length to be read back: below
/// 2^28 bytes of UTF-8.
pub open spec fn text_round_trips(s: Seq<char>) -> bool {
    encode_utf8(s).len() < 0x1000_0000
}

/// The string table after a literal string: one entry more, unless the
/// string is empty.
pub open spec fn interned(st: State, s: Seq<char>) -> State {
    if s.len() == 0 {
        st
    } else {
        State { strings: st.strings.push(s), ..st }
    }
}

/// A literal string is read back as it was written.
#[verifier::rlimit(50)]
pub proof fn lemma_text_round_trip(s: Seq<char>, bytes: Seq<u8>, st: State)
    requires
        text_round_trips(s),
        holds(bytes, st.pos, text_bytes(s)),
    ensures
        text_overflow(s) is None,
        text_bytes(s).len() >= 1,
        decode_utf8(bytes, st) == done(s, interned(st, s).skip(text_bytes(s).len() as int)),
{
    let payload = encode_utf8(s);
    let header = literal_header(payload.len());
    let head = magnitude_bytes(header);
    lemma_holds_split(bytes, st.pos, head, payload);
    lemma_u29_round_trip(header as u32, bytes, st);
    lemma_holds_bytes(bytes, st.pos + head.len(), payload);
    encode_utf8_valid_utf8(s);
    encode_utf8_decode_utf8(s);
    assert(s.len() == 0 <==> payload.len() == 0) by {
        if s.len() == 0 {
            assert(s =~= Seq::<char>::empty());
            reveal_with_fuel(encode_utf8, 1);
        } else if payload.len() == 0 {
            assert(payload =~= Seq::<u8>::empty());
            reveal_with_fuel(vstd::utf8::decode_utf8, 1);
            assert(vstd::utf8::decode_utf8(payload).len() == 0);
        }
    }
    let after_head = st.skip(head.len() as int);
    assert(decode_u29(bytes, st) == done(header as u32, after_head));
    let end = interned(st, s).skip(text_bytes(s).len() as int);
    assert(decode_utf8(bytes, st).state =~= end);
}

/// Whether a value is read back as it was written.
///
/// That is so unless a length or an integer in it is too large for its
/// magnitude to be read back, a date does not survive the conversion to a
/// double and back, an object counts more sealed fields than it has pairs
/// or has a class name that is empty (which the decoder takes for none), a
/// dynamic or an associative key is empty (which ends the pairs), or the
/// element type of an object vector is an asterisk (which the decoder takes
/// for none).
pub open spec fn round_trips(v: ValueView) -> bool
    decreases v, 0nat,
{
    match v {
        ValueView::Undefined => true,
        ValueView::Null => true,
        ValueView::Boolean(_) => true,
        ValueView::Integer(i) => -0x1000_0000 <= i < 0x1000_0000,
        ValueView::Double(_) => true,
        ValueView::String(s) => text_round_trips(s),
        ValueView::XmlDoc(s) => text_round_trips(s),
        ValueView::Date { unixtime } => spec_millis_of_double(spec_double_of_millis(unixtime))
            == unixtime,
        ValueView::Object { name, sealed_count, pairs } => {
            &&& sealed_count <= pairs.len()
            &&& sealed_count < 0x200_0000
            &&& name != Some(Seq::<char>::empty())
            &&& text_round_trips(class_name_text(name))
            &&& keys_round_trip(pairs, sealed_count as int)
            &&& property_values_round_trip(pairs, sealed_count as int)
            &&& properties_round_trip(pairs, sealed_count as int, pairs.len() as int)
        },
        ValueView::Xml(s) => text_round_trips(s),
        ValueView::Array { assoc_entries, dense_entries } => {
            &&& dense_entries.len() < 0x1000_0000
            &&& properties_round_trip(assoc_entries, 0, assoc_entries.len() as int)
            &&& values_round_trip(dense_entries, dense_entries.len() as int)
        },
        ValueView::ByteArray(bytes) => bytes.len() < 0x1000_0000,
        ValueView::IntVector { is_fixed, entries } => entries.len() < 0x1000_0000,
        ValueView::UintVector { is_fixed, entries } => entries.len() < 0x1000_0000,
        ValueView::DoubleVector { is_fixed, entries } => entries.len() < 0x1000_0000,
        ValueView::ObjectVector { name, is_fixed, entries } => {
            &&& entries.len() < 0x1000_0000
            &&& name != Some(seq!['*'])
            &&& text_round_trips(element_type_text(name))
            &&& values_round_trip(entries, entries.len() as int)
        },
        ValueView::Dictionary { is_weak, entries } => {
            &&& entries.len() < 0x1000_0000
            &&& entries_round_trip(entries, entries.len() as int)
        },
    }
}

/// Whether the keys of the first `hi` pairs are read back as sealed field
/// names.
pub open spec fn keys_round_trip(pairs: Seq<Property>, hi: int) -> bool
    decreases hi,
{
    if hi <= 0 || hi > pairs.len() {
        true
    } else {
        keys_round_trip(pairs, hi - 1) && text_round_trips(pairs[hi - 1].key)
    }
}

/// Whether the first `hi` values of a list are read back.
pub open spec fn values_round_trip(values: Seq<ValueView>, hi: int) -> bool
    decreases values, hi,
{
    if hi <= 0 || hi > values.len() {
        true
    } else {
        values_round_trip(values, hi - 1) && round_trips(values[hi - 1])
    }
}

/// Whether the values of the first `hi` pairs are read back.
pub open spec fn property_values_round_trip(pairs: Seq<Property>, hi: int) -> bool
    decreases pairs, hi,
{
    if hi <= 0 || hi > pairs.len() {
        true
    } else {
        property_values_round_trip(pairs, hi - 1) && round_trips(pairs[hi - 1].value)
    }
}

/// Whether the pairs from `lo` up to `hi` are read back as associative or
/// dynamic pairs: their keys are not empty.
pub open spec fn properties_round_trip(pairs: Seq<Property>, lo: int, hi: int) -> bool
    decreases pairs, hi - lo,
{
    if hi <= lo || lo < 0 || hi > pairs.len() {
        true
    } else {
        &&& properties_round_trip(pairs, lo, hi - 1)
        &&& pairs[hi - 1].key.len() > 0
        &&& text_round_trips(pairs[hi - 1].key)
        &&& round_trips(pairs[hi - 1].value)
    }
}

/// Whether the first `hi` entries of a dictionary are read back.
pub open spec fn entries_round_trip(entries: Seq<Entry>, hi: int) -> bool
    decreases entries, hi,
{
    if hi <= 0 || hi > entries.len() {
        true
    } else {
        &&& entries_round_trip(entries, hi - 1)
        &&& round_trips(entries[hi - 1].key)
        &&& round_trips(entries[hi - 1].value)
    }
}

/// Where the first keys are read back, each of them is.
proof fn lemma_keys_at(pairs: Seq<Property>, hi: int, i: int)
    requires
        0 <= i < hi <= pairs.len(),
        keys_round_trip(pairs, hi),
    ensures
        text_round_trips(pairs[i].key),
        keys_round_trip(pairs, i + 1),
    decreases hi,
{
    if i < hi - 1 {
        lemma_keys_at(pairs, hi - 1, i);
    }
}

/// Where the first values are read back, each of them is.
proof fn lemma_values_at(values: Seq<ValueView>, hi: int, i: int)
    requires
        0 <= i < hi <= values.len(),
        values_round_trip(values, hi),
    ensures
        round_trips(values[i]),
    decreases hi,
{
    if i < hi - 1 {
        lemma_values_at(values, hi - 1, i);
    }
}

/// Where the values of the first pairs are read back, each of them is.
proof fn lemma_property_values_at(pairs: Seq<Property>, hi: int, i: int)
    requires
        0 <= i < hi <= pairs.len(),
        property_values_round_trip(pairs, hi),
    ensures
        round_trips(pairs[i].value),
    decreases hi,
{
    if i < hi - 1 {
        lemma_property_values_at(pairs, hi - 1, i);
    }
}

/// Where the pairs of a range are read back, each of them is.
proof fn lemma_properties_at(pairs: Seq<Property>, lo: int, hi: int, i: int)
    requires
        0 <= lo <= i < hi <= pairs.len(),
        properties_round_trip(pairs, lo, hi),
    ensures
        pairs[i].key.len() > 0,
        text_round_trips(pairs[i].key),
        round_trips(pairs[i].value),
    decreases hi,
{
    if i < hi - 1 {
        lemma_properties_at(pairs, lo, hi - 1, i);
    }
}

/// Where the first entries are read back, each of them is.
proof fn lemma_entries_at(entries: Seq<Entry>, hi: int, i: int)
    requires
        0 <= i < hi <= entries.len(),
        entries_round_trip(entries, hi),
    ensures
        round_trips(entries[i].key),
        round_trips(entries[i].value),
    decreases hi,
{
    if i < hi - 1 {
        lemma_entries_at(entries, hi - 1, i);
    }
}

/// Where the first `hi` keys stand in the input, the first `i` of them
/// stand there too.
proof fn lemma_keys_prefix(pairs: Seq<Property>, i: int, hi: int, bytes: Seq<u8>, base: int)
    requires
        0 <= i <= hi,
        holds(bytes, base, keys_bytes(pairs, hi)),
    ensures
        holds(bytes, base, keys_bytes(pairs, i)),
    decreases hi - i,
{
    if i < hi {
        lemma_holds_split(bytes, base, keys_bytes(pairs, hi - 1), text_bytes(pairs[hi - 1].key));
        lemma_keys_prefix(pairs, i, hi - 1, bytes, base);
    }
}

/// Where the first `hi` values stand in the input, the first `i` of them
/// stand there too.
proof fn lemma_values_prefix(values: Seq<ValueView>, i: int, hi: int, bytes: Seq<u8>, base: int)
    requires
        0 <= i <= hi <= values.len(),
        holds(bytes, base, values_encoding(values, hi)),
    ensures
        holds(bytes, base, values_encoding(values, i)),
    decreases hi - i,
{
    if i < hi {
        lemma_holds_split(bytes, base, values_encoding(values, hi - 1), encoding(values[hi - 1]));
        lemma_values_prefix(values, i, hi - 1, bytes, base);
    }
}

/// Where the values of the first `hi` pairs stand in the input, those of
/// the first `i` stand there too.
proof fn lemma_property_values_prefix(
    pairs: Seq<Property>,
    i: int,
    hi: int,
    bytes: Seq<u8>,
    base: int,
)
    requires
        0 <= i <= hi <= pairs.len(),
        holds(bytes, base, property_values_encoding(pairs, hi)),
    ensures
        holds(bytes, base, property_values_encoding(pairs, i)),
    decreases hi - i,
{
    if i < hi {
        lemma_holds_split(
            bytes,
            base,
            property_values_encoding(pairs, hi - 1),
            encoding(pairs[hi - 1].value),
        );
        lemma_property_values_prefix(pairs, i, hi - 1, bytes, base);
    }
}

/// Where the pairs from `lo` up to `hi` stand in the input, those up to
/// `i` stand there too.
proof fn lemma_properties_prefix(
    pairs: Seq<Property>,
    lo: int,
    i: int,
    hi: int,
    bytes: Seq<u8>,
    base: int,
)
    requires
        0 <= lo <= i <= hi <= pairs.len(),
        holds(bytes, base, properties_encoding(pairs, lo, hi)),
    ensures
        holds(bytes, base, properties_encoding(pairs, lo, i)),
    decreases hi - i,
{
    if i < hi {
        lemma_holds_split(
            bytes,
            base,
            properties_encoding(pairs, lo, hi - 1) + text_bytes(pairs[hi - 1].key),
            encoding(pairs[hi - 1].value),
        );
        lemma_holds_split(
            bytes,
            base,
            properties_encoding(pairs, lo, hi - 1),
            text_bytes(pairs[hi - 1].key),
        );
        lemma_properties_prefix(pairs, lo, i, hi - 1, bytes, base);
    }
}

/// Where the first `hi` entries stand in the input, the first `i` of them
/// stand there too.
proof fn lemma_entries_prefix(entries: Seq<Entry>, i: int, hi: int, bytes: Seq<u8>, base: int)
    requires
        0 <= i <= hi <= entries.len(),
        holds(bytes, base, entries_encoding(entries, hi)),
    ensures
        holds(bytes, base, entries_encoding(entries, i)),
    decreases hi - i,
{
    if i < hi {
        lemma_holds_split(
            bytes,
            base,
            entries_encoding(entries, hi - 1) + encoding(entries[hi - 1].key),
            encoding(entries[hi - 1].value),
        );
        lemma_holds_split(
            bytes,
            base,
            entries_encoding(entries, hi - 1),
            encoding(entries[hi - 1].key),
        );
        lemma_entries_prefix(entries, i, hi - 1, bytes, base);
    }
}

/// Whether a step has read `value` from the `len` bytes at the position
/// of `st`.
pub open spec fn read_back<T>(step: Step<T>, value: T, bytes: Seq<u8>, st: State, len: int) -> bool {
    &&& step.result == Ok::<T, DecodeErrorView>(value)
    &&& step.state.pos == st.pos + len
    &&& follows(bytes, st, step.state)
}

/// What the decoder does after each marker.
#[verifier::rlimit(50)]
proof fn lemma_dispatch(bytes: Seq<u8>, st: State)
    ensures
        ({
            let head = grammar::read_u8(bytes, st);
            let st1 = head.state;
            let step = decode_value(bytes, st);
            match head.result {
                Err(e) => step == grammar::fail::<ValueView>(e, st1),
                Ok(m) => {
                    &&& m == marker::UNDEFINED ==> step == done(ValueView::Undefined, st1)
                    &&& m == marker::NULL ==> step == done(ValueView::Null, st1)
                    &&& m == marker::FALSE ==> step == done(ValueView::Boolean(false), st1)
                    &&& m == marker::TRUE ==> step == done(ValueView::Boolean(true), st1)
                    &&& m == marker::INTEGER ==> step == decode_integer(bytes, st1)
                    &&& m == marker::DOUBLE ==> step == grammar::decode_double(bytes, st1)
                    &&& m == marker::STRING ==> step == grammar::decode_string(bytes, st1)
                    &&& m == marker::XML_DOC ==> step == grammar::decode_xml_doc(bytes, st1)
                    &&& m == marker::DATE ==> step == grammar::decode_date(bytes, st1)
                    &&& m == marker::XML ==> step == grammar::decode_xml(bytes, st1)
                    &&& m == marker::ARRAY ==> step == grammar::decode_array(bytes, st1)
                    &&& m == marker::BYTE_ARRAY ==> step == grammar::decode_byte_array(bytes, st1)
                    &&& m == marker::OBJECT ==> step == grammar::decode_object(bytes, st1)
                    &&& m == marker::VECTOR_INT ==> step == grammar::decode_vector_int(bytes, st1)
                    &&& m == marker::VECTOR_UINT ==> step == grammar::decode_vector_uint(bytes, st1)
                    &&& m == marker::VECTOR_DOUBLE ==> step == grammar::decode_vector_double(
                        bytes,
                        st1,
                    )
                    &&& m == marker::VECTOR_OBJECT ==> step == grammar::decode_vector_object(
                        bytes,
                        st1,
                    )
                    &&& m == marker::DICTIONARY ==> step == grammar::decode_dictionary(bytes, st1)
                    &&& m > marker::DICTIONARY ==> step == grammar::fail::<ValueView>(
                        DecodeErrorView::UnknownType { marker: m },
                        st1,
                    )
                },
            }
        }),
{
    reveal_with_fuel(grammar::decode_value, 1);
    reveal_with_fuel(grammar::decode_array, 1);
    reveal_with_fuel(grammar::decode_object, 1);
    reveal_with_fuel(grammar::decode_vector_object, 1);
    reveal_with_fuel(grammar::decode_dictionary, 1);
}

/// One step of reading a list of values.
proof fn lemma_unfold_values(bytes: Seq<u8>, st: State, n: nat, acc: Seq<ValueView>)
    ensures
        grammar::decode_values(bytes, st, n, acc) == (if n == 0 {
            done(acc, st)
        } else {
            let value = decode_value(bytes, st);
            match value.result {
                Err(e) => grammar::fail(e, value.state),
                Ok(v) => if advanced(bytes, st, value.state) {
                    grammar::decode_values(bytes, value.state, (n - 1) as nat, acc.push(v))
                } else {
                    grammar::fail(DecodeErrorView::Io, value.state)
                },
            }
        }),
{
    reveal_with_fuel(grammar::decode_values, 1);
    reveal_with_fuel(grammar::decode_value, 1);
}

/// One step of reading pairs.
proof fn lemma_unfold_pairs(bytes: Seq<u8>, st: State, acc: Seq<Property>)
    ensures
        grammar::decode_pairs(bytes, st, acc) == ({
            let key = decode_utf8(bytes, st);
            match key.result {
                Err(e) => grammar::fail(e, key.state),
                Ok(k) => if k.len() == 0 {
                    done(acc, key.state)
                } else if !advanced(bytes, st, key.state) {
                    grammar::fail(DecodeErrorView::Io, key.state)
                } else {
                    let value = decode_value(bytes, key.state);
                    match value.result {
                        Err(e) => grammar::fail(e, value.state),
                        Ok(v) => if advanced(bytes, key.state, value.state) {
                            grammar::decode_pairs(
                                bytes,
                                value.state,
                                acc.push(Pair { key: k, value: v }),
                            )
                        } else {
                            grammar::fail(DecodeErrorView::Io, value.state)
                        },
                    }
                },
            }
        }),
{
    reveal_with_fuel(grammar::decode_pairs, 1);
    reveal_with_fuel(grammar::decode_value, 1);
}

/// One step of reading the entries of a dictionary.
proof fn lemma_unfold_entries(bytes: Seq<u8>, st: State, n: nat, acc: Seq<Entry>)
    ensures
        grammar::decode_entries(bytes, st, n, acc) == (if n == 0 {
            done(acc, st)
        } else {
            let key = decode_value(bytes, st);
            match key.result {
                Err(e) => grammar::fail(e, key.state),
                Ok(k) => if !advanced(bytes, st, key.state) {
                    grammar::fail(DecodeErrorView::Io, key.state)
                } else {
                    let value = decode_value(bytes, key.state);
                    match value.result {
                        Err(e) => grammar::fail(e, value.state),
                        Ok(v) => if advanced(bytes, key.state, value.state) {
                            grammar::decode_entries(
                                bytes,
                                value.state,
                                (n - 1) as nat,
                                acc.push(Pair { key: k, value: v }),
                            )
                        } else {
                            grammar::fail(DecodeErrorView::Io, value.state)
                        },
                    }
                },
            }
        }),
{
    reveal_with_fuel(grammar::decode_entries, 1);
    reveal_with_fuel(grammar::decode_value, 1);
}

/// The marker of a value that stands in the input can be read, and what
/// follows the marker stands behind it.
proof fn lemma_marker(bytes: Seq<u8>, st: State, m: u8, rest: Seq<u8>)
    requires
        holds(bytes, st.pos, seq![m] + rest),
    ensures
        grammar::read_u8(bytes, st) == done(m, st.skip(1)),
        holds(bytes, st.pos + 1, rest),
{
    lemma_holds_split(bytes, st.pos, seq![m], rest);
    lemma_holds_bytes(bytes, st.pos, seq![m]);
    assert(bytes[st.pos + 0] == seq![m][0]);
}

/// The values without parts are read back: undefined, null, the
/// booleans, the integers of 29 bits and the doubles.
#[verifier::rlimit(50)]
proof fn lemma_scalar_round_trip(v: ValueView, bytes: Seq<u8>, st: State)
    requires
        v is Undefined || v is Null || v is Boolean || v is Integer || v is Double,
        round_trips(v),
        holds(bytes, st.pos, encoding(v)),
    ensures
        overflow(v) is None,
        read_back(decode_value(bytes, st), v, bytes, st, encoding(v).len() as int),
        encoding(v).len() >= 1,
{
    match v {
        ValueView::Integer(i) => {
            lemma_integer_round_trip(i);
            lemma_marker(bytes, st, marker::INTEGER, u29_bytes(integer_magnitude(i)));
            lemma_dispatch(bytes, st);
            lemma_u29_round_trip(integer_magnitude(i), bytes, st.skip(1));
        },
        ValueView::Double(bits) => {
            lemma_marker(bytes, st, marker::DOUBLE, u64_be(bits));
            lemma_dispatch(bytes, st);
            lemma_holds_bytes(bytes, st.pos + 1, u64_be(bits));
            lemma_u64_round_trip(bits);
        },
        ValueView::Boolean(b) => {
            lemma_marker(
                bytes,
                st,
                if b {
                    marker::TRUE
                } else {
                    marker::FALSE
                },
                Seq::empty(),
            );
            lemma_dispatch(bytes, st);
            assert(encoding(v) =~= encoding(v) + Seq::<u8>::empty());
        },
        ValueView::Undefined => {
            lemma_marker(bytes, st, marker::UNDEFINED, Seq::empty());
            lemma_dispatch(bytes, st);
            assert(encoding(v) =~= encoding(v) + Seq::<u8>::empty());
        },
        _ => {
            lemma_marker(bytes, st, marker::NULL, Seq::empty());
            lemma_dispatch(bytes, st);
            assert(encoding(v) =~= encoding(v) + Seq::<u8>::empty());
        },
    }
}

/// The values that are one text are read back: strings, XML documents
/// and XML.
#[verifier::rlimit(50)]
proof fn lemma_textual_round_trip(v: ValueView, bytes: Seq<u8>, st: State)
    requires
        v is String || v is XmlDoc || v is Xml,
        round_trips(v),
        holds(bytes, st.pos, encoding(v)),
    ensures
        overflow(v) is None,
        read_back(decode_value(bytes, st), v, bytes, st, encoding(v).len() as int),
        encoding(v).len() >= 1,
{
    match v {
        ValueView::String(s) => {
            lemma_marker(bytes, st, marker::STRING, text_bytes(s));
            lemma_dispatch(bytes, st);
            lemma_text_round_trip(s, bytes, st.skip(1));
        },
        ValueView::XmlDoc(s) => {
            lemma_marker(bytes, st, marker::XML_DOC, text_bytes(s));
            lemma_dispatch(bytes, st);
            lemma_plain_text_round_trip(s, bytes, st.skip(1));
        },
        ValueView::Xml(s) => {
            lemma_marker(bytes, st, marker::XML, text_bytes(s));
            lemma_dispatch(bytes, st);
            lemma_plain_text_round_trip(s, bytes, st.skip(1));
        },
        _ => {},
    }
}

/// The header and the bytes of a text are read back, as an XML document
/// is read: its text enters no table.
#[verifier::rlimit(50)]
proof fn lemma_plain_text_round_trip(s: Seq<char>, bytes: Seq<u8>, st: State)
    requires
        text_round_trips(s),
        holds(bytes, st.pos, text_bytes(s)),
    ensures
        text_overflow(s) is None,
        decode_u29(bytes, st).result == Ok::<u32, DecodeErrorView>(
            literal_header(encode_utf8(s).len()) as u32,
        ),
        grammar::read_text(
            bytes,
            decode_u29(bytes, st).state,
            encode_utf8(s).len() as int,
        ) == done(s, st.skip(text_bytes(s).len() as int)),
{
    let payload = encode_utf8(s);
    let header = literal_header(payload.len());
    let head = magnitude_bytes(header);
    lemma_holds_split(bytes, st.pos, head, payload);
    lemma_u29_round_trip(header as u32, bytes, st);
    lemma_holds_bytes(bytes, st.pos + head.len(), payload);
    encode_utf8_valid_utf8(s);
    encode_utf8_decode_utf8(s);
}

/// A date whose milliseconds survive the conversion to a double is read
/// back.
#[verifier::rlimit(50)]
proof fn lemma_date_round_trip(v: ValueView, bytes: Seq<u8>, st: State)
    requires
        v is Date,
        round_trips(v),
        holds(bytes, st.pos, encoding(v)),
    ensures
        overflow(v) is None,
        read_back(decode_value(bytes, st), v, bytes, st, encoding(v).len() as int),
        encoding(v).len() >= 1,
{
    let ms = v->unixtime;
    let bits = spec_double_of_millis(ms);
    assert(encoding(v) =~= seq![marker::DATE] + (u29_bytes(1) + u64_be(bits)));
    lemma_marker(bytes, st, marker::DATE, u29_bytes(1) + u64_be(bits));
    lemma_dispatch(bytes, st);
    lemma_holds_split(bytes, st.pos + 1, u29_bytes(1), u64_be(bits));
    lemma_u29_round_trip(1, bytes, st.skip(1));
    lemma_holds_bytes(bytes, st.pos + 2, u64_be(bits));
    lemma_u64_round_trip(bits);
}

/// The header and the bytes of a byte array are read back.
#[verifier::rlimit(50)]
proof fn lemma_byte_array_body(content: Seq<u8>, bytes: Seq<u8>, st: State)
    requires
        content.len() < 0x1000_0000,
        holds(bytes, st.pos, magnitude_bytes(literal_header(content.len())) + content),
    ensures
        read_back(
            grammar::decode_byte_array(bytes, st),
            ValueView::ByteArray(content),
            bytes,
            st,
            (magnitude_bytes(literal_header(content.len())) + content).len() as int,
        ),
{
    let header = literal_header(content.len());
    let head = magnitude_bytes(header);
    lemma_holds_split(bytes, st.pos, head, content);
    lemma_u29_round_trip(header as u32, bytes, st);
    lemma_holds_bytes(bytes, st.pos + head.len(), content);
    let after_head = st.skip(head.len() as int);
    assert(decode_u29(bytes, st) == done(header as u32, after_head));
    let registered = after_head.register(ValueView::Null);
    assert(registered.objects.len() == st.objects.len() + 1);
    assert(grammar::payload(header as u32) == content.len());
    assert(!grammar::is_reference(header as u32));
}

/// A byte array is read back.
#[verifier::rlimit(50)]
proof fn lemma_byte_array_round_trip(v: ValueView, bytes: Seq<u8>, st: State)
    requires
        v is ByteArray,
        round_trips(v),
        holds(bytes, st.pos, encoding(v)),
    ensures
        overflow(v) is None,
        read_back(decode_value(bytes, st), v, bytes, st, encoding(v).len() as int),
        encoding(v).len() >= 1,
{
    let content = v->ByteArray_0;
    let head = magnitude_bytes(literal_header(content.len()));
    assert(encoding(v) =~= seq![marker::BYTE_ARRAY] + (head + content));
    lemma_marker(bytes, st, marker::BYTE_ARRAY, head + content);
    lemma_dispatch(bytes, st);
    lemma_byte_array_body(content, bytes, st.skip(1));
}

/// The integers of a vector lie four bytes apart.
proof fn lemma_ints_layout(entries: Seq<i32>, hi: int, i: int)
    requires
        0 <= i < hi,
    ensures
        ints_bytes(entries, hi).len() == 4 * hi,
        ints_bytes(entries, hi).subrange(4 * i, 4 * i + 4) == u32_be(bits_of_i32(entries[i])),
    decreases hi,
{
    lemma_u32_round_trip(bits_of_i32(entries[hi - 1]));
    if hi > 1 {
        lemma_ints_layout(entries, hi - 1, if i < hi - 1 { i } else { 0 });
    }
    let before = ints_bytes(entries, hi - 1);
    let last = u32_be(bits_of_i32(entries[hi - 1]));
    assert(before.len() == 4 * (hi - 1)) by {
        if hi == 1 {
            assert(before =~= Seq::<u8>::empty());
        }
    }
    if i < hi - 1 {
        assert((before + last).subrange(4 * i, 4 * i + 4) =~= before.subrange(4 * i, 4 * i + 4));
    } else {
        assert((before + last).subrange(4 * i, 4 * i + 4) =~= last);
    }
}

/// The unsigned integers of a vector lie four bytes apart.
proof fn lemma_uints_layout(entries: Seq<u32>, hi: int, i: int)
    requires
        0 <= i < hi,
    ensures
        uints_bytes(entries, hi).len() == 4 * hi,
        uints_bytes(entries, hi).subrange(4 * i, 4 * i + 4) == u32_be(entries[i]),
    decreases hi,
{
    lemma_u32_round_trip(entries[hi - 1]);
    if hi > 1 {
        lemma_uints_layout(entries, hi - 1, if i < hi - 1 { i } else { 0 });
    }
    let before = uints_bytes(entries, hi - 1);
    let last = u32_be(entries[hi - 1]);
    assert(before.len() == 4 * (hi - 1)) by {
        if hi == 1 {
            assert(before =~= Seq::<u8>::empty());
        }
    }
    if i < hi - 1 {
        assert((before + last).subrange(4 * i, 4 * i + 4) =~= before.subrange(4 * i, 4 * i + 4));
    } else {
        assert((before + last).subrange(4 * i, 4 * i + 4) =~= last);
    }
}

/// The doubles of a vector lie eight bytes apart.
proof fn lemma_doubles_layout(entries: Seq<u64>, hi: int, i: int)
    requires
        0 <= i < hi,
    ensures
        doubles_bytes(entries, hi).len() == 8 * hi,
        doubles_bytes(entries, hi).subrange(8 * i, 8 * i + 8) == u64_be(entries[i]),
    decreases hi,
{
    lemma_u64_round_trip(entries[hi - 1]);
    if hi > 1 {
        lemma_doubles_layout(entries, hi - 1, if i < hi - 1 { i } else { 0 });
    }
    let before = doubles_bytes(entries, hi - 1);
    let last = u64_be(entries[hi - 1]);
    assert(before.len() == 8 * (hi - 1)) by {
        if hi == 1 {
            assert(before =~= Seq::<u8>::empty());
        }
    }
    if i < hi - 1 {
        assert((before + last).subrange(8 * i, 8 * i + 8) =~= before.subrange(8 * i, 8 * i + 8));
    } else {
        assert((before + last).subrange(8 * i, 8 * i + 8) =~= last);
    }
}

/// The header and the flag of a vector of `len` items of `width` bytes
/// are read back where the items stand behind them.
#[verifier::rlimit(50)]
proof fn lemma_vector_head(
    is_fixed: bool,
    len: nat,
    width: int,
    items: Seq<u8>,
    bytes: Seq<u8>,
    st: State,
)
    requires
        len < 0x1000_0000,
        width == 4 || width == 8,
        items.len() == len * width,
        holds(
            bytes,
            st.pos,
            magnitude_bytes(literal_header(len)) + seq![flag_byte(is_fixed)] + items,
        ),
    ensures
        decode_u29(bytes, st) == done(
            literal_header(len) as u32,
            st.skip(magnitude_bytes(literal_header(len)).len() as int),
        ),
        !grammar::is_reference(literal_header(len) as u32),
        grammar::payload(literal_header(len) as u32) == len,
        grammar::vector_items(
            bytes,
            st.skip(magnitude_bytes(literal_header(len)).len() as int).register(ValueView::Null),
            len as int,
            width,
        ) == done(
            is_fixed,
            st.skip(magnitude_bytes(literal_header(len)).len() as int + 1).register(ValueView::Null),
        ),
        holds(bytes, st.pos + magnitude_bytes(literal_header(len)).len() + 1, items),
        magnitude_overflow(literal_header(len)) is None,
{
    let header = literal_header(len);
    let head = magnitude_bytes(header);
    let flag = seq![flag_byte(is_fixed)];
    lemma_holds_split(bytes, st.pos, head + flag, items);
    lemma_holds_split(bytes, st.pos, head, flag);
    lemma_u29_round_trip(header as u32, bytes, st);
    lemma_holds_bytes(bytes, st.pos + head.len(), flag);
    assert(bytes[st.pos + head.len() + 0] == flag[0]);
    lemma_holds_bytes(bytes, st.pos + head.len() + 1, items);
    let registered = st.skip(head.len() as int).register(ValueView::Null);
    assert(grammar::read_u8(bytes, registered) == done(flag_byte(is_fixed), registered.skip(1)));
    assert(registered.skip(1) =~= st.skip(head.len() as int + 1).register(ValueView::Null));
}

/// A vector of integers is read back.
#[verifier::rlimit(50)]
proof fn lemma_vector_int_body(is_fixed: bool, entries: Seq<i32>, bytes: Seq<u8>, st: State)
    requires
        entries.len() < 0x1000_0000,
        holds(
            bytes,
            st.pos,
            magnitude_bytes(literal_header(entries.len())) + seq![flag_byte(is_fixed)] + ints_bytes(
                entries,
                entries.len() as int,
            ),
        ),
    ensures
        read_back(
            grammar::decode_vector_int(bytes, st),
            ValueView::IntVector { is_fixed, entries },
            bytes,
            st,
            (magnitude_bytes(literal_header(entries.len())) + seq![flag_byte(is_fixed)]
                + ints_bytes(entries, entries.len() as int)).len() as int,
        ),
{
    let n = entries.len();
    let items = ints_bytes(entries, n as int);
    let head = magnitude_bytes(literal_header(n));
    if n > 0 {
        lemma_ints_layout(entries, n as int, 0);
    } else {
        assert(items =~= Seq::<u8>::empty());
    }
    lemma_vector_head(is_fixed, n, 4, items, bytes, st);
    let start = st.pos + head.len() + 1;
    let read = Seq::new(n, |i: int| i32_of_bits(be_u32(bytes_at(bytes, start + 4 * i, 4))));
    assert forall|i: int| 0 <= i < n implies read[i] == entries[i] by {
        lemma_ints_layout(entries, n as int, i);
        lemma_holds_part(bytes, start, items, 4 * i, 4 * i + 4);
        lemma_u32_round_trip(bits_of_i32(entries[i]));
        lemma_i32_round_trip(entries[i]);
    }
    assert(read =~= entries);
    let registered = st.skip(head.len() as int + 1).register(ValueView::Null);
    assert(registered.objects.len() == st.objects.len() + 1);
}

/// A vector of unsigned integers is read back.
#[verifier::rlimit(50)]
proof fn lemma_vector_uint_body(is_fixed: bool, entries: Seq<u32>, bytes: Seq<u8>, st: State)
    requires
        entries.len() < 0x1000_0000,
        holds(
            bytes,
            st.pos,
            magnitude_bytes(literal_header(entries.len())) + seq![flag_byte(is_fixed)]
                + uints_bytes(entries, entries.len() as int),
        ),
    ensures
        read_back(
            grammar::decode_vector_uint(bytes, st),
            ValueView::UintVector { is_fixed, entries },
            bytes,
            st,
            (magnitude_bytes(literal_header(entries.len())) + seq![flag_byte(is_fixed)]
                + uints_bytes(entries, entries.len() as int)).len() as int,
        ),
{
    let n = entries.len();
    let items = uints_bytes(entries, n as int);
    let head = magnitude_bytes(literal_header(n));
    if n > 0 {
        lemma_uints_layout(entries, n as int, 0);
    } else {
        assert(items =~= Seq::<u8>::empty());
    }
    lemma_vector_head(is_fixed, n, 4, items, bytes, st);
    let start = st.pos + head.len() + 1;
    let read = Seq::new(n, |i: int| be_u32(bytes_at(bytes, start + 4 * i, 4)));
    assert forall|i: int| 0 <= i < n implies read[i] == entries[i] by {
        lemma_uints_layout(entries, n as int, i);
        lemma_holds_part(bytes, start, items, 4 * i, 4 * i + 4);
        lemma_u32_round_trip(entries[i]);
    }
    assert(read =~= entries);
    let registered = st.skip(head.len() as int + 1).register(ValueView::Null);
    assert(registered.objects.len() == st.objects.len() + 1);
}

/// A vector of doubles is read back.
#[verifier::rlimit(50)]
proof fn lemma_vector_double_body(is_fixed: bool, entries: Seq<u64>, bytes: Seq<u8>, st: State)
    requires
        entries.len() < 0x1000_0000,
        holds(
            bytes,
            st.pos,
            magnitude_bytes(literal_header(entries.len())) + seq![flag_byte(is_fixed)]
                + doubles_bytes(entries, entries.len() as int),
        ),
    ensures
        read_back(
            grammar::decode_vector_double(bytes, st),
            ValueView::DoubleVector { is_fixed, entries },
            bytes,
            st,
            (magnitude_bytes(literal_header(entries.len())) + seq![flag_byte(is_fixed)]
                + doubles_bytes(entries, entries.len() as int)).len() as int,
        ),
{
    let n = entries.len();
    let items = doubles_bytes(entries, n as int);
    let head = magnitude_bytes(literal_header(n));
    if n > 0 {
        lemma_doubles_layout(entries, n as int, 0);
    } else {
        assert(items =~= Seq::<u8>::empty());
    }
    lemma_vector_head(is_fixed, n, 8, items, bytes, st);
    let start = st.pos + head.len() + 1;
    let read = Seq::new(n, |i: int| be_u64(bytes_at(bytes, start + 8 * i, 8)));
    assert forall|i: int| 0 <= i < n implies read[i] == entries[i] by {
        lemma_doubles_layout(entries, n as int, i);
        lemma_holds_part(bytes, start, items, 8 * i, 8 * i + 8);
        lemma_u64_round_trip(entries[i]);
    }
    assert(read =~= entries);
    let registered = st.skip(head.len() as int + 1).register(ValueView::Null);
    assert(registered.objects.len() == st.objects.len() + 1);
}

/// The vectors of numbers are read back.
#[verifier::rlimit(50)]
proof fn lemma_numeric_vector_round_trip(v: ValueView, bytes: Seq<u8>, st: State)
    requires
        v is IntVector || v is UintVector || v is DoubleVector,
        round_trips(v),
        holds(bytes, st.pos, encoding(v)),
    ensures
        overflow(v) is None,
        read_back(decode_value(bytes, st), v, bytes, st, encoding(v).len() as int),
        encoding(v).len() >= 1,
{
    match v {
        ValueView::IntVector { is_fixed, entries } => {
            let rest = magnitude_bytes(literal_header(entries.len())) + seq![flag_byte(is_fixed)]
                + ints_bytes(entries, entries.len() as int);
            assert(encoding(v) =~= seq![marker::VECTOR_INT] + rest);
            lemma_marker(bytes, st, marker::VECTOR_INT, rest);
            lemma_dispatch(bytes, st);
            lemma_vector_int_body(is_fixed, entries, bytes, st.skip(1));
        },
        ValueView::UintVector { is_fixed, entries } => {
            let rest = magnitude_bytes(literal_header(entries.len())) + seq![flag_byte(is_fixed)]
                + uints_bytes(entries, entries.len() as int);
            assert(encoding(v) =~= seq![marker::VECTOR_UINT] + rest);
            lemma_marker(bytes, st, marker::VECTOR_UINT, rest);
            lemma_dispatch(bytes, st);
            lemma_vector_uint_body(is_fixed, entries, bytes, st.skip(1));
        },
        ValueView::DoubleVector { is_fixed, entries } => {
            let rest = magnitude_bytes(literal_header(entries.len())) + seq![flag_byte(is_fixed)]
                + doubles_bytes(entries, entries.len() as int);
            assert(encoding(v) =~= seq![marker::VECTOR_DOUBLE] + rest);
            lemma_marker(bytes, st, marker::VECTOR_DOUBLE, rest);
            lemma_dispatch(bytes, st);
            lemma_vector_double_body(is_fixed, entries, bytes, st.skip(1));
        },
        _ => {},
    }
}

/// The keys of the first `n` pairs.
pub open spec fn key_texts(pairs: Seq<Property>, n: int) -> Seq<Seq<char>> {
    Seq::new(n as nat, |i: int| pairs[i].key)
}

/// The values of the first `n` pairs.
pub open spec fn property_values(pairs: Seq<Property>, n: int) -> Seq<ValueView> {
    Seq::new(n as nat, |i: int| pairs[i].value)
}

/// The keys of pairs are read back as the field names of a trait; only
/// the string table changes on the way.
#[verifier::rlimit(50)]
proof fn lemma_names_round_trip(
    pairs: Seq<Property>,
    from: int,
    n: int,
    bytes: Seq<u8>,
    base: int,
    st: State,
    acc: Seq<Seq<char>>,
)
    requires
        0 <= from <= n <= pairs.len(),
        keys_round_trip(pairs, n),
        holds(bytes, base, keys_bytes(pairs, n)),
        st.pos == base + keys_bytes(pairs, from).len(),
    ensures
        read_back(
            grammar::decode_names(bytes, st, (n - from) as nat, acc),
            acc + key_texts(pairs, n).subrange(from, n),
            bytes,
            st,
            keys_bytes(pairs, n).len() - keys_bytes(pairs, from).len(),
        ),
        grammar::decode_names(bytes, st, (n - from) as nat, acc).state.objects == st.objects,
        grammar::decode_names(bytes, st, (n - from) as nat, acc).state.classes == st.classes,
        keys_overflow(pairs, from) is None ==> keys_overflow(pairs, n) is None,
    decreases n - from,
{
    if from == n {
        assert(acc + key_texts(pairs, n).subrange(from, n) =~= acc);
    } else {
        let key = pairs[from].key;
        lemma_keys_at(pairs, n, from);
        lemma_keys_prefix(pairs, from + 1, n, bytes, base);
        lemma_holds_split(bytes, base, keys_bytes(pairs, from), text_bytes(key));
        lemma_text_round_trip(key, bytes, st);
        let next = decode_utf8(bytes, st).state;
        lemma_names_round_trip(pairs, from + 1, n, bytes, base, next, acc.push(key));
        assert(acc.push(key) + key_texts(pairs, n).subrange(from + 1, n) =~= acc + key_texts(
            pairs,
            n,
        ).subrange(from, n));
    }
}

/// The state in which the contents of an object literal are read: after
/// its header, its class name and its field names, with the object
/// registered and its class entered in the trait table.
pub open spec fn opened(bytes: Seq<u8>, st: State, class: grammar::ClassView) -> State {
    let head = decode_u29(bytes, st);
    let name = decode_utf8(bytes, head.state.register(ValueView::Null));
    let fields = grammar::decode_names(bytes, name.state, class.fields.len(), Seq::empty());
    State { classes: fields.state.classes.push(class), ..fields.state }
}

/// The header of a literal of `count` items is read back.
#[verifier::rlimit(50)]
proof fn lemma_literal_head(count: nat, bytes: Seq<u8>, st: State)
    requires
        count < 0x1000_0000,
        holds(bytes, st.pos, magnitude_bytes(literal_header(count))),
    ensures
        decode_u29(bytes, st) == done(
            literal_header(count) as u32,
            st.skip(magnitude_bytes(literal_header(count)).len() as int),
        ),
        !grammar::is_reference(literal_header(count) as u32),
        grammar::payload(literal_header(count) as u32) == count,
        magnitude_overflow(literal_header(count)) is None,
        magnitude_bytes(literal_header(count)).len() >= 1,
{
    lemma_u29_round_trip(literal_header(count) as u32, bytes, st);
}

/// The magnitude that opens an object literal with `n` sealed fields.
pub open spec fn object_magnitude(n: nat, dynamic: bool) -> int {
    n * 16 + (if dynamic {
        8int
    } else {
        0int
    }) + 3
}

/// The header of an object literal is read back, with its flags and its
/// number of sealed fields.
#[verifier::rlimit(50)]
proof fn lemma_object_head(n: nat, dynamic: bool, bytes: Seq<u8>, st: State)
    requires
        n < 0x200_0000,
        holds(bytes, st.pos, magnitude_bytes(object_magnitude(n, dynamic))),
    ensures
        decode_u29(bytes, st) == done(
            object_magnitude(n, dynamic) as u32,
            st.skip(magnitude_bytes(object_magnitude(n, dynamic)).len() as int),
        ),
        !grammar::is_reference(object_magnitude(n, dynamic) as u32),
        !grammar::is_trait_reference(grammar::payload(object_magnitude(n, dynamic) as u32)),
        !grammar::is_externalizable(grammar::payload(object_magnitude(n, dynamic) as u32)),
        grammar::is_dynamic(grammar::payload(object_magnitude(n, dynamic) as u32)) == dynamic,
        grammar::field_count(grammar::payload(object_magnitude(n, dynamic) as u32)) == n,
        magnitude_overflow(object_magnitude(n, dynamic)) is None,
{
    let h = object_magnitude(n, dynamic);
    lemma_u29_round_trip(h as u32, bytes, st);
    let payload = grammar::payload(h as u32);
    assert(payload == n * 8 + (if dynamic {
        5int
    } else {
        1int
    }));
}

/// An object literal with a trait of its own, once its header, its class
/// name and its field names are read, goes on with its contents.
#[verifier::rlimit(50)]
proof fn lemma_object_literal_reads(
    bytes: Seq<u8>,
    st: State,
    header: u32,
    name_text: Seq<char>,
    after_name: State,
    names: Seq<Seq<char>>,
    after_names: State,
)
    requires
        decode_u29(bytes, st).result == Ok::<u32, DecodeErrorView>(header),
        !grammar::is_reference(header),
        !grammar::is_trait_reference(grammar::payload(header)),
        !grammar::is_externalizable(grammar::payload(header)),
        decode_utf8(bytes, decode_u29(bytes, st).state.register(ValueView::Null)) == done(
            name_text,
            after_name,
        ),
        grammar::decode_names(
            bytes,
            after_name,
            grammar::field_count(grammar::payload(header)),
            Seq::empty(),
        ) == done(names, after_names),
        follows(bytes, st, after_names),
        st.pos < after_names.pos,
    ensures
        ({
            let class = grammar::ClassView {
                name: grammar::class_name(name_text),
                is_dynamic: grammar::is_dynamic(grammar::payload(header)),
                fields: names,
            };
            grammar::decode_object(bytes, st) == grammar::decode_object_body(
                bytes,
                State { classes: after_names.classes.push(class), ..after_names },
                class,
                st.objects.len() as int,
            )
        }),
{
    reveal_with_fuel(grammar::decode_object, 1);
    reveal_with_fuel(grammar::decode_object_body, 1);
}

/// The class name of a trait is read back from the text that stands for
/// it, unless it is the empty name.
proof fn lemma_class_name(name: Option<Seq<char>>)
    requires
        name != Some(Seq::<char>::empty()),
    ensures
        grammar::class_name(class_name_text(name)) == name,
{
    if name is Some {
        if name->Some_0.len() == 0 {
            assert(name->Some_0 =~= Seq::<char>::empty());
        }
    }
}

/// The header, the class name and the field names of an object with `n`
/// sealed fields are read back; its class is dynamic where it has more
/// pairs.
#[verifier::rlimit(50)]
proof fn lemma_object_open(
    name: Option<Seq<char>>,
    n: nat,
    pairs: Seq<Property>,
    bytes: Seq<u8>,
    st: State,
)
    requires
        n <= pairs.len(),
        n < 0x200_0000,
        name != Some(Seq::<char>::empty()),
        text_round_trips(class_name_text(name)),
        keys_round_trip(pairs, n as int),
        holds(
            bytes,
            st.pos,
            magnitude_bytes(object_header(n, pairs)) + text_bytes(class_name_text(name))
                + keys_bytes(pairs, n as int),
        ),
    ensures
        ({
            let class = grammar::ClassView {
                name,
                is_dynamic: n < pairs.len(),
                fields: key_texts(pairs, n as int),
            };
            let st2 = opened(bytes, st, class);
            &&& grammar::decode_object(bytes, st) == grammar::decode_object_body(
                bytes,
                st2,
                class,
                st.objects.len() as int,
            )
            &&& st2.pos == st.pos + (magnitude_bytes(object_header(n, pairs)) + text_bytes(
                class_name_text(name),
            ) + keys_bytes(pairs, n as int)).len()
            &&& st2.objects.len() == st.objects.len() + 1
            &&& st2.pos <= bytes.len()
        }),
        magnitude_overflow(object_header(n, pairs)) is None,
        text_overflow(class_name_text(name)) is None,
        keys_overflow(pairs, n as int) is None,
{
    let count = n as int;
    let dynamic = n < pairs.len();
    let header = object_header(n, pairs);
    assert(header == object_magnitude(n, dynamic));
    let hdr = magnitude_bytes(header);
    let name_text = class_name_text(name);
    let keys = keys_bytes(pairs, count);
    lemma_holds_split(bytes, st.pos, hdr + text_bytes(name_text), keys);
    lemma_holds_split(bytes, st.pos, hdr, text_bytes(name_text));
    lemma_object_head(n, dynamic, bytes, st);
    let after_head = st.skip(hdr.len() as int);
    let registered = after_head.register(ValueView::Null);
    lemma_text_round_trip(name_text, bytes, registered);
    let named = decode_utf8(bytes, registered).state;
    assert(keys_bytes(pairs, 0) =~= Seq::<u8>::empty());
    lemma_names_round_trip(pairs, 0, count, bytes, named.pos, named, Seq::empty());
    let fields = grammar::decode_names(bytes, named, n, Seq::empty());
    assert(Seq::<Seq<char>>::empty() + key_texts(pairs, count).subrange(0, count) =~= key_texts(
        pairs,
        count,
    ));
    lemma_class_name(name);
    lemma_object_literal_reads(
        bytes,
        st,
        header as u32,
        name_text,
        named,
        key_texts(pairs, count),
        fields.state,
    );
}

/// A value that [`round_trips`] is read back as it was written, whatever
/// stands in the reference tables: the decoder reads it from the bytes of
/// its encoding, consumes exactly those bytes, and none of its magnitudes
/// overflows.
#[verifier::rlimit(50)]
pub proof fn lemma_value_round_trip(v: ValueView, bytes: Seq<u8>, st: State)
    requires
        round_trips(v),
        holds(bytes, st.pos, encoding(v)),
    ensures
        overflow(v) is None,
        read_back(decode_value(bytes, st), v, bytes, st, encoding(v).len() as int),
        encoding(v).len() >= 1,
    decreases v, 2int,
{
    match v {
        ValueView::Undefined => lemma_scalar_round_trip(v, bytes, st),
        ValueView::Null => lemma_scalar_round_trip(v, bytes, st),
        ValueView::Boolean(_) => lemma_scalar_round_trip(v, bytes, st),
        ValueView::Integer(_) => lemma_scalar_round_trip(v, bytes, st),
        ValueView::Double(_) => lemma_scalar_round_trip(v, bytes, st),
        ValueView::String(_) => lemma_textual_round_trip(v, bytes, st),
        ValueView::XmlDoc(_) => lemma_textual_round_trip(v, bytes, st),
        ValueView::Date { .. } => lemma_date_round_trip(v, bytes, st),
        ValueView::Object { .. } => lemma_object_round_trip(v, bytes, st),
        ValueView::Xml(_) => lemma_textual_round_trip(v, bytes, st),
        ValueView::Array { .. } => lemma_array_round_trip(v, bytes, st),
        ValueView::ByteArray(_) => lemma_byte_array_round_trip(v, bytes, st),
        ValueView::IntVector { .. } => lemma_numeric_vector_round_trip(v, bytes, st),
        ValueView::UintVector { .. } => lemma_numeric_vector_round_trip(v, bytes, st),
        ValueView::DoubleVector { .. } => lemma_numeric_vector_round_trip(v, bytes, st),
        ValueView::ObjectVector { .. } => lemma_vector_object_round_trip(v, bytes, st),
        ValueView::Dictionary { .. } => lemma_dictionary_round_trip(v, bytes, st),
    }
}

/// The values of a list are read back one after another.
#[verifier::rlimit(50)]
proof fn lemma_values_round_trip(
    values: Seq<ValueView>,
    from: int,
    n: int,
    bytes: Seq<u8>,
    base: int,
    st: State,
    acc: Seq<ValueView>,
)
    requires
        0 <= from <= n <= values.len(),
        values_round_trip(values, n),
        holds(bytes, base, values_encoding(values, n)),
        st.pos == base + values_encoding(values, from).len(),
    ensures
        read_back(
            grammar::decode_values(bytes, st, (n - from) as nat, acc),
            acc + values.subrange(from, n),
            bytes,
            st,
            values_encoding(values, n).len() - values_encoding(values, from).len(),
        ),
        values_overflow(values, from) is None ==> values_overflow(values, n) is None,
    decreases values, n - from,
{
    lemma_unfold_values(bytes, st, (n - from) as nat, acc);
    if from == n {
        assert(acc + values.subrange(from, n) =~= acc);
    } else {
        let v = values[from];
        lemma_values_at(values, n, from);
        lemma_values_prefix(values, from + 1, n, bytes, base);
        lemma_holds_split(bytes, base, values_encoding(values, from), encoding(v));
        lemma_value_round_trip(v, bytes, st);
        let next = decode_value(bytes, st).state;
        lemma_values_round_trip(values, from + 1, n, bytes, base, next, acc.push(v));
        assert(acc.push(v) + values.subrange(from + 1, n) =~= acc + values.subrange(from, n));
    }
}

/// The values of the pairs of a list are read back one after another.
#[verifier::rlimit(50)]
proof fn lemma_property_values_round_trip(
    pairs: Seq<Property>,
    from: int,
    n: int,
    bytes: Seq<u8>,
    base: int,
    st: State,
    acc: Seq<ValueView>,
)
    requires
        0 <= from <= n <= pairs.len(),
        property_values_round_trip(pairs, n),
        holds(bytes, base, property_values_encoding(pairs, n)),
        st.pos == base + property_values_encoding(pairs, from).len(),
    ensures
        read_back(
            grammar::decode_values(bytes, st, (n - from) as nat, acc),
            acc + property_values(pairs, n).subrange(from, n),
            bytes,
            st,
            property_values_encoding(pairs, n).len() - property_values_encoding(pairs, from).len(),
        ),
        property_values_overflow(pairs, from) is None ==> property_values_overflow(pairs, n)
            is None,
    decreases pairs, n - from,
{
    lemma_unfold_values(bytes, st, (n - from) as nat, acc);
    if from == n {
        assert(acc + property_values(pairs, n).subrange(from, n) =~= acc);
    } else {
        let v = pairs[from].value;
        lemma_property_values_at(pairs, n, from);
        lemma_property_values_prefix(pairs, from + 1, n, bytes, base);
        lemma_holds_split(bytes, base, property_values_encoding(pairs, from), encoding(v));
        lemma_value_round_trip(v, bytes, st);
        let next = decode_value(bytes, st).state;
        lemma_property_values_round_trip(pairs, from + 1, n, bytes, base, next, acc.push(v));
        assert(acc.push(v) + property_values(pairs, n).subrange(from + 1, n) =~= acc
            + property_values(pairs, n).subrange(from, n));
    }
}

/// The pairs from `lo` on, with keys that are not empty, are read back,
/// up to the empty key that ends them.
#[verifier::rlimit(50)]
proof fn lemma_pairs_round_trip(
    pairs: Seq<Property>,
    lo: int,
    from: int,
    bytes: Seq<u8>,
    base: int,
    st: State,
    acc: Seq<Property>,
)
    requires
        0 <= lo <= from <= pairs.len(),
        properties_round_trip(pairs, lo, pairs.len() as int),
        holds(
            bytes,
            base,
            properties_encoding(pairs, lo, pairs.len() as int) + text_bytes(Seq::empty()),
        ),
        st.pos == base + properties_encoding(pairs, lo, from).len(),
    ensures
        read_back(
            grammar::decode_pairs(bytes, st, acc),
            acc + pairs.subrange(from, pairs.len() as int),
            bytes,
            st,
            (properties_encoding(pairs, lo, pairs.len() as int) + text_bytes(Seq::empty())).len()
                - properties_encoding(pairs, lo, from).len(),
        ),
        properties_overflow(pairs, lo, from) is None ==> properties_overflow(
            pairs,
            lo,
            pairs.len() as int,
        ) is None,
    decreases pairs, pairs.len() - from,
{
    let n = pairs.len() as int;
    let all = properties_encoding(pairs, lo, n);
    let end = text_bytes(Seq::empty());
    lemma_holds_split(bytes, base, all, end);
    lemma_unfold_pairs(bytes, st, acc);
    if from == n {
        assert(encode_utf8(Seq::<char>::empty()) =~= Seq::<u8>::empty()) by {
            reveal_with_fuel(encode_utf8, 1);
        }
        lemma_text_round_trip(Seq::empty(), bytes, st);
        assert(acc + pairs.subrange(from, n) =~= acc);
    } else {
        let key = pairs[from].key;
        let v = pairs[from].value;
        lemma_properties_at(pairs, lo, n, from);
        lemma_properties_prefix(pairs, lo, from + 1, n, bytes, base);
        lemma_holds_split(
            bytes,
            base,
            properties_encoding(pairs, lo, from) + text_bytes(key),
            encoding(v),
        );
        lemma_holds_split(bytes, base, properties_encoding(pairs, lo, from), text_bytes(key));
        lemma_text_round_trip(key, bytes, st);
        let keyed = decode_utf8(bytes, st).state;
        lemma_value_round_trip(v, bytes, keyed);
        let next = decode_value(bytes, keyed).state;
        lemma_pairs_round_trip(
            pairs,
            lo,
            from + 1,
            bytes,
            base,
            next,
            acc.push(Pair { key, value: v }),
        );
        assert(acc.push(Pair { key, value: v }) + pairs.subrange(from + 1, n) =~= acc
            + pairs.subrange(from, n));
    }
}

/// The entries of a dictionary are read back one after another.
#[verifier::rlimit(50)]
proof fn lemma_entries_round_trip(
    entries: Seq<Entry>,
    from: int,
    n: int,
    bytes: Seq<u8>,
    base: int,
    st: State,
    acc: Seq<Entry>,
)
    requires
        0 <= from <= n <= entries.len(),
        entries_round_trip(entries, n),
        holds(bytes, base, entries_encoding(entries, n)),
        st.pos == base + entries_encoding(entries, from).len(),
    ensures
        read_back(
            grammar::decode_entries(bytes, st, (n - from) as nat, acc),
            acc + entries.subrange(from, n),
            bytes,
            st,
            entries_encoding(entries, n).len() - entries_encoding(entries, from).len(),
        ),
        entries_overflow(entries, from) is None ==> entries_overflow(entries, n) is None,
    decreases entries, n - from,
{
    lemma_unfold_entries(bytes, st, (n - from) as nat, acc);
    if from == n {
        assert(acc + entries.subrange(from, n) =~= acc);
    } else {
        let key = entries[from].key;
        let v = entries[from].value;
        lemma_entries_at(entries, n, from);
        lemma_entries_prefix(entries, from + 1, n, bytes, base);
        lemma_holds_split(
            bytes,
            base,
            entries_encoding(entries, from) + encoding(key),
            encoding(v),
        );
        lemma_holds_split(bytes, base, entries_encoding(entries, from), encoding(key));
        lemma_value_round_trip(key, bytes, st);
        let keyed = decode_value(bytes, st).state;
        lemma_value_round_trip(v, bytes, keyed);
        let next = decode_value(bytes, keyed).state;
        lemma_entries_round_trip(
            entries,
            from + 1,
            n,
            bytes,
            base,
            next,
            acc.push(Pair { key, value: v }),
        );
        assert(acc.push(Pair { key, value: v }) + entries.subrange(from + 1, n) =~= acc
            + entries.subrange(from, n));
    }
}

/// An array literal whose parts are read gives the array.
#[verifier::rlimit(50)]
proof fn lemma_array_reads(
    bytes: Seq<u8>,
    st: State,
    header: u32,
    assoc: Seq<Property>,
    after_assoc: State,
    dense: Seq<ValueView>,
    after_dense: State,
)
    requires
        decode_u29(bytes, st).result == Ok::<u32, DecodeErrorView>(header),
        !grammar::is_reference(header),
        grammar::decode_pairs(
            bytes,
            decode_u29(bytes, st).state.register(ValueView::Null),
            Seq::empty(),
        ) == done(assoc, after_assoc),
        follows(bytes, decode_u29(bytes, st).state.register(ValueView::Null), after_assoc),
        grammar::decode_values(bytes, after_assoc, grammar::payload(header) as nat, Seq::empty())
            == done(dense, after_dense),
    ensures
        grammar::decode_array(bytes, st) == grammar::stored(
            ValueView::Array { assoc_entries: assoc, dense_entries: dense },
            after_dense,
            st.objects.len() as int,
        ),
{
    reveal_with_fuel(grammar::decode_array, 1);
    reveal_with_fuel(grammar::decode_pairs, 1);
    reveal_with_fuel(grammar::decode_values, 1);
}

/// A literal of a vector of objects whose parts are read gives the
/// vector.
#[verifier::rlimit(50)]
proof fn lemma_vector_object_reads(
    bytes: Seq<u8>,
    st: State,
    header: u32,
    flag: u8,
    type_text: Seq<char>,
    entries: Seq<ValueView>,
    after_entries: State,
)
    requires
        decode_u29(bytes, st).result == Ok::<u32, DecodeErrorView>(header),
        !grammar::is_reference(header),
        grammar::read_u8(bytes, decode_u29(bytes, st).state.register(ValueView::Null)).result
            == Ok::<u8, DecodeErrorView>(flag),
        decode_utf8(
            bytes,
            grammar::read_u8(bytes, decode_u29(bytes, st).state.register(ValueView::Null)).state,
        ).result == Ok::<Seq<char>, DecodeErrorView>(type_text),
        advanced(
            bytes,
            st,
            decode_utf8(
                bytes,
                grammar::read_u8(
                    bytes,
                    decode_u29(bytes, st).state.register(ValueView::Null),
                ).state,
            ).state,
        ),
        grammar::decode_values(
            bytes,
            decode_utf8(
                bytes,
                grammar::read_u8(
                    bytes,
                    decode_u29(bytes, st).state.register(ValueView::Null),
                ).state,
            ).state,
            grammar::payload(header) as nat,
            Seq::empty(),
        ) == done(entries, after_entries),
    ensures
        grammar::decode_vector_object(bytes, st) == grammar::stored(
            ValueView::ObjectVector {
                name: grammar::element_type(type_text),
                is_fixed: flag != 0,
                entries,
            },
            after_entries,
            st.objects.len() as int,
        ),
{
    reveal_with_fuel(grammar::decode_vector_object, 1);
    reveal_with_fuel(grammar::decode_values, 1);
}

/// A dictionary literal whose parts are read gives the dictionary.
#[verifier::rlimit(50)]
proof fn lemma_dictionary_reads(
    bytes: Seq<u8>,
    st: State,
    header: u32,
    flag: u8,
    entries: Seq<Entry>,
    after_entries: State,
)
    requires
        decode_u29(bytes, st).result == Ok::<u32, DecodeErrorView>(header),
        !grammar::is_reference(header),
        grammar::read_u8(bytes, decode_u29(bytes, st).state.register(ValueView::Null)).result
            == Ok::<u8, DecodeErrorView>(flag),
        grammar::decode_entries(
            bytes,
            grammar::read_u8(bytes, decode_u29(bytes, st).state.register(ValueView::Null)).state,
            grammar::payload(header) as nat,
            Seq::empty(),
        ) == done(entries, after_entries),
    ensures
        grammar::decode_dictionary(bytes, st) == grammar::stored(
            ValueView::Dictionary { is_weak: flag == 1, entries },
            after_entries,
            st.objects.len() as int,
        ),
{
    reveal_with_fuel(grammar::decode_dictionary, 1);
    reveal_with_fuel(grammar::decode_entries, 1);
}

/// The contents of an object of a class without dynamic pairs, once its
/// values are read, give the object.
#[verifier::rlimit(50)]
proof fn lemma_sealed_object_reads(
    bytes: Seq<u8>,
    st: State,
    class: grammar::ClassView,
    slot: int,
    values: Seq<ValueView>,
    after_values: State,
)
    requires
        !class.is_dynamic,
        grammar::decode_values(bytes, st, class.fields.len(), Seq::empty()) == done(
            values,
            after_values,
        ),
    ensures
        grammar::decode_object_body(bytes, st, class, slot) == grammar::stored(
            ValueView::Object {
                name: class.name,
                sealed_count: grammar::sealed_pairs(class.fields, values).len(),
                pairs: grammar::sealed_pairs(class.fields, values),
            },
            after_values,
            slot,
        ),
{
    reveal_with_fuel(grammar::decode_object_body, 1);
    reveal_with_fuel(grammar::decode_values, 1);
}

/// The contents of an object of a dynamic class, once its values and its
/// dynamic pairs are read, give the object: it counts the fields of the
/// class as sealed.
#[verifier::rlimit(50)]
proof fn lemma_dynamic_object_reads(
    bytes: Seq<u8>,
    st: State,
    class: grammar::ClassView,
    slot: int,
    values: Seq<ValueView>,
    after_values: State,
    more: Seq<Property>,
    after_more: State,
)
    requires
        class.is_dynamic,
        grammar::decode_values(bytes, st, class.fields.len(), Seq::empty()) == done(
            values,
            after_values,
        ),
        follows(bytes, st, after_values),
        grammar::decode_pairs(bytes, after_values, Seq::empty()) == done(more, after_more),
    ensures
        grammar::decode_object_body(bytes, st, class, slot) == grammar::stored(
            ValueView::Object {
                name: class.name,
                sealed_count: grammar::sealed_pairs(class.fields, values).len(),
                pairs: grammar::sealed_pairs(class.fields, values) + more,
            },
            after_more,
            slot,
        ),
{
    reveal_with_fuel(grammar::decode_object_body, 1);
    reveal_with_fuel(grammar::decode_values, 1);
    reveal_with_fuel(grammar::decode_pairs, 1);
}

/// The class that an object literal is written with.
pub open spec fn class_of(
    name: Option<Seq<char>>,
    sealed_count: nat,
    pairs: Seq<Property>,
) -> grammar::ClassView {
    grammar::ClassView {
        name,
        is_dynamic: sealed_count < pairs.len(),
        fields: key_texts(pairs, sealed_count as int),
    }
}

/// What follows the sealed values of an object literal: its dynamic
/// pairs and the empty key that ends them, where it has any.
pub open spec fn dynamic_part(sealed_count: nat, pairs: Seq<Property>) -> Seq<u8> {
    if sealed_count < pairs.len() {
        properties_encoding(pairs, sealed_count as int, pairs.len() as int) + text_bytes(
            Seq::empty(),
        )
    } else {
        Seq::empty()
    }
}

/// The contents of an object are read back: its sealed values by their
/// position, and the pairs beyond them, where it has any, as dynamic pairs.
#[verifier::rlimit(50)]
proof fn lemma_object_body_round_trip(v: ValueView, bytes: Seq<u8>, st: State, slot: int)
    requires
        v is Object,
        round_trips(v),
        0 <= slot < st.objects.len(),
        holds(
            bytes,
            st.pos,
            property_values_encoding(v->pairs, v->sealed_count as int) + dynamic_part(
                v->sealed_count,
                v->pairs,
            ),
        ),
    ensures
        read_back(
            grammar::decode_object_body(
                bytes,
                st,
                class_of(v->Object_name, v->sealed_count, v->pairs),
                slot,
            ),
            v,
            bytes,
            st,
            (property_values_encoding(v->pairs, v->sealed_count as int) + dynamic_part(
                v->sealed_count,
                v->pairs,
            )).len() as int,
        ),
        property_values_overflow(v->pairs, v->sealed_count as int) is None,
        properties_overflow(v->pairs, v->sealed_count as int, v->pairs.len() as int) is None,
    decreases v, 0int,
{
    let name = v->Object_name;
    let pairs = v->pairs;
    let sealed_count = v->sealed_count;
    let n = sealed_count as int;
    let len = pairs.len() as int;
    let class = class_of(name, sealed_count, pairs);
    let contents = property_values_encoding(pairs, n);
    let tail = dynamic_part(sealed_count, pairs);
    lemma_holds_split(bytes, st.pos, contents, tail);
    assert(property_values_encoding(pairs, 0) =~= Seq::<u8>::empty());
    lemma_property_values_round_trip(pairs, 0, n, bytes, st.pos, st, Seq::empty());
    let sealed = grammar::decode_values(bytes, st, sealed_count, Seq::empty());
    let values = property_values(pairs, n);
    assert(Seq::<ValueView>::empty() + values.subrange(0, n) =~= values);
    let fixed = grammar::sealed_pairs(class.fields, values);
    assert(fixed =~= pairs.subrange(0, n));
    if n < len {
        assert(properties_encoding(pairs, n, n) =~= Seq::<u8>::empty());
        lemma_pairs_round_trip(pairs, n, n, bytes, sealed.state.pos, sealed.state, Seq::empty());
        let dynamic = grammar::decode_pairs(bytes, sealed.state, Seq::empty());
        let more = pairs.subrange(n, len);
        assert(Seq::<Property>::empty() + more =~= more);
        assert(fixed + more =~= pairs);
        lemma_dynamic_object_reads(
            bytes,
            st,
            class,
            slot,
            values,
            sealed.state,
            more,
            dynamic.state,
        );
    } else {
        assert(fixed =~= pairs);
        lemma_sealed_object_reads(bytes, st, class, slot, values, sealed.state);
    }
}

/// An object is read back: its sealed fields by their position, and the
/// pairs beyond them, where it has any, as dynamic pairs.
#[verifier::rlimit(50)]
proof fn lemma_object_round_trip(v: ValueView, bytes: Seq<u8>, st: State)
    requires
        v is Object,
        round_trips(v),
        holds(bytes, st.pos, encoding(v)),
    ensures
        overflow(v) is None,
        read_back(decode_value(bytes, st), v, bytes, st, encoding(v).len() as int),
        encoding(v).len() >= 1,
    decreases v, 1int,
{
    let name = v->Object_name;
    let pairs = v->pairs;
    let sealed_count = v->sealed_count;
    let n = sealed_count as int;
    let open = magnitude_bytes(object_header(sealed_count, pairs)) + text_bytes(
        class_name_text(name),
    ) + keys_bytes(pairs, n);
    let rest = property_values_encoding(pairs, n) + dynamic_part(sealed_count, pairs);
    assert(encoding(v) =~= seq![marker::OBJECT] + (open + rest));
    lemma_marker(bytes, st, marker::OBJECT, open + rest);
    lemma_dispatch(bytes, st);
    let st1 = st.skip(1);
    lemma_holds_split(bytes, st1.pos, open, rest);
    lemma_object_open(name, sealed_count, pairs, bytes, st1);
    let st2 = opened(bytes, st1, class_of(name, sealed_count, pairs));
    lemma_object_body_round_trip(v, bytes, st2, st1.objects.len() as int);
}

/// An array is read back.
#[verifier::rlimit(50)]
proof fn lemma_array_round_trip(v: ValueView, bytes: Seq<u8>, st: State)
    requires
        v is Array,
        round_trips(v),
        holds(bytes, st.pos, encoding(v)),
    ensures
        overflow(v) is None,
        read_back(decode_value(bytes, st), v, bytes, st, encoding(v).len() as int),
        encoding(v).len() >= 1,
    decreases v, 1int,
{
    let assoc = v->assoc_entries;
    let dense = v->dense_entries;
    let header = literal_header(dense.len());
    let hdr = magnitude_bytes(header);
    let named = properties_encoding(assoc, 0, assoc.len() as int) + text_bytes(Seq::empty());
    let listed = values_encoding(dense, dense.len() as int);
    assert(encoding(v) =~= seq![marker::ARRAY] + (hdr + named + listed));
    lemma_marker(bytes, st, marker::ARRAY, hdr + named + listed);
    lemma_dispatch(bytes, st);
    let st1 = st.skip(1);
    lemma_holds_split(bytes, st1.pos, hdr + named, listed);
    lemma_holds_split(bytes, st1.pos, hdr, named);
    lemma_u29_round_trip(header as u32, bytes, st1);
    let after_head = st1.skip(hdr.len() as int);
    assert(decode_u29(bytes, st1) == done(header as u32, after_head));
    let registered = after_head.register(ValueView::Null);
    let slot = st1.objects.len() as int;
    assert(properties_encoding(assoc, 0, 0) =~= Seq::<u8>::empty());
    lemma_pairs_round_trip(assoc, 0, 0, bytes, registered.pos, registered, Seq::empty());
    let read_assoc = grammar::decode_pairs(bytes, registered, Seq::empty());
    assert(Seq::<Property>::empty() + assoc.subrange(0, assoc.len() as int) =~= assoc);
    assert(values_encoding(dense, 0) =~= Seq::<u8>::empty());
    lemma_values_round_trip(
        dense,
        0,
        dense.len() as int,
        bytes,
        read_assoc.state.pos,
        read_assoc.state,
        Seq::empty(),
    );
    let read_dense = grammar::decode_values(bytes, read_assoc.state, dense.len(), Seq::empty());
    assert(Seq::<ValueView>::empty() + dense.subrange(0, dense.len() as int) =~= dense);
    assert(grammar::payload(header as u32) == dense.len());
    assert(!grammar::is_reference(header as u32));
    assert(decode_value(bytes, st) == grammar::decode_array(bytes, st1));
    lemma_array_reads(bytes, st1, header as u32, assoc, read_assoc.state, dense, read_dense.state);
}

/// The state in which the items of a literal of a vector of objects are
/// read: after its header, its flag and its element type, with the vector
/// registered.
pub open spec fn vector_opened(bytes: Seq<u8>, st: State) -> State {
    let head = decode_u29(bytes, st);
    let flag = grammar::read_u8(bytes, head.state.register(ValueView::Null));
    decode_utf8(bytes, flag.state).state
}

/// The header, the flag and the element type of a vector of objects are
/// read back.
#[verifier::rlimit(50)]
proof fn lemma_vector_object_open(
    name: Option<Seq<char>>,
    is_fixed: bool,
    count: nat,
    bytes: Seq<u8>,
    st: State,
)
    requires
        count < 0x1000_0000,
        name != Some(seq!['*']),
        text_round_trips(element_type_text(name)),
        holds(
            bytes,
            st.pos,
            magnitude_bytes(literal_header(count)) + seq![flag_byte(is_fixed)] + text_bytes(
                element_type_text(name),
            ),
        ),
    ensures
        ({
            let head = decode_u29(bytes, st);
            let flag = grammar::read_u8(bytes, head.state.register(ValueView::Null));
            let typed = decode_utf8(bytes, flag.state);
            &&& head.result == Ok::<u32, DecodeErrorView>(literal_header(count) as u32)
            &&& flag.result == Ok::<u8, DecodeErrorView>(flag_byte(is_fixed))
            &&& typed.result == Ok::<Seq<char>, DecodeErrorView>(element_type_text(name))
            &&& typed.state == vector_opened(bytes, st)
            &&& typed.state.pos == st.pos + (magnitude_bytes(literal_header(count))
                + seq![flag_byte(is_fixed)] + text_bytes(element_type_text(name))).len()
            &&& typed.state.pos <= bytes.len()
            &&& typed.state.objects.len() == st.objects.len() + 1
        }),
        !grammar::is_reference(literal_header(count) as u32),
        grammar::payload(literal_header(count) as u32) == count,
        grammar::element_type(element_type_text(name)) == name,
        magnitude_overflow(literal_header(count)) is None,
        text_overflow(element_type_text(name)) is None,
{
    let hdr = magnitude_bytes(literal_header(count));
    let flag = seq![flag_byte(is_fixed)];
    let type_text = element_type_text(name);
    lemma_holds_split(bytes, st.pos, hdr + flag, text_bytes(type_text));
    lemma_holds_split(bytes, st.pos, hdr, flag);
    lemma_literal_head(count, bytes, st);
    let registered = st.skip(hdr.len() as int).register(ValueView::Null);
    lemma_holds_bytes(bytes, registered.pos, flag);
    assert(bytes[registered.pos + 0] == flag[0]);
    assert(grammar::read_u8(bytes, registered) == done(flag_byte(is_fixed), registered.skip(1)));
    lemma_text_round_trip(type_text, bytes, registered.skip(1));
    if name is Some {
        assert(type_text == name->Some_0);
    }
}

/// A vector of objects is read back.
#[verifier::rlimit(50)]
proof fn lemma_vector_object_round_trip(v: ValueView, bytes: Seq<u8>, st: State)
    requires
        v is ObjectVector,
        round_trips(v),
        holds(bytes, st.pos, encoding(v)),
    ensures
        overflow(v) is None,
        read_back(decode_value(bytes, st), v, bytes, st, encoding(v).len() as int),
        encoding(v).len() >= 1,
    decreases v, 1int,
{
    let name = v->ObjectVector_name;
    let is_fixed = v->ObjectVector_is_fixed;
    let entries = v->ObjectVector_entries;
    let count = entries.len();
    let open = magnitude_bytes(literal_header(count)) + seq![flag_byte(is_fixed)] + text_bytes(
        element_type_text(name),
    );
    let listed = values_encoding(entries, count as int);
    assert(encoding(v) =~= seq![marker::VECTOR_OBJECT] + (open + listed));
    lemma_marker(bytes, st, marker::VECTOR_OBJECT, open + listed);
    lemma_dispatch(bytes, st);
    let st1 = st.skip(1);
    lemma_holds_split(bytes, st1.pos, open, listed);
    lemma_vector_object_open(name, is_fixed, count, bytes, st1);
    let typed = vector_opened(bytes, st1);
    assert(values_encoding(entries, 0) =~= Seq::<u8>::empty());
    lemma_values_round_trip(entries, 0, count as int, bytes, typed.pos, typed, Seq::empty());
    let read = grammar::decode_values(bytes, typed, count, Seq::empty());
    assert(Seq::<ValueView>::empty() + entries.subrange(0, count as int) =~= entries);
    lemma_vector_object_reads(
        bytes,
        st1,
        literal_header(count) as u32,
        flag_byte(is_fixed),
        element_type_text(name),
        entries,
        read.state,
    );
}

/// A dictionary is read back.
#[verifier::rlimit(50)]
proof fn lemma_dictionary_round_trip(v: ValueView, bytes: Seq<u8>, st: State)
    requires
        v is Dictionary,
        round_trips(v),
        holds(bytes, st.pos, encoding(v)),
    ensures
        overflow(v) is None,
        read_back(decode_value(bytes, st), v, bytes, st, encoding(v).len() as int),
        encoding(v).len() >= 1,
    decreases v, 1int,
{
    let is_weak = v->is_weak;
    let entries = v->Dictionary_entries;
    let header = literal_header(entries.len());
    let hdr = magnitude_bytes(header);
    let flag = seq![flag_byte(is_weak)];
    let listed = entries_encoding(entries, entries.len() as int);
    assert(encoding(v) =~= seq![marker::DICTIONARY] + (hdr + flag + listed));
    lemma_marker(bytes, st, marker::DICTIONARY, hdr + flag + listed);
    lemma_dispatch(bytes, st);
    let st1 = st.skip(1);
    lemma_holds_split(bytes, st1.pos, hdr + flag, listed);
    lemma_holds_split(bytes, st1.pos, hdr, flag);
    lemma_u29_round_trip(header as u32, bytes, st1);
    let after_head = st1.skip(hdr.len() as int);
    assert(decode_u29(bytes, st1) == done(header as u32, after_head));
    let registered = after_head.register(ValueView::Null);
    let slot = st1.objects.len() as int;
    lemma_holds_bytes(bytes, registered.pos, flag);
    assert(bytes[registered.pos + 0] == flag[0]);
    assert(grammar::read_u8(bytes, registered) == done(flag_byte(is_weak), registered.skip(1)));
    assert(entries_encoding(entries, 0) =~= Seq::<u8>::empty());
    lemma_entries_round_trip(
        entries,
        0,
        entries.len() as int,
        bytes,
        registered.pos + 1,
        registered.skip(1),
        Seq::empty(),
    );
    let read = grammar::decode_entries(bytes, registered.skip(1), entries.len(), Seq::empty());
    assert(Seq::<Entry>::empty() + entries.subrange(0, entries.len() as int) =~= entries);
    assert(grammar::payload(header as u32) == entries.len());
    assert(!grammar::is_reference(header as u32));
    assert(decode_value(bytes, st) == grammar::decode_dictionary(bytes, st1));
    lemma_dictionary_reads(bytes, st1, header as u32, flag_byte(is_weak), entries, read.state);
}

/// Round trip: where a value that [`round_trips`] is encoded and the
/// bytes are decoded with empty reference tables, the encoding succeeds, and
/// the decoder gives the value and has consumed all the bytes.
#[verifier::rlimit(50)]
pub proof fn lemma_round_trip(v: ValueView)
    requires
        round_trips(v),
    ensures
        overflow(v) is None,
        decode_value(encoding(v), State::start(0)).result == Ok::<ValueView, DecodeErrorView>(v),
        decode_value(encoding(v), State::start(0)).state.pos == encoding(v).len(),
{
    let bytes = encoding(v);
    assert(bytes.subrange(0, bytes.len() as int) =~= bytes);
    lemma_value_round_trip(v, bytes, State::start(0));
}

/// An object literal whose trait is marked as externalizable is refused,
/// by the name of its class.
#[verifier::rlimit(50)]
pub proof fn lemma_externalizable(bytes: Seq<u8>, st: State)
    requires
        0 <= st.pos < bytes.len(),
        bytes[st.pos] == marker::OBJECT,
    ensures
        ({
            let head = decode_u29(bytes, st.skip(1));
            let name = decode_utf8(bytes, head.state.register(ValueView::Null));
            (head.result matches Ok(u29) && !grammar::is_reference(u29)
                && !grammar::is_trait_reference(grammar::payload(u29))
                && grammar::is_externalizable(grammar::payload(u29)) && name.result matches Ok(s))
                ==> decode_value(bytes, st) == grammar::fail::<ValueView>(
                DecodeErrorView::ExternalizableType { name: name.result->Ok_0 },
                name.state,
            )
        }),
{
    lemma_dispatch(bytes, st);
    reveal_with_fuel(grammar::decode_object, 1);
}

/// A marker beyond the last one names no type.
pub proof fn lemma_unknown_marker(bytes: Seq<u8>, st: State)
    requires
        0 <= st.pos < bytes.len(),
        bytes[st.pos] > marker::DICTIONARY,
    ensures
        decode_value(bytes, st) == grammar::fail::<ValueView>(
            DecodeErrorView::UnknownType { marker: bytes[st.pos] },
            st.skip(1),
        ),
{
    lemma_dispatch(bytes, st);
}

/// Reading a magnitude moves the position forward within the input, by
/// at least one byte where it succeeds, and leaves the tables alone.
#[verifier::rlimit(50)]
proof fn lemma_u29_follows(bytes: Seq<u8>, st: State)
    requires
        0 <= st.pos <= bytes.len(),
    ensures
        follows(bytes, st, decode_u29(bytes, st).state),
        decode_u29(bytes, st).result is Ok ==> advanced(bytes, st, decode_u29(bytes, st).state),
        decode_u29(bytes, st).state.objects == st.objects,
        decode_u29(bytes, st).state.classes == st.classes,
{
}

/// Reading a string moves the position forward within the input, by at
/// least one byte where it succeeds, and leaves the object table alone.
#[verifier::rlimit(50)]
proof fn lemma_utf8_follows(bytes: Seq<u8>, st: State)
    requires
        0 <= st.pos <= bytes.len(),
    ensures
        follows(bytes, st, decode_utf8(bytes, st).state),
        decode_utf8(bytes, st).result is Ok ==> advanced(bytes, st, decode_utf8(bytes, st).state),
        decode_utf8(bytes, st).state.objects == st.objects,
{
    lemma_u29_follows(bytes, st);
}

/// Reading field names moves the position forward within the input and
/// leaves the object table alone.
#[verifier::rlimit(50)]
proof fn lemma_names_follow(bytes: Seq<u8>, st: State, n: nat, acc: Seq<Seq<char>>)
    requires
        0 <= st.pos <= bytes.len(),
    ensures
        follows(bytes, st, grammar::decode_names(bytes, st, n, acc).state),
        grammar::decode_names(bytes, st, n, acc).state.objects == st.objects,
    decreases n,
{
    if n > 0 {
        lemma_utf8_follows(bytes, st);
        let name = decode_utf8(bytes, st);
        if name.result is Ok {
            lemma_names_follow(bytes, name.state, (n - 1) as nat, acc.push(name.result->Ok_0));
        }
    }
}

/// The values that have no values inside them move the position forward
/// within the input and let the object table grow at most.
#[verifier::rlimit(50)]
proof fn lemma_plain_follows(bytes: Seq<u8>, st: State)
    requires
        0 <= st.pos <= bytes.len(),
    ensures
        follows(bytes, st, decode_integer(bytes, st).state),
        follows(bytes, st, grammar::decode_double(bytes, st).state),
        follows(bytes, st, grammar::decode_string(bytes, st).state),
        follows(bytes, st, grammar::decode_xml_doc(bytes, st).state),
        follows(bytes, st, grammar::decode_date(bytes, st).state),
        follows(bytes, st, grammar::decode_xml(bytes, st).state),
        follows(bytes, st, grammar::decode_byte_array(bytes, st).state),
{
    lemma_u29_follows(bytes, st);
    lemma_utf8_follows(bytes, st);
}

/// The vectors of numbers move the position forward within the input and
/// let the object table grow at most.
#[verifier::rlimit(50)]
proof fn lemma_numeric_vectors_follow(bytes: Seq<u8>, st: State)
    requires
        0 <= st.pos <= bytes.len(),
    ensures
        follows(bytes, st, grammar::decode_vector_int(bytes, st).state),
        follows(bytes, st, grammar::decode_vector_uint(bytes, st).state),
        follows(bytes, st, grammar::decode_vector_double(bytes, st).state),
{
    lemma_u29_follows(bytes, st);
}

/// Every value takes at least one byte, and no step of the decoder moves
/// the position back or beyond the input, or lets the object table shrink.
/// So the tests on the state between two steps, which the grammar makes to
/// show that it terminates, always hold.
#[verifier::rlimit(50)]
pub proof fn lemma_decode_value_advances(bytes: Seq<u8>, st: State)
    requires
        0 <= st.pos <= bytes.len(),
    ensures
        follows(bytes, st, decode_value(bytes, st).state),
        decode_value(bytes, st).result is Ok ==> advanced(bytes, st, decode_value(bytes, st).state),
    decreases remaining(bytes, st), 0nat,
{
    lemma_dispatch(bytes, st);
    let head = grammar::read_u8(bytes, st);
    if head.result is Ok {
        let m = head.result->Ok_0;
        let st1 = head.state;
        lemma_plain_follows(bytes, st1);
        lemma_numeric_vectors_follow(bytes, st1);
        if m == marker::ARRAY {
            lemma_array_follows(bytes, st1);
        } else if m == marker::OBJECT {
            lemma_object_follows(bytes, st1);
        } else if m == marker::VECTOR_OBJECT {
            lemma_vector_object_follows(bytes, st1);
        } else if m == marker::DICTIONARY {
            lemma_dictionary_follows(bytes, st1);
        }
    }
}

/// Reading a list of values moves the position forward within the input.
#[verifier::rlimit(50)]
proof fn lemma_values_follow(bytes: Seq<u8>, st: State, n: nat, acc: Seq<ValueView>)
    requires
        0 <= st.pos <= bytes.len(),
    ensures
        follows(bytes, st, grammar::decode_values(bytes, st, n, acc).state),
    decreases remaining(bytes, st), 1nat, n,
{
    lemma_unfold_values(bytes, st, n, acc);
    if n > 0 {
        lemma_decode_value_advances(bytes, st);
        let value = decode_value(bytes, st);
        if value.result is Ok {
            lemma_values_follow(bytes, value.state, (n - 1) as nat, acc.push(value.result->Ok_0));
        }
    }
}

/// Reading pairs moves the position forward within the input.
#[verifier::rlimit(50)]
proof fn lemma_pairs_follow(bytes: Seq<u8>, st: State, acc: Seq<Property>)
    requires
        0 <= st.pos <= bytes.len(),
    ensures
        follows(bytes, st, grammar::decode_pairs(bytes, st, acc).state),
    decreases remaining(bytes, st), 1nat, 0nat,
{
    lemma_unfold_pairs(bytes, st, acc);
    lemma_utf8_follows(bytes, st);
    let key = decode_utf8(bytes, st);
    if key.result is Ok && key.result->Ok_0.len() > 0 {
        lemma_decode_value_advances(bytes, key.state);
        let value = decode_value(bytes, key.state);
        if value.result is Ok {
            lemma_pairs_follow(
                bytes,
                value.state,
                acc.push(Pair { key: key.result->Ok_0, value: value.result->Ok_0 }),
            );
        }
    }
}

/// Reading entries moves the position forward within the input.
#[verifier::rlimit(50)]
proof fn lemma_entries_follow(bytes: Seq<u8>, st: State, n: nat, acc: Seq<Entry>)
    requires
        0 <= st.pos <= bytes.len(),
    ensures
        follows(bytes, st, grammar::decode_entries(bytes, st, n, acc).state),
    decreases remaining(bytes, st), 1nat, n,
{
    lemma_unfold_entries(bytes, st, n, acc);
    if n > 0 {
        lemma_decode_value_advances(bytes, st);
        let key = decode_value(bytes, st);
        if key.result is Ok {
            lemma_decode_value_advances(bytes, key.state);
            let value = decode_value(bytes, key.state);
            if value.result is Ok {
                lemma_entries_follow(
                    bytes,
                    value.state,
                    (n - 1) as nat,
                    acc.push(Pair { key: key.result->Ok_0, value: value.result->Ok_0 }),
                );
            }
        }
    }
}

/// Reading the contents of an object moves the position forward within
/// the input.
#[verifier::rlimit(50)]
proof fn lemma_object_body_follows(bytes: Seq<u8>, st: State, class: grammar::ClassView, slot: int)
    requires
        0 <= st.pos <= bytes.len(),
        0 <= slot < st.objects.len(),
    ensures
        follows(bytes, st, grammar::decode_object_body(bytes, st, class, slot).state),
    decreases remaining(bytes, st), 2nat, 0nat,
{
    reveal_with_fuel(grammar::decode_object_body, 1);
    reveal_with_fuel(grammar::decode_values, 1);
    reveal_with_fuel(grammar::decode_pairs, 1);
    lemma_values_follow(bytes, st, class.fields.len(), Seq::empty());
    let sealed = grammar::decode_values(bytes, st, class.fields.len(), Seq::empty());
    if sealed.result is Ok && class.is_dynamic {
        lemma_pairs_follow(bytes, sealed.state, Seq::empty());
    }
}

/// Reading an object moves the position forward within the input.
#[verifier::rlimit(50)]
proof fn lemma_object_follows(bytes: Seq<u8>, st: State)
    requires
        0 <= st.pos <= bytes.len(),
    ensures
        follows(bytes, st, grammar::decode_object(bytes, st).state),
    decreases remaining(bytes, st), 3nat, 0nat,
{
    reveal_with_fuel(grammar::decode_object, 1);
    reveal_with_fuel(grammar::decode_object_body, 1);
    lemma_u29_follows(bytes, st);
    let head = decode_u29(bytes, st);
    if head.result is Ok && !grammar::is_reference(head.result->Ok_0) {
        let slot = st.objects.len() as int;
        let st1 = head.state.register(ValueView::Null);
        let header = grammar::payload(head.result->Ok_0);
        if grammar::is_trait_reference(header) {
            if header / 2 < st1.classes.len() {
                lemma_object_body_follows(bytes, st1, st1.classes[(header / 2) as int], slot);
            }
        } else {
            lemma_utf8_follows(bytes, st1);
            let name = decode_utf8(bytes, st1);
            if name.result is Ok && !grammar::is_externalizable(header) {
                lemma_names_follow(bytes, name.state, grammar::field_count(header), Seq::empty());
                let fields = grammar::decode_names(
                    bytes,
                    name.state,
                    grammar::field_count(header),
                    Seq::empty(),
                );
                if fields.result is Ok {
                    let class = grammar::ClassView {
                        name: grammar::class_name(name.result->Ok_0),
                        is_dynamic: grammar::is_dynamic(header),
                        fields: fields.result->Ok_0,
                    };
                    let st2 = State { classes: fields.state.classes.push(class), ..fields.state };
                    lemma_object_body_follows(bytes, st2, class, slot);
                }
            }
        }
    }
}

/// Reading an array moves the position forward within the input.
#[verifier::rlimit(50)]
proof fn lemma_array_follows(bytes: Seq<u8>, st: State)
    requires
        0 <= st.pos <= bytes.len(),
    ensures
        follows(bytes, st, grammar::decode_array(bytes, st).state),
    decreases remaining(bytes, st), 3nat, 0nat,
{
    reveal_with_fuel(grammar::decode_array, 1);
    reveal_with_fuel(grammar::decode_pairs, 1);
    reveal_with_fuel(grammar::decode_values, 1);
    lemma_u29_follows(bytes, st);
    let head = decode_u29(bytes, st);
    if head.result is Ok && !grammar::is_reference(head.result->Ok_0) {
        let st1 = head.state.register(ValueView::Null);
        lemma_pairs_follow(bytes, st1, Seq::empty());
        let assoc = grammar::decode_pairs(bytes, st1, Seq::empty());
        if assoc.result is Ok {
            lemma_values_follow(
                bytes,
                assoc.state,
                grammar::payload(head.result->Ok_0) as nat,
                Seq::empty(),
            );
        }
    }
}

/// Reading a vector of objects moves the position forward within the
/// input.
#[verifier::rlimit(50)]
proof fn lemma_vector_object_follows(bytes: Seq<u8>, st: State)
    requires
        0 <= st.pos <= bytes.len(),
    ensures
        follows(bytes, st, grammar::decode_vector_object(bytes, st).state),
    decreases remaining(bytes, st), 3nat, 0nat,
{
    reveal_with_fuel(grammar::decode_vector_object, 1);
    reveal_with_fuel(grammar::decode_values, 1);
    lemma_u29_follows(bytes, st);
    let head = decode_u29(bytes, st);
    if head.result is Ok && !grammar::is_reference(head.result->Ok_0) {
        let st1 = head.state.register(ValueView::Null);
        let flag = grammar::read_u8(bytes, st1);
        if flag.result is Ok {
            lemma_utf8_follows(bytes, flag.state);
            let name = decode_utf8(bytes, flag.state);
            if name.result is Ok {
                lemma_values_follow(
                    bytes,
                    name.state,
                    grammar::payload(head.result->Ok_0) as nat,
                    Seq::empty(),
                );
            }
        }
    }
}

/// Reading a dictionary moves the position forward within the input.
#[verifier::rlimit(50)]
proof fn lemma_dictionary_follows(bytes: Seq<u8>, st: State)
    requires
        0 <= st.pos <= bytes.len(),
    ensures
        follows(bytes, st, grammar::decode_dictionary(bytes, st).state),
    decreases remaining(bytes, st), 3nat, 0nat,
{
    reveal_with_fuel(grammar::decode_dictionary, 1);
    reveal_with_fuel(grammar::decode_entries, 1);
    lemma_u29_follows(bytes, st);
    let head = decode_u29(bytes, st);
    if head.result is Ok && !grammar::is_reference(head.result->Ok_0) {
        let st1 = head.state.register(ValueView::Null);
        let flag = grammar::read_u8(bytes, st1);
        if flag.result is Ok {
            lemma_entries_follow(
                bytes,
                flag.state,
                grammar::payload(head.result->Ok_0) as nat,
                Seq::empty(),
            );
        }
    }
}

/// A magnitude below 2^30 that is written and read again gives its low
/// 29 bits, and all its bytes are consumed.
pub proof fn lemma_u29_read_back(n: u32)
    requires
        n < U29_LIMIT,
    ensures
        decode_u29(u29_bytes(n), State::start(0)) == done(
            u29_read_back(n),
            State::start(u29_bytes(n).len() as int),
        ),
        n <= U29_MAX ==> u29_read_back(n) == n,
{
    let bytes = u29_bytes(n);
    assert(bytes.subrange(0, bytes.len() as int) =~= bytes);
    lemma_u29_round_trip(n, bytes, State::start(0));
}

/// A magnitude of 29 bits whose highest bit is set stands for a negative
/// integer: the magnitude less 2^29.
pub proof fn lemma_integer_wraparound(u29: u32)
    requires
        0x1000_0000 <= u29 <= U29_MAX,
    ensures
        integer_of_magnitude(u29) == u29 - 0x2000_0000,
        integer_of_magnitude(u29) < 0,
{
}

/// A list of values that is read has as many values as were asked for,
/// after those that were there before.
proof fn lemma_values_count(bytes: Seq<u8>, st: State, n: nat, acc: Seq<ValueView>)
    ensures
        grammar::decode_values(bytes, st, n, acc).result matches Ok(values) ==> (values.len()
            == acc.len() + n && values.subrange(0, acc.len() as int) == acc),
    decreases n,
{
    lemma_unfold_values(bytes, st, n, acc);
    if n > 0 {
        let value = decode_value(bytes, st);
        if value.result is Ok && advanced(bytes, st, value.state) {
            let next = acc.push(value.result->Ok_0);
            lemma_values_count(bytes, value.state, (n - 1) as nat, next);
            let step = grammar::decode_values(bytes, value.state, (n - 1) as nat, next);
            if step.result is Ok {
                let values = step.result->Ok_0;
                assert(values.subrange(0, acc.len() as int) =~= values.subrange(
                    0,
                    next.len() as int,
                ).subrange(0, acc.len() as int));
            }
        }
    } else {
        assert(acc.subrange(0, acc.len() as int) =~= acc);
    }
}

/// Trait reuse: an object that is read for a class has the name of the
/// class, counts the fields of the class as sealed and has, in its first
/// pairs, the field names of the class in their order, whether the class
/// came with the object or was taken from the trait table. Where the class
/// is not dynamic, the object has no other pairs.
#[verifier::rlimit(50)]
pub proof fn lemma_object_has_layout_of_class(
    bytes: Seq<u8>,
    st: State,
    class: grammar::ClassView,
    slot: int,
)
    ensures
        grammar::decode_object_body(bytes, st, class, slot).result matches Ok(v) ==> {
            &&& v is Object
            &&& v->Object_name == class.name
            &&& v->pairs.len() >= class.fields.len()
            &&& !class.is_dynamic ==> v->pairs.len() == class.fields.len()
            &&& v->sealed_count == class.fields.len()
            &&& forall|i: int|
                0 <= i < class.fields.len() ==> (#[trigger] v->pairs[i]).key == class.fields[i]
        },
{
    reveal_with_fuel(grammar::decode_object_body, 1);
    reveal_with_fuel(grammar::decode_values, 1);
    reveal_with_fuel(grammar::decode_pairs, 1);
    lemma_values_count(bytes, st, class.fields.len(), Seq::empty());
}

/// Whether a marker names a type whose values can stand in the object
/// table or be read from it.
pub open spec fn takes_references(m: u8) -> bool {
    m == marker::XML_DOC || m == marker::ARRAY || m == marker::OBJECT || m == marker::XML || m
        == marker::BYTE_ARRAY || m == marker::VECTOR_INT || m == marker::VECTOR_UINT || m
        == marker::VECTOR_DOUBLE || m == marker::VECTOR_OBJECT || m == marker::DICTIONARY
}

/// Reference resolution: where a magnitude with a clear low bit follows
/// the marker of such a type, the value is the entry of the object table
/// that the rest of the magnitude names, and the decoder fails with that
/// index where the table has no such entry.
#[verifier::rlimit(50)]
pub proof fn lemma_object_reference(bytes: Seq<u8>, st: State)
    requires
        0 <= st.pos < bytes.len(),
        takes_references(bytes[st.pos]),
    ensures
        ({
            let head = decode_u29(bytes, st.skip(1));
            (head.result matches Ok(u29) && grammar::is_reference(u29)) ==> {
                let index = grammar::payload(head.result->Ok_0);
                &&& index < st.objects.len() ==> decode_value(bytes, st) == done(
                    st.objects[index as int],
                    head.state,
                )
                &&& index >= st.objects.len() ==> decode_value(bytes, st) == grammar::fail::<
                    ValueView,
                >(DecodeErrorView::NotFoundInReferenceTable { index }, head.state)
            }
        }),
{
    lemma_dispatch(bytes, st);
    reveal_with_fuel(grammar::decode_array, 1);
    reveal_with_fuel(grammar::decode_object, 1);
    reveal_with_fuel(grammar::decode_vector_object, 1);
    reveal_with_fuel(grammar::decode_dictionary, 1);
}

/// Reference resolution for strings: where a magnitude with a clear low
/// bit stands for a string, the string is the entry of the string table that
/// the rest of the magnitude names, and the decoder fails with that index
/// where the table has no such entry.
pub proof fn lemma_string_reference(bytes: Seq<u8>, st: State)
    ensures
        ({
            let head = decode_u29(bytes, st);
            (head.result matches Ok(u29) && grammar::is_reference(u29)) ==> {
                let index = grammar::payload(head.result->Ok_0);
                &&& index < st.strings.len() ==> decode_utf8(bytes, st) == done(
                    st.strings[index as int],
                    head.state,
                )
                &&& index >= st.strings.len() ==> decode_utf8(bytes, st) == grammar::fail::<
                    Seq<char>,
                >(DecodeErrorView::NotFoundInReferenceTable { index }, head.state)
            }
        }),
{
}

/// Reference resolution for traits: where the header of an object literal
/// names a class of the trait table, the object is read for that class, and
/// the decoder fails with the index where the table has no such class.
pub proof fn lemma_trait_reference(bytes: Seq<u8>, st: State)
    ensures
        ({
            let head = decode_u29(bytes, st);
            (head.result matches Ok(u29) && !grammar::is_reference(u29)
                && grammar::is_trait_reference(grammar::payload(u29))) ==> {
                let index = grammar::payload(head.result->Ok_0) / 2;
                let registered = head.state.register(ValueView::Null);
                &&& index < st.classes.len() ==> grammar::decode_object(bytes, st)
                    == grammar::decode_object_body(
                    bytes,
                    registered,
                    st.classes[index as int],
                    st.objects.len() as int,
                )
                &&& index >= st.classes.len() ==> grammar::decode_object(bytes, st)
                    == grammar::fail::<ValueView>(
                    DecodeErrorView::NotFoundInReferenceTable { index },
                    registered,
                )
            }
        }),
{
    reveal_with_fuel(grammar::decode_object, 1);
    reveal_with_fuel(grammar::decode_object_body, 1);
}

} // verus!
