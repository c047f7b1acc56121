//! What holds of the AMF0 encoding and the AMF0 grammar together: what the
//! encoder writes, the decoder reads back.

use vstd::prelude::*;
use vstd::utf8::encode_utf8;
use vstd::utf8::encode_utf8_decode_utf8;
use vstd::utf8::encode_utf8_valid_utf8;
use crate::amf0::grammar;
use crate::amf0::grammar::advanced;
use crate::amf0::grammar::decode_value;
use crate::amf0::grammar::done;
use crate::amf0::grammar::follows;
use crate::amf0::grammar::remaining;
use crate::amf0::grammar::State;
use crate::amf0::grammar::Step;
use crate::amf0::marker;
use crate::amf0::model::count;
use crate::amf0::model::encodable;
use crate::amf0::model::encoding;
use crate::amf0::model::is_long;
use crate::amf0::model::is_short;
use crate::amf0::model::long_text;
use crate::amf0::model::overflow;
use crate::amf0::model::pairs_end;
use crate::amf0::model::properties_encodable;
use crate::amf0::model::properties_encoding;
use crate::amf0::model::properties_overflow;
use crate::amf0::model::Property;
use crate::amf0::model::short_text;
use crate::amf0::model::values_encodable;
use crate::amf0::model::values_encoding;
use crate::amf0::model::values_overflow;
use crate::amf0::model::ValueView;
use crate::amf3;
use crate::double::spec_double_of_millis;
use crate::double::spec_millis_of_double;
use crate::error::DecodeErrorView;
use crate::Pair;
use crate::wire::holds;
use crate::wire::lemma_holds_bytes;
use crate::wire::lemma_holds_split;
use crate::wire::lemma_u16_round_trip;
use crate::wire::lemma_u32_round_trip;
use crate::wire::lemma_u64_round_trip;
use crate::wire::u16_be;
use crate::wire::u32_be;
use crate::wire::u64_be;

verus! {

/// Whether a value is read back as it was written.
///
/// That is so unless a string stands under the wrong one of the two
/// string types for its length, a key, a class name or a text is too long
/// for its length field, a strict array has 2^32 values or more, a date does
/// not survive the conversion to a double and back, or an embedded AMF3
/// value is not read back.
pub open spec fn round_trips(v: ValueView) -> bool
    decreases v, 0nat,
{
    match v {
        ValueView::Number(_) => true,
        ValueView::Boolean(_) => true,
        ValueView::String(s) => is_short(s),
        ValueView::Object { name, pairs } => (name matches Some(s) ==> is_short(s))
            && properties_round_trip(pairs, pairs.len() as int),
        ValueView::Null => true,
        ValueView::Undefined => true,
        ValueView::EcmaArray { pairs } => properties_round_trip(pairs, pairs.len() as int),
        ValueView::Array { values } => values.len() <= u32::MAX && values_round_trip(
            values,
            values.len() as int,
        ),
        ValueView::Date { unixtime } => spec_millis_of_double(spec_double_of_millis(unixtime))
            == unixtime,
        ValueView::LongString(s) => !is_short(s) && is_long(s),
        ValueView::XmlDoc(s) => is_long(s),
        ValueView::AvmPlus(inner) => amf3::laws::round_trips(inner),
    }
}

/// Whether the first `hi` values of a list are read back.
pub open spec fn values_round_trip(values: Seq<ValueView>, hi: int) -> bool
    decreases values, hi,
{
    if hi <= 0 || hi > values.len() {
        true
    } else {
        values_round_trip(values, hi - 1) && round_trips(values[hi - 1])
    }
}

/// Whether the first `hi` pairs of a list are read back.
pub open spec fn properties_round_trip(pairs: Seq<Property>, hi: int) -> bool
    decreases pairs, hi,
{
    if hi <= 0 || hi > pairs.len() {
        true
    } else {
        &&& properties_round_trip(pairs, hi - 1)
        &&& is_short(pairs[hi - 1].key)
        &&& round_trips(pairs[hi - 1].value)
    }
}

/// Where the first values are read back, each of them is.
proof fn lemma_values_at(values: Seq<ValueView>, hi: int, i: int)
    requires
        0 <= i < hi <= values.len(),
        values_round_trip(values, hi),
    ensures
        round_trips(values[i]),
    decreases hi,
{
    if i < hi - 1 {
        lemma_values_at(values, hi - 1, i);
    }
}

/// Where the first pairs are read back, each of them is.
proof fn lemma_properties_at(pairs: Seq<Property>, hi: int, i: int)
    requires
        0 <= i < hi <= pairs.len(),
        properties_round_trip(pairs, hi),
    ensures
        is_short(pairs[i].key),
        round_trips(pairs[i].value),
    decreases hi,
{
    if i < hi - 1 {
        lemma_properties_at(pairs, hi - 1, i);
    }
}

/// Where the first `hi` values stand in the input, the first `i` of them
/// stand there too.
proof fn lemma_values_prefix(values: Seq<ValueView>, i: int, hi: int, bytes: Seq<u8>, base: int)
    requires
        0 <= i <= hi <= values.len(),
        holds(bytes, base, values_encoding(values, hi)),
    ensures
        holds(bytes, base, values_encoding(values, i)),
    decreases hi - i,
{
    if i < hi {
        lemma_holds_split(bytes, base, values_encoding(values, hi - 1), encoding(values[hi - 1]));
        lemma_values_prefix(values, i, hi - 1, bytes, base);
    }
}

/// Where the first `hi` pairs stand in the input, the first `i` of them
/// stand there too.
proof fn lemma_properties_prefix(pairs: Seq<Property>, i: int, hi: int, bytes: Seq<u8>, base: int)
    requires
        0 <= i <= hi <= pairs.len(),
        holds(bytes, base, properties_encoding(pairs, hi)),
    ensures
        holds(bytes, base, properties_encoding(pairs, i)),
    decreases hi - i,
{
    if i < hi {
        lemma_holds_split(
            bytes,
            base,
            properties_encoding(pairs, hi - 1) + short_text(pairs[hi - 1].key),
            encoding(pairs[hi - 1].value),
        );
        lemma_holds_split(
            bytes,
            base,
            properties_encoding(pairs, hi - 1),
            short_text(pairs[hi - 1].key),
        );
        lemma_properties_prefix(pairs, i, hi - 1, bytes, base);
    }
}

/// Whether a step has read `value` from the `len` bytes at the position
/// of `st`.
pub open spec fn read_back<T>(step: Step<T>, value: T, bytes: Seq<u8>, st: State, len: int) -> bool {
    &&& step.result == Ok::<T, DecodeErrorView>(value)
    &&& step.state.pos == st.pos + len
    &&& follows(bytes, st, step.state)
}

/// What the decoder does after each marker.
#[verifier::rlimit(50)]
proof fn lemma_dispatch(bytes: Seq<u8>, st: State)
    ensures
        ({
            let head = grammar::read_u8(bytes, st);
            let st1 = head.state;
            let step = decode_value(bytes, st);
            match head.result {
                Err(e) => step == grammar::fail::<ValueView>(e, st1),
                Ok(m) => {
                    &&& m == marker::NUMBER ==> step == grammar::decode_number(bytes, st1)
                    &&& m == marker::BOOLEAN ==> step == grammar::decode_boolean(bytes, st1)
                    &&& m == marker::STRING ==> step == grammar::decode_string(bytes, st1)
                    &&& m == marker::OBJECT ==> step == grammar::decode_object(bytes, st1)
                    &&& m == marker::MOVIECLIP ==> step == grammar::fail::<ValueView>(
                        DecodeErrorView::NotSupportedType { marker: m },
                        st1,
                    )
                    &&& m == marker::NULL ==> step == done(ValueView::Null, st1)
                    &&& m == marker::UNDEFINED ==> step == done(ValueView::Undefined, st1)
                    &&& m == marker::REFERENCE ==> step == grammar::decode_reference(bytes, st1)
                    &&& m == marker::ECMA_ARRAY ==> step == grammar::decode_ecma_array(bytes, st1)
                    &&& m == marker::OBJECT_END ==> step == grammar::fail::<ValueView>(
                        DecodeErrorView::NotExpectedObjectEnd,
                        st1,
                    )
                    &&& m == marker::STRICT_ARRAY ==> step == grammar::decode_strict_array(
                        bytes,
                        st1,
                    )
                    &&& m == marker::DATE ==> step == grammar::decode_date(bytes, st1)
                    &&& m == marker::LONG_STRING ==> step == grammar::decode_long_string(bytes, st1)
                    &&& m == marker::UNSUPPORTED ==> step == grammar::fail::<ValueView>(
                        DecodeErrorView::NotSupportedType { marker: m },
                        st1,
                    )
                    &&& m == marker::RECORDSET ==> step == grammar::fail::<ValueView>(
                        DecodeErrorView::NotSupportedType { marker: m },
                        st1,
                    )
                    &&& m == marker::XML_DOC ==> step == grammar::decode_xml_doc(bytes, st1)
                    &&& m == marker::TYPED_OBJECT ==> step == grammar::decode_typed_object(
                        bytes,
                        st1,
                    )
                    &&& m == marker::AVMPLUS ==> step == grammar::decode_avmplus(bytes, st1)
                    &&& m > marker::AVMPLUS ==> step == grammar::fail::<ValueView>(
                        DecodeErrorView::UnknownType { marker: m },
                        st1,
                    )
                },
            }
        }),
{
    reveal_with_fuel(grammar::decode_value, 1);
    reveal_with_fuel(grammar::decode_object, 1);
    reveal_with_fuel(grammar::decode_ecma_array, 1);
    reveal_with_fuel(grammar::decode_strict_array, 1);
    reveal_with_fuel(grammar::decode_typed_object, 1);
}

/// One step of reading a list of values.
proof fn lemma_unfold_values(bytes: Seq<u8>, st: State, n: nat, acc: Seq<ValueView>)
    ensures
        grammar::decode_values(bytes, st, n, acc) == (if n == 0 {
            done(acc, st)
        } else {
            let value = decode_value(bytes, st);
            match value.result {
                Err(e) => grammar::fail(e, value.state),
                Ok(v) => if advanced(bytes, st, value.state) {
                    grammar::decode_values(bytes, value.state, (n - 1) as nat, acc.push(v))
                } else {
                    grammar::fail(DecodeErrorView::Io, value.state)
                },
            }
        }),
{
    reveal_with_fuel(grammar::decode_values, 1);
    reveal_with_fuel(grammar::decode_value, 1);
}

/// One step of reading pairs.
proof fn lemma_unfold_pairs(bytes: Seq<u8>, st: State, acc: Seq<Property>)
    ensures
        grammar::decode_pairs(bytes, st, acc) == ({
            let key = grammar::read_short_text(bytes, st);
            match key.result {
                Err(e) => grammar::fail(e, key.state),
                Ok(k) => if !advanced(bytes, st, key.state) {
                    grammar::fail(DecodeErrorView::Io, key.state)
                } else {
                    let value = decode_value(bytes, key.state);
                    match value.result {
                        Ok(v) => if advanced(bytes, key.state, value.state) {
                            grammar::decode_pairs(
                                bytes,
                                value.state,
                                acc.push(Pair { key: k, value: v }),
                            )
                        } else {
                            grammar::fail(DecodeErrorView::Io, value.state)
                        },
                        Err(DecodeErrorView::NotExpectedObjectEnd) => if k.len() == 0 {
                            done(acc, value.state)
                        } else {
                            grammar::fail(DecodeErrorView::NotExpectedObjectEnd, value.state)
                        },
                        Err(e) => grammar::fail(e, value.state),
                    }
                },
            }
        }),
{
    reveal_with_fuel(grammar::decode_pairs, 1);
    reveal_with_fuel(grammar::decode_value, 1);
}

/// The marker of a value that stands in the input can be read, and what
/// follows the marker stands behind it.
proof fn lemma_marker(bytes: Seq<u8>, st: State, m: u8, rest: Seq<u8>)
    requires
        holds(bytes, st.pos, seq![m] + rest),
    ensures
        grammar::read_u8(bytes, st) == done(m, st.skip(1)),
        holds(bytes, st.pos + 1, rest),
{
    lemma_holds_split(bytes, st.pos, seq![m], rest);
    lemma_holds_bytes(bytes, st.pos, seq![m]);
    assert(bytes[st.pos + 0] == seq![m][0]);
}

/// The text of no characters has no bytes, and no other text has none.
pub proof fn lemma_empty_text(s: Seq<char>)
    ensures
        s.len() == 0 <==> encode_utf8(s).len() == 0,
{
    let payload = encode_utf8(s);
    encode_utf8_decode_utf8(s);
    if s.len() == 0 {
        assert(s =~= Seq::<char>::empty());
        reveal_with_fuel(encode_utf8, 1);
    } else if payload.len() == 0 {
        assert(payload =~= Seq::<u8>::empty());
        reveal_with_fuel(vstd::utf8::decode_utf8, 1);
        assert(vstd::utf8::decode_utf8(payload).len() == 0);
    }
}

/// A text behind a 16-bit length is read back.
#[verifier::rlimit(50)]
proof fn lemma_short_text_round_trip(s: Seq<char>, bytes: Seq<u8>, st: State)
    requires
        is_short(s),
        holds(bytes, st.pos, short_text(s)),
    ensures
        grammar::read_short_text(bytes, st) == done(s, st.skip(short_text(s).len() as int)),
        short_text(s).len() >= 2,
{
    let payload = encode_utf8(s);
    let len = payload.len() as u16;
    lemma_holds_split(bytes, st.pos, u16_be(len), payload);
    lemma_u16_round_trip(len);
    lemma_holds_bytes(bytes, st.pos, u16_be(len));
    lemma_holds_bytes(bytes, st.pos + 2, payload);
    encode_utf8_valid_utf8(s);
    encode_utf8_decode_utf8(s);
}

/// A text behind a 32-bit length is read back.
#[verifier::rlimit(50)]
proof fn lemma_long_text_round_trip(s: Seq<char>, bytes: Seq<u8>, st: State)
    requires
        is_long(s),
        holds(bytes, st.pos, long_text(s)),
    ensures
        grammar::read_long_text(bytes, st) == done(s, st.skip(long_text(s).len() as int)),
        long_text(s).len() >= 4,
{
    let payload = encode_utf8(s);
    let len = payload.len() as u32;
    lemma_holds_split(bytes, st.pos, u32_be(len), payload);
    lemma_u32_round_trip(len);
    lemma_holds_bytes(bytes, st.pos, u32_be(len));
    lemma_holds_bytes(bytes, st.pos + 4, payload);
    encode_utf8_valid_utf8(s);
    encode_utf8_decode_utf8(s);
}

/// The values without parts are read back.
#[verifier::rlimit(50)]
proof fn lemma_scalar_round_trip(v: ValueView, bytes: Seq<u8>, st: State)
    requires
        v is Number || v is Boolean || v is Null || v is Undefined || v is Date,
        round_trips(v),
        holds(bytes, st.pos, encoding(v)),
    ensures
        encodable(v),
        overflow(v) is None,
        read_back(decode_value(bytes, st), v, bytes, st, encoding(v).len() as int),
        encoding(v).len() >= 1,
{
    match v {
        ValueView::Number(bits) => {
            lemma_marker(bytes, st, marker::NUMBER, u64_be(bits));
            lemma_dispatch(bytes, st);
            lemma_holds_bytes(bytes, st.pos + 1, u64_be(bits));
            lemma_u64_round_trip(bits);
        },
        ValueView::Boolean(b) => {
            let flag = seq![amf3::model::flag_byte(b)];
            assert(encoding(v) =~= seq![marker::BOOLEAN] + flag);
            lemma_marker(bytes, st, marker::BOOLEAN, flag);
            lemma_dispatch(bytes, st);
            lemma_holds_bytes(bytes, st.pos + 1, flag);
            assert(bytes[st.pos + 1 + 0] == flag[0]);
        },
        ValueView::Date { unixtime } => {
            let bits = spec_double_of_millis(unixtime);
            let zone = seq![0u8, 0u8];
            assert(encoding(v) =~= seq![marker::DATE] + (u64_be(bits) + zone));
            lemma_marker(bytes, st, marker::DATE, u64_be(bits) + zone);
            lemma_dispatch(bytes, st);
            lemma_holds_split(bytes, st.pos + 1, u64_be(bits), zone);
            lemma_holds_bytes(bytes, st.pos + 1, u64_be(bits));
            lemma_u64_round_trip(bits);
            lemma_holds_bytes(bytes, st.pos + 9, zone);
        },
        ValueView::Null => {
            lemma_marker(bytes, st, marker::NULL, Seq::empty());
            lemma_dispatch(bytes, st);
            assert(encoding(v) =~= encoding(v) + Seq::<u8>::empty());
        },
        _ => {
            lemma_marker(bytes, st, marker::UNDEFINED, Seq::empty());
            lemma_dispatch(bytes, st);
            assert(encoding(v) =~= encoding(v) + Seq::<u8>::empty());
        },
    }
}

/// The values that are one text are read back: a string where its text is
/// short, a long string where it is not, an XML document.
#[verifier::rlimit(50)]
proof fn lemma_textual_round_trip(v: ValueView, bytes: Seq<u8>, st: State)
    requires
        v is String || v is LongString || v is XmlDoc,
        round_trips(v),
        holds(bytes, st.pos, encoding(v)),
    ensures
        encodable(v),
        overflow(v) is None,
        read_back(decode_value(bytes, st), v, bytes, st, encoding(v).len() as int),
        encoding(v).len() >= 1,
{
    match v {
        ValueView::String(s) => {
            lemma_marker(bytes, st, marker::STRING, short_text(s));
            lemma_dispatch(bytes, st);
            lemma_short_text_round_trip(s, bytes, st.skip(1));
        },
        ValueView::LongString(s) => {
            lemma_marker(bytes, st, marker::LONG_STRING, long_text(s));
            lemma_dispatch(bytes, st);
            lemma_long_text_round_trip(s, bytes, st.skip(1));
        },
        ValueView::XmlDoc(s) => {
            lemma_marker(bytes, st, marker::XML_DOC, long_text(s));
            lemma_dispatch(bytes, st);
            lemma_long_text_round_trip(s, bytes, st.skip(1));
        },
        _ => {},
    }
}

/// An embedded AMF3 value that is read back by the AMF3 decoder is read
/// back here.
#[verifier::rlimit(50)]
proof fn lemma_avmplus_round_trip(v: ValueView, bytes: Seq<u8>, st: State)
    requires
        v is AvmPlus,
        round_trips(v),
        holds(bytes, st.pos, encoding(v)),
    ensures
        encodable(v),
        overflow(v) is None,
        read_back(decode_value(bytes, st), v, bytes, st, encoding(v).len() as int),
        encoding(v).len() >= 1,
{
    let inner = v->AvmPlus_0;
    lemma_marker(bytes, st, marker::AVMPLUS, amf3::model::encoding(inner));
    lemma_dispatch(bytes, st);
    amf3::laws::lemma_value_round_trip(inner, bytes, amf3::grammar::State::start(st.pos + 1));
}

/// A value that [`round_trips`] is read back as it was written, whatever
/// stands in the reference table: the decoder reads it from the bytes of
/// its encoding and consumes exactly those bytes, and the encoder accepts
/// it.
#[verifier::rlimit(50)]
pub proof fn lemma_value_round_trip(v: ValueView, bytes: Seq<u8>, st: State)
    requires
        round_trips(v),
        holds(bytes, st.pos, encoding(v)),
    ensures
        encodable(v),
        overflow(v) is None,
        read_back(decode_value(bytes, st), v, bytes, st, encoding(v).len() as int),
        encoding(v).len() >= 1,
    decreases v, 1int,
{
    match v {
        ValueView::Number(_) => lemma_scalar_round_trip(v, bytes, st),
        ValueView::Boolean(_) => lemma_scalar_round_trip(v, bytes, st),
        ValueView::String(_) => lemma_textual_round_trip(v, bytes, st),
        ValueView::Object { .. } => lemma_object_round_trip(v, bytes, st),
        ValueView::Null => lemma_scalar_round_trip(v, bytes, st),
        ValueView::Undefined => lemma_scalar_round_trip(v, bytes, st),
        ValueView::EcmaArray { .. } => lemma_ecma_array_round_trip(v, bytes, st),
        ValueView::Array { .. } => lemma_strict_array_round_trip(v, bytes, st),
        ValueView::Date { .. } => lemma_scalar_round_trip(v, bytes, st),
        ValueView::LongString(_) => lemma_textual_round_trip(v, bytes, st),
        ValueView::XmlDoc(_) => lemma_textual_round_trip(v, bytes, st),
        ValueView::AvmPlus(_) => lemma_avmplus_round_trip(v, bytes, st),
    }
}

/// The values of a list are read back one after another.
#[verifier::rlimit(50)]
proof fn lemma_values_round_trip(
    values: Seq<ValueView>,
    from: int,
    n: int,
    bytes: Seq<u8>,
    base: int,
    st: State,
    acc: Seq<ValueView>,
)
    requires
        0 <= from <= n <= values.len(),
        values_round_trip(values, n),
        holds(bytes, base, values_encoding(values, n)),
        st.pos == base + values_encoding(values, from).len(),
    ensures
        read_back(
            grammar::decode_values(bytes, st, (n - from) as nat, acc),
            acc + values.subrange(from, n),
            bytes,
            st,
            values_encoding(values, n).len() - values_encoding(values, from).len(),
        ),
        values_overflow(values, from) is None ==> values_overflow(values, n) is None,
        values_encodable(values, from) ==> values_encodable(values, n),
    decreases values, n - from,
{
    lemma_unfold_values(bytes, st, (n - from) as nat, acc);
    if from == n {
        assert(acc + values.subrange(from, n) =~= acc);
    } else {
        let v = values[from];
        lemma_values_at(values, n, from);
        lemma_values_prefix(values, from + 1, n, bytes, base);
        lemma_holds_split(bytes, base, values_encoding(values, from), encoding(v));
        lemma_value_round_trip(v, bytes, st);
        let next = decode_value(bytes, st).state;
        lemma_values_round_trip(values, from + 1, n, bytes, base, next, acc.push(v));
        assert(acc.push(v) + values.subrange(from + 1, n) =~= acc + values.subrange(from, n));
    }
}

/// The pairs of a list are read back, up to the object-end marker that
/// follows an empty key.
#[verifier::rlimit(50)]
proof fn lemma_pairs_round_trip(
    pairs: Seq<Property>,
    from: int,
    bytes: Seq<u8>,
    base: int,
    st: State,
    acc: Seq<Property>,
)
    requires
        0 <= from <= pairs.len(),
        properties_round_trip(pairs, pairs.len() as int),
        holds(bytes, base, properties_encoding(pairs, pairs.len() as int) + pairs_end()),
        st.pos == base + properties_encoding(pairs, from).len(),
    ensures
        read_back(
            grammar::decode_pairs(bytes, st, acc),
            acc + pairs.subrange(from, pairs.len() as int),
            bytes,
            st,
            (properties_encoding(pairs, pairs.len() as int) + pairs_end()).len()
                - properties_encoding(pairs, from).len(),
        ),
        properties_overflow(pairs, from) is None ==> properties_overflow(
            pairs,
            pairs.len() as int,
        ) is None,
        properties_encodable(pairs, from) ==> properties_encodable(pairs, pairs.len() as int),
    decreases pairs, pairs.len() - from,
{
    let n = pairs.len() as int;
    let all = properties_encoding(pairs, n);
    lemma_holds_split(bytes, base, all, pairs_end());
    lemma_unfold_pairs(bytes, st, acc);
    if from == n {
        let empty = Seq::<char>::empty();
        lemma_empty_text(empty);
        assert(encode_utf8(empty) =~= Seq::<u8>::empty());
        assert(pairs_end() =~= short_text(empty) + seq![marker::OBJECT_END]);
        lemma_holds_split(bytes, st.pos, short_text(empty), seq![marker::OBJECT_END]);
        lemma_short_text_round_trip(empty, bytes, st);
        let keyed = st.skip(2);
        assert(seq![marker::OBJECT_END] =~= seq![marker::OBJECT_END] + Seq::<u8>::empty());
        lemma_marker(bytes, keyed, marker::OBJECT_END, Seq::empty());
        lemma_dispatch(bytes, keyed);
        assert(acc + pairs.subrange(from, n) =~= acc);
    } else {
        let key = pairs[from].key;
        let v = pairs[from].value;
        lemma_properties_at(pairs, n, from);
        lemma_properties_prefix(pairs, from + 1, n, bytes, base);
        lemma_holds_split(
            bytes,
            base,
            properties_encoding(pairs, from) + short_text(key),
            encoding(v),
        );
        lemma_holds_split(bytes, base, properties_encoding(pairs, from), short_text(key));
        lemma_short_text_round_trip(key, bytes, st);
        let keyed = grammar::read_short_text(bytes, st).state;
        lemma_value_round_trip(v, bytes, keyed);
        let next = decode_value(bytes, keyed).state;
        lemma_pairs_round_trip(
            pairs,
            from + 1,
            bytes,
            base,
            next,
            acc.push(Pair { key, value: v }),
        );
        assert(acc.push(Pair { key, value: v }) + pairs.subrange(from + 1, n) =~= acc
            + pairs.subrange(from, n));
    }
}

/// An anonymous object whose pairs are read gives the object.
#[verifier::rlimit(50)]
proof fn lemma_object_reads(bytes: Seq<u8>, st: State, pairs: Seq<Property>, after: State)
    requires
        grammar::decode_pairs(bytes, st.register(ValueView::Null), Seq::empty()) == done(
            pairs,
            after,
        ),
    ensures
        grammar::decode_object(bytes, st) == grammar::stored(
            ValueView::Object { name: None, pairs },
            after,
            st.objects.len() as int,
        ),
{
    reveal_with_fuel(grammar::decode_object, 1);
    reveal_with_fuel(grammar::decode_body, 1);
    reveal_with_fuel(grammar::decode_pairs, 1);
}

/// An object of a named class whose name and pairs are read gives the
/// object.
#[verifier::rlimit(50)]
proof fn lemma_typed_object_reads(
    bytes: Seq<u8>,
    st: State,
    name: Seq<char>,
    pairs: Seq<Property>,
    after: State,
)
    requires
        grammar::read_short_text(bytes, st.register(ValueView::Null)).result == Ok::<
            Seq<char>,
            DecodeErrorView,
        >(name),
        grammar::decode_pairs(
            bytes,
            grammar::read_short_text(bytes, st.register(ValueView::Null)).state,
            Seq::empty(),
        ) == done(pairs, after),
    ensures
        grammar::decode_typed_object(bytes, st) == grammar::stored(
            ValueView::Object { name: Some(name), pairs },
            after,
            st.objects.len() as int,
        ),
{
    reveal_with_fuel(grammar::decode_typed_object, 1);
    reveal_with_fuel(grammar::decode_body, 1);
    reveal_with_fuel(grammar::decode_pairs, 1);
}

/// An associative array whose count and pairs are read gives the array.
#[verifier::rlimit(50)]
proof fn lemma_ecma_array_reads(bytes: Seq<u8>, st: State, pairs: Seq<Property>, after: State)
    requires
        grammar::read_u32(bytes, st.register(ValueView::Null)).result is Ok,
        grammar::decode_pairs(
            bytes,
            grammar::read_u32(bytes, st.register(ValueView::Null)).state,
            Seq::empty(),
        ) == done(pairs, after),
    ensures
        grammar::decode_ecma_array(bytes, st) == grammar::stored(
            ValueView::EcmaArray { pairs },
            after,
            st.objects.len() as int,
        ),
{
    reveal_with_fuel(grammar::decode_ecma_array, 1);
    reveal_with_fuel(grammar::decode_body, 1);
    reveal_with_fuel(grammar::decode_pairs, 1);
}

/// A strict array whose count and values are read gives the array.
#[verifier::rlimit(50)]
proof fn lemma_strict_array_reads(
    bytes: Seq<u8>,
    st: State,
    n: u32,
    values: Seq<ValueView>,
    after: State,
)
    requires
        grammar::read_u32(bytes, st.register(ValueView::Null)).result == Ok::<
            u32,
            DecodeErrorView,
        >(n),
        grammar::decode_values(
            bytes,
            grammar::read_u32(bytes, st.register(ValueView::Null)).state,
            n as nat,
            Seq::empty(),
        ) == done(values, after),
    ensures
        grammar::decode_strict_array(bytes, st) == grammar::stored(
            ValueView::Array { values },
            after,
            st.objects.len() as int,
        ),
{
    reveal_with_fuel(grammar::decode_strict_array, 1);
    reveal_with_fuel(grammar::decode_values, 1);
}

/// An object, with a class name or without, is read back.
#[verifier::rlimit(50)]
proof fn lemma_object_round_trip(v: ValueView, bytes: Seq<u8>, st: State)
    requires
        v is Object,
        round_trips(v),
        holds(bytes, st.pos, encoding(v)),
    ensures
        encodable(v),
        overflow(v) is None,
        read_back(decode_value(bytes, st), v, bytes, st, encoding(v).len() as int),
        encoding(v).len() >= 1,
    decreases v, 0int,
{
    let name = v->name;
    let pairs = v->Object_pairs;
    let listed = properties_encoding(pairs, pairs.len() as int) + pairs_end();
    assert(properties_encoding(pairs, 0) =~= Seq::<u8>::empty());
    let st1 = st.skip(1);
    let slot = st1.objects.len() as int;
    let registered = st1.register(ValueView::Null);
    match name {
        Some(s) => {
            assert(encoding(v) =~= seq![marker::TYPED_OBJECT] + (short_text(s) + listed));
            lemma_marker(bytes, st, marker::TYPED_OBJECT, short_text(s) + listed);
            lemma_dispatch(bytes, st);
            lemma_holds_split(bytes, st1.pos, short_text(s), listed);
            lemma_short_text_round_trip(s, bytes, registered);
            let named = grammar::read_short_text(bytes, registered).state;
            lemma_pairs_round_trip(pairs, 0, bytes, named.pos, named, Seq::empty());
            let read = grammar::decode_pairs(bytes, named, Seq::empty());
            assert(Seq::<Property>::empty() + pairs.subrange(0, pairs.len() as int) =~= pairs);
            lemma_typed_object_reads(bytes, st1, s, pairs, read.state);
        },
        None => {
            assert(encoding(v) =~= seq![marker::OBJECT] + listed);
            lemma_marker(bytes, st, marker::OBJECT, listed);
            lemma_dispatch(bytes, st);
            lemma_pairs_round_trip(pairs, 0, bytes, registered.pos, registered, Seq::empty());
            let read = grammar::decode_pairs(bytes, registered, Seq::empty());
            assert(Seq::<Property>::empty() + pairs.subrange(0, pairs.len() as int) =~= pairs);
            lemma_object_reads(bytes, st1, pairs, read.state);
        },
    }
}

/// An associative array is read back.
#[verifier::rlimit(50)]
proof fn lemma_ecma_array_round_trip(v: ValueView, bytes: Seq<u8>, st: State)
    requires
        v is EcmaArray,
        round_trips(v),
        holds(bytes, st.pos, encoding(v)),
    ensures
        encodable(v),
        overflow(v) is None,
        read_back(decode_value(bytes, st), v, bytes, st, encoding(v).len() as int),
        encoding(v).len() >= 1,
    decreases v, 0int,
{
    let pairs = v->EcmaArray_pairs;
    let len = u32_be(count(pairs.len()));
    let listed = properties_encoding(pairs, pairs.len() as int) + pairs_end();
    assert(properties_encoding(pairs, 0) =~= Seq::<u8>::empty());
    assert(encoding(v) =~= seq![marker::ECMA_ARRAY] + (len + listed));
    lemma_marker(bytes, st, marker::ECMA_ARRAY, len + listed);
    lemma_dispatch(bytes, st);
    let st1 = st.skip(1);
    let slot = st1.objects.len() as int;
    let registered = st1.register(ValueView::Null);
    lemma_holds_split(bytes, st1.pos, len, listed);
    lemma_u32_round_trip(count(pairs.len()));
    lemma_holds_bytes(bytes, st1.pos, len);
    let counted = registered.skip(4);
    lemma_pairs_round_trip(pairs, 0, bytes, counted.pos, counted, Seq::empty());
    let read = grammar::decode_pairs(bytes, counted, Seq::empty());
    assert(Seq::<Property>::empty() + pairs.subrange(0, pairs.len() as int) =~= pairs);
    assert(grammar::read_u32(bytes, registered) == done(count(pairs.len()), counted));
    lemma_ecma_array_reads(bytes, st1, pairs, read.state);
}

/// A strict array of fewer than 2^32 values is read back.
#[verifier::rlimit(50)]
proof fn lemma_strict_array_round_trip(v: ValueView, bytes: Seq<u8>, st: State)
    requires
        v is Array,
        round_trips(v),
        holds(bytes, st.pos, encoding(v)),
    ensures
        encodable(v),
        overflow(v) is None,
        read_back(decode_value(bytes, st), v, bytes, st, encoding(v).len() as int),
        encoding(v).len() >= 1,
    decreases v, 0int,
{
    let values = v->values;
    let len = u32_be(count(values.len()));
    let listed = values_encoding(values, values.len() as int);
    assert(values_encoding(values, 0) =~= Seq::<u8>::empty());
    assert(encoding(v) =~= seq![marker::STRICT_ARRAY] + (len + listed));
    lemma_marker(bytes, st, marker::STRICT_ARRAY, len + listed);
    lemma_dispatch(bytes, st);
    let st1 = st.skip(1);
    let slot = st1.objects.len() as int;
    let registered = st1.register(ValueView::Null);
    lemma_holds_split(bytes, st1.pos, len, listed);
    lemma_u32_round_trip(count(values.len()));
    lemma_holds_bytes(bytes, st1.pos, len);
    let counted = registered.skip(4);
    lemma_values_round_trip(
        values,
        0,
        values.len() as int,
        bytes,
        counted.pos,
        counted,
        Seq::empty(),
    );
    let read = grammar::decode_values(bytes, counted, values.len(), Seq::empty());
    assert(Seq::<ValueView>::empty() + values.subrange(0, values.len() as int) =~= values);
    assert(grammar::read_u32(bytes, registered) == done(count(values.len()), counted));
    lemma_strict_array_reads(bytes, st1, count(values.len()), values, read.state);
}

/// Round trip: where a value that [`round_trips`] is encoded and the
/// bytes are decoded with an empty reference table, the encoder accepts the
/// value and succeeds, and the decoder gives the value and has consumed all
/// the bytes.
#[verifier::rlimit(50)]
pub proof fn lemma_round_trip(v: ValueView)
    requires
        round_trips(v),
    ensures
        encodable(v),
        overflow(v) is None,
        decode_value(encoding(v), State::start(0)).result == Ok::<ValueView, DecodeErrorView>(v),
        decode_value(encoding(v), State::start(0)).state.pos == encoding(v).len(),
{
    let bytes = encoding(v);
    assert(bytes.subrange(0, bytes.len() as int) =~= bytes);
    lemma_value_round_trip(v, bytes, State::start(0));
}

/// The reserved markers and the marker of unsupported values are
/// refused by name; an object-end marker in the place of a value and an
/// unknown marker are errors of their own.
pub proof fn lemma_refused_markers(bytes: Seq<u8>, st: State)
    requires
        0 <= st.pos < bytes.len(),
    ensures
        ({
            let m = bytes[st.pos];
            let step = decode_value(bytes, st);
            &&& (m == marker::MOVIECLIP || m == marker::RECORDSET || m == marker::UNSUPPORTED)
                ==> step == grammar::fail::<ValueView>(
                DecodeErrorView::NotSupportedType { marker: m },
                st.skip(1),
            )
            &&& m == marker::OBJECT_END ==> step == grammar::fail::<ValueView>(
                DecodeErrorView::NotExpectedObjectEnd,
                st.skip(1),
            )
            &&& m > marker::AVMPLUS ==> step == grammar::fail::<ValueView>(
                DecodeErrorView::UnknownType { marker: m },
                st.skip(1),
            )
        }),
{
    lemma_dispatch(bytes, st);
}

/// A reference gives the entry of the table that its index names, and
/// fails with the index where the table has no such entry.
pub proof fn lemma_reference(bytes: Seq<u8>, st: State, index: u16)
    requires
        holds(bytes, st.pos, seq![marker::REFERENCE] + u16_be(index)),
    ensures
        index < st.objects.len() ==> decode_value(bytes, st) == done(
            st.objects[index as int],
            st.skip(3),
        ),
        index >= st.objects.len() ==> decode_value(bytes, st) == grammar::fail::<ValueView>(
            DecodeErrorView::NotFoundInReferenceTable { index: index as usize },
            st.skip(3),
        ),
{
    lemma_marker(bytes, st, marker::REFERENCE, u16_be(index));
    lemma_dispatch(bytes, st);
    lemma_holds_bytes(bytes, st.pos + 1, u16_be(index));
    lemma_u16_round_trip(index);
}

/// A composite at the top level takes the first place in the reference
/// table: after a strict array that [`round_trips`] has been read with an
/// empty table, the table holds the array at index 0.
#[verifier::rlimit(50)]
pub proof fn lemma_array_is_registered(v: ValueView, bytes: Seq<u8>, pos: int)
    requires
        v is Array,
        round_trips(v),
        holds(bytes, pos, encoding(v)),
    ensures
        decode_value(bytes, State::start(pos)).state.objects.len() >= 1,
        decode_value(bytes, State::start(pos)).state.objects[0] == v,
{
    let st = State::start(pos);
    let values = v->values;
    let len = u32_be(count(values.len()));
    let listed = values_encoding(values, values.len() as int);
    assert(values_encoding(values, 0) =~= Seq::<u8>::empty());
    assert(encoding(v) =~= seq![marker::STRICT_ARRAY] + (len + listed));
    lemma_marker(bytes, st, marker::STRICT_ARRAY, len + listed);
    lemma_dispatch(bytes, st);
    let st1 = st.skip(1);
    let registered = st1.register(ValueView::Null);
    lemma_holds_split(bytes, st1.pos, len, listed);
    lemma_u32_round_trip(count(values.len()));
    lemma_holds_bytes(bytes, st1.pos, len);
    let counted = registered.skip(4);
    lemma_values_round_trip(
        values,
        0,
        values.len() as int,
        bytes,
        counted.pos,
        counted,
        Seq::empty(),
    );
    let read = grammar::decode_values(bytes, counted, values.len(), Seq::empty());
    assert(Seq::<ValueView>::empty() + values.subrange(0, values.len() as int) =~= values);
    assert(grammar::read_u32(bytes, registered) == done(count(values.len()), counted));
    lemma_strict_array_reads(bytes, st1, count(values.len()), values, read.state);
}

/// The values that have no AMF0 values inside them move the position
/// forward within the input and leave the table alone.
#[verifier::rlimit(50)]
proof fn lemma_plain_follows(bytes: Seq<u8>, st: State)
    requires
        0 <= st.pos <= bytes.len(),
    ensures
        follows(bytes, st, grammar::decode_number(bytes, st).state),
        follows(bytes, st, grammar::decode_boolean(bytes, st).state),
        follows(bytes, st, grammar::decode_string(bytes, st).state),
        follows(bytes, st, grammar::decode_long_string(bytes, st).state),
        follows(bytes, st, grammar::decode_xml_doc(bytes, st).state),
        follows(bytes, st, grammar::decode_date(bytes, st).state),
        follows(bytes, st, grammar::decode_reference(bytes, st).state),
        follows(bytes, st, grammar::decode_avmplus(bytes, st).state),
        follows(bytes, st, grammar::read_short_text(bytes, st).state),
        grammar::read_short_text(bytes, st).result is Ok ==> advanced(
            bytes,
            st,
            grammar::read_short_text(bytes, st).state,
        ),
        grammar::read_short_text(bytes, st).state.objects == st.objects,
{
    amf3::laws::lemma_decode_value_advances(bytes, amf3::grammar::State::start(st.pos));
}

/// Every value takes at least one byte, and no step of the decoder moves
/// the position back or beyond the input, or lets the table shrink. So the
/// tests on the state between two steps, which the grammar makes to show
/// that it terminates, always hold.
#[verifier::rlimit(50)]
pub proof fn lemma_decode_value_advances(bytes: Seq<u8>, st: State)
    requires
        0 <= st.pos <= bytes.len(),
    ensures
        follows(bytes, st, decode_value(bytes, st).state),
        decode_value(bytes, st).result is Ok ==> advanced(bytes, st, decode_value(bytes, st).state),
    decreases remaining(bytes, st), 0nat,
{
    lemma_dispatch(bytes, st);
    let head = grammar::read_u8(bytes, st);
    if head.result is Ok {
        let m = head.result->Ok_0;
        let st1 = head.state;
        lemma_plain_follows(bytes, st1);
        if m == marker::OBJECT {
            lemma_composites_follow(bytes, st1, m);
        } else if m == marker::ECMA_ARRAY {
            lemma_composites_follow(bytes, st1, m);
        } else if m == marker::STRICT_ARRAY {
            lemma_composites_follow(bytes, st1, m);
        } else if m == marker::TYPED_OBJECT {
            lemma_composites_follow(bytes, st1, m);
        }
    }
}

/// Reading a list of values moves the position forward within the input.
#[verifier::rlimit(50)]
proof fn lemma_values_follow(bytes: Seq<u8>, st: State, n: nat, acc: Seq<ValueView>)
    requires
        0 <= st.pos <= bytes.len(),
    ensures
        follows(bytes, st, grammar::decode_values(bytes, st, n, acc).state),
    decreases remaining(bytes, st), 1nat, n,
{
    lemma_unfold_values(bytes, st, n, acc);
    if n > 0 {
        lemma_decode_value_advances(bytes, st);
        let value = decode_value(bytes, st);
        if value.result is Ok {
            lemma_values_follow(bytes, value.state, (n - 1) as nat, acc.push(value.result->Ok_0));
        }
    }
}

/// Reading pairs moves the position forward within the input.
#[verifier::rlimit(50)]
proof fn lemma_pairs_follow(bytes: Seq<u8>, st: State, acc: Seq<Property>)
    requires
        0 <= st.pos <= bytes.len(),
    ensures
        follows(bytes, st, grammar::decode_pairs(bytes, st, acc).state),
    decreases remaining(bytes, st), 1nat, 0nat,
{
    lemma_unfold_pairs(bytes, st, acc);
    lemma_plain_follows(bytes, st);
    let key = grammar::read_short_text(bytes, st);
    if key.result is Ok {
        lemma_decode_value_advances(bytes, key.state);
        let value = decode_value(bytes, key.state);
        if value.result is Ok {
            lemma_pairs_follow(
                bytes,
                value.state,
                acc.push(Pair { key: key.result->Ok_0, value: value.result->Ok_0 }),
            );
        }
    }
}

/// Reading the pairs of a composite and storing it moves the position
/// forward within the input.
#[verifier::rlimit(50)]
proof fn lemma_body_follows(
    bytes: Seq<u8>,
    st: State,
    slot: int,
    make: spec_fn(Seq<Property>) -> ValueView,
)
    requires
        0 <= st.pos <= bytes.len(),
        0 <= slot < st.objects.len(),
    ensures
        follows(bytes, st, grammar::decode_body(bytes, st, slot, make).state),
    decreases remaining(bytes, st), 2nat, 0nat,
{
    reveal_with_fuel(grammar::decode_body, 1);
    reveal_with_fuel(grammar::decode_pairs, 1);
    lemma_pairs_follow(bytes, st, Seq::empty());
}

/// The composite that the marker `m` names moves the position forward
/// within the input and lets the table grow at most.
#[verifier::rlimit(50)]
proof fn lemma_composites_follow(bytes: Seq<u8>, st: State, m: u8)
    requires
        0 <= st.pos <= bytes.len(),
    ensures
        m == marker::OBJECT ==> follows(bytes, st, grammar::decode_object(bytes, st).state),
        m == marker::ECMA_ARRAY ==> follows(
            bytes,
            st,
            grammar::decode_ecma_array(bytes, st).state,
        ),
        m == marker::STRICT_ARRAY ==> follows(
            bytes,
            st,
            grammar::decode_strict_array(bytes, st).state,
        ),
        m == marker::TYPED_OBJECT ==> follows(
            bytes,
            st,
            grammar::decode_typed_object(bytes, st).state,
        ),
    decreases remaining(bytes, st), 3nat, 0nat,
{
    let slot = st.objects.len() as int;
    let st1 = st.register(ValueView::Null);
    if m == marker::OBJECT {
        reveal_with_fuel(grammar::decode_object, 1);
        reveal_with_fuel(grammar::decode_body, 1);
        lemma_body_follows(
            bytes,
            st1,
            slot,
            |p: Seq<Property>| ValueView::Object { name: None, pairs: p },
        );
    } else if m == marker::ECMA_ARRAY {
        reveal_with_fuel(grammar::decode_ecma_array, 1);
        reveal_with_fuel(grammar::decode_body, 1);
        let len = grammar::read_u32(bytes, st1);
        if len.result is Ok {
            lemma_body_follows(
                bytes,
                len.state,
                slot,
                |p: Seq<Property>| ValueView::EcmaArray { pairs: p },
            );
        }
    } else if m == marker::STRICT_ARRAY {
        reveal_with_fuel(grammar::decode_strict_array, 1);
        reveal_with_fuel(grammar::decode_values, 1);
        let len = grammar::read_u32(bytes, st1);
        if len.result is Ok {
            lemma_values_follow(bytes, len.state, len.result->Ok_0 as nat, Seq::empty());
        }
    } else if m == marker::TYPED_OBJECT {
        reveal_with_fuel(grammar::decode_typed_object, 1);
        reveal_with_fuel(grammar::decode_body, 1);
        lemma_plain_follows(bytes, st1);
        let name = grammar::read_short_text(bytes, st1);
        if name.result is Ok {
            let s = name.result->Ok_0;
            lemma_body_follows(
                bytes,
                name.state,
                slot,
                |p: Seq<Property>| ValueView::Object { name: Some(s), pairs: p },
            );
        }
    }
}

} // verus!
