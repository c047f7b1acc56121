//! What the bytes of an AMF0 stream mean: the decoder as mathematics.
//!
//! Each function takes the whole input and the state before a step, and
//! gives the outcome of the step together with the state after it. The state
//! is the read position and the table of composites that references name. A
//! failed step has a state too: the position up to which the input was
//! consumed.

use vstd::prelude::*;
use crate::amf0::marker;
use crate::amf0::model::Property;
use crate::amf0::model::ValueView;
use crate::amf3;
use crate::double::spec_millis_of_double;
use crate::error::DecodeErrorView;
use crate::Pair;
use crate::wire::be_u16;
use crate::wire::be_u32;
use crate::wire::be_u64;
use crate::wire::bytes_at;
use crate::wire::has_bytes;
use crate::wire::text_at;

verus! {

/// The read position and the reference table.
#[verifier::ext_equal]
pub ghost struct State {
    pub pos: int,
    pub objects: Seq<ValueView>,
}

/// The outcome of a step and the state after it.
pub ghost struct Step<T> {
    pub result: Result<T, DecodeErrorView>,
    pub state: State,
}

impl State {
    /// The state in which a top-level value is decoded: an empty table.
    pub open spec fn start(pos: int) -> State {
        State { pos, objects: Seq::empty() }
    }

    /// The same table at another position.
    pub open spec fn at(self, pos: int) -> State {
        State { pos, ..self }
    }

    /// The state after `n` more bytes.
    pub open spec fn skip(self, n: int) -> State {
        State { pos: self.pos + n, ..self }
    }

    /// The state with one more entry in the table.
    pub open spec fn register(self, value: ValueView) -> State {
        State { objects: self.objects.push(value), ..self }
    }

    /// The state with an entry of the table replaced.
    pub open spec fn fill(self, slot: int, value: ValueView) -> State {
        State { objects: self.objects.update(slot, value), ..self }
    }
}

/// A step that succeeded.
pub open spec fn done<T>(value: T, state: State) -> Step<T> {
    Step { result: Ok(value), state }
}

/// A step that failed.
pub open spec fn fail<T>(error: DecodeErrorView, state: State) -> Step<T> {
    Step { result: Err(error), state }
}

/// The number of bytes that are left to read.
pub open spec fn remaining(bytes: Seq<u8>, st: State) -> nat {
    if 0 <= st.pos <= bytes.len() {
        (bytes.len() - st.pos) as nat
    } else {
        0
    }
}

/// A later state of the same decoding: the position has not gone back and
/// stays within the input, and the table has not shrunk.
pub open spec fn follows(bytes: Seq<u8>, from: State, to: State) -> bool {
    0 <= from.pos <= to.pos <= bytes.len() && from.objects.len() <= to.objects.len()
}

/// A later state in which at least one byte has been consumed.
pub open spec fn advanced(bytes: Seq<u8>, from: State, to: State) -> bool {
    follows(bytes, from, to) && from.pos < to.pos
}

/// One byte.
pub open spec fn read_u8(bytes: Seq<u8>, st: State) -> Step<u8> {
    if has_bytes(bytes, st.pos, 1) {
        done(bytes[st.pos], st.skip(1))
    } else {
        fail(DecodeErrorView::Io, st)
    }
}

/// A big-endian number of two bytes.
pub open spec fn read_u16(bytes: Seq<u8>, st: State) -> Step<u16> {
    if has_bytes(bytes, st.pos, 2) {
        done(be_u16(bytes_at(bytes, st.pos, 2)), st.skip(2))
    } else {
        fail(DecodeErrorView::Io, st)
    }
}

/// A big-endian number of four bytes.
pub open spec fn read_u32(bytes: Seq<u8>, st: State) -> Step<u32> {
    if has_bytes(bytes, st.pos, 4) {
        done(be_u32(bytes_at(bytes, st.pos, 4)), st.skip(4))
    } else {
        fail(DecodeErrorView::Io, st)
    }
}

/// Eight bytes as the bits of a double.
pub open spec fn read_double(bytes: Seq<u8>, st: State) -> Step<u64> {
    if has_bytes(bytes, st.pos, 8) {
        done(be_u64(bytes_at(bytes, st.pos, 8)), st.skip(8))
    } else {
        fail(DecodeErrorView::Io, st)
    }
}

/// `len` bytes as UTF-8 text.
pub open spec fn read_utf8(bytes: Seq<u8>, st: State, len: int) -> Step<Seq<char>> {
    match text_at(bytes, st.pos, len) {
        Ok(text) => done(text, st.skip(len)),
        Err(DecodeErrorView::String) => fail(DecodeErrorView::String, st.skip(len)),
        Err(_) => fail(DecodeErrorView::Io, st),
    }
}

/// A text behind a 16-bit length.
pub open spec fn read_short_text(bytes: Seq<u8>, st: State) -> Step<Seq<char>> {
    let len = read_u16(bytes, st);
    match len.result {
        Err(e) => fail(e, len.state),
        Ok(n) => read_utf8(bytes, len.state, n as int),
    }
}

/// A text behind a 32-bit length.
pub open spec fn read_long_text(bytes: Seq<u8>, st: State) -> Step<Seq<char>> {
    let len = read_u32(bytes, st);
    match len.result {
        Err(e) => fail(e, len.state),
        Ok(n) => read_utf8(bytes, len.state, n as int),
    }
}

/// A number: the eight bytes of a double.
pub open spec fn decode_number(bytes: Seq<u8>, st: State) -> Step<ValueView> {
    let bits = read_double(bytes, st);
    match bits.result {
        Err(e) => fail(e, bits.state),
        Ok(b) => done(ValueView::Number(b), bits.state),
    }
}

/// A boolean: one byte, true unless it is zero.
pub open spec fn decode_boolean(bytes: Seq<u8>, st: State) -> Step<ValueView> {
    let flag = read_u8(bytes, st);
    match flag.result {
        Err(e) => fail(e, flag.state),
        Ok(b) => done(ValueView::Boolean(b != 0), flag.state),
    }
}

/// A string: a text behind a 16-bit length.
pub open spec fn decode_string(bytes: Seq<u8>, st: State) -> Step<ValueView> {
    let text = read_short_text(bytes, st);
    match text.result {
        Err(e) => fail(e, text.state),
        Ok(s) => done(ValueView::String(s), text.state),
    }
}

/// A long string: a text behind a 32-bit length.
pub open spec fn decode_long_string(bytes: Seq<u8>, st: State) -> Step<ValueView> {
    let text = read_long_text(bytes, st);
    match text.result {
        Err(e) => fail(e, text.state),
        Ok(s) => done(ValueView::LongString(s), text.state),
    }
}

/// An XML document: a text behind a 32-bit length.
pub open spec fn decode_xml_doc(bytes: Seq<u8>, st: State) -> Step<ValueView> {
    let text = read_long_text(bytes, st);
    match text.result {
        Err(e) => fail(e, text.state),
        Ok(s) => done(ValueView::XmlDoc(s), text.state),
    }
}

/// A date: a double of milliseconds, and a time zone of two bytes that is
/// passed over.
pub open spec fn decode_date(bytes: Seq<u8>, st: State) -> Step<ValueView> {
    let bits = read_double(bytes, st);
    match bits.result {
        Err(e) => fail(e, bits.state),
        Ok(b) => {
            let zone = read_u16(bytes, bits.state);
            match zone.result {
                Err(e) => fail(e, zone.state),
                Ok(_) => done(ValueView::Date { unixtime: spec_millis_of_double(b) }, zone.state),
            }
        },
    }
}

/// A reference: a 16-bit index into the table.
pub open spec fn decode_reference(bytes: Seq<u8>, st: State) -> Step<ValueView> {
    let index = read_u16(bytes, st);
    match index.result {
        Err(e) => fail(e, index.state),
        Ok(i) => if i < st.objects.len() {
            done(st.objects[i as int], index.state)
        } else {
            fail(DecodeErrorView::NotFoundInReferenceTable { index: i as usize }, index.state)
        },
    }
}

/// An embedded AMF3 value: one value as the AMF3 decoder reads it, with
/// reference tables of its own.
pub open spec fn decode_avmplus(bytes: Seq<u8>, st: State) -> Step<ValueView> {
    let inner = amf3::grammar::decode_value(bytes, amf3::grammar::State::start(st.pos));
    match inner.result {
        Err(e) => fail(e, st.at(inner.state.pos)),
        Ok(v) => done(ValueView::AvmPlus(v), st.at(inner.state.pos)),
    }
}

/// A composite that is registered before its contents are read, stored
/// in its place in the table.
pub open spec fn stored(value: ValueView, st: State, slot: int) -> Step<ValueView> {
    done(value, st.fill(slot, value))
}

/// A value: a marker byte, and what the marker calls for.
#[verifier::opaque]
pub open spec fn decode_value(bytes: Seq<u8>, st: State) -> Step<ValueView>
    decreases remaining(bytes, st), 0nat,
{
    let head = read_u8(bytes, st);
    match head.result {
        Err(e) => fail(e, head.state),
        Ok(m) => {
            let st1 = head.state;
            if m == marker::NUMBER {
                decode_number(bytes, st1)
            } else if m == marker::BOOLEAN {
                decode_boolean(bytes, st1)
            } else if m == marker::STRING {
                decode_string(bytes, st1)
            } else if m == marker::OBJECT {
                decode_object(bytes, st1)
            } else if m == marker::ECMA_ARRAY {
                decode_ecma_array(bytes, st1)
            } else if m == marker::STRICT_ARRAY {
                decode_strict_array(bytes, st1)
            } else if m == marker::DATE {
                decode_date(bytes, st1)
            } else if m == marker::LONG_STRING {
                decode_long_string(bytes, st1)
            } else if m == marker::XML_DOC {
                decode_xml_doc(bytes, st1)
            } else if m == marker::TYPED_OBJECT {
                decode_typed_object(bytes, st1)
            } else if m == marker::REFERENCE {
                decode_reference(bytes, st1)
            } else if m == marker::AVMPLUS {
                decode_avmplus(bytes, st1)
            } else if m == marker::NULL {
                done(ValueView::Null, st1)
            } else if m == marker::UNDEFINED {
                done(ValueView::Undefined, st1)
            } else if m == marker::OBJECT_END {
                fail(DecodeErrorView::NotExpectedObjectEnd, st1)
            } else if m == marker::UNSUPPORTED || m == marker::RECORDSET || m == marker::MOVIECLIP {
                fail(DecodeErrorView::NotSupportedType { marker: m }, st1)
            } else {
                fail(DecodeErrorView::UnknownType { marker: m }, st1)
            }
        },
    }
}

/// `n` more values after those in `acc`.
///
/// Every value takes at least its marker byte, so the test on the state
/// after a value always holds, here and wherever one step follows another
/// (`laws::lemma_decode_value_advances` proves it); it is there to show that
/// the definition terminates.
#[verifier::opaque]
pub open spec fn decode_values(bytes: Seq<u8>, st: State, n: nat, acc: Seq<ValueView>) -> Step<
    Seq<ValueView>,
>
    decreases remaining(bytes, st), 1nat,
{
    if n == 0 {
        done(acc, st)
    } else {
        let value = decode_value(bytes, st);
        match value.result {
            Err(e) => fail(e, value.state),
            Ok(v) => if advanced(bytes, st, value.state) {
                decode_values(bytes, value.state, (n - 1) as nat, acc.push(v))
            } else {
                fail(DecodeErrorView::Io, value.state)
            },
        }
    }
}

/// More pairs after those in `acc`: a key behind a 16-bit length and a
/// value, again and again. Where an object-end marker is met in place of the
/// value of an empty key, the pairs end there; after any other key it is an
/// error like every other.
#[verifier::opaque]
pub open spec fn decode_pairs(bytes: Seq<u8>, st: State, acc: Seq<Property>) -> Step<Seq<Property>>
    decreases remaining(bytes, st), 1nat,
{
    let key = read_short_text(bytes, st);
    match key.result {
        Err(e) => fail(e, key.state),
        Ok(k) => if !advanced(bytes, st, key.state) {
            fail(DecodeErrorView::Io, key.state)
        } else {
            let value = decode_value(bytes, key.state);
            match value.result {
                Ok(v) => if advanced(bytes, key.state, value.state) {
                    decode_pairs(bytes, value.state, acc.push(Pair { key: k, value: v }))
                } else {
                    fail(DecodeErrorView::Io, value.state)
                },
                Err(DecodeErrorView::NotExpectedObjectEnd) => if k.len() == 0 {
                    done(acc, value.state)
                } else {
                    fail(DecodeErrorView::NotExpectedObjectEnd, value.state)
                },
                Err(e) => fail(e, value.state),
            }
        },
    }
}

/// The pairs of a composite that has been registered in `slot`, made
/// into a value by `make` and stored there.
#[verifier::opaque]
pub open spec fn decode_body(
    bytes: Seq<u8>,
    st: State,
    slot: int,
    make: spec_fn(Seq<Property>) -> ValueView,
) -> Step<ValueView>
    decreases remaining(bytes, st), 2nat,
{
    let pairs = decode_pairs(bytes, st, Seq::empty());
    match pairs.result {
        Err(e) => fail(e, pairs.state),
        Ok(p) => stored(make(p), pairs.state, slot),
    }
}

/// An anonymous object: it is registered, then its pairs are read.
#[verifier::opaque]
pub open spec fn decode_object(bytes: Seq<u8>, st: State) -> Step<ValueView>
    decreases remaining(bytes, st), 3nat,
{
    decode_body(
        bytes,
        st.register(ValueView::Null),
        st.objects.len() as int,
        |p: Seq<Property>| ValueView::Object { name: None, pairs: p },
    )
}

/// An associative array: it is registered, then a 32-bit count is passed
/// over and its pairs are read.
#[verifier::opaque]
pub open spec fn decode_ecma_array(bytes: Seq<u8>, st: State) -> Step<ValueView>
    decreases remaining(bytes, st), 3nat,
{
    let st1 = st.register(ValueView::Null);
    let len = read_u32(bytes, st1);
    match len.result {
        Err(e) => fail(e, len.state),
        Ok(_) => decode_body(
            bytes,
            len.state,
            st.objects.len() as int,
            |p: Seq<Property>| ValueView::EcmaArray { pairs: p },
        ),
    }
}

/// A strict array: it is registered, then a 32-bit count and as many
/// values are read.
#[verifier::opaque]
pub open spec fn decode_strict_array(bytes: Seq<u8>, st: State) -> Step<ValueView>
    decreases remaining(bytes, st), 3nat,
{
    let st1 = st.register(ValueView::Null);
    let len = read_u32(bytes, st1);
    match len.result {
        Err(e) => fail(e, len.state),
        Ok(n) => {
            let values = decode_values(bytes, len.state, n as nat, Seq::empty());
            match values.result {
                Err(e) => fail(e, values.state),
                Ok(v) => stored(
                    ValueView::Array { values: v },
                    values.state,
                    st.objects.len() as int,
                ),
            }
        },
    }
}

/// An object of a named class: it is registered, then the class name and
/// its pairs are read.
#[verifier::opaque]
pub open spec fn decode_typed_object(bytes: Seq<u8>, st: State) -> Step<ValueView>
    decreases remaining(bytes, st), 3nat,
{
    let st1 = st.register(ValueView::Null);
    let name = read_short_text(bytes, st1);
    match name.result {
        Err(e) => fail(e, name.state),
        Ok(s) => decode_body(
            bytes,
            name.state,
            st.objects.len() as int,
            |p: Seq<Property>| ValueView::Object { name: Some(s), pairs: p },
        ),
    }
}

} // verus!
