//! What the bytes of an AMF3 stream mean: the decoder as mathematics.
//!
//! Each function takes the whole input and the state before a step, and
//! gives the outcome of the step together with the state after it. The state
//! is the read position and the three reference tables. A failed step has a
//! state too: the position up to which the input was consumed.

use vstd::prelude::*;
use crate::amf3::marker;
use crate::amf3::model::Entry;
use crate::amf3::model::Property;
use crate::amf3::model::ValueView;
use crate::double::spec_millis_of_double;
use crate::error::DecodeErrorView;
use crate::Pair;
use crate::wire::be_u32;
use crate::wire::be_u64;
use crate::wire::bytes_at;
use crate::wire::has_bytes;
use crate::wire::i32_of_bits;
use crate::wire::text_at;

verus! {

/// A class as a trait literal describes it.
#[verifier::ext_equal]
pub ghost struct ClassView {
    pub name: Option<Seq<char>>,
    pub is_dynamic: bool,
    pub fields: Seq<Seq<char>>,
}

/// The read position and the reference tables.
#[verifier::ext_equal]
pub ghost struct State {
    pub pos: int,
    pub strings: Seq<Seq<char>>,
    pub objects: Seq<ValueView>,
    pub classes: Seq<ClassView>,
}

/// The outcome of a step and the state after it.
pub ghost struct Step<T> {
    pub result: Result<T, DecodeErrorView>,
    pub state: State,
}

impl State {
    /// The state in which a top-level value is decoded: empty tables.
    pub open spec fn start(pos: int) -> State {
        State { pos, strings: Seq::empty(), objects: Seq::empty(), classes: Seq::empty() }
    }

    /// The same tables at another position.
    pub open spec fn at(self, pos: int) -> State {
        State { pos, ..self }
    }

    /// The state after `n` more bytes.
    pub open spec fn skip(self, n: int) -> State {
        State { pos: self.pos + n, ..self }
    }

    /// The state with one more entry in the object table.
    pub open spec fn register(self, value: ValueView) -> State {
        State { objects: self.objects.push(value), ..self }
    }

    /// The state with an entry of the object table replaced.
    pub open spec fn fill(self, slot: int, value: ValueView) -> State {
        State { objects: self.objects.update(slot, value), ..self }
    }
}

/// A step that succeeded.
pub open spec fn done<T>(value: T, state: State) -> Step<T> {
    Step { result: Ok(value), state }
}

/// A step that failed.
pub open spec fn fail<T>(error: DecodeErrorView, state: State) -> Step<T> {
    Step { result: Err(error), state }
}

/// The number of bytes that are left to read.
pub open spec fn remaining(bytes: Seq<u8>, st: State) -> nat {
    if 0 <= st.pos <= bytes.len() {
        (bytes.len() - st.pos) as nat
    } else {
        0
    }
}

/// A later state of the same decoding: the position has not gone back and
/// stays within the input, and the object table has not shrunk.
pub open spec fn follows(bytes: Seq<u8>, from: State, to: State) -> bool {
    0 <= from.pos <= to.pos <= bytes.len() && from.objects.len() <= to.objects.len()
}

/// A later state in which at least one byte has been consumed.
pub open spec fn advanced(bytes: Seq<u8>, from: State, to: State) -> bool {
    follows(bytes, from, to) && from.pos < to.pos
}

/// One byte.
pub open spec fn read_u8(bytes: Seq<u8>, st: State) -> Step<u8> {
    if has_bytes(bytes, st.pos, 1) {
        done(bytes[st.pos], st.skip(1))
    } else {
        fail(DecodeErrorView::Io, st)
    }
}

/// A magnitude in the variable-length integer format: up to three bytes
/// that give seven bits each and say in their high bit that another byte
/// follows, and a fourth byte that gives eight bits.
pub open spec fn decode_u29(bytes: Seq<u8>, st: State) -> Step<u32> {
    let p = st.pos;
    if !has_bytes(bytes, p, 1) {
        fail(DecodeErrorView::Io, st)
    } else if bytes[p] < 0x80 {
        done(bytes[p] as u32, st.skip(1))
    } else if !has_bytes(bytes, p, 2) {
        fail(DecodeErrorView::Io, st.skip(1))
    } else if bytes[p + 1] < 0x80 {
        done(((bytes[p] - 0x80) * 0x80 + bytes[p + 1]) as u32, st.skip(2))
    } else if !has_bytes(bytes, p, 3) {
        fail(DecodeErrorView::Io, st.skip(2))
    } else if bytes[p + 2] < 0x80 {
        done(
            (((bytes[p] - 0x80) * 0x80 + (bytes[p + 1] - 0x80)) * 0x80 + bytes[p + 2]) as u32,
            st.skip(3),
        )
    } else if !has_bytes(bytes, p, 4) {
        fail(DecodeErrorView::Io, st.skip(3))
    } else {
        done(
            ((((bytes[p] - 0x80) * 0x80 + (bytes[p + 1] - 0x80)) * 0x80 + (bytes[p + 2] - 0x80))
                * 0x100 + bytes[p + 3]) as u32,
            st.skip(4),
        )
    }
}

/// Whether a magnitude that opens a string or a composite names an entry
/// of a table: its low bit is clear.
pub open spec fn is_reference(u29: u32) -> bool {
    u29 % 2 == 0
}

/// The index or the length that a magnitude carries above its low bit.
pub open spec fn payload(u29: u32) -> usize {
    (u29 / 2) as usize
}

/// `len` bytes as UTF-8 text.
pub open spec fn read_text(bytes: Seq<u8>, st: State, len: int) -> Step<Seq<char>> {
    match text_at(bytes, st.pos, len) {
        Ok(text) => done(text, st.skip(len)),
        Err(DecodeErrorView::String) => fail(DecodeErrorView::String, st.skip(len)),
        Err(_) => fail(DecodeErrorView::Io, st),
    }
}

/// A string: a reference into the string table, or a literal, which
/// enters the table unless it is empty.
pub open spec fn decode_utf8(bytes: Seq<u8>, st: State) -> Step<Seq<char>> {
    let head = decode_u29(bytes, st);
    match head.result {
        Err(e) => fail(e, head.state),
        Ok(u29) => if is_reference(u29) {
            if payload(u29) < st.strings.len() {
                done(st.strings[payload(u29) as int], head.state)
            } else {
                fail(
                    DecodeErrorView::NotFoundInReferenceTable { index: payload(u29) },
                    head.state,
                )
            }
        } else {
            let text = read_text(bytes, head.state, payload(u29) as int);
            match text.result {
                Err(e) => fail(e, text.state),
                Ok(s) => if s.len() == 0 {
                    done(s, text.state)
                } else {
                    done(s, State { strings: text.state.strings.push(s), ..text.state })
                },
            }
        },
    }
}

/// `n` more strings after those in `acc`: the field names of a trait.
pub open spec fn decode_names(bytes: Seq<u8>, st: State, n: nat, acc: Seq<Seq<char>>) -> Step<
    Seq<Seq<char>>,
>
    decreases n,
{
    if n == 0 {
        done(acc, st)
    } else {
        let name = decode_utf8(bytes, st);
        match name.result {
            Err(e) => fail(e, name.state),
            Ok(s) => decode_names(bytes, name.state, (n - 1) as nat, acc.push(s)),
        }
    }
}

/// The entry of the object table that a reference names.
pub open spec fn resolve(st: State, index: usize, after: State) -> Step<ValueView> {
    if index < st.objects.len() {
        done(st.objects[index as int], after)
    } else {
        fail(DecodeErrorView::NotFoundInReferenceTable { index }, after)
    }
}

/// A 29-bit magnitude as a signed integer: magnitudes from 2^28 on stand
/// for the negative numbers.
pub open spec fn integer_of_magnitude(u29: u32) -> i32 {
    if u29 >= 0x1000_0000 {
        (u29 - 0x2000_0000) as i32
    } else {
        u29 as i32
    }
}

/// An integer: a magnitude, taken as a signed number of 29 bits.
pub open spec fn decode_integer(bytes: Seq<u8>, st: State) -> Step<ValueView> {
    let head = decode_u29(bytes, st);
    match head.result {
        Err(e) => fail(e, head.state),
        Ok(u29) => done(ValueView::Integer(integer_of_magnitude(u29)), head.state),
    }
}

/// Eight bytes as the bits of a double.
pub open spec fn read_double(bytes: Seq<u8>, st: State) -> Step<u64> {
    if has_bytes(bytes, st.pos, 8) {
        done(be_u64(bytes_at(bytes, st.pos, 8)), st.skip(8))
    } else {
        fail(DecodeErrorView::Io, st)
    }
}

/// A double: its eight bytes.
pub open spec fn decode_double(bytes: Seq<u8>, st: State) -> Step<ValueView> {
    let bits = read_double(bytes, st);
    match bits.result {
        Err(e) => fail(e, bits.state),
        Ok(b) => done(ValueView::Double(b), bits.state),
    }
}

/// A string value: a string, by reference or as a literal.
pub open spec fn decode_string(bytes: Seq<u8>, st: State) -> Step<ValueView> {
    let text = decode_utf8(bytes, st);
    match text.result {
        Err(e) => fail(e, text.state),
        Ok(s) => done(ValueView::String(s), text.state),
    }
}

/// An XML document: a reference into the object table, or its text. The
/// text enters no table.
pub open spec fn decode_xml_doc(bytes: Seq<u8>, st: State) -> Step<ValueView> {
    let head = decode_u29(bytes, st);
    match head.result {
        Err(e) => fail(e, head.state),
        Ok(u29) => if is_reference(u29) {
            resolve(st, payload(u29), head.state)
        } else {
            let text = read_text(bytes, head.state, payload(u29) as int);
            match text.result {
                Err(e) => fail(e, text.state),
                Ok(s) => done(ValueView::XmlDoc(s), text.state),
            }
        },
    }
}

/// XML: as an XML document, under a marker of its own.
pub open spec fn decode_xml(bytes: Seq<u8>, st: State) -> Step<ValueView> {
    let head = decode_u29(bytes, st);
    match head.result {
        Err(e) => fail(e, head.state),
        Ok(u29) => if is_reference(u29) {
            resolve(st, payload(u29), head.state)
        } else {
            let text = read_text(bytes, head.state, payload(u29) as int);
            match text.result {
                Err(e) => fail(e, text.state),
                Ok(s) => done(ValueView::Xml(s), text.state),
            }
        },
    }
}

/// A date: a magnitude that is passed over, and a double of
/// milliseconds.
pub open spec fn decode_date(bytes: Seq<u8>, st: State) -> Step<ValueView> {
    let head = decode_u29(bytes, st);
    match head.result {
        Err(e) => fail(e, head.state),
        Ok(_) => {
            let bits = read_double(bytes, head.state);
            match bits.result {
                Err(e) => fail(e, bits.state),
                Ok(b) => done(ValueView::Date { unixtime: spec_millis_of_double(b) }, bits.state),
            }
        },
    }
}

/// A composite that is registered before its contents are read, stored
/// in its place in the object table.
pub open spec fn stored(value: ValueView, st: State, slot: int) -> Step<ValueView> {
    done(value, st.fill(slot, value))
}

/// A byte array: a reference into the object table, or a literal, which
/// is registered at once: as many bytes as the header says.
pub open spec fn decode_byte_array(bytes: Seq<u8>, st: State) -> Step<ValueView> {
    let head = decode_u29(bytes, st);
    match head.result {
        Err(e) => fail(e, head.state),
        Ok(u29) => if is_reference(u29) {
            resolve(st, payload(u29), head.state)
        } else {
            let slot = st.objects.len() as int;
            let st1 = head.state.register(ValueView::Null);
            let len = payload(u29) as int;
            if has_bytes(bytes, st1.pos, len) {
                stored(ValueView::ByteArray(bytes_at(bytes, st1.pos, len)), st1.skip(len), slot)
            } else {
                fail(DecodeErrorView::Io, st1)
            }
        },
    }
}

/// The flag and the `len` items of `width` bytes of a numeric vector, once
/// its header is read: the flag, and the position of the first item.
pub open spec fn vector_items(bytes: Seq<u8>, st: State, len: int, width: int) -> Step<bool> {
    let flag = read_u8(bytes, st);
    match flag.result {
        Err(e) => fail(e, flag.state),
        Ok(b) => if has_bytes(bytes, flag.state.pos, len * width) {
            done(b != 0, flag.state)
        } else {
            fail(DecodeErrorView::Io, flag.state)
        },
    }
}

/// A vector of integers: a reference into the object table, or a
/// literal, which is registered at once: a flag, and as many big-endian
/// integers of four bytes as the header says.
pub open spec fn decode_vector_int(bytes: Seq<u8>, st: State) -> Step<ValueView> {
    let head = decode_u29(bytes, st);
    match head.result {
        Err(e) => fail(e, head.state),
        Ok(u29) => if is_reference(u29) {
            resolve(st, payload(u29), head.state)
        } else {
            let slot = st.objects.len() as int;
            let len = payload(u29) as int;
            let items = vector_items(bytes, head.state.register(ValueView::Null), len, 4);
            match items.result {
                Err(e) => fail(e, items.state),
                Ok(is_fixed) => stored(
                    ValueView::IntVector {
                        is_fixed,
                        entries: Seq::new(
                            len as nat,
                            |i: int| i32_of_bits(be_u32(bytes_at(bytes, items.state.pos + 4 * i, 4))),
                        ),
                    },
                    items.state.skip(4 * len),
                    slot,
                ),
            }
        },
    }
}

/// A vector of unsigned integers: as a vector of integers, the items
/// taken as unsigned.
pub open spec fn decode_vector_uint(bytes: Seq<u8>, st: State) -> Step<ValueView> {
    let head = decode_u29(bytes, st);
    match head.result {
        Err(e) => fail(e, head.state),
        Ok(u29) => if is_reference(u29) {
            resolve(st, payload(u29), head.state)
        } else {
            let slot = st.objects.len() as int;
            let len = payload(u29) as int;
            let items = vector_items(bytes, head.state.register(ValueView::Null), len, 4);
            match items.result {
                Err(e) => fail(e, items.state),
                Ok(is_fixed) => stored(
                    ValueView::UintVector {
                        is_fixed,
                        entries: Seq::new(
                            len as nat,
                            |i: int| be_u32(bytes_at(bytes, items.state.pos + 4 * i, 4)),
                        ),
                    },
                    items.state.skip(4 * len),
                    slot,
                ),
            }
        },
    }
}

/// A vector of doubles: as a vector of integers, with items of eight
/// bytes.
pub open spec fn decode_vector_double(bytes: Seq<u8>, st: State) -> Step<ValueView> {
    let head = decode_u29(bytes, st);
    match head.result {
        Err(e) => fail(e, head.state),
        Ok(u29) => if is_reference(u29) {
            resolve(st, payload(u29), head.state)
        } else {
            let slot = st.objects.len() as int;
            let len = payload(u29) as int;
            let items = vector_items(bytes, head.state.register(ValueView::Null), len, 8);
            match items.result {
                Err(e) => fail(e, items.state),
                Ok(is_fixed) => stored(
                    ValueView::DoubleVector {
                        is_fixed,
                        entries: Seq::new(
                            len as nat,
                            |i: int| be_u64(bytes_at(bytes, items.state.pos + 8 * i, 8)),
                        ),
                    },
                    items.state.skip(8 * len),
                    slot,
                ),
            }
        },
    }
}

/// The element type of an object vector: none where the wire has an
/// asterisk.
pub open spec fn element_type(name: Seq<char>) -> Option<Seq<char>> {
    if name == seq!['*'] {
        None
    } else {
        Some(name)
    }
}

/// The class name of a trait: none where the wire has the empty string.
pub open spec fn class_name(name: Seq<char>) -> Option<Seq<char>> {
    if name.len() == 0 {
        None
    } else {
        Some(name)
    }
}

/// The sealed fields of an object: the field names of its class, each
/// with the value at its position.
pub open spec fn sealed_pairs(fields: Seq<Seq<char>>, values: Seq<ValueView>) -> Seq<Property> {
    Seq::new(values.len(), |i: int| Pair { key: fields[i], value: values[i] })
}

/// A value: a marker byte, and what the marker calls for.
#[verifier::opaque]
pub open spec fn decode_value(bytes: Seq<u8>, st: State) -> Step<ValueView>
    decreases remaining(bytes, st), 0nat,
{
    let head = read_u8(bytes, st);
    match head.result {
        Err(e) => fail(e, head.state),
        Ok(m) => {
            let st1 = head.state;
            if m == marker::UNDEFINED {
                done(ValueView::Undefined, st1)
            } else if m == marker::NULL {
                done(ValueView::Null, st1)
            } else if m == marker::FALSE {
                done(ValueView::Boolean(false), st1)
            } else if m == marker::TRUE {
                done(ValueView::Boolean(true), st1)
            } else if m == marker::INTEGER {
                decode_integer(bytes, st1)
            } else if m == marker::DOUBLE {
                decode_double(bytes, st1)
            } else if m == marker::STRING {
                decode_string(bytes, st1)
            } else if m == marker::XML_DOC {
                decode_xml_doc(bytes, st1)
            } else if m == marker::DATE {
                decode_date(bytes, st1)
            } else if m == marker::XML {
                decode_xml(bytes, st1)
            } else if m == marker::ARRAY {
                decode_array(bytes, st1)
            } else if m == marker::BYTE_ARRAY {
                decode_byte_array(bytes, st1)
            } else if m == marker::OBJECT {
                decode_object(bytes, st1)
            } else if m == marker::VECTOR_INT {
                decode_vector_int(bytes, st1)
            } else if m == marker::VECTOR_UINT {
                decode_vector_uint(bytes, st1)
            } else if m == marker::VECTOR_DOUBLE {
                decode_vector_double(bytes, st1)
            } else if m == marker::VECTOR_OBJECT {
                decode_vector_object(bytes, st1)
            } else if m == marker::DICTIONARY {
                decode_dictionary(bytes, st1)
            } else {
                fail(DecodeErrorView::UnknownType { marker: m }, st1)
            }
        },
    }
}

/// `n` more values after those in `acc`.
///
/// Every value takes at least its marker byte, so the test on the state
/// after a value always holds, here and wherever one step follows another
/// (`laws::lemma_decode_value_advances` proves it); it is there to show that
/// the definition terminates.
#[verifier::opaque]
pub open spec fn decode_values(bytes: Seq<u8>, st: State, n: nat, acc: Seq<ValueView>) -> Step<
    Seq<ValueView>,
>
    decreases remaining(bytes, st), 1nat,
{
    if n == 0 {
        done(acc, st)
    } else {
        let value = decode_value(bytes, st);
        match value.result {
            Err(e) => fail(e, value.state),
            Ok(v) => if advanced(bytes, st, value.state) {
                decode_values(bytes, value.state, (n - 1) as nat, acc.push(v))
            } else {
                fail(DecodeErrorView::Io, value.state)
            },
        }
    }
}

/// More pairs after those in `acc`, up to the empty key that ends them.
#[verifier::opaque]
pub open spec fn decode_pairs(bytes: Seq<u8>, st: State, acc: Seq<Property>) -> Step<Seq<Property>>
    decreases remaining(bytes, st), 1nat,
{
    let key = decode_utf8(bytes, st);
    match key.result {
        Err(e) => fail(e, key.state),
        Ok(k) => if k.len() == 0 {
            done(acc, key.state)
        } else if !advanced(bytes, st, key.state) {
            fail(DecodeErrorView::Io, key.state)
        } else {
            let value = decode_value(bytes, key.state);
            match value.result {
                Err(e) => fail(e, value.state),
                Ok(v) => if advanced(bytes, key.state, value.state) {
                    decode_pairs(bytes, value.state, acc.push(Pair { key: k, value: v }))
                } else {
                    fail(DecodeErrorView::Io, value.state)
                },
            }
        },
    }
}

/// `n` more dictionary entries after those in `acc`: a key, which is any
/// value, and a value.
#[verifier::opaque]
pub open spec fn decode_entries(bytes: Seq<u8>, st: State, n: nat, acc: Seq<Entry>) -> Step<
    Seq<Entry>,
>
    decreases remaining(bytes, st), 1nat,
{
    if n == 0 {
        done(acc, st)
    } else {
        let key = decode_value(bytes, st);
        match key.result {
            Err(e) => fail(e, key.state),
            Ok(k) => if !advanced(bytes, st, key.state) {
                fail(DecodeErrorView::Io, key.state)
            } else {
                let value = decode_value(bytes, key.state);
                match value.result {
                    Err(e) => fail(e, value.state),
                    Ok(v) => if advanced(bytes, key.state, value.state) {
                        decode_entries(
                            bytes,
                            value.state,
                            (n - 1) as nat,
                            acc.push(Pair { key: k, value: v }),
                        )
                    } else {
                        fail(DecodeErrorView::Io, value.state)
                    },
                }
            },
        }
    }
}

/// The contents of an object of a known class: a value for each sealed
/// field, then, for a dynamic class, pairs up to an empty key. The object
/// counts as sealed the fields of its class, holds the dynamic pairs after
/// them, and takes its place in the object table.
#[verifier::opaque]
pub open spec fn decode_object_body(bytes: Seq<u8>, st: State, class: ClassView, slot: int) -> Step<
    ValueView,
>
    decreases remaining(bytes, st), 2nat,
{
    let sealed = decode_values(bytes, st, class.fields.len(), Seq::empty());
    match sealed.result {
        Err(e) => fail(e, sealed.state),
        Ok(values) => {
            let fixed = sealed_pairs(class.fields, values);
            if !class.is_dynamic {
                stored(
                    ValueView::Object { name: class.name, sealed_count: fixed.len(), pairs: fixed },
                    sealed.state,
                    slot,
                )
            } else if !follows(bytes, st, sealed.state) {
                fail(DecodeErrorView::Io, sealed.state)
            } else {
                let dynamic = decode_pairs(bytes, sealed.state, Seq::empty());
                match dynamic.result {
                    Err(e) => fail(e, dynamic.state),
                    Ok(more) => stored(
                        ValueView::Object {
                            name: class.name,
                            sealed_count: fixed.len(),
                            pairs: fixed + more,
                        },
                        dynamic.state,
                        slot,
                    ),
                }
            }
        },
    }
}

/// Whether the header of an object literal names a class of the trait
/// table: its low bit is clear.
pub open spec fn is_trait_reference(header: usize) -> bool {
    header % 2 == 0
}

/// Whether the header of a trait literal marks the class as
/// externalizable.
pub open spec fn is_externalizable(header: usize) -> bool {
    header / 2 % 2 == 1
}

/// Whether the header of a trait literal marks the class as dynamic.
pub open spec fn is_dynamic(header: usize) -> bool {
    header / 4 % 2 == 1
}

/// The number of sealed fields in the header of a trait literal.
pub open spec fn field_count(header: usize) -> nat {
    (header / 8) as nat
}

/// A trait literal, after its header: the class name and as many field
/// names as the header says. The class enters the trait table. An
/// externalizable class is refused, by its name.
pub open spec fn decode_trait(bytes: Seq<u8>, st: State, header: usize) -> Step<ClassView> {
    let name = decode_utf8(bytes, st);
    match name.result {
        Err(e) => fail(e, name.state),
        Ok(s) => if is_externalizable(header) {
            fail(DecodeErrorView::ExternalizableType { name: s }, name.state)
        } else {
            let fields = decode_names(bytes, name.state, field_count(header), Seq::empty());
            match fields.result {
                Err(e) => fail(e, fields.state),
                Ok(names) => {
                    let class = ClassView {
                        name: class_name(s),
                        is_dynamic: is_dynamic(header),
                        fields: names,
                    };
                    done(class, State { classes: fields.state.classes.push(class), ..fields.state })
                },
            }
        },
    }
}

/// An object: a reference into the object table, or a literal. A literal
/// is registered at once; its class is an entry of the trait table or a
/// trait literal.
#[verifier::opaque]
pub open spec fn decode_object(bytes: Seq<u8>, st: State) -> Step<ValueView>
    decreases remaining(bytes, st), 3nat,
{
    let head = decode_u29(bytes, st);
    match head.result {
        Err(e) => fail(e, head.state),
        Ok(u29) => if is_reference(u29) {
            resolve(st, payload(u29), head.state)
        } else {
            let slot = st.objects.len() as int;
            let st1 = head.state.register(ValueView::Null);
            let header = payload(u29);
            if is_trait_reference(header) {
                let index = header / 2;
                if index < st1.classes.len() {
                    decode_object_body(bytes, st1, st1.classes[index as int], slot)
                } else {
                    fail(DecodeErrorView::NotFoundInReferenceTable { index }, st1)
                }
            } else {
                let literal = decode_trait(bytes, st1, header);
                match literal.result {
                    Err(e) => fail(e, literal.state),
                    Ok(class) => if advanced(bytes, st, literal.state) {
                        decode_object_body(bytes, literal.state, class, slot)
                    } else {
                        fail(DecodeErrorView::Io, literal.state)
                    },
                }
            }
        },
    }
}

/// An array: a reference into the object table, or a literal, which is
/// registered at once: associative pairs up to an empty key, then as many
/// dense values as the header says.
#[verifier::opaque]
pub open spec fn decode_array(bytes: Seq<u8>, st: State) -> Step<ValueView>
    decreases remaining(bytes, st), 3nat,
{
    let head = decode_u29(bytes, st);
    match head.result {
        Err(e) => fail(e, head.state),
        Ok(u29) => if is_reference(u29) {
            resolve(st, payload(u29), head.state)
        } else {
            let slot = st.objects.len() as int;
            let st1 = head.state.register(ValueView::Null);
            let assoc = decode_pairs(bytes, st1, Seq::empty());
            match assoc.result {
                Err(e) => fail(e, assoc.state),
                Ok(pairs) => if !follows(bytes, st1, assoc.state) {
                    fail(DecodeErrorView::Io, assoc.state)
                } else {
                    let dense = decode_values(
                        bytes,
                        assoc.state,
                        payload(u29) as nat,
                        Seq::empty(),
                    );
                    match dense.result {
                        Err(e) => fail(e, dense.state),
                        Ok(values) => stored(
                            ValueView::Array { assoc_entries: pairs, dense_entries: values },
                            dense.state,
                            slot,
                        ),
                    }
                },
            }
        },
    }
}

/// A vector of objects: a reference into the object table, or a literal,
/// which is registered at once: a flag, the element type, and as many values
/// as the header says.
#[verifier::opaque]
pub open spec fn decode_vector_object(bytes: Seq<u8>, st: State) -> Step<ValueView>
    decreases remaining(bytes, st), 3nat,
{
    let head = decode_u29(bytes, st);
    match head.result {
        Err(e) => fail(e, head.state),
        Ok(u29) => if is_reference(u29) {
            resolve(st, payload(u29), head.state)
        } else {
            let slot = st.objects.len() as int;
            let st1 = head.state.register(ValueView::Null);
            let flag = read_u8(bytes, st1);
            match flag.result {
                Err(e) => fail(e, flag.state),
                Ok(b) => {
                    let name = decode_utf8(bytes, flag.state);
                    match name.result {
                        Err(e) => fail(e, name.state),
                        Ok(s) => if !advanced(bytes, st, name.state) {
                            fail(DecodeErrorView::Io, name.state)
                        } else {
                            let entries = decode_values(
                                bytes,
                                name.state,
                                payload(u29) as nat,
                                Seq::empty(),
                            );
                            match entries.result {
                                Err(e) => fail(e, entries.state),
                                Ok(values) => stored(
                                    ValueView::ObjectVector {
                                        name: element_type(s),
                                        is_fixed: b != 0,
                                        entries: values,
                                    },
                                    entries.state,
                                    slot,
                                ),
                            }
                        },
                    }
                },
            }
        },
    }
}

/// A dictionary: a reference into the object table, or a literal, which
/// is registered at once: a flag, and as many entries as the header says.
#[verifier::opaque]
pub open spec fn decode_dictionary(bytes: Seq<u8>, st: State) -> Step<ValueView>
    decreases remaining(bytes, st), 3nat,
{
    let head = decode_u29(bytes, st);
    match head.result {
        Err(e) => fail(e, head.state),
        Ok(u29) => if is_reference(u29) {
            resolve(st, payload(u29), head.state)
        } else {
            let slot = st.objects.len() as int;
            let st1 = head.state.register(ValueView::Null);
            let flag = read_u8(bytes, st1);
            match flag.result {
                Err(e) => fail(e, flag.state),
                Ok(b) => {
                    let entries = decode_entries(
                        bytes,
                        flag.state,
                        payload(u29) as nat,
                        Seq::empty(),
                    );
                    match entries.result {
                        Err(e) => fail(e, entries.state),
                        Ok(pairs) => stored(
                            ValueView::Dictionary { is_weak: b == 1, entries: pairs },
                            entries.state,
                            slot,
                        ),
                    }
                },
            }
        },
    }
}

} // verus!
