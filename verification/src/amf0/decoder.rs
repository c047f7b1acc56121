//! The AMF0 decoder.

use vstd::prelude::*;
use crate::amf0::grammar;
use crate::amf0::grammar::advanced;
use crate::amf0::grammar::follows;
use crate::amf0::grammar::remaining;
use crate::amf0::grammar::State;
use crate::amf0::marker;
use crate::amf0::model::Property;
use crate::amf0::model::ValueView;
use crate::amf0::properties_view;
use crate::amf0::Value;
use crate::amf0::values_view;
use crate::amf3;
use crate::amf3::decoder::failed;
use crate::amf3::decoder::gave_text;
use crate::double::millis_of_double;
use crate::error::DecodeError;
use crate::error::DecodeErrorView;
use crate::Pair;
use crate::wire::Cursor;

verus! {

/// Whether a result is what the grammar gives for a value.
pub open spec fn gave_value(
    r: Result<Value, DecodeError>,
    expected: Result<ValueView, DecodeErrorView>,
) -> bool {
    match expected {
        Ok(v) => r matches Ok(x) && x@ == v,
        Err(e) => failed(r, e),
    }
}

/// Whether a result is what the grammar gives for a list of values.
pub open spec fn gave_values(
    r: Result<Vec<Value>, DecodeError>,
    expected: Result<Seq<ValueView>, DecodeErrorView>,
) -> bool {
    match expected {
        Ok(v) => r matches Ok(x) && values_view(x@) == v,
        Err(e) => failed(r, e),
    }
}

/// Whether a result is what the grammar gives for a list of pairs.
pub open spec fn gave_properties(
    r: Result<Vec<Pair<String, Value>>, DecodeError>,
    expected: Result<Seq<Property>, DecodeErrorView>,
) -> bool {
    match expected {
        Ok(v) => r matches Ok(x) && properties_view(x@) == v,
        Err(e) => failed(r, e),
    }
}

/// A decoder that reads AMF0 values from a byte slice.
///
/// It keeps a table of the composites that the value it reads has brought
/// so far, for references to name. The table is emptied when the next value
/// is begun.
///
/// The decoder follows the nesting of a value by recursion, and sets no
/// bound to it: a value that is nested deeply takes stack in proportion.
#[derive(Debug)]
pub struct Decoder<'a> {
    reader: Cursor<'a>,
    objects: Vec<Value>,
}

impl<'a> Decoder<'a> {
    /// The bytes that the decoder reads.
    pub closed spec fn input(&self) -> Seq<u8> {
        self.reader.bytes@
    }

    /// The read position and the reference table.
    pub closed spec fn state(&self) -> State {
        State { pos: self.reader.pos as int, objects: values_view(self.objects@) }
    }

    /// The read position lies within the input.
    pub closed spec fn wf(&self) -> bool {
        self.reader.wf()
    }

    /// The number of bytes consumed so far.
    pub open spec fn spec_position(&self) -> int {
        self.state().pos
    }

    /// Whether `self` is this decoder after a step that leads from the
    /// state of `before` to `state`.
    pub open spec fn after(&self, before: &Self, state: State) -> bool {
        &&& self.wf()
        &&& self.input() == before.input()
        &&& self.state() == state
        &&& follows(self.input(), before.state(), state)
    }

    /// A decoder at the start of `reader`.
    pub fn new(reader: &'a [u8]) -> (d: Self)
        ensures
            d.wf(),
            d.input() == reader@,
            d.state() == State::start(0),
    {
        let d = Decoder { reader: Cursor::new(reader), objects: Vec::new() };
        assert(d.state() =~= State::start(0));
        d
    }

    /// The number of bytes consumed so far.
    pub fn position(&self) -> (pos: usize)
        ensures
            pos == self.spec_position(),
    {
        self.reader.pos
    }

    /// Reads a text of `len` bytes.
    fn read_utf8(&mut self, len: usize) -> (r: Result<String, DecodeError>)
        requires
            old(self).wf(),
        ensures
            final(self).after(
                old(self),
                grammar::read_utf8(old(self).input(), old(self).state(), len as int).state,
            ),
            gave_text(
                r,
                grammar::read_utf8(old(self).input(), old(self).state(), len as int).result,
            ),
    {
        self.reader.read_utf8(len)
    }

    /// Reads a text behind a 16-bit length.
    fn read_short_text(&mut self) -> (r: Result<String, DecodeError>)
        requires
            old(self).wf(),
        ensures
            final(self).after(
                old(self),
                grammar::read_short_text(old(self).input(), old(self).state()).state,
            ),
            gave_text(r, grammar::read_short_text(old(self).input(), old(self).state()).result),
    {
        let len: usize = self.reader.read_u16()? as usize;
        self.read_utf8(len)
    }

    /// Reads a text behind a 32-bit length.
    fn read_long_text(&mut self) -> (r: Result<String, DecodeError>)
        requires
            old(self).wf(),
        ensures
            final(self).after(
                old(self),
                grammar::read_long_text(old(self).input(), old(self).state()).state,
            ),
            gave_text(r, grammar::read_long_text(old(self).input(), old(self).state()).result),
    {
        let len: usize = self.reader.read_u32()? as usize;
        self.read_utf8(len)
    }

    /// Registers a composite whose contents are still to be read, and
    /// gives its place in the table.
    fn register(&mut self) -> (slot: usize)
        ensures
            final(self).reader == old(self).reader,
            final(self).state() == old(self).state().register(ValueView::Null),
            slot == old(self).state().objects.len(),
    {
        let slot: usize = self.objects.len();
        self.objects.push(Value::Null);
        assert(values_view(self.objects@) =~= values_view(old(self).objects@).push(ValueView::Null));
        slot
    }

    /// Stores a composite in its place in the table.
    fn store(&mut self, slot: usize, value: &Value)
        requires
            slot < old(self).state().objects.len(),
        ensures
            final(self).reader == old(self).reader,
            final(self).state() == old(self).state().fill(slot as int, value@),
    {
        self.objects.set(slot, value.clone());
        assert(values_view(self.objects@) =~= values_view(old(self).objects@).update(
            slot as int,
            value@,
        ));
    }

    /// Reads pairs up to the object-end marker that stands for the value
    /// of an empty key.
    #[verifier::rlimit(50)]
    fn decode_pairs(&mut self) -> (r: Result<Vec<Pair<String, Value>>, DecodeError>)
        requires
            old(self).wf(),
        ensures
            final(self).after(
                old(self),
                grammar::decode_pairs(old(self).input(), old(self).state(), Seq::empty()).state,
            ),
            gave_properties(
                r,
                grammar::decode_pairs(old(self).input(), old(self).state(), Seq::empty()).result,
            ),
        decreases remaining(old(self).input(), old(self).state()), 1nat,
    {
        reveal_with_fuel(grammar::decode_pairs, 1);
        reveal_with_fuel(grammar::decode_value, 1);
        let ghost bytes = self.input();
        let ghost st0 = self.state();
        let mut v: Vec<Pair<String, Value>> = Vec::new();
        assert(properties_view(v@) =~= Seq::<Property>::empty());
        loop
            invariant
                self.wf(),
                self.input() == bytes,
                bytes == old(self).input(),
                st0 == old(self).state(),
                follows(bytes, st0, self.state()),
                grammar::decode_pairs(bytes, st0, Seq::empty()) == grammar::decode_pairs(
                    bytes,
                    self.state(),
                    properties_view(v@),
                ),
            decreases remaining(bytes, self.state()),
        {
            reveal_with_fuel(grammar::decode_pairs, 1);
            reveal_with_fuel(grammar::decode_value, 1);
            let ghost so_far = properties_view(v@);
            let key: String = self.read_short_text()?;
            match self.decode_value() {
                Ok(val) => {
                    proof {
                        assert(so_far.push(Pair { key: key@, value: val@ }) =~= properties_view(
                            v@.push(Pair { key, value: val }),
                        ));
                    }
                    v.push(Pair { key, value: val });
                },
                Err(e) => {
                    if key.as_str().is_empty() {
                        match e {
                            DecodeError::NotExpectedObjectEnd => {
                                return Ok(v);
                            },
                            _ => {
                                return Err(e);
                            },
                        }
                    }
                    return Err(e);
                },
            }
        }
    }

    /// Reads `n` values.
    #[verifier::rlimit(50)]
    fn decode_values(&mut self, n: usize) -> (r: Result<Vec<Value>, DecodeError>)
        requires
            old(self).wf(),
        ensures
            final(self).after(
                old(self),
                grammar::decode_values(
                    old(self).input(),
                    old(self).state(),
                    n as nat,
                    Seq::empty(),
                ).state,
            ),
            gave_values(
                r,
                grammar::decode_values(
                    old(self).input(),
                    old(self).state(),
                    n as nat,
                    Seq::empty(),
                ).result,
            ),
        decreases remaining(old(self).input(), old(self).state()), 1nat,
    {
        reveal_with_fuel(grammar::decode_values, 1);
        reveal_with_fuel(grammar::decode_value, 1);
        let ghost bytes = self.input();
        let ghost st0 = self.state();
        let mut values: Vec<Value> = Vec::new();
        let mut i: usize = 0;
        assert(values_view(values@) =~= Seq::<ValueView>::empty());
        while i < n
            invariant
                i <= n,
                self.wf(),
                self.input() == bytes,
                bytes == old(self).input(),
                st0 == old(self).state(),
                follows(bytes, st0, self.state()),
                grammar::decode_values(bytes, st0, n as nat, Seq::empty())
                    == grammar::decode_values(
                    bytes,
                    self.state(),
                    (n - i) as nat,
                    values_view(values@),
                ),
            decreases n - i,
        {
            reveal_with_fuel(grammar::decode_values, 1);
            reveal_with_fuel(grammar::decode_value, 1);
            let ghost so_far = values_view(values@);
            match self.decode_value() {
                Ok(v) => {
                    values.push(v);
                    assert(values_view(values@) =~= so_far.push(v@));
                },
                Err(e) => {
                    return Err(e);
                },
            }
            i = i + 1;
        }
        Ok(values)
    }

    /// Reads a number.
    fn decode_number(&mut self) -> (r: Result<Value, DecodeError>)
        requires
            old(self).wf(),
        ensures
            final(self).after(
                old(self),
                grammar::decode_number(old(self).input(), old(self).state()).state,
            ),
            gave_value(r, grammar::decode_number(old(self).input(), old(self).state()).result),
    {
        let number: u64 = self.reader.read_u64()?;
        Ok(Value::Number(number))
    }

    /// Reads a boolean.
    fn decode_boolean(&mut self) -> (r: Result<Value, DecodeError>)
        requires
            old(self).wf(),
        ensures
            final(self).after(
                old(self),
                grammar::decode_boolean(old(self).input(), old(self).state()).state,
            ),
            gave_value(r, grammar::decode_boolean(old(self).input(), old(self).state()).result),
    {
        let boolean: bool = self.reader.read_u8()? != 0;
        Ok(Value::Boolean(boolean))
    }

    /// Reads a string.
    fn decode_string(&mut self) -> (r: Result<Value, DecodeError>)
        requires
            old(self).wf(),
        ensures
            final(self).after(
                old(self),
                grammar::decode_string(old(self).input(), old(self).state()).state,
            ),
            gave_value(r, grammar::decode_string(old(self).input(), old(self).state()).result),
    {
        let s: String = self.read_short_text()?;
        Ok(Value::String(s))
    }

    /// Reads a long string.
    fn decode_long_string(&mut self) -> (r: Result<Value, DecodeError>)
        requires
            old(self).wf(),
        ensures
            final(self).after(
                old(self),
                grammar::decode_long_string(old(self).input(), old(self).state()).state,
            ),
            gave_value(r, grammar::decode_long_string(old(self).input(), old(self).state()).result),
    {
        let s: String = self.read_long_text()?;
        Ok(Value::LongString(s))
    }

    /// Reads an XML document.
    fn decode_xml_doc(&mut self) -> (r: Result<Value, DecodeError>)
        requires
            old(self).wf(),
        ensures
            final(self).after(
                old(self),
                grammar::decode_xml_doc(old(self).input(), old(self).state()).state,
            ),
            gave_value(r, grammar::decode_xml_doc(old(self).input(), old(self).state()).result),
    {
        let s: String = self.read_long_text()?;
        Ok(Value::XmlDoc(s))
    }

    /// Reads a date: a double of milliseconds, and a time zone that is
    /// passed over.
    fn decode_date(&mut self) -> (r: Result<Value, DecodeError>)
        requires
            old(self).wf(),
        ensures
            final(self).after(
                old(self),
                grammar::decode_date(old(self).input(), old(self).state()).state,
            ),
            gave_value(r, grammar::decode_date(old(self).input(), old(self).state()).result),
    {
        let ms: u64 = self.reader.read_u64()?;
        self.reader.read_u16()?;
        Ok(Value::Date { unixtime: millis_of_double(ms) })
    }

    /// Reads an anonymous object.
    #[verifier::rlimit(50)]
    fn decode_object(&mut self) -> (r: Result<Value, DecodeError>)
        requires
            old(self).wf(),
        ensures
            final(self).after(
                old(self),
                grammar::decode_object(old(self).input(), old(self).state()).state,
            ),
            gave_value(r, grammar::decode_object(old(self).input(), old(self).state()).result),
        decreases remaining(old(self).input(), old(self).state()), 3nat,
    {
        reveal_with_fuel(grammar::decode_object, 1);
        reveal_with_fuel(grammar::decode_body, 1);
        reveal_with_fuel(grammar::decode_pairs, 1);
        let index: usize = self.register();
        let pairs: Vec<Pair<String, Value>> = self.decode_pairs()?;
        let value = Value::Object { name: None, pairs };
        self.store(index, &value);
        Ok(value)
    }

    /// Reads an associative array.
    #[verifier::rlimit(50)]
    fn decode_ecma_array(&mut self) -> (r: Result<Value, DecodeError>)
        requires
            old(self).wf(),
        ensures
            final(self).after(
                old(self),
                grammar::decode_ecma_array(old(self).input(), old(self).state()).state,
            ),
            gave_value(r, grammar::decode_ecma_array(old(self).input(), old(self).state()).result),
        decreases remaining(old(self).input(), old(self).state()), 3nat,
    {
        reveal_with_fuel(grammar::decode_ecma_array, 1);
        reveal_with_fuel(grammar::decode_body, 1);
        reveal_with_fuel(grammar::decode_pairs, 1);
        let index: usize = self.register();
        self.reader.read_u32()?;
        let pairs: Vec<Pair<String, Value>> = self.decode_pairs()?;
        let value = Value::EcmaArray { pairs };
        self.store(index, &value);
        Ok(value)
    }

    /// Reads a strict array.
    #[verifier::rlimit(50)]
    fn decode_strict_array(&mut self) -> (r: Result<Value, DecodeError>)
        requires
            old(self).wf(),
        ensures
            final(self).after(
                old(self),
                grammar::decode_strict_array(old(self).input(), old(self).state()).state,
            ),
            gave_value(
                r,
                grammar::decode_strict_array(old(self).input(), old(self).state()).result,
            ),
        decreases remaining(old(self).input(), old(self).state()), 3nat,
    {
        reveal_with_fuel(grammar::decode_strict_array, 1);
        reveal_with_fuel(grammar::decode_values, 1);
        let index: usize = self.register();
        let c: usize = self.reader.read_u32()? as usize;
        let values: Vec<Value> = self.decode_values(c)?;
        let value = Value::Array { values };
        self.store(index, &value);
        Ok(value)
    }

    /// Reads an object of a named class.
    #[verifier::rlimit(50)]
    fn decode_typed_object(&mut self) -> (r: Result<Value, DecodeError>)
        requires
            old(self).wf(),
        ensures
            final(self).after(
                old(self),
                grammar::decode_typed_object(old(self).input(), old(self).state()).state,
            ),
            gave_value(
                r,
                grammar::decode_typed_object(old(self).input(), old(self).state()).result,
            ),
        decreases remaining(old(self).input(), old(self).state()), 3nat,
    {
        reveal_with_fuel(grammar::decode_typed_object, 1);
        reveal_with_fuel(grammar::decode_body, 1);
        reveal_with_fuel(grammar::decode_pairs, 1);
        let index: usize = self.register();
        let name: String = self.read_short_text()?;
        let pairs: Vec<Pair<String, Value>> = self.decode_pairs()?;
        let value = Value::Object { name: Some(name), pairs };
        self.store(index, &value);
        Ok(value)
    }

    /// Reads a reference: a copy of the entry of the table that it names.
    fn decode_reference(&mut self) -> (r: Result<Value, DecodeError>)
        requires
            old(self).wf(),
        ensures
            final(self).after(
                old(self),
                grammar::decode_reference(old(self).input(), old(self).state()).state,
            ),
            gave_value(r, grammar::decode_reference(old(self).input(), old(self).state()).result),
    {
        let index: usize = self.reader.read_u16()? as usize;
        if index < self.objects.len() {
            Ok(self.objects[index].clone())
        } else {
            Err(DecodeError::NotFoundInReferenceTable { index })
        }
    }

    /// Reads an embedded AMF3 value with the AMF3 decoder, from the same
    /// input.
    #[verifier::rlimit(50)]
    fn decode_avmplus(&mut self) -> (r: Result<Value, DecodeError>)
        requires
            old(self).wf(),
        ensures
            final(self).after(
                old(self),
                grammar::decode_avmplus(old(self).input(), old(self).state()).state,
            ),
            gave_value(r, grammar::decode_avmplus(old(self).input(), old(self).state()).result),
    {
        let mut inner = amf3::Decoder::resume(self.reader);
        let r = inner.decode();
        self.reader = inner.cursor();
        match r {
            Ok(value) => Ok(Value::AvmPlus(value)),
            Err(e) => Err(e),
        }
    }

    /// Reads a value at the decoder's position, with the reference table
    /// as it stands.
    #[verifier::rlimit(50)]
    pub fn decode_value(&mut self) -> (r: Result<Value, DecodeError>)
        requires
            old(self).wf(),
        ensures
            final(self).after(
                old(self),
                grammar::decode_value(old(self).input(), old(self).state()).state,
            ),
            gave_value(r, grammar::decode_value(old(self).input(), old(self).state()).result),
            r is Ok ==> advanced(old(self).input(), old(self).state(), final(self).state()),
        decreases remaining(old(self).input(), old(self).state()), 0nat,
    {
        reveal_with_fuel(grammar::decode_value, 1);
        reveal_with_fuel(grammar::decode_object, 1);
        reveal_with_fuel(grammar::decode_ecma_array, 1);
        reveal_with_fuel(grammar::decode_strict_array, 1);
        reveal_with_fuel(grammar::decode_typed_object, 1);
        let m: u8 = self.reader.read_u8()?;
        match m {
            marker::NUMBER => self.decode_number(),
            marker::BOOLEAN => self.decode_boolean(),
            marker::STRING => self.decode_string(),
            marker::OBJECT => self.decode_object(),
            marker::ECMA_ARRAY => self.decode_ecma_array(),
            marker::STRICT_ARRAY => self.decode_strict_array(),
            marker::DATE => self.decode_date(),
            marker::LONG_STRING => self.decode_long_string(),
            marker::XML_DOC => self.decode_xml_doc(),
            marker::TYPED_OBJECT => self.decode_typed_object(),
            marker::REFERENCE => self.decode_reference(),
            marker::AVMPLUS => self.decode_avmplus(),
            marker::NULL => Ok(Value::Null),
            marker::UNDEFINED => Ok(Value::Undefined),
            marker::OBJECT_END => Err(DecodeError::NotExpectedObjectEnd),
            marker::UNSUPPORTED => Err(DecodeError::NotSupportedType { marker: m }),
            marker::RECORDSET => Err(DecodeError::NotSupportedType { marker: m }),
            marker::MOVIECLIP => Err(DecodeError::NotSupportedType { marker: m }),
            _ => Err(DecodeError::UnknownType { marker: m }),
        }
    }

    /// Reads one value at the decoder's position, with an empty reference
    /// table: no reference reaches back into an earlier call.
    pub fn decode(&mut self) -> (r: Result<Value, DecodeError>)
        requires
            old(self).wf(),
        ensures
            final(self).wf(),
            final(self).input() == old(self).input(),
            final(self).spec_position() == grammar::decode_value(
                old(self).input(),
                State::start(old(self).spec_position()),
            ).state.pos,
            gave_value(
                r,
                grammar::decode_value(
                    old(self).input(),
                    State::start(old(self).spec_position()),
                ).result,
            ),
            0 <= old(self).spec_position() <= final(self).spec_position() <= old(self).input().len(),
            r is Ok ==> old(self).spec_position() < final(self).spec_position(),
    {
        self.objects.clear();
        assert(self.state() =~= State::start(old(self).spec_position()));
        self.decode_value()
    }
}

} // verus!
