//! The AMF0 encoder.

use vstd::prelude::*;
use crate::amf0::marker;
use crate::amf0::model::count;
use crate::amf0::model::encodable;
use crate::amf0::model::encoding;
use crate::amf0::model::is_long;
use crate::amf0::model::is_short;
use crate::amf0::model::lemma_properties_encodable;
use crate::amf0::model::lemma_properties_overflow_stable;
use crate::amf0::model::lemma_values_encodable;
use crate::amf0::model::lemma_values_overflow_stable;
use crate::amf0::model::LONG_MAX;
use crate::amf0::model::long_text;
use crate::amf0::model::overflow;
use crate::amf0::model::pairs_end;
use crate::amf0::model::properties_encodable;
use crate::amf0::model::properties_encoding;
use crate::amf0::model::properties_overflow;
use crate::amf0::model::SHORT_MAX;
use crate::amf0::model::short_text;
use crate::amf0::model::string_encoding;
use crate::amf0::model::values_encodable;
use crate::amf0::model::values_encoding;
use crate::amf0::model::values_overflow;
use crate::amf0::model::ValueView;
use crate::amf0::properties_view;
use crate::amf0::Value;
use crate::amf0::values_view;
use crate::amf3;
use crate::amf3::encoder::wrote;
use crate::amf3::name_view;
use crate::double::double_of_millis;
use crate::error::EncodeError;
use crate::Pair;
use crate::wire::put_bytes;
use crate::wire::put_u16;
use crate::wire::put_u32;
use crate::wire::put_u64;

verus! {

/// Whether the text of a string fits a 16-bit length.
pub fn fits_short(s: &String) -> (b: bool)
    ensures
        b == is_short(s@),
{
    s.as_str().as_bytes().len() <= SHORT_MAX
}

/// Whether the text of a string fits a 32-bit length.
pub fn fits_long(s: &String) -> (b: bool)
    ensures
        b == is_long(s@),
{
    s.as_str().as_bytes().len() as u64 <= LONG_MAX
}

/// Whether every pair of a list can be encoded.
pub fn properties_can_be_encoded(pairs: &Vec<Pair<String, Value>>) -> (b: bool)
    ensures
        b == properties_encodable(properties_view(pairs@), pairs@.len() as int),
    decreases pairs,
{
    let ghost view = properties_view(pairs@);
    let mut i: usize = 0;
    while i < pairs.len()
        invariant
            i <= pairs@.len(),
            view == properties_view(pairs@),
            properties_encodable(view, i as int),
        decreases pairs@.len() - i,
    {
        if !fits_short(&pairs[i].key) || !can_be_encoded(&pairs[i].value) {
            proof {
                if properties_encodable(view, pairs@.len() as int) {
                    lemma_properties_encodable(view, pairs@.len() as int, i as int);
                }
            }
            return false;
        }
        i = i + 1;
    }
    true
}

/// Whether every value of a list can be encoded.
pub fn values_can_be_encoded(values: &Vec<Value>) -> (b: bool)
    ensures
        b == values_encodable(values_view(values@), values@.len() as int),
    decreases values,
{
    let ghost view = values_view(values@);
    let mut i: usize = 0;
    while i < values.len()
        invariant
            i <= values@.len(),
            view == values_view(values@),
            values_encodable(view, i as int),
        decreases values@.len() - i,
    {
        if !can_be_encoded(&values[i]) {
            proof {
                if values_encodable(view, values@.len() as int) {
                    lemma_values_encodable(view, values@.len() as int, i as int);
                }
            }
            return false;
        }
        i = i + 1;
    }
    true
}

/// Whether a value can be encoded: every key and class name in it fits a
/// 16-bit length, every other text a 32-bit length.
pub fn can_be_encoded(value: &Value) -> (b: bool)
    ensures
        b == encodable(value@),
    decreases value,
{
    match value {
        Value::String(s) => fits_long(s),
        Value::LongString(s) => fits_long(s),
        Value::XmlDoc(s) => fits_long(s),
        Value::Object { name, pairs } => {
            let name_fits: bool = match name {
                Some(s) => fits_short(s),
                None => true,
            };
            name_fits && properties_can_be_encoded(pairs)
        },
        Value::EcmaArray { pairs } => properties_can_be_encoded(pairs),
        Value::Array { values } => values_can_be_encoded(values),
        _ => true,
    }
}

/// An encoder that appends AMF0 values to a byte vector.
#[derive(Debug)]
pub struct Encoder {
    writer: Vec<u8>,
}

impl View for Encoder {
    type V = Seq<u8>;

    /// The bytes written so far.
    closed spec fn view(&self) -> Seq<u8> {
        self.writer@
    }
}

impl Encoder {
    /// An encoder that appends to `writer`.
    pub fn new(writer: Vec<u8>) -> (e: Self)
        ensures
            e@ == writer@,
    {
        Encoder { writer }
    }

    /// The bytes written so far.
    pub fn into_inner(self) -> (w: Vec<u8>)
        ensures
            w@ == self@,
    {
        self.writer
    }

    /// Writes a text behind a 16-bit length.
    fn write_string(&mut self, s: &str)
        requires
            is_short(s@),
        ensures
            final(self)@ == old(self)@ + short_text(s@),
    {
        let bytes: &[u8] = s.as_bytes();
        put_u16(&mut self.writer, bytes.len() as u16);
        put_bytes(&mut self.writer, bytes);
        assert(self@ =~= old(self)@ + short_text(s@));
    }

    /// Writes a text behind a 32-bit length.
    fn write_long_string(&mut self, s: &str)
        requires
            is_long(s@),
        ensures
            final(self)@ == old(self)@ + long_text(s@),
    {
        let bytes: &[u8] = s.as_bytes();
        put_u32(&mut self.writer, bytes.len() as u32);
        put_bytes(&mut self.writer, bytes);
        assert(self@ =~= old(self)@ + long_text(s@));
    }

    /// Writes the pairs of a list, each as its key and its value, and
    /// what ends them.
    #[verifier::rlimit(50)]
    fn encode_pairs(&mut self, pairs: &Vec<Pair<String, Value>>) -> (r: Result<(), EncodeError>)
        requires
            properties_encodable(properties_view(pairs@), pairs@.len() as int),
        ensures
            wrote(
                r,
                old(self)@,
                final(self)@,
                properties_overflow(properties_view(pairs@), pairs@.len() as int),
                properties_encoding(properties_view(pairs@), pairs@.len() as int) + pairs_end(),
            ),
        decreases pairs, 0nat,
    {
        let ghost view = properties_view(pairs@);
        let mut i: usize = 0;
        while i < pairs.len()
            invariant
                i <= pairs@.len(),
                view == properties_view(pairs@),
                properties_encodable(view, pairs@.len() as int),
                properties_overflow(view, i as int) is None,
                self@ == old(self)@ + properties_encoding(view, i as int),
            decreases pairs@.len() - i,
        {
            proof {
                lemma_properties_encodable(view, pairs@.len() as int, i as int);
                if properties_overflow(view, i + 1) is Some {
                    lemma_properties_overflow_stable(view, i + 1, pairs@.len() as int);
                }
            }
            self.write_string(pairs[i].key.as_str());
            self.encode_value(&pairs[i].value)?;
            i = i + 1;
            assert(self@ =~= old(self)@ + properties_encoding(view, i as int));
        }
        put_u16(&mut self.writer, 0);
        self.writer.push(marker::OBJECT_END);
        assert(self@ =~= old(self)@ + (properties_encoding(view, pairs@.len() as int)
            + pairs_end()));
        Ok(())
    }

    /// Writes a number: the marker and the eight bytes of the double.
    fn encode_number(&mut self, number: u64) -> (r: Result<(), EncodeError>)
        ensures
            r is Ok,
            final(self)@ == old(self)@ + encoding(ValueView::Number(number)),
    {
        self.writer.push(marker::NUMBER);
        put_u64(&mut self.writer, number);
        assert(self@ =~= old(self)@ + encoding(ValueView::Number(number)));
        Ok(())
    }

    /// Writes a boolean: the marker and a byte of one or zero.
    fn encode_boolean(&mut self, boolean: bool) -> (r: Result<(), EncodeError>)
        ensures
            r is Ok,
            final(self)@ == old(self)@ + encoding(ValueView::Boolean(boolean)),
    {
        self.writer.push(marker::BOOLEAN);
        self.writer.push(if boolean {
            1
        } else {
            0
        });
        assert(self@ =~= old(self)@ + encoding(ValueView::Boolean(boolean)));
        Ok(())
    }

    /// Writes a string under the string marker where its text fits a
    /// 16-bit length, under the long-string marker where it does not.
    fn encode_string(&mut self, string: &String) -> (r: Result<(), EncodeError>)
        requires
            is_long(string@),
        ensures
            r is Ok,
            final(self)@ == old(self)@ + string_encoding(string@),
    {
        if fits_short(string) {
            self.writer.push(marker::STRING);
            self.write_string(string.as_str());
        } else {
            self.writer.push(marker::LONG_STRING);
            self.write_long_string(string.as_str());
        }
        assert(self@ =~= old(self)@ + string_encoding(string@));
        Ok(())
    }

    /// Writes an XML document: the marker and the text behind a 32-bit
    /// length.
    fn encode_xml_doc(&mut self, xml_doc: &String) -> (r: Result<(), EncodeError>)
        requires
            is_long(xml_doc@),
        ensures
            r is Ok,
            final(self)@ == old(self)@ + encoding(ValueView::XmlDoc(xml_doc@)),
    {
        self.writer.push(marker::XML_DOC);
        self.write_long_string(xml_doc.as_str());
        assert(self@ =~= old(self)@ + encoding(ValueView::XmlDoc(xml_doc@)));
        Ok(())
    }

    /// Writes a date: its milliseconds as a double, and a time zone of
    /// zero.
    fn encode_date(&mut self, unixtime: u64) -> (r: Result<(), EncodeError>)
        ensures
            r is Ok,
            final(self)@ == old(self)@ + encoding(ValueView::Date { unixtime }),
    {
        self.writer.push(marker::DATE);
        put_u64(&mut self.writer, double_of_millis(unixtime));
        put_u16(&mut self.writer, 0);
        assert(self@ =~= old(self)@ + encoding(ValueView::Date { unixtime }));
        Ok(())
    }

    /// Writes an object in full: under the typed-object marker with its
    /// class name where it has one, under the object marker where not.
    #[verifier::rlimit(50)]
    fn encode_object(&mut self, name: &Option<String>, pairs: &Vec<Pair<String, Value>>) -> (r:
        Result<(), EncodeError>)
        requires
            encodable(ValueView::Object { name: name_view(*name), pairs: properties_view(pairs@) }),
        ensures
            wrote(
                r,
                old(self)@,
                final(self)@,
                overflow(
                    ValueView::Object { name: name_view(*name), pairs: properties_view(pairs@) },
                ),
                encoding(
                    ValueView::Object { name: name_view(*name), pairs: properties_view(pairs@) },
                ),
            ),
        decreases pairs, 1nat,
    {
        match name {
            Some(s) => {
                self.writer.push(marker::TYPED_OBJECT);
                self.write_string(s.as_str());
            },
            None => {
                self.writer.push(marker::OBJECT);
            },
        }
        self.encode_pairs(pairs)?;
        assert(self@ =~= old(self)@ + encoding(
            ValueView::Object { name: name_view(*name), pairs: properties_view(pairs@) },
        ));
        Ok(())
    }

    /// Writes an associative array in full: the number of its pairs, and
    /// the pairs.
    #[verifier::rlimit(50)]
    fn encode_ecma_array(&mut self, pairs: &Vec<Pair<String, Value>>) -> (r: Result<
        (),
        EncodeError,
    >)
        requires
            encodable(ValueView::EcmaArray { pairs: properties_view(pairs@) }),
        ensures
            wrote(
                r,
                old(self)@,
                final(self)@,
                overflow(ValueView::EcmaArray { pairs: properties_view(pairs@) }),
                encoding(ValueView::EcmaArray { pairs: properties_view(pairs@) }),
            ),
        decreases pairs, 1nat,
    {
        self.writer.push(marker::ECMA_ARRAY);
        put_u32(&mut self.writer, low_32_bits(pairs.len()));
        self.encode_pairs(pairs)?;
        assert(self@ =~= old(self)@ + encoding(
            ValueView::EcmaArray { pairs: properties_view(pairs@) },
        ));
        Ok(())
    }

    /// Writes a strict array in full: the number of its values, and the
    /// values.
    #[verifier::rlimit(50)]
    fn encode_strict_array(&mut self, values: &Vec<Value>) -> (r: Result<(), EncodeError>)
        requires
            encodable(ValueView::Array { values: values_view(values@) }),
        ensures
            wrote(
                r,
                old(self)@,
                final(self)@,
                overflow(ValueView::Array { values: values_view(values@) }),
                encoding(ValueView::Array { values: values_view(values@) }),
            ),
        decreases values, 1nat,
    {
        let ghost view = values_view(values@);
        self.writer.push(marker::STRICT_ARRAY);
        put_u32(&mut self.writer, low_32_bits(values.len()));
        let ghost start = self@;
        let mut i: usize = 0;
        while i < values.len()
            invariant
                i <= values@.len(),
                view == values_view(values@),
                values_encodable(view, values@.len() as int),
                values_overflow(view, i as int) is None,
                self@ == start + values_encoding(view, i as int),
            decreases values@.len() - i,
        {
            proof {
                lemma_values_encodable(view, values@.len() as int, i as int);
                if values_overflow(view, i + 1) is Some {
                    lemma_values_overflow_stable(view, i + 1, values@.len() as int);
                }
            }
            self.encode_value(&values[i])?;
            i = i + 1;
            assert(self@ =~= start + values_encoding(view, i as int));
        }
        assert(self@ =~= old(self)@ + encoding(ValueView::Array { values: view }));
        Ok(())
    }

    /// Writes an embedded AMF3 value: the marker, and the value as the
    /// AMF3 encoder writes it.
    #[verifier::rlimit(50)]
    fn encode_avmplus(&mut self, value: &amf3::Value) -> (r: Result<(), EncodeError>)
        ensures
            wrote(
                r,
                old(self)@,
                final(self)@,
                amf3::model::overflow(value@),
                seq![marker::AVMPLUS] + amf3::model::encoding(value@),
            ),
    {
        self.writer.push(marker::AVMPLUS);
        let mut inner = amf3::Encoder::new(Vec::new());
        inner.encode(value)?;
        let mut body: Vec<u8> = inner.into_inner();
        assert(body@ =~= amf3::model::encoding(value@));
        self.writer.append(&mut body);
        assert(self@ =~= old(self)@ + (seq![marker::AVMPLUS] + amf3::model::encoding(value@)));
        Ok(())
    }

    /// Writes the marker of null.
    fn encode_null(&mut self) -> (r: Result<(), EncodeError>)
        ensures
            r is Ok,
            final(self)@ == old(self)@ + encoding(ValueView::Null),
    {
        self.writer.push(marker::NULL);
        assert(self@ =~= old(self)@ + encoding(ValueView::Null));
        Ok(())
    }

    /// Writes the marker of undefined.
    fn encode_undefined(&mut self) -> (r: Result<(), EncodeError>)
        ensures
            r is Ok,
            final(self)@ == old(self)@ + encoding(ValueView::Undefined),
    {
        self.writer.push(marker::UNDEFINED);
        assert(self@ =~= old(self)@ + encoding(ValueView::Undefined));
        Ok(())
    }

    /// Appends the bytes of a value, or fails with the first overflow of
    /// an embedded AMF3 value; what a failed call has appended is not told.
    #[verifier::rlimit(50)]
    pub fn encode_value(&mut self, value: &Value) -> (r: Result<(), EncodeError>)
        requires
            encodable(value@),
        ensures
            wrote(r, old(self)@, final(self)@, overflow(value@), encoding(value@)),
        decreases value, 2nat,
    {
        match value {
            Value::Number(number) => self.encode_number(*number),
            Value::Boolean(boolean) => self.encode_boolean(*boolean),
            Value::String(string) => self.encode_string(string),
            Value::Object { name, pairs } => self.encode_object(name, pairs),
            Value::EcmaArray { pairs } => self.encode_ecma_array(pairs),
            Value::Array { values } => self.encode_strict_array(values),
            Value::Date { unixtime } => self.encode_date(*unixtime),
            Value::LongString(string) => self.encode_string(string),
            Value::XmlDoc(xml_doc) => self.encode_xml_doc(xml_doc),
            Value::AvmPlus(inner) => self.encode_avmplus(inner),
            Value::Null => self.encode_null(),
            Value::Undefined => self.encode_undefined(),
        }
    }

    /// Appends the bytes of a value. Where a magnitude of an embedded AMF3
    /// value does not fit the variable-length integer format, the call fails
    /// with the first such magnitude and appends nothing.
    pub fn encode(&mut self, value: &Value) -> (r: Result<(), EncodeError>)
        requires
            encodable(value@),
        ensures
            match overflow(value@) {
                Some(n) => r == Err::<(), EncodeError>(EncodeError::U29Overflow { u29: n })
                    && final(self)@ == old(self)@,
                None => r is Ok && final(self)@ == old(self)@ + encoding(value@),
            },
    {
        let mut scratch = Encoder { writer: Vec::new() };
        match scratch.encode_value(value) {
            Ok(()) => {
                assert(scratch@ =~= encoding(value@));
                self.writer.append(&mut scratch.writer);
                Ok(())
            },
            Err(e) => Err(e),
        }
    }
}

/// The low 32 bits of a length.
fn low_32_bits(len: usize) -> (n: u32)
    ensures
        n == count(len as nat),
{
    (len as u64 % 0x1_0000_0000) as u32
}

} // verus!
