//! The AMF3 encoder.

use vstd::prelude::*;
use crate::amf3::entries_view;
use crate::amf3::marker;
use crate::amf3::model::class_name_text;
use crate::amf3::model::doubles_bytes;
use crate::amf3::model::encoding;
use crate::amf3::model::entries_encoding;
use crate::amf3::model::entries_overflow;
use crate::amf3::model::integer_magnitude;
use crate::amf3::model::ints_bytes;
use crate::amf3::model::keys_bytes;
use crate::amf3::model::keys_overflow;
use crate::amf3::model::lemma_entries_overflow_stable;
use crate::amf3::model::lemma_keys_overflow_stable;
use crate::amf3::model::lemma_properties_overflow_stable;
use crate::amf3::model::lemma_property_values_overflow_stable;
use crate::amf3::model::lemma_values_overflow_stable;
use crate::amf3::model::literal_header;
use crate::amf3::model::magnitude_bytes;
use crate::amf3::model::magnitude_overflow;
use crate::amf3::model::object_header;
use crate::amf3::model::overflow;
use crate::amf3::model::properties_encoding;
use crate::amf3::model::properties_overflow;
use crate::amf3::model::property_values_encoding;
use crate::amf3::model::property_values_overflow;
use crate::amf3::model::sealed_len;
use crate::amf3::model::text_bytes;
use crate::amf3::model::text_overflow;
use crate::amf3::model::u29_bytes;
use crate::amf3::model::U29_LIMIT;
use crate::amf3::model::uints_bytes;
use crate::amf3::model::values_encoding;
use crate::amf3::model::values_overflow;
use crate::amf3::model::ValueView;
use crate::amf3::name_view;
use crate::amf3::properties_view;
use crate::amf3::Value;
use crate::amf3::values_view;
use crate::double::double_of_millis;
use crate::error::EncodeError;
use crate::Pair;
use crate::wire::put_bytes;
use crate::wire::put_i32;
use crate::wire::put_u32;
use crate::wire::put_u64;

verus! {

/// Whether a step of the encoder did what the model says: it failed with
/// the overflow that the model names, or it appended the bytes of the model.
pub open spec fn wrote(
    r: Result<(), EncodeError>,
    before: Seq<u8>,
    after: Seq<u8>,
    overflow: Option<u32>,
    bytes: Seq<u8>,
) -> bool {
    match overflow {
        Some(n) => r == Err::<(), EncodeError>(EncodeError::U29Overflow { u29: n }),
        None => r is Ok && after == before + bytes,
    }
}

/// An encoder that appends AMF3 values to a byte vector.
#[derive(Debug)]
pub struct Encoder {
    writer: Vec<u8>,
}

impl View for Encoder {
    type V = Seq<u8>;

    /// The bytes written so far.
    closed spec fn view(&self) -> Seq<u8> {
        self.writer@
    }
}

impl Encoder {
    /// An encoder that appends to `writer`.
    pub fn new(writer: Vec<u8>) -> (e: Self)
        ensures
            e@ == writer@,
    {
        Encoder { writer }
    }

    /// The bytes written so far.
    pub fn into_inner(self) -> (w: Vec<u8>)
        ensures
            w@ == self@,
    {
        self.writer
    }

    /// Writes a magnitude in the variable-length integer format, in the
    /// shortest of its four forms; a magnitude of 2^30 or more is an
    /// overflow, and nothing is written for it.
    pub fn encode_u29(&mut self, u29: u32) -> (r: Result<(), EncodeError>)
        ensures
            u29 < U29_LIMIT ==> r is Ok && final(self)@ == old(self)@ + u29_bytes(u29),
            u29 >= U29_LIMIT ==> r == Err::<(), EncodeError>(EncodeError::U29Overflow { u29 })
                && final(self)@ == old(self)@,
    {
        if u29 < 0x80 {
            self.writer.push(u29 as u8);
        } else if u29 < 0x4000 {
            self.writer.push((u29 / 0x80 + 0x80) as u8);
            self.writer.push((u29 % 0x80) as u8);
        } else if u29 < 0x20_0000 {
            self.writer.push((u29 / 0x4000 + 0x80) as u8);
            self.writer.push((u29 / 0x80 % 0x80 + 0x80) as u8);
            self.writer.push((u29 % 0x80) as u8);
        } else if u29 < 0x4000_0000 {
            self.writer.push((u29 / 0x40_0000 % 0x80 + 0x80) as u8);
            self.writer.push((u29 / 0x8000 % 0x80 + 0x80) as u8);
            self.writer.push((u29 / 0x100 % 0x80 + 0x80) as u8);
            self.writer.push((u29 % 0x100) as u8);
        } else {
            return Err(EncodeError::U29Overflow { u29 });
        }
        assert(self.writer@ =~= old(self).writer@ + u29_bytes(u29));
        Ok(())
    }

    /// Writes the magnitude that announces a literal of `len` items.
    fn encode_size(&mut self, len: usize) -> (r: Result<(), EncodeError>)
        ensures
            wrote(
                r,
                old(self)@,
                final(self)@,
                magnitude_overflow(literal_header(len as nat)),
                magnitude_bytes(literal_header(len as nat)),
            ),
    {
        if len >= 0x2000_0000 {
            let u29: u32 = if len > 0x7FFF_FFFF {
                u32::MAX
            } else {
                (2 * len + 1) as u32
            };
            Err(EncodeError::U29Overflow { u29 })
        } else {
            self.encode_u29((2 * len + 1) as u32)
        }
    }

    /// Writes a string as a literal: its length in bytes, then its bytes.
    pub fn encode_utf8(&mut self, s: &str) -> (r: Result<(), EncodeError>)
        ensures
            wrote(r, old(self)@, final(self)@, text_overflow(s@), text_bytes(s@)),
    {
        let bytes: &[u8] = s.as_bytes();
        self.encode_size(bytes.len())?;
        put_bytes(&mut self.writer, bytes);
        assert(self@ =~= old(self)@ + text_bytes(s@));
        Ok(())
    }

    /// Writes the pairs from `from` on, each as its key and its value, and
    /// the empty string that ends them.
    #[verifier::rlimit(50)]
    fn encode_pairs(&mut self, pairs: &Vec<Pair<String, Value>>, from: usize) -> (r: Result<
        (),
        EncodeError,
    >)
        requires
            from <= pairs@.len(),
        ensures
            wrote(
                r,
                old(self)@,
                final(self)@,
                properties_overflow(properties_view(pairs@), from as int, pairs@.len() as int),
                properties_encoding(properties_view(pairs@), from as int, pairs@.len() as int)
                    + text_bytes(Seq::empty()),
            ),
        decreases pairs, 0nat,
    {
        let ghost view = properties_view(pairs@);
        let mut i: usize = from;
        while i < pairs.len()
            invariant
                from <= i <= pairs@.len(),
                view == properties_view(pairs@),
                properties_overflow(view, from as int, i as int) is None,
                self@ == old(self)@ + properties_encoding(view, from as int, i as int),
            decreases pairs@.len() - i,
        {
            proof {
                if properties_overflow(view, from as int, i + 1) is Some {
                    lemma_properties_overflow_stable(
                        view,
                        from as int,
                        i + 1,
                        pairs@.len() as int,
                    );
                }
            }
            self.encode_utf8(pairs[i].key.as_str())?;
            self.encode_value(&pairs[i].value)?;
            i = i + 1;
            assert(self@ =~= old(self)@ + properties_encoding(view, from as int, i as int));
        }
        let empty: &str = "";
        proof {
            reveal_strlit("");
            assert(empty@ =~= Seq::<char>::empty());
        }
        self.encode_utf8(empty)?;
        assert(self@ =~= old(self)@ + (properties_encoding(view, from as int, pairs@.len() as int)
            + text_bytes(Seq::empty())));
        Ok(())
    }

    /// Writes the values of a list, one after another.
    #[verifier::rlimit(50)]
    fn encode_values(&mut self, values: &Vec<Value>) -> (r: Result<(), EncodeError>)
        ensures
            wrote(
                r,
                old(self)@,
                final(self)@,
                values_overflow(values_view(values@), values@.len() as int),
                values_encoding(values_view(values@), values@.len() as int),
            ),
        decreases values, 0nat,
    {
        let ghost view = values_view(values@);
        let mut i: usize = 0;
        while i < values.len()
            invariant
                i <= values@.len(),
                view == values_view(values@),
                values_overflow(view, i as int) is None,
                self@ == old(self)@ + values_encoding(view, i as int),
            decreases values@.len() - i,
        {
            proof {
                if values_overflow(view, i + 1) is Some {
                    lemma_values_overflow_stable(view, i + 1, values@.len() as int);
                }
            }
            self.encode_value(&values[i])?;
            i = i + 1;
            assert(self@ =~= old(self)@ + values_encoding(view, i as int));
        }
        Ok(())
    }

    /// Writes a boolean: one of two markers.
    fn encode_boolean(&mut self, boolean: bool) -> (r: Result<(), EncodeError>)
        ensures
            r is Ok,
            final(self)@ == old(self)@ + encoding(Value::Boolean(boolean)@),
    {
        if boolean {
            self.writer.push(marker::TRUE);
        } else {
            self.writer.push(marker::FALSE);
        }
        assert(self@ =~= old(self)@ + encoding(Value::Boolean(boolean)@));
        Ok(())
    }

    /// Writes an integer: the marker and its magnitude of 29 bits.
    fn encode_integer(&mut self, integer: i32) -> (r: Result<(), EncodeError>)
        ensures
            wrote(
                r,
                old(self)@,
                final(self)@,
                overflow(Value::Integer(integer)@),
                encoding(Value::Integer(integer)@),
            ),
    {
        self.writer.push(marker::INTEGER);
        let u29: u32 = if integer >= 0 {
            integer as u32
        } else {
            #[verifier::truncate]
            ((0x2000_0000 + integer) as u32)
        };
        assert(u29 == integer_magnitude(integer)) by {
            if integer < 0 {
                let shifted: i32 = (0x2000_0000 + integer) as i32;
                assert(shifted as u32 == crate::wire::bits_of_i32(shifted)) by (bit_vector);
            }
        }
        self.encode_u29(u29)?;
        assert(self@ =~= old(self)@ + encoding(Value::Integer(integer)@));
        Ok(())
    }

    /// Writes a double: the marker and its eight bytes.
    fn encode_double(&mut self, double: u64) -> (r: Result<(), EncodeError>)
        ensures
            r is Ok,
            final(self)@ == old(self)@ + encoding(Value::Double(double)@),
    {
        self.writer.push(marker::DOUBLE);
        put_u64(&mut self.writer, double);
        assert(self@ =~= old(self)@ + encoding(Value::Double(double)@));
        Ok(())
    }

    /// Writes a string value: the marker and the string as a literal.
    fn encode_string(&mut self, string: &String) -> (r: Result<(), EncodeError>)
        ensures
            wrote(
                r,
                old(self)@,
                final(self)@,
                text_overflow(string@),
                seq![marker::STRING] + text_bytes(string@),
            ),
    {
        self.writer.push(marker::STRING);
        self.encode_utf8(string.as_str())?;
        assert(self@ =~= old(self)@ + (seq![marker::STRING] + text_bytes(string@)));
        Ok(())
    }

    /// Writes an XML document: the marker and its text as a literal.
    fn encode_xml_document(&mut self, xml_doc: &String) -> (r: Result<(), EncodeError>)
        ensures
            wrote(
                r,
                old(self)@,
                final(self)@,
                text_overflow(xml_doc@),
                seq![marker::XML_DOC] + text_bytes(xml_doc@),
            ),
    {
        self.writer.push(marker::XML_DOC);
        self.encode_utf8(xml_doc.as_str())?;
        assert(self@ =~= old(self)@ + (seq![marker::XML_DOC] + text_bytes(xml_doc@)));
        Ok(())
    }

    /// Writes a date: the marker, the header of a literal, and the
    /// milliseconds as a double.
    fn encode_date(&mut self, unixtime: u64) -> (r: Result<(), EncodeError>)
        ensures
            r is Ok,
            final(self)@ == old(self)@ + encoding(Value::Date { unixtime }@),
    {
        self.writer.push(marker::DATE);
        self.encode_u29(1)?;
        put_u64(&mut self.writer, double_of_millis(unixtime));
        assert(self@ =~= old(self)@ + encoding(Value::Date { unixtime }@));
        Ok(())
    }

    /// Writes XML: the marker and its text as a literal.
    fn encode_xml(&mut self, xml: &String) -> (r: Result<(), EncodeError>)
        ensures
            wrote(
                r,
                old(self)@,
                final(self)@,
                text_overflow(xml@),
                seq![marker::XML] + text_bytes(xml@),
            ),
    {
        self.writer.push(marker::XML);
        self.encode_utf8(xml.as_str())?;
        assert(self@ =~= old(self)@ + (seq![marker::XML] + text_bytes(xml@)));
        Ok(())
    }

    /// Writes an object with a trait of its own: the header, the class
    /// name, the keys of the sealed fields, their values, and the dynamic
    /// pairs where there are more pairs than sealed fields.
    #[verifier::rlimit(50)]
    fn encode_object(
        &mut self,
        name: &Option<String>,
        sealed_count: usize,
        pairs: &Vec<Pair<String, Value>>,
    ) -> (r: Result<(), EncodeError>)
        ensures
            wrote(
                r,
                old(self)@,
                final(self)@,
                overflow(
                    ValueView::Object {
                        name: name_view(*name),
                        sealed_count: sealed_count as nat,
                        pairs: properties_view(pairs@),
                    },
                ),
                encoding(
                    ValueView::Object {
                        name: name_view(*name),
                        sealed_count: sealed_count as nat,
                        pairs: properties_view(pairs@),
                    },
                ),
            ),
        decreases pairs, 1nat,
    {
        let ghost view = properties_view(pairs@);
        let ghost header = object_header(sealed_count as nat, view);
        self.writer.push(marker::OBJECT);
        let is_dynamic: bool = sealed_count < pairs.len();
        let flags: u32 = if is_dynamic {
            11
        } else {
            3
        };
        if sealed_count >= 0x400_0000 {
            let u29: u32 = if sealed_count >= 0x1000_0000 {
                u32::MAX
            } else {
                (sealed_count as u32) * 16 + flags
            };
            return Err(EncodeError::U29Overflow { u29 });
        }
        self.encode_u29((sealed_count as u32) * 16 + flags)?;
        let ghost after_header = self@;
        assert(after_header =~= old(self)@ + (seq![marker::OBJECT] + magnitude_bytes(header)));

        match name {
            Some(s) => {
                self.encode_utf8(s.as_str())?;
            },
            None => {
                let empty: &str = "";
                proof {
                    reveal_strlit("");
                    assert(empty@ =~= Seq::<char>::empty());
                }
                self.encode_utf8(empty)?;
            },
        }
        let ghost after_name = self@;
        assert(after_name == after_header + text_bytes(class_name_text(name_view(*name))));

        let n: usize = if is_dynamic {
            sealed_count
        } else {
            pairs.len()
        };
        assert(n == sealed_len(sealed_count as nat, view));
        let mut i: usize = 0;
        while i < n
            invariant
                i <= n <= pairs@.len(),
                view == properties_view(pairs@),
                keys_overflow(view, i as int) is None,
                magnitude_overflow(header) is None,
                text_overflow(class_name_text(name_view(*name))) is None,
                header == object_header(sealed_count as nat, view),
                n == sealed_len(sealed_count as nat, view),
                self@ == after_name + keys_bytes(view, i as int),
            decreases n - i,
        {
            proof {
                if keys_overflow(view, i + 1) is Some {
                    lemma_keys_overflow_stable(view, i + 1, n as int);
                }
            }
            self.encode_utf8(pairs[i].key.as_str())?;
            i = i + 1;
            assert(self@ =~= after_name + keys_bytes(view, i as int));
        }
        let ghost after_keys = self@;

        let mut j: usize = 0;
        while j < n
            invariant
                j <= n <= pairs@.len(),
                view == properties_view(pairs@),
                property_values_overflow(view, j as int) is None,
                magnitude_overflow(header) is None,
                text_overflow(class_name_text(name_view(*name))) is None,
                keys_overflow(view, n as int) is None,
                header == object_header(sealed_count as nat, view),
                n == sealed_len(sealed_count as nat, view),
                self@ == after_keys + property_values_encoding(view, j as int),
            decreases n - j,
        {
            proof {
                if property_values_overflow(view, j + 1) is Some {
                    lemma_property_values_overflow_stable(view, j + 1, n as int);
                }
            }
            self.encode_value(&pairs[j].value)?;
            j = j + 1;
            assert(self@ =~= after_keys + property_values_encoding(view, j as int));
        }

        if is_dynamic {
            self.encode_pairs(pairs, sealed_count)?;
        }
        assert(self@ =~= old(self)@ + encoding(
            ValueView::Object {
                name: name_view(*name),
                sealed_count: sealed_count as nat,
                pairs: view,
            },
        ));
        Ok(())
    }

    /// Writes an array: the number of dense values, the associative pairs
    /// with the empty string that ends them, and the dense values.
    #[verifier::rlimit(50)]
    fn encode_array(
        &mut self,
        Ghost(whole): Ghost<Value>,
        assoc: &Vec<Pair<String, Value>>,
        dense: &Vec<Value>,
    ) -> (r: Result<(), EncodeError>)
        requires
            whole == (Value::Array { assoc_entries: *assoc, dense_entries: *dense }),
        ensures
            wrote(
                r,
                old(self)@,
                final(self)@,
                overflow(
                    ValueView::Array {
                        assoc_entries: properties_view(assoc@),
                        dense_entries: values_view(dense@),
                    },
                ),
                encoding(
                    ValueView::Array {
                        assoc_entries: properties_view(assoc@),
                        dense_entries: values_view(dense@),
                    },
                ),
            ),
        decreases whole, 1nat,
    {
        proof {
            assert(decreases_to!(whole => whole->assoc_entries));
            assert(decreases_to!(whole => whole->dense_entries));
        }
        self.writer.push(marker::ARRAY);
        self.encode_size(dense.len())?;
        self.encode_pairs(assoc, 0)?;
        self.encode_values(dense)?;
        assert(self@ =~= old(self)@ + encoding(
            ValueView::Array {
                assoc_entries: properties_view(assoc@),
                dense_entries: values_view(dense@),
            },
        ));
        Ok(())
    }

    /// Writes a byte array: the marker, the number of bytes, and the bytes.
    fn encode_byte_array(&mut self, bytes: &Vec<u8>) -> (r: Result<(), EncodeError>)
        ensures
            wrote(
                r,
                old(self)@,
                final(self)@,
                overflow(ValueView::ByteArray(bytes@)),
                encoding(ValueView::ByteArray(bytes@)),
            ),
    {
        self.writer.push(marker::BYTE_ARRAY);
        self.encode_size(bytes.len())?;
        put_bytes(&mut self.writer, bytes.as_slice());
        assert(self@ =~= old(self)@ + encoding(ValueView::ByteArray(bytes@)));
        Ok(())
    }

    /// Writes a vector of integers: the marker, the number of items, the
    /// flag, and each item in four bytes.
    fn encode_vector_int(&mut self, is_fixed: bool, vec: &Vec<i32>) -> (r: Result<(), EncodeError>)
        ensures
            wrote(
                r,
                old(self)@,
                final(self)@,
                overflow(ValueView::IntVector { is_fixed, entries: vec@ }),
                encoding(ValueView::IntVector { is_fixed, entries: vec@ }),
            ),
    {
        self.writer.push(marker::VECTOR_INT);
        self.encode_size(vec.len())?;
        self.writer.push(if is_fixed {
            1
        } else {
            0
        });
        let ghost start = self@;
        let mut i: usize = 0;
        while i < vec.len()
            invariant
                i <= vec@.len(),
                self@ == start + ints_bytes(vec@, i as int),
            decreases vec@.len() - i,
        {
            put_i32(&mut self.writer, vec[i]);
            i = i + 1;
            assert(self@ =~= start + ints_bytes(vec@, i as int));
        }
        assert(self@ =~= old(self)@ + encoding(ValueView::IntVector { is_fixed, entries: vec@ }));
        Ok(())
    }

    /// Writes a vector of unsigned integers: the marker, the number of
    /// items, the flag, and each item in four bytes.
    fn encode_vector_uint(&mut self, is_fixed: bool, vec: &Vec<u32>) -> (r: Result<(), EncodeError>)
        ensures
            wrote(
                r,
                old(self)@,
                final(self)@,
                overflow(ValueView::UintVector { is_fixed, entries: vec@ }),
                encoding(ValueView::UintVector { is_fixed, entries: vec@ }),
            ),
    {
        self.writer.push(marker::VECTOR_UINT);
        self.encode_size(vec.len())?;
        self.writer.push(if is_fixed {
            1
        } else {
            0
        });
        let ghost start = self@;
        let mut i: usize = 0;
        while i < vec.len()
            invariant
                i <= vec@.len(),
                self@ == start + uints_bytes(vec@, i as int),
            decreases vec@.len() - i,
        {
            put_u32(&mut self.writer, vec[i]);
            i = i + 1;
            assert(self@ =~= start + uints_bytes(vec@, i as int));
        }
        assert(self@ =~= old(self)@ + encoding(ValueView::UintVector { is_fixed, entries: vec@ }));
        Ok(())
    }

    /// Writes a vector of doubles: the marker, the number of items, the
    /// flag, and each item in eight bytes.
    fn encode_vector_double(&mut self, is_fixed: bool, vec: &Vec<u64>) -> (r: Result<
        (),
        EncodeError,
    >)
        ensures
            wrote(
                r,
                old(self)@,
                final(self)@,
                overflow(ValueView::DoubleVector { is_fixed, entries: vec@ }),
                encoding(ValueView::DoubleVector { is_fixed, entries: vec@ }),
            ),
    {
        self.writer.push(marker::VECTOR_DOUBLE);
        self.encode_size(vec.len())?;
        self.writer.push(if is_fixed {
            1
        } else {
            0
        });
        let ghost start = self@;
        let mut i: usize = 0;
        while i < vec.len()
            invariant
                i <= vec@.len(),
                self@ == start + doubles_bytes(vec@, i as int),
            decreases vec@.len() - i,
        {
            put_u64(&mut self.writer, vec[i]);
            i = i + 1;
            assert(self@ =~= start + doubles_bytes(vec@, i as int));
        }
        assert(self@ =~= old(self)@ + encoding(
            ValueView::DoubleVector { is_fixed, entries: vec@ },
        ));
        Ok(())
    }

    /// Writes a vector of objects: the marker, the number of items, the
    /// flag, the element type, and the items.
    #[verifier::rlimit(50)]
    fn encode_vector_object(&mut self, name: &Option<String>, is_fixed: bool, vec: &Vec<Value>) -> (r:
        Result<(), EncodeError>)
        ensures
            wrote(
                r,
                old(self)@,
                final(self)@,
                overflow(
                    ValueView::ObjectVector {
                        name: name_view(*name),
                        is_fixed,
                        entries: values_view(vec@),
                    },
                ),
                encoding(
                    ValueView::ObjectVector {
                        name: name_view(*name),
                        is_fixed,
                        entries: values_view(vec@),
                    },
                ),
            ),
        decreases vec, 1nat,
    {
        self.writer.push(marker::VECTOR_OBJECT);
        self.encode_size(vec.len())?;
        self.writer.push(if is_fixed {
            1
        } else {
            0
        });
        match name {
            Some(s) => {
                self.encode_utf8(s.as_str())?;
            },
            None => {
                let any: &str = "*";
                proof {
                    reveal_strlit("*");
                    assert(any@ =~= seq!['*']);
                }
                self.encode_utf8(any)?;
            },
        }
        self.encode_values(vec)?;
        assert(self@ =~= old(self)@ + encoding(
            ValueView::ObjectVector {
                name: name_view(*name),
                is_fixed,
                entries: values_view(vec@),
            },
        ));
        Ok(())
    }

    /// Writes a dictionary: the marker, the number of entries, the flag,
    /// and each entry as its key and its value.
    #[verifier::rlimit(50)]
    fn encode_dictionary(&mut self, is_weak: bool, pairs: &Vec<Pair<Value, Value>>) -> (r: Result<
        (),
        EncodeError,
    >)
        ensures
            wrote(
                r,
                old(self)@,
                final(self)@,
                overflow(ValueView::Dictionary { is_weak, entries: entries_view(pairs@) }),
                encoding(ValueView::Dictionary { is_weak, entries: entries_view(pairs@) }),
            ),
        decreases pairs, 1nat,
    {
        let ghost view = entries_view(pairs@);
        self.writer.push(marker::DICTIONARY);
        self.encode_size(pairs.len())?;
        self.writer.push(if is_weak {
            1
        } else {
            0
        });
        let ghost start = self@;
        let mut i: usize = 0;
        while i < pairs.len()
            invariant
                i <= pairs@.len(),
                view == entries_view(pairs@),
                entries_overflow(view, i as int) is None,
                magnitude_overflow(literal_header(pairs@.len())) is None,
                self@ == start + entries_encoding(view, i as int),
            decreases pairs@.len() - i,
        {
            proof {
                if entries_overflow(view, i + 1) is Some {
                    lemma_entries_overflow_stable(view, i + 1, pairs@.len() as int);
                }
            }
            self.encode_value(&pairs[i].key)?;
            self.encode_value(&pairs[i].value)?;
            i = i + 1;
            assert(self@ =~= start + entries_encoding(view, i as int));
        }
        assert(self@ =~= old(self)@ + encoding(ValueView::Dictionary { is_weak, entries: view }));
        Ok(())
    }

    /// Writes the marker of undefined.
    fn encode_undefined(&mut self) -> (r: Result<(), EncodeError>)
        ensures
            r is Ok,
            final(self)@ == old(self)@ + encoding(ValueView::Undefined),
    {
        self.writer.push(marker::UNDEFINED);
        assert(self@ =~= old(self)@ + encoding(ValueView::Undefined));
        Ok(())
    }

    /// Writes the marker of null.
    fn encode_null(&mut self) -> (r: Result<(), EncodeError>)
        ensures
            r is Ok,
            final(self)@ == old(self)@ + encoding(ValueView::Null),
    {
        self.writer.push(marker::NULL);
        assert(self@ =~= old(self)@ + encoding(ValueView::Null));
        Ok(())
    }

    /// Appends the bytes of a value, or fails with its first overflow;
    /// what a failed call has appended is not told.
    #[verifier::rlimit(50)]
    pub fn encode_value(&mut self, value: &Value) -> (r: Result<(), EncodeError>)
        ensures
            wrote(r, old(self)@, final(self)@, overflow(value@), encoding(value@)),
        decreases value, 2nat,
    {
        match value {
            Value::Undefined => self.encode_undefined(),
            Value::Null => self.encode_null(),
            Value::Boolean(boolean) => self.encode_boolean(*boolean),
            Value::Integer(integer) => self.encode_integer(*integer),
            Value::Double(double) => self.encode_double(*double),
            Value::String(string) => self.encode_string(string),
            Value::XmlDoc(xml_doc) => self.encode_xml_document(xml_doc),
            Value::Date { unixtime } => self.encode_date(*unixtime),
            Value::Object { name, sealed_count, pairs } => self.encode_object(
                name,
                *sealed_count,
                pairs,
            ),
            Value::Xml(xml) => self.encode_xml(xml),
            Value::Array { assoc_entries, dense_entries } => self.encode_array(
                Ghost(*value),
                assoc_entries,
                dense_entries,
            ),
            Value::ByteArray(bytes) => self.encode_byte_array(bytes),
            Value::IntVector { is_fixed, entries } => self.encode_vector_int(*is_fixed, entries),
            Value::UintVector { is_fixed, entries } => self.encode_vector_uint(*is_fixed, entries),
            Value::DoubleVector { is_fixed, entries } => self.encode_vector_double(
                *is_fixed,
                entries,
            ),
            Value::ObjectVector { name, is_fixed, entries } => self.encode_vector_object(
                name,
                *is_fixed,
                entries,
            ),
            Value::Dictionary { is_weak, entries } => self.encode_dictionary(*is_weak, entries),
        }
    }

    /// Appends the bytes of a value. Where a magnitude in it does not fit
    /// the variable-length integer format, the call fails with the first such
    /// magnitude and appends nothing.
    pub fn encode(&mut self, value: &Value) -> (r: Result<(), EncodeError>)
        ensures
            match overflow(value@) {
                Some(n) => r == Err::<(), EncodeError>(EncodeError::U29Overflow { u29: n })
                    && final(self)@ == old(self)@,
                None => r is Ok && final(self)@ == old(self)@ + encoding(value@),
            },
    {
        let mut scratch = Encoder { writer: Vec::new() };
        match scratch.encode_value(value) {
            Ok(()) => {
                assert(scratch@ =~= encoding(value@));
                self.writer.append(&mut scratch.writer);
                Ok(())
            },
            Err(e) => Err(e),
        }
    }
}

} // verus!
