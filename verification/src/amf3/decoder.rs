//! The AMF3 decoder.

use vstd::prelude::*;
use crate::amf3::entries_view;
use crate::amf3::grammar;
use crate::amf3::grammar::advanced;
use crate::amf3::grammar::ClassView;
use crate::amf3::grammar::follows;
use crate::amf3::grammar::remaining;
use crate::amf3::grammar::State;
use crate::amf3::marker;
use crate::amf3::model::Entry;
use crate::amf3::model::Property;
use crate::amf3::model::ValueView;
use crate::amf3::name_view;
use crate::amf3::properties_view;
use crate::amf3::Value;
use crate::amf3::values_view;
use crate::double::millis_of_double;
use crate::error::DecodeError;
use crate::error::DecodeErrorView;
use crate::Pair;
use crate::wire::be_u32;
use crate::wire::be_u64;
use crate::wire::bytes_at;
use crate::wire::Cursor;
use crate::wire::has_bytes;
use crate::wire::i32_of_bits;

verus! {

/// A class as a trait literal describes it.
#[derive(Debug)]
struct Class {
    name: Option<String>,
    is_dynamic: bool,
    fields: Vec<String>,
}

/// The texts of a list of strings.
pub open spec fn strings_view(strings: Seq<String>) -> Seq<Seq<char>> {
    Seq::new(strings.len(), |i: int| strings[i]@)
}

impl Class {
    spec fn view(&self) -> ClassView {
        ClassView {
            name: name_view(self.name),
            is_dynamic: self.is_dynamic,
            fields: strings_view(self.fields@),
        }
    }

    /// A copy of the class.
    fn duplicate(&self) -> (r: Class)
        ensures
            r.view() == self.view(),
    {
        let name: Option<String> = match &self.name {
            Some(s) => Some(s.clone()),
            None => None,
        };
        let r = Class { name, is_dynamic: self.is_dynamic, fields: self.fields.clone() };
        assert(strings_view(r.fields@) =~= strings_view(self.fields@));
        r
    }
}

spec fn classes_view(classes: Seq<Class>) -> Seq<ClassView> {
    Seq::new(classes.len(), |i: int| classes[i].view())
}

/// Whether a result is the failure that the grammar names.
pub open spec fn failed<T>(r: Result<T, DecodeError>, e: DecodeErrorView) -> bool {
    r matches Err(x) && x@ == e
}

/// Whether a result is what the grammar gives for a number.
pub open spec fn gave_u32(r: Result<u32, DecodeError>, expected: Result<u32, DecodeErrorView>) -> bool {
    match expected {
        Ok(n) => r matches Ok(x) && x == n,
        Err(e) => failed(r, e),
    }
}

/// Whether a result is what the grammar gives for a string.
pub open spec fn gave_text(
    r: Result<String, DecodeError>,
    expected: Result<Seq<char>, DecodeErrorView>,
) -> bool {
    match expected {
        Ok(s) => r matches Ok(x) && x@ == s,
        Err(e) => failed(r, e),
    }
}

/// Whether a result is what the grammar gives for a value.
pub open spec fn gave_value(
    r: Result<Value, DecodeError>,
    expected: Result<ValueView, DecodeErrorView>,
) -> bool {
    match expected {
        Ok(v) => r matches Ok(x) && x@ == v,
        Err(e) => failed(r, e),
    }
}

/// Whether a result is what the grammar gives for a list of values.
pub open spec fn gave_values(
    r: Result<Vec<Value>, DecodeError>,
    expected: Result<Seq<ValueView>, DecodeErrorView>,
) -> bool {
    match expected {
        Ok(v) => r matches Ok(x) && values_view(x@) == v,
        Err(e) => failed(r, e),
    }
}

/// Whether a result is what the grammar gives for a list of pairs.
pub open spec fn gave_properties(
    r: Result<Vec<Pair<String, Value>>, DecodeError>,
    expected: Result<Seq<Property>, DecodeErrorView>,
) -> bool {
    match expected {
        Ok(v) => r matches Ok(x) && properties_view(x@) == v,
        Err(e) => failed(r, e),
    }
}

/// Whether a result is what the grammar gives for a list of entries.
pub open spec fn gave_entries(
    r: Result<Vec<Pair<Value, Value>>, DecodeError>,
    expected: Result<Seq<Entry>, DecodeErrorView>,
) -> bool {
    match expected {
        Ok(v) => r matches Ok(x) && entries_view(x@) == v,
        Err(e) => failed(r, e),
    }
}

/// A decoder that reads AMF3 values from a byte slice.
///
/// It keeps three reference tables while it reads one value: the strings,
/// the composites and the traits that the value has brought so far. The
/// tables are emptied when the next value is begun.
///
/// The decoder follows the nesting of a value by recursion, and sets no
/// bound to it: a value that is nested deeply takes stack in proportion.
#[derive(Debug)]
pub struct Decoder<'a> {
    reader: Cursor<'a>,
    objects: Vec<Value>,
    strings: Vec<String>,
    classes: Vec<Class>,
}

impl<'a> Decoder<'a> {
    /// The bytes that the decoder reads.
    pub closed spec fn input(&self) -> Seq<u8> {
        self.reader.bytes@
    }

    /// The read position and the reference tables.
    pub closed spec fn state(&self) -> State {
        State {
            pos: self.reader.pos as int,
            strings: strings_view(self.strings@),
            objects: values_view(self.objects@),
            classes: classes_view(self.classes@),
        }
    }

    /// The read position lies within the input.
    pub closed spec fn wf(&self) -> bool {
        self.reader.wf()
    }

    /// The number of bytes consumed so far.
    pub open spec fn spec_position(&self) -> int {
        self.state().pos
    }

    /// Whether `self` is this decoder after a step that leads from the
    /// state of `before` to `state`.
    pub open spec fn after(&self, before: &Self, state: State) -> bool {
        &&& self.wf()
        &&& self.input() == before.input()
        &&& self.state() == state
        &&& follows(self.input(), before.state(), state)
    }

    /// A decoder at the start of `reader`.
    pub fn new(reader: &'a [u8]) -> (d: Self)
        ensures
            d.wf(),
            d.input() == reader@,
            d.state() == State::start(0),
    {
        let d = Decoder {
            reader: Cursor::new(reader),
            objects: Vec::new(),
            strings: Vec::new(),
            classes: Vec::new(),
        };
        assert(d.state() =~= State::start(0));
        d
    }

    /// A decoder that goes on where a cursor stands.
    pub fn resume(reader: Cursor<'a>) -> (d: Self)
        requires
            reader.wf(),
        ensures
            d.wf(),
            d.input() == reader.bytes@,
            d.state() == State::start(reader.pos as int),
    {
        let d = Decoder {
            reader,
            objects: Vec::new(),
            strings: Vec::new(),
            classes: Vec::new(),
        };
        assert(d.state() =~= State::start(reader.pos as int));
        d
    }

    /// The cursor at the decoder's position.
    pub fn cursor(&self) -> (c: Cursor<'a>)
        requires
            self.wf(),
        ensures
            c.wf(),
            c.bytes@ == self.input(),
            c.pos == self.spec_position(),
    {
        self.reader
    }

    /// The number of bytes consumed so far.
    pub fn position(&self) -> (pos: usize)
        ensures
            pos == self.spec_position(),
    {
        self.reader.pos
    }

    /// Reads a magnitude in the variable-length integer format.
    pub fn decode_u29(&mut self) -> (r: Result<u32, DecodeError>)
        requires
            old(self).wf(),
        ensures
            final(self).after(
                old(self),
                grammar::decode_u29(old(self).input(), old(self).state()).state,
            ),
            gave_u32(r, grammar::decode_u29(old(self).input(), old(self).state()).result),
    {
        let b0: u8 = self.reader.read_u8()?;
        if b0 < 0x80 {
            return Ok(b0 as u32);
        }
        let b1: u8 = self.reader.read_u8()?;
        if b1 < 0x80 {
            return Ok((b0 - 0x80) as u32 * 0x80 + b1 as u32);
        }
        let b2: u8 = self.reader.read_u8()?;
        if b2 < 0x80 {
            return Ok(((b0 - 0x80) as u32 * 0x80 + (b1 - 0x80) as u32) * 0x80 + b2 as u32);
        }
        let b3: u8 = self.reader.read_u8()?;
        Ok(
            (((b0 - 0x80) as u32 * 0x80 + (b1 - 0x80) as u32) * 0x80 + (b2 - 0x80) as u32) * 0x100
                + b3 as u32,
        )
    }

    /// Reads a string: a reference into the string table, or a literal,
    /// which enters the table unless it is empty.
    pub fn decode_utf8(&mut self) -> (r: Result<String, DecodeError>)
        requires
            old(self).wf(),
        ensures
            final(self).after(
                old(self),
                grammar::decode_utf8(old(self).input(), old(self).state()).state,
            ),
            gave_text(r, grammar::decode_utf8(old(self).input(), old(self).state()).result),
    {
        let u29: u32 = self.decode_u29()?;
        if u29 % 2 == 0 {
            let index: usize = (u29 / 2) as usize;
            if index < self.strings.len() {
                Ok(self.strings[index].clone())
            } else {
                Err(DecodeError::NotFoundInReferenceTable { index })
            }
        } else {
            let size: usize = (u29 / 2) as usize;
            let s: String = self.reader.read_utf8(size)?;
            if !s.as_str().is_empty() {
                self.strings.push(s.clone());
                assert(strings_view(self.strings@) =~= strings_view(old(self).strings@).push(s@));
            }
            Ok(s)
        }
    }

    /// The entry of the object table that a reference names.
    fn resolve(&self, index: usize) -> (r: Result<Value, DecodeError>)
        ensures
            index < self.state().objects.len() ==> (r matches Ok(x) && x@
                == self.state().objects[index as int]),
            index >= self.state().objects.len() ==> failed(
                r,
                DecodeErrorView::NotFoundInReferenceTable { index },
            ),
    {
        if index < self.objects.len() {
            Ok(self.objects[index].clone())
        } else {
            Err(DecodeError::NotFoundInReferenceTable { index })
        }
    }

    /// Registers a composite whose contents are still to be read, and
    /// gives its place in the object table.
    fn register(&mut self) -> (slot: usize)
        ensures
            final(self).reader == old(self).reader,
            final(self).state() == old(self).state().register(ValueView::Null),
            slot == old(self).state().objects.len(),
    {
        let slot: usize = self.objects.len();
        self.objects.push(Value::Null);
        assert(values_view(self.objects@) =~= values_view(old(self).objects@).push(ValueView::Null));
        slot
    }

    /// Stores a composite in its place in the object table.
    fn store(&mut self, slot: usize, value: &Value)
        requires
            slot < old(self).state().objects.len(),
        ensures
            final(self).reader == old(self).reader,
            final(self).state() == old(self).state().fill(slot as int, value@),
    {
        self.objects.set(slot, value.clone());
        assert(values_view(self.objects@) =~= values_view(old(self).objects@).update(
            slot as int,
            value@,
        ));
    }

    /// Reads an integer.
    fn decode_integer(&mut self) -> (r: Result<Value, DecodeError>)
        requires
            old(self).wf(),
        ensures
            final(self).after(
                old(self),
                grammar::decode_integer(old(self).input(), old(self).state()).state,
            ),
            gave_value(r, grammar::decode_integer(old(self).input(), old(self).state()).result),
    {
        let u29: u32 = self.decode_u29()?;
        let num: i32 = if u29 >= 0x1000_0000 {
            if u29 >= 0x2000_0000 {
                (u29 - 0x2000_0000) as i32
            } else {
                -((0x2000_0000 - u29) as i32)
            }
        } else {
            u29 as i32
        };
        Ok(Value::Integer(num))
    }

    /// Reads a double.
    fn decode_double(&mut self) -> (r: Result<Value, DecodeError>)
        requires
            old(self).wf(),
        ensures
            final(self).after(
                old(self),
                grammar::decode_double(old(self).input(), old(self).state()).state,
            ),
            gave_value(r, grammar::decode_double(old(self).input(), old(self).state()).result),
    {
        let n: u64 = self.reader.read_u64()?;
        Ok(Value::Double(n))
    }

    /// Reads a string value.
    fn decode_string(&mut self) -> (r: Result<Value, DecodeError>)
        requires
            old(self).wf(),
        ensures
            final(self).after(
                old(self),
                grammar::decode_string(old(self).input(), old(self).state()).state,
            ),
            gave_value(r, grammar::decode_string(old(self).input(), old(self).state()).result),
    {
        let s: String = self.decode_utf8()?;
        Ok(Value::String(s))
    }

    /// Reads an XML document: a reference into the object table, or its
    /// text.
    fn decode_xml_doc(&mut self) -> (r: Result<Value, DecodeError>)
        requires
            old(self).wf(),
        ensures
            final(self).after(
                old(self),
                grammar::decode_xml_doc(old(self).input(), old(self).state()).state,
            ),
            gave_value(r, grammar::decode_xml_doc(old(self).input(), old(self).state()).result),
    {
        let u29: u32 = self.decode_u29()?;
        if u29 % 2 == 0 {
            self.resolve((u29 / 2) as usize)
        } else {
            let s: String = self.reader.read_utf8((u29 / 2) as usize)?;
            Ok(Value::XmlDoc(s))
        }
    }

    /// Reads a date: a header that is passed over, and a double of
    /// milliseconds.
    fn decode_date(&mut self) -> (r: Result<Value, DecodeError>)
        requires
            old(self).wf(),
        ensures
            final(self).after(
                old(self),
                grammar::decode_date(old(self).input(), old(self).state()).state,
            ),
            gave_value(r, grammar::decode_date(old(self).input(), old(self).state()).result),
    {
        self.decode_u29()?;
        let millis: u64 = self.reader.read_u64()?;
        Ok(Value::Date { unixtime: millis_of_double(millis) })
    }

    /// Reads XML: a reference into the object table, or its text.
    fn decode_xml(&mut self) -> (r: Result<Value, DecodeError>)
        requires
            old(self).wf(),
        ensures
            final(self).after(
                old(self),
                grammar::decode_xml(old(self).input(), old(self).state()).state,
            ),
            gave_value(r, grammar::decode_xml(old(self).input(), old(self).state()).result),
    {
        let u29: u32 = self.decode_u29()?;
        if u29 % 2 == 0 {
            self.resolve((u29 / 2) as usize)
        } else {
            let s: String = self.reader.read_utf8((u29 / 2) as usize)?;
            Ok(Value::Xml(s))
        }
    }

    /// Reads a byte array: a reference into the object table, or its
    /// bytes.
    fn decode_byte_array(&mut self) -> (r: Result<Value, DecodeError>)
        requires
            old(self).wf(),
        ensures
            final(self).after(
                old(self),
                grammar::decode_byte_array(old(self).input(), old(self).state()).state,
            ),
            gave_value(r, grammar::decode_byte_array(old(self).input(), old(self).state()).result),
    {
        let u29: u32 = self.decode_u29()?;
        if u29 % 2 == 0 {
            self.resolve((u29 / 2) as usize)
        } else {
            let slot: usize = self.register();
            let bytes: Vec<u8> = self.reader.read_bytes((u29 / 2) as usize)?;
            let value = Value::ByteArray(bytes);
            self.store(slot, &value);
            Ok(value)
        }
    }
    /// Reads the flag of a numeric vector and tests that its `len` items
    /// of `width` bytes are there.
    fn vector_items(&mut self, len: usize, width: usize) -> (r: Result<bool, DecodeError>)
        requires
            old(self).wf(),
            width == 4 || width == 8,
        ensures
            final(self).after(
                old(self),
                grammar::vector_items(
                    old(self).input(),
                    old(self).state(),
                    len as int,
                    width as int,
                ).state,
            ),
            match grammar::vector_items(
                old(self).input(),
                old(self).state(),
                len as int,
                width as int,
            ).result {
                Ok(b) => r matches Ok(x) && x == b,
                Err(e) => failed(r, e),
            },
            r is Ok ==> len * width <= usize::MAX,
    {
        let flag: u8 = self.reader.read_u8()?;
        let total: usize = self.reader.bytes.len();
        if len > total / width {
            assert(len * width > total) by (nonlinear_arith)
                requires
                    len > total / width,
                    width > 0,
            ;
            return Err(DecodeError::Io(crate::error::IoError::UnexpectedEof));
        }
        assert(len * width <= total) by (nonlinear_arith)
            requires
                len <= total / width,
                width > 0,
        ;
        if !self.reader.has(len * width) {
            return Err(DecodeError::Io(crate::error::IoError::UnexpectedEof));
        }
        Ok(flag != 0)
    }

    /// Reads a vector of integers: a reference into the object table, or a
    /// flag and the integers.
    #[verifier::rlimit(50)]
    fn decode_vector_int(&mut self) -> (r: Result<Value, DecodeError>)
        requires
            old(self).wf(),
        ensures
            final(self).after(
                old(self),
                grammar::decode_vector_int(old(self).input(), old(self).state()).state,
            ),
            gave_value(r, grammar::decode_vector_int(old(self).input(), old(self).state()).result),
    {
        let u29: u32 = self.decode_u29()?;
        if u29 % 2 == 0 {
            self.resolve((u29 / 2) as usize)
        } else {
            let slot: usize = self.register();
            let size: usize = (u29 / 2) as usize;
            let is_fixed: bool = self.vector_items(size, 4)?;
            let ghost start = self.reader.pos as int;
            let ghost bytes = self.reader.bytes@;
            let ghost registered = self.state();
            let mut entries: Vec<i32> = Vec::new();
            let mut i: usize = 0;
            while i < size
                invariant
                    i <= size,
                    size * 4 <= usize::MAX,
                    self.wf(),
                    self.reader.bytes@ == bytes,
                    has_bytes(bytes, start, size * 4),
                    self.reader.pos == start + 4 * i,
                    self.state() == registered.skip(4 * i),
                    entries@ == Seq::new(
                        i as nat,
                        |j: int| i32_of_bits(be_u32(bytes_at(bytes, start + 4 * j, 4))),
                    ),
                decreases size - i,
            {
                match self.reader.read_i32() {
                    Ok(v) => {
                        entries.push(v);
                    },
                    Err(e) => {
                        return Err(e);
                    },
                }
                i = i + 1;
            }
            let value = Value::IntVector { is_fixed, entries };
            self.store(slot, &value);
            Ok(value)
        }
    }

    /// Reads a vector of unsigned integers: a reference into the object
    /// table, or a flag and the integers.
    #[verifier::rlimit(50)]
    fn decode_vector_uint(&mut self) -> (r: Result<Value, DecodeError>)
        requires
            old(self).wf(),
        ensures
            final(self).after(
                old(self),
                grammar::decode_vector_uint(old(self).input(), old(self).state()).state,
            ),
            gave_value(r, grammar::decode_vector_uint(old(self).input(), old(self).state()).result),
    {
        let u29: u32 = self.decode_u29()?;
        if u29 % 2 == 0 {
            self.resolve((u29 / 2) as usize)
        } else {
            let slot: usize = self.register();
            let size: usize = (u29 / 2) as usize;
            let is_fixed: bool = self.vector_items(size, 4)?;
            let ghost start = self.reader.pos as int;
            let ghost bytes = self.reader.bytes@;
            let ghost registered = self.state();
            let mut entries: Vec<u32> = Vec::new();
            let mut i: usize = 0;
            while i < size
                invariant
                    i <= size,
                    size * 4 <= usize::MAX,
                    self.wf(),
                    self.reader.bytes@ == bytes,
                    has_bytes(bytes, start, size * 4),
                    self.reader.pos == start + 4 * i,
                    self.state() == registered.skip(4 * i),
                    entries@ == Seq::new(
                        i as nat,
                        |j: int| be_u32(bytes_at(bytes, start + 4 * j, 4)),
                    ),
                decreases size - i,
            {
                match self.reader.read_u32() {
                    Ok(v) => {
                        entries.push(v);
                    },
                    Err(e) => {
                        return Err(e);
                    },
                }
                i = i + 1;
            }
            let value = Value::UintVector { is_fixed, entries };
            self.store(slot, &value);
            Ok(value)
        }
    }

    /// Reads a vector of doubles: a reference into the object table, or a
    /// flag and the doubles.
    #[verifier::rlimit(50)]
    fn decode_vector_double(&mut self) -> (r: Result<Value, DecodeError>)
        requires
            old(self).wf(),
        ensures
            final(self).after(
                old(self),
                grammar::decode_vector_double(old(self).input(), old(self).state()).state,
            ),
            gave_value(
                r,
                grammar::decode_vector_double(old(self).input(), old(self).state()).result,
            ),
    {
        let u29: u32 = self.decode_u29()?;
        if u29 % 2 == 0 {
            self.resolve((u29 / 2) as usize)
        } else {
            let slot: usize = self.register();
            let size: usize = (u29 / 2) as usize;
            let is_fixed: bool = self.vector_items(size, 8)?;
            let ghost start = self.reader.pos as int;
            let ghost bytes = self.reader.bytes@;
            let ghost registered = self.state();
            let mut entries: Vec<u64> = Vec::new();
            let mut i: usize = 0;
            while i < size
                invariant
                    i <= size,
                    size * 8 <= usize::MAX,
                    self.wf(),
                    self.reader.bytes@ == bytes,
                    has_bytes(bytes, start, size * 8),
                    self.reader.pos == start + 8 * i,
                    self.state() == registered.skip(8 * i),
                    entries@ == Seq::new(
                        i as nat,
                        |j: int| be_u64(bytes_at(bytes, start + 8 * j, 8)),
                    ),
                decreases size - i,
            {
                match self.reader.read_u64() {
                    Ok(v) => {
                        entries.push(v);
                    },
                    Err(e) => {
                        return Err(e);
                    },
                }
                i = i + 1;
            }
            let value = Value::DoubleVector { is_fixed, entries };
            self.store(slot, &value);
            Ok(value)
        }
    }
    /// Reads `n` strings: the field names of a trait.
    #[verifier::rlimit(50)]
    fn decode_names(&mut self, n: usize) -> (r: Result<Vec<String>, DecodeError>)
        requires
            old(self).wf(),
        ensures
            final(self).after(
                old(self),
                grammar::decode_names(
                    old(self).input(),
                    old(self).state(),
                    n as nat,
                    Seq::empty(),
                ).state,
            ),
            match grammar::decode_names(
                old(self).input(),
                old(self).state(),
                n as nat,
                Seq::empty(),
            ).result {
                Ok(names) => r matches Ok(x) && strings_view(x@) == names,
                Err(e) => failed(r, e),
            },
    {
        let ghost bytes = self.input();
        let ghost st0 = self.state();
        let mut names: Vec<String> = Vec::new();
        let mut i: usize = 0;
        assert(strings_view(names@) =~= Seq::<Seq<char>>::empty());
        while i < n
            invariant
                i <= n,
                self.wf(),
                self.input() == bytes,
                bytes == old(self).input(),
                st0 == old(self).state(),
                follows(bytes, st0, self.state()),
                grammar::decode_names(bytes, st0, n as nat, Seq::empty()) == grammar::decode_names(
                    bytes,
                    self.state(),
                    (n - i) as nat,
                    strings_view(names@),
                ),
            decreases n - i,
        {
            let ghost so_far = strings_view(names@);
            match self.decode_utf8() {
                Ok(s) => {
                    names.push(s);
                    assert(strings_view(names@) =~= so_far.push(s@));
                },
                Err(e) => {
                    return Err(e);
                },
            }
            i = i + 1;
        }
        Ok(names)
    }

    /// Reads `n` values.
    #[verifier::rlimit(50)]
    fn decode_values(&mut self, n: usize) -> (r: Result<Vec<Value>, DecodeError>)
        requires
            old(self).wf(),
        ensures
            final(self).after(
                old(self),
                grammar::decode_values(
                    old(self).input(),
                    old(self).state(),
                    n as nat,
                    Seq::empty(),
                ).state,
            ),
            gave_values(
                r,
                grammar::decode_values(
                    old(self).input(),
                    old(self).state(),
                    n as nat,
                    Seq::empty(),
                ).result,
            ),
        decreases remaining(old(self).input(), old(self).state()), 1nat,
    {
        reveal_with_fuel(grammar::decode_values, 1);
        reveal_with_fuel(grammar::decode_value, 1);
        let ghost bytes = self.input();
        let ghost st0 = self.state();
        let mut values: Vec<Value> = Vec::new();
        let mut i: usize = 0;
        assert(values_view(values@) =~= Seq::<ValueView>::empty());
        while i < n
            invariant
                i <= n,
                self.wf(),
                self.input() == bytes,
                bytes == old(self).input(),
                st0 == old(self).state(),
                follows(bytes, st0, self.state()),
                grammar::decode_values(bytes, st0, n as nat, Seq::empty())
                    == grammar::decode_values(
                    bytes,
                    self.state(),
                    (n - i) as nat,
                    values_view(values@),
                ),
            decreases n - i,
        {
            reveal_with_fuel(grammar::decode_values, 1);
            reveal_with_fuel(grammar::decode_value, 1);
            let ghost so_far = values_view(values@);
            match self.decode_value() {
                Ok(v) => {
                    values.push(v);
                    assert(values_view(values@) =~= so_far.push(v@));
                },
                Err(e) => {
                    return Err(e);
                },
            }
            i = i + 1;
        }
        Ok(values)
    }

    /// Reads a value for each field name: the sealed fields of an object.
    #[verifier::rlimit(50)]
    fn decode_sealed(&mut self, fields: &Vec<String>) -> (r: Result<
        Vec<Pair<String, Value>>,
        DecodeError,
    >)
        requires
            old(self).wf(),
        ensures
            final(self).after(
                old(self),
                grammar::decode_values(
                    old(self).input(),
                    old(self).state(),
                    fields@.len(),
                    Seq::empty(),
                ).state,
            ),
            match grammar::decode_values(
                old(self).input(),
                old(self).state(),
                fields@.len(),
                Seq::empty(),
            ).result {
                Ok(values) => r matches Ok(x) && properties_view(x@) == grammar::sealed_pairs(
                    strings_view(fields@),
                    values,
                ),
                Err(e) => failed(r, e),
            },
        decreases remaining(old(self).input(), old(self).state()), 1nat,
    {
        reveal_with_fuel(grammar::decode_values, 1);
        reveal_with_fuel(grammar::decode_value, 1);
        let ghost bytes = self.input();
        let ghost st0 = self.state();
        let ghost names = strings_view(fields@);
        let n: usize = fields.len();
        let mut pairs: Vec<Pair<String, Value>> = Vec::new();
        let ghost values: Seq<ValueView> = Seq::empty();
        let mut i: usize = 0;
        assert(properties_view(pairs@) =~= grammar::sealed_pairs(names, values));
        while i < n
            invariant
                i <= n,
                n == fields@.len(),
                names == strings_view(fields@),
                self.wf(),
                self.input() == bytes,
                bytes == old(self).input(),
                st0 == old(self).state(),
                follows(bytes, st0, self.state()),
                values.len() == i,
                pairs@.len() == i,
                properties_view(pairs@) == grammar::sealed_pairs(names, values),
                grammar::decode_values(bytes, st0, n as nat, Seq::empty())
                    == grammar::decode_values(bytes, self.state(), (n - i) as nat, values),
            decreases n - i,
        {
            reveal_with_fuel(grammar::decode_values, 1);
            reveal_with_fuel(grammar::decode_value, 1);
            let key: String = fields[i].clone();
            let ghost earlier = pairs@;
            let ghost earlier_values = values;
            match self.decode_value() {
                Ok(v) => {
                    proof {
                        values = values.push(v@);
                    }
                    pairs.push(Pair { key, value: v });
                    assert forall|j: int| 0 <= j < pairs@.len() implies properties_view(pairs@)[j]
                        == grammar::sealed_pairs(names, values)[j] by {
                        if j < i {
                            assert(properties_view(earlier)[j] == grammar::sealed_pairs(
                                names,
                                earlier_values,
                            )[j]);
                        }
                    }
                    assert(properties_view(pairs@) =~= grammar::sealed_pairs(names, values));
                },
                Err(e) => {
                    return Err(e);
                },
            }
            i = i + 1;
        }
        Ok(pairs)
    }

    /// Reads pairs up to the empty key that ends them.
    #[verifier::rlimit(50)]
    fn decode_pairs(&mut self) -> (r: Result<Vec<Pair<String, Value>>, DecodeError>)
        requires
            old(self).wf(),
        ensures
            final(self).after(
                old(self),
                grammar::decode_pairs(old(self).input(), old(self).state(), Seq::empty()).state,
            ),
            gave_properties(
                r,
                grammar::decode_pairs(old(self).input(), old(self).state(), Seq::empty()).result,
            ),
        decreases remaining(old(self).input(), old(self).state()), 1nat,
    {
        reveal_with_fuel(grammar::decode_pairs, 1);
        reveal_with_fuel(grammar::decode_value, 1);
        let ghost bytes = self.input();
        let ghost st0 = self.state();
        let mut pairs: Vec<Pair<String, Value>> = Vec::new();
        assert(properties_view(pairs@) =~= Seq::<Property>::empty());
        loop
            invariant
                self.wf(),
                self.input() == bytes,
                bytes == old(self).input(),
                st0 == old(self).state(),
                follows(bytes, st0, self.state()),
                grammar::decode_pairs(bytes, st0, Seq::empty()) == grammar::decode_pairs(
                    bytes,
                    self.state(),
                    properties_view(pairs@),
                ),
            decreases remaining(bytes, self.state()),
        {
            reveal_with_fuel(grammar::decode_pairs, 1);
            reveal_with_fuel(grammar::decode_value, 1);
            let ghost so_far = properties_view(pairs@);
            let ghost before = self.state();
            let key: String = self.decode_utf8()?;
            if key.as_str().is_empty() {
                return Ok(pairs);
            }
            assert(advanced(bytes, before, self.state()));
            let value: Value = self.decode_value()?;
            proof {
                assert(so_far.push(Pair { key: key@, value: value@ }) =~= properties_view(
                    pairs@.push(Pair { key, value }),
                ));
            }
            pairs.push(Pair { key, value });
        }
    }

    /// Reads `n` dictionary entries.
    #[verifier::rlimit(50)]
    fn decode_entries(&mut self, n: usize) -> (r: Result<Vec<Pair<Value, Value>>, DecodeError>)
        requires
            old(self).wf(),
        ensures
            final(self).after(
                old(self),
                grammar::decode_entries(
                    old(self).input(),
                    old(self).state(),
                    n as nat,
                    Seq::empty(),
                ).state,
            ),
            gave_entries(
                r,
                grammar::decode_entries(
                    old(self).input(),
                    old(self).state(),
                    n as nat,
                    Seq::empty(),
                ).result,
            ),
        decreases remaining(old(self).input(), old(self).state()), 1nat,
    {
        reveal_with_fuel(grammar::decode_entries, 1);
        reveal_with_fuel(grammar::decode_value, 1);
        let ghost bytes = self.input();
        let ghost st0 = self.state();
        let mut entries: Vec<Pair<Value, Value>> = Vec::new();
        let mut i: usize = 0;
        assert(entries_view(entries@) =~= Seq::<Entry>::empty());
        while i < n
            invariant
                i <= n,
                self.wf(),
                self.input() == bytes,
                bytes == old(self).input(),
                st0 == old(self).state(),
                follows(bytes, st0, self.state()),
                grammar::decode_entries(bytes, st0, n as nat, Seq::empty())
                    == grammar::decode_entries(
                    bytes,
                    self.state(),
                    (n - i) as nat,
                    entries_view(entries@),
                ),
            decreases n - i,
        {
            reveal_with_fuel(grammar::decode_entries, 1);
            reveal_with_fuel(grammar::decode_value, 1);
            let ghost so_far = entries_view(entries@);
            let key: Value = self.decode_value()?;
            let value: Value = self.decode_value()?;
            proof {
                assert(so_far.push(Pair { key: key@, value: value@ }) =~= entries_view(
                    entries@.push(Pair { key, value }),
                ));
            }
            entries.push(Pair { key, value });
            i = i + 1;
        }
        Ok(entries)
    }

    /// Reads the contents of an object of a known class, and stores the
    /// object in its place in the object table.
    #[verifier::rlimit(50)]
    fn decode_object_body(&mut self, class: Class, slot: usize) -> (r: Result<Value, DecodeError>)
        requires
            old(self).wf(),
            slot < old(self).state().objects.len(),
        ensures
            final(self).after(
                old(self),
                grammar::decode_object_body(
                    old(self).input(),
                    old(self).state(),
                    class.view(),
                    slot as int,
                ).state,
            ),
            gave_value(
                r,
                grammar::decode_object_body(
                    old(self).input(),
                    old(self).state(),
                    class.view(),
                    slot as int,
                ).result,
            ),
        decreases remaining(old(self).input(), old(self).state()), 2nat,
    {
        reveal_with_fuel(grammar::decode_object_body, 1);
        reveal_with_fuel(grammar::decode_values, 1);
        reveal_with_fuel(grammar::decode_pairs, 1);
        let Class { name, is_dynamic, fields } = class;
        let mut pairs: Vec<Pair<String, Value>> = match self.decode_sealed(&fields) {
            Ok(pairs) => pairs,
            Err(e) => {
                return Err(e);
            },
        };
        let sealed_count: usize = pairs.len();
        if is_dynamic {
            let ghost fixed = properties_view(pairs@);
            let mut more: Vec<Pair<String, Value>> = match self.decode_pairs() {
                Ok(more) => more,
                Err(e) => {
                    return Err(e);
                },
            };
            let ghost extra = properties_view(more@);
            pairs.append(&mut more);
            assert(properties_view(pairs@) =~= fixed + extra);
        }
        Ok(self.finish_object(name, sealed_count, pairs, slot))
    }

    /// Makes an object of its class name, the number of its sealed fields
    /// and its pairs, and stores it in its place in the object table.
    fn finish_object(
        &mut self,
        name: Option<String>,
        sealed_count: usize,
        pairs: Vec<Pair<String, Value>>,
        slot: usize,
    ) -> (value: Value)
        requires
            old(self).wf(),
            slot < old(self).state().objects.len(),
        ensures
            final(self).wf(),
            final(self).input() == old(self).input(),
            value@ == (ValueView::Object {
                name: name_view(name),
                sealed_count: sealed_count as nat,
                pairs: properties_view(pairs@),
            }),
            final(self).state() == old(self).state().fill(slot as int, value@),
    {
        let value = Value::Object { name, sealed_count, pairs };
        self.store(slot, &value);
        value
    }

    /// Reads a trait literal, after its header, and enters its class in
    /// the trait table.
    #[verifier::rlimit(50)]
    fn decode_trait(&mut self, header: usize) -> (r: Result<Class, DecodeError>)
        requires
            old(self).wf(),
        ensures
            final(self).after(
                old(self),
                grammar::decode_trait(old(self).input(), old(self).state(), header).state,
            ),
            match grammar::decode_trait(old(self).input(), old(self).state(), header).result {
                Ok(class) => r matches Ok(x) && x.view() == class,
                Err(e) => failed(r, e),
            },
    {
        let class_name: String = self.decode_utf8()?;
        if header / 2 % 2 == 1 {
            return Err(DecodeError::ExternalizableType { name: class_name });
        }
        let is_dynamic: bool = header / 4 % 2 == 1;
        let fields: Vec<String> = self.decode_names(header / 8)?;
        let class = Class {
            name: if class_name.as_str().is_empty() {
                None
            } else {
                Some(class_name)
            },
            is_dynamic,
            fields,
        };
        let ghost tables = classes_view(self.classes@);
        self.classes.push(class.duplicate());
        assert(classes_view(self.classes@) =~= tables.push(class.view()));
        Ok(class)
    }

    /// The class of the trait table that an index names.
    fn class_at(&self, index: usize) -> (r: Result<Class, DecodeError>)
        ensures
            index < self.state().classes.len() ==> (r matches Ok(x) && x.view()
                == self.state().classes[index as int]),
            index >= self.state().classes.len() ==> failed(
                r,
                DecodeErrorView::NotFoundInReferenceTable { index },
            ),
    {
        if index < self.classes.len() {
            Ok(self.classes[index].duplicate())
        } else {
            Err(DecodeError::NotFoundInReferenceTable { index })
        }
    }

    /// Reads an object: a reference into the object table, or a literal
    /// with a class of the trait table or a trait of its own.
    #[verifier::rlimit(50)]
    fn decode_object(&mut self) -> (r: Result<Value, DecodeError>)
        requires
            old(self).wf(),
        ensures
            final(self).after(
                old(self),
                grammar::decode_object(old(self).input(), old(self).state()).state,
            ),
            gave_value(r, grammar::decode_object(old(self).input(), old(self).state()).result),
        decreases remaining(old(self).input(), old(self).state()), 3nat,
    {
        reveal_with_fuel(grammar::decode_object, 1);
        reveal_with_fuel(grammar::decode_object_body, 1);
        let u29: u32 = self.decode_u29()?;
        if u29 % 2 == 0 {
            return self.resolve((u29 / 2) as usize);
        }
        let slot: usize = self.register();
        let header: usize = (u29 / 2) as usize;
        let class: Class = if header % 2 == 0 {
            self.class_at(header / 2)?
        } else {
            self.decode_trait(header)?
        };
        self.decode_object_body(class, slot)
    }

    /// Reads an array: a reference into the object table, or associative
    /// pairs and dense values.
    #[verifier::rlimit(50)]
    fn decode_array(&mut self) -> (r: Result<Value, DecodeError>)
        requires
            old(self).wf(),
        ensures
            final(self).after(
                old(self),
                grammar::decode_array(old(self).input(), old(self).state()).state,
            ),
            gave_value(r, grammar::decode_array(old(self).input(), old(self).state()).result),
        decreases remaining(old(self).input(), old(self).state()), 3nat,
    {
        reveal_with_fuel(grammar::decode_array, 1);
        reveal_with_fuel(grammar::decode_pairs, 1);
        reveal_with_fuel(grammar::decode_values, 1);
        let u29: u32 = self.decode_u29()?;
        if u29 % 2 == 0 {
            return self.resolve((u29 / 2) as usize);
        }
        let slot: usize = self.register();
        let size: usize = (u29 / 2) as usize;
        let assoc: Vec<Pair<String, Value>> = self.decode_pairs()?;
        let dense: Vec<Value> = self.decode_values(size)?;
        let value = Value::Array { assoc_entries: assoc, dense_entries: dense };
        self.store(slot, &value);
        Ok(value)
    }

    /// Reads a vector of objects: a reference into the object table, or a
    /// flag, the element type and the values.
    #[verifier::rlimit(50)]
    fn decode_vector_object(&mut self) -> (r: Result<Value, DecodeError>)
        requires
            old(self).wf(),
        ensures
            final(self).after(
                old(self),
                grammar::decode_vector_object(old(self).input(), old(self).state()).state,
            ),
            gave_value(
                r,
                grammar::decode_vector_object(old(self).input(), old(self).state()).result,
            ),
        decreases remaining(old(self).input(), old(self).state()), 3nat,
    {
        reveal_with_fuel(grammar::decode_vector_object, 1);
        reveal_with_fuel(grammar::decode_values, 1);
        let u29: u32 = self.decode_u29()?;
        if u29 % 2 == 0 {
            return self.resolve((u29 / 2) as usize);
        }
        let slot: usize = self.register();
        let size: usize = (u29 / 2) as usize;
        let is_fixed: bool = self.reader.read_u8()? != 0;
        let name: String = self.decode_utf8()?;
        let entries: Vec<Value> = self.decode_values(size)?;
        let any: String = "*".to_owned();
        proof {
            reveal_strlit("*");
            assert(any@ =~= seq!['*']);
        }
        let value = Value::ObjectVector {
            name: if name == any {
                None
            } else {
                Some(name)
            },
            is_fixed,
            entries,
        };
        self.store(slot, &value);
        Ok(value)
    }

    /// Reads a dictionary: a reference into the object table, or a flag
    /// and the entries.
    #[verifier::rlimit(50)]
    fn decode_dictionary(&mut self) -> (r: Result<Value, DecodeError>)
        requires
            old(self).wf(),
        ensures
            final(self).after(
                old(self),
                grammar::decode_dictionary(old(self).input(), old(self).state()).state,
            ),
            gave_value(r, grammar::decode_dictionary(old(self).input(), old(self).state()).result),
        decreases remaining(old(self).input(), old(self).state()), 3nat,
    {
        reveal_with_fuel(grammar::decode_dictionary, 1);
        reveal_with_fuel(grammar::decode_entries, 1);
        let u29: u32 = self.decode_u29()?;
        if u29 % 2 == 0 {
            return self.resolve((u29 / 2) as usize);
        }
        let slot: usize = self.register();
        let size: usize = (u29 / 2) as usize;
        let is_weak: bool = self.reader.read_u8()? == 1;
        let entries: Vec<Pair<Value, Value>> = self.decode_entries(size)?;
        let value = Value::Dictionary { is_weak, entries };
        self.store(slot, &value);
        Ok(value)
    }

    /// Reads a value at the decoder's position, with the reference tables
    /// as they stand.
    #[verifier::rlimit(50)]
    pub fn decode_value(&mut self) -> (r: Result<Value, DecodeError>)
        requires
            old(self).wf(),
        ensures
            final(self).after(
                old(self),
                grammar::decode_value(old(self).input(), old(self).state()).state,
            ),
            gave_value(r, grammar::decode_value(old(self).input(), old(self).state()).result),
            r is Ok ==> advanced(old(self).input(), old(self).state(), final(self).state()),
        decreases remaining(old(self).input(), old(self).state()), 0nat,
    {
        reveal_with_fuel(grammar::decode_value, 1);
        reveal_with_fuel(grammar::decode_array, 1);
        reveal_with_fuel(grammar::decode_object, 1);
        reveal_with_fuel(grammar::decode_vector_object, 1);
        reveal_with_fuel(grammar::decode_dictionary, 1);
        let m: u8 = self.reader.read_u8()?;
        match m {
            marker::UNDEFINED => Ok(Value::Undefined),
            marker::NULL => Ok(Value::Null),
            marker::FALSE => Ok(Value::Boolean(false)),
            marker::TRUE => Ok(Value::Boolean(true)),
            marker::INTEGER => self.decode_integer(),
            marker::DOUBLE => self.decode_double(),
            marker::STRING => self.decode_string(),
            marker::XML_DOC => self.decode_xml_doc(),
            marker::DATE => self.decode_date(),
            marker::XML => self.decode_xml(),
            marker::ARRAY => self.decode_array(),
            marker::BYTE_ARRAY => self.decode_byte_array(),
            marker::OBJECT => self.decode_object(),
            marker::VECTOR_INT => self.decode_vector_int(),
            marker::VECTOR_UINT => self.decode_vector_uint(),
            marker::VECTOR_DOUBLE => self.decode_vector_double(),
            marker::VECTOR_OBJECT => self.decode_vector_object(),
            marker::DICTIONARY => self.decode_dictionary(),
            _ => Err(DecodeError::UnknownType { marker: m }),
        }
    }

    /// Reads one value at the decoder's position, with empty reference
    /// tables: no reference reaches back into an earlier call.
    pub fn decode(&mut self) -> (r: Result<Value, DecodeError>)
        requires
            old(self).wf(),
        ensures
            final(self).wf(),
            final(self).input() == old(self).input(),
            final(self).spec_position() == grammar::decode_value(
                old(self).input(),
                State::start(old(self).spec_position()),
            ).state.pos,
            gave_value(
                r,
                grammar::decode_value(
                    old(self).input(),
                    State::start(old(self).spec_position()),
                ).result,
            ),
            0 <= old(self).spec_position() <= final(self).spec_position() <= old(self).input().len(),
            r is Ok ==> old(self).spec_position() < final(self).spec_position(),
    {
        self.objects.clear();
        self.strings.clear();
        self.classes.clear();
        assert(self.state() =~= State::start(old(self).spec_position()));
        self.decode_value()
    }
}

} // verus!
