//! The marker bytes of AMF3: the first byte of an encoded value names its
//! type.

use vstd::prelude::*;

verus! {

/// Undefined.
pub const UNDEFINED: u8 = 0x00;

/// Null.
pub const NULL: u8 = 0x01;

/// The boolean false.
pub const FALSE: u8 = 0x02;

/// The boolean true.
pub const TRUE: u8 = 0x03;

/// An integer of 29 bits.
pub const INTEGER: u8 = 0x04;

/// A double.
pub const DOUBLE: u8 = 0x05;

/// A string.
pub const STRING: u8 = 0x06;

/// An XML document.
pub const XML_DOC: u8 = 0x07;

/// A date.
pub const DATE: u8 = 0x08;

/// An array.
pub const ARRAY: u8 = 0x09;

/// An object.
pub const OBJECT: u8 = 0x0A;

/// XML.
pub const XML: u8 = 0x0B;

/// A byte array.
pub const BYTE_ARRAY: u8 = 0x0C;

/// A vector of integers.
pub const VECTOR_INT: u8 = 0x0D;

/// A vector of unsigned integers.
pub const VECTOR_UINT: u8 = 0x0E;

/// A vector of doubles.
pub const VECTOR_DOUBLE: u8 = 0x0F;

/// A vector of objects.
pub const VECTOR_OBJECT: u8 = 0x10;

/// A dictionary.
pub const DICTIONARY: u8 = 0x11;

} // verus!
