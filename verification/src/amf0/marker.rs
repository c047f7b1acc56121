//! The marker bytes of AMF0: the first byte of an encoded value names its
//! type.

use vstd::prelude::*;

verus! {

/// A number.
pub const NUMBER: u8 = 0x00;

/// A boolean.
pub const BOOLEAN: u8 = 0x01;

/// A string of up to 65535 bytes.
pub const STRING: u8 = 0x02;

/// An anonymous object.
pub const OBJECT: u8 = 0x03;

/// Reserved.
pub const MOVIECLIP: u8 = 0x04;

/// Null.
pub const NULL: u8 = 0x05;

/// Undefined.
pub const UNDEFINED: u8 = 0x06;

/// A reference to a composite that came before.
pub const REFERENCE: u8 = 0x07;

/// An associative array.
pub const ECMA_ARRAY: u8 = 0x08;

/// What ends the pairs of an object, after an empty key.
pub const OBJECT_END: u8 = 0x09;

/// An array of values without keys.
pub const STRICT_ARRAY: u8 = 0x0A;

/// A date.
pub const DATE: u8 = 0x0B;

/// A string of more than 65535 bytes.
pub const LONG_STRING: u8 = 0x0C;

/// A value that the sender could not write.
pub const UNSUPPORTED: u8 = 0x0D;

/// Reserved.
pub const RECORDSET: u8 = 0x0E;

/// An XML document.
pub const XML_DOC: u8 = 0x0F;

/// An object of a named class.
pub const TYPED_OBJECT: u8 = 0x10;

/// A value in AMF3 follows.
pub const AVMPLUS: u8 = 0x11;

} // verus!
