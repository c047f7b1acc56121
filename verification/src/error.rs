//! The errors of both codecs.

use vstd::prelude::*;

verus! {

/// `String::from_utf8` reports invalid input with this type; the decoders
/// carry it through unchanged.
#[verifier::external_type_specification]
#[verifier::external_body]
pub struct ExFromUtf8Error(std::string::FromUtf8Error);

/// What can go wrong with a byte source that lives in memory.
#[derive(Debug, Clone, Copy, PartialEq, Eq, Structural)]
pub enum IoError {
    /// The input ended in the middle of a value.
    UnexpectedEof,
}

/// Why a value could not be decoded.
///
/// Two errors are equal where they are of the same kind and say the same
/// of it; an I/O error and a string error equal nothing, not even
/// themselves.
#[derive(Debug)]
pub enum DecodeError {
    /// The byte source failed.
    Io(IoError),
    /// A string payload was not valid UTF-8.
    String(std::string::FromUtf8Error),
    /// The marker is known but its type is not supported.
    NotSupportedType { marker: u8 },
    /// An object-end marker stood where a value was expected.
    NotExpectedObjectEnd,
    /// The marker byte names no type.
    UnknownType { marker: u8 },
    /// Reference tables are not supported for this entry.
    NotSupportedReferenceTables { index: usize },
    /// A reference named an entry that the table does not hold.
    NotFoundInReferenceTable { index: usize },
    /// An externalizable object of the named class was met.
    ExternalizableType { name: String },
}

/// What a [`DecodeError`] says, with the text of a class name in place of
/// the string that holds it and without the detail of a UTF-8 failure.
pub ghost enum DecodeErrorView {
    Io,
    String,
    NotSupportedType { marker: u8 },
    NotExpectedObjectEnd,
    UnknownType { marker: u8 },
    NotSupportedReferenceTables { index: usize },
    NotFoundInReferenceTable { index: usize },
    ExternalizableType { name: Seq<char> },
}

impl View for DecodeError {
    type V = DecodeErrorView;

    open spec fn view(&self) -> DecodeErrorView {
        match self {
            DecodeError::Io(_) => DecodeErrorView::Io,
            DecodeError::String(_) => DecodeErrorView::String,
            DecodeError::NotSupportedType { marker } => DecodeErrorView::NotSupportedType {
                marker: *marker,
            },
            DecodeError::NotExpectedObjectEnd => DecodeErrorView::NotExpectedObjectEnd,
            DecodeError::UnknownType { marker } => DecodeErrorView::UnknownType { marker: *marker },
            DecodeError::NotSupportedReferenceTables { index } => {
                DecodeErrorView::NotSupportedReferenceTables { index: *index }
            },
            DecodeError::NotFoundInReferenceTable { index } => {
                DecodeErrorView::NotFoundInReferenceTable { index: *index }
            },
            DecodeError::ExternalizableType { name } => DecodeErrorView::ExternalizableType {
                name: name@,
            },
        }
    }
}

/// Why a value could not be encoded.
///
/// Two errors are equal where they are of the same kind and say the same
/// of it; an I/O error and a string error equal nothing, not even
/// themselves.
#[derive(Debug)]
pub enum EncodeError {
    /// The byte sink failed.
    Io(IoError),
    /// A string was not valid UTF-8.
    String(std::string::FromUtf8Error),
    /// The marker is known but its type is not supported.
    NotSupportedType { marker: u8 },
    /// A magnitude does not fit the variable-length integer format.
    U29Overflow { u29: u32 },
}

impl PartialEq for DecodeError {
    fn eq(&self, other: &Self) -> (r: bool) {
        match (self, other) {
            (DecodeError::UnknownType { marker: x }, DecodeError::UnknownType { marker: y }) => *x
                == *y,
            (
                DecodeError::NotSupportedType { marker: x },
                DecodeError::NotSupportedType { marker: y },
            ) => *x == *y,
            (DecodeError::NotExpectedObjectEnd, DecodeError::NotExpectedObjectEnd) => true,
            (
                DecodeError::NotSupportedReferenceTables { index: x },
                DecodeError::NotSupportedReferenceTables { index: y },
            ) => *x == *y,
            (
                DecodeError::NotFoundInReferenceTable { index: x },
                DecodeError::NotFoundInReferenceTable { index: y },
            ) => *x == *y,
            (
                DecodeError::ExternalizableType { name: x },
                DecodeError::ExternalizableType { name: y },
            ) => *x == *y,
            _ => false,
        }
    }
}

impl vstd::std_specs::cmp::PartialEqSpecImpl for DecodeError {
    open spec fn obeys_eq_spec() -> bool {
        true
    }

    /// Equal kinds with equal contents, but for I/O errors and string
    /// errors, which equal nothing.
    open spec fn eq_spec(&self, other: &Self) -> bool {
        match (self, other) {
            (DecodeError::UnknownType { marker: x }, DecodeError::UnknownType { marker: y }) => *x
                == *y,
            (
                DecodeError::NotSupportedType { marker: x },
                DecodeError::NotSupportedType { marker: y },
            ) => *x == *y,
            (DecodeError::NotExpectedObjectEnd, DecodeError::NotExpectedObjectEnd) => true,
            (
                DecodeError::NotSupportedReferenceTables { index: x },
                DecodeError::NotSupportedReferenceTables { index: y },
            ) => *x == *y,
            (
                DecodeError::NotFoundInReferenceTable { index: x },
                DecodeError::NotFoundInReferenceTable { index: y },
            ) => *x == *y,
            (
                DecodeError::ExternalizableType { name: x },
                DecodeError::ExternalizableType { name: y },
            ) => x@ == y@,
            _ => false,
        }
    }
}

impl PartialEq for EncodeError {
    fn eq(&self, other: &Self) -> (r: bool) {
        match (self, other) {
            (
                EncodeError::NotSupportedType { marker: x },
                EncodeError::NotSupportedType { marker: y },
            ) => *x == *y,
            (EncodeError::U29Overflow { u29: x }, EncodeError::U29Overflow { u29: y }) => *x == *y,
            _ => false,
        }
    }
}

impl vstd::std_specs::cmp::PartialEqSpecImpl for EncodeError {
    open spec fn obeys_eq_spec() -> bool {
        true
    }

    /// Equal kinds with equal contents, but for I/O errors and string
    /// errors, which equal nothing.
    open spec fn eq_spec(&self, other: &Self) -> bool {
        match (self, other) {
            (
                EncodeError::NotSupportedType { marker: x },
                EncodeError::NotSupportedType { marker: y },
            ) => *x == *y,
            (EncodeError::U29Overflow { u29: x }, EncodeError::U29Overflow { u29: y }) => *x == *y,
            _ => false,
        }
    }
}

} // verus!
