//! A codec for the Action Message Format, versions 0 and 3.
//!
//! Both directions work on bytes held in memory: a decoder walks a byte
//! slice with a cursor, an encoder appends to a byte vector. Every function
//! is specified against a mathematical model of the wire format, so that the
//! bytes produced and the values read back are pinned down exactly.
//!
//! Each version has a module of its own, [`amf0`] and [`amf3`], with the
//! same parts:
//!
//! - `Value`, with `model::ValueView` as its mathematical counterpart;
//! - `model`, which says what bytes a value is written as;
//! - `grammar`, which says what value a run of bytes is read as, reference
//!   tables and errors included;
//! - `Encoder` and `Decoder`, which are proved to do what `model` and
//!   `grammar` say;
//! - `laws`, which proves that the two fit: what is written is read back.
//!
//! Numbers of the format that are IEEE 754 doubles are held as their 64
//! bits; [`double`] converts between such bits and the whole milliseconds of
//! a date. [`wire`] holds what both versions share at the level of bytes.

use vstd::prelude::*;
use vstd::std_specs::cmp::PartialEqSpec;

pub mod amf0;
pub mod amf3;
pub mod double;
pub mod error;
pub mod wire;

pub use crate::error::DecodeError;
pub use crate::error::EncodeError;
pub use crate::error::IoError;

verus! {

/// The two versions of the format.
#[derive(Debug, Clone, Copy, PartialEq, Eq, Structural)]
pub enum Version {
    AMF0,
    AMF3,
}

impl Version {
    /// The number by which a message names its version.
    pub open spec fn spec_number(self) -> u8 {
        match self {
            Version::AMF0 => 0u8,
            Version::AMF3 => 3u8,
        }
    }

    /// The number by which a message names its version.
    pub fn number(self) -> (n: u8)
        ensures
            n == self.spec_number(),
    {
        match self {
            Version::AMF0 => 0,
            Version::AMF3 => 3,
        }
    }
}

/// An ordered key/value association, as used for object properties and
/// dictionary entries.
#[derive(Debug, Clone, Eq, PartialOrd, Ord, Hash)]
#[verifier::ext_equal]
pub struct Pair<K, V> {
    pub key: K,
    pub value: V,
}

impl<K: PartialEq, V: PartialEq> PartialEq for Pair<K, V> {
    fn eq(&self, other: &Self) -> (r: bool) {
        self.key == other.key && self.value == other.value
    }
}

impl<K: PartialEq, V: PartialEq> vstd::std_specs::cmp::PartialEqSpecImpl for Pair<K, V> {
    open spec fn obeys_eq_spec() -> bool {
        K::obeys_eq_spec() && V::obeys_eq_spec()
    }

    /// Equal keys and equal values.
    open spec fn eq_spec(&self, other: &Self) -> bool {
        self.key.eq_spec(&other.key) && self.value.eq_spec(&other.value)
    }
}

} // verus!
