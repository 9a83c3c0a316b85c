//! The column types of the engine and their fixed-width byte lengths, plus
//! the decoder from slot bytes to a field value.

use vstd::prelude::*;

verus! {

use crate::Error;
use crate::codec::read_u32_be;
use crate::codec::bytes_to_string;
use crate::codec::u32_to_i32;
use crate::fields::FieldVal;
use crate::fields::IntField;
use crate::fields::StringField;
use crate::fields::FieldModel;
use crate::fields::field_model;
use crate::fields::spec_parse_field;

/// Fixed capacity, in bytes, of the payload of a string field. A string
/// field occupies `STRING_SIZE + 4` bytes on disk: a 4-byte big-endian
/// length prefix followed by the zero-padded payload.
pub const STRING_SIZE: usize = 256;

/// The two supported column types: 32-bit signed integers and fixed-capacity
/// strings.
#[derive(Debug, PartialEq, Eq, Clone, Copy, Structural)]
pub enum Type {
    IntType,
    StringType,
}

impl Type {
    /// The number of bytes a field of this type occupies on disk.
    pub open spec fn spec_len(self) -> int {
        match self {
            Type::IntType => 4,
            Type::StringType => STRING_SIZE as int + 4,
        }
    }

    /// The number of bytes a field of this type occupies on disk.
    pub fn get_len(&self) -> (n: usize)
        ensures
            n == self.spec_len(),
    {
        match self {
            Type::IntType => 4,
            Type::StringType => STRING_SIZE + 4,
        }
    }

    /// Decodes a field of this type from the front of `bytes`.
    ///
    /// Fails with `DecodeError` exactly when the declared payload of a
    /// string field is not valid UTF-8. A declared string length beyond
    /// `STRING_SIZE` is clamped to `STRING_SIZE`.
    pub fn parse(&self, bytes: &[u8]) -> (r: Result<FieldVal, Error>)
        requires
            bytes@.len() >= self.spec_len(),
        ensures
            r is Ok <==> spec_parse_field(*self, bytes@) is Some,
            r matches Ok(f) ==> spec_parse_field(*self, bytes@) == Some(field_model(f)),
            r matches Err(e) ==> e == Error::DecodeError,
    {
        match self {
            Type::IntType => {
                let u = read_u32_be(bytes, 0);
                proof {
                    assert(bytes@.take(4) =~= bytes@.subrange(0, 4));
                }
                Ok(FieldVal::IntField(IntField::new(u32_to_i32(u))))
            },
            Type::StringType => {
                let len = read_u32_be(bytes, 0);
                proof {
                    assert(bytes@.take(4) =~= bytes@.subrange(0, 4));
                }
                let eff: usize = if (len as usize) < STRING_SIZE {
                    len as usize
                } else {
                    STRING_SIZE
                };
                let payload = vstd::slice::slice_to_vec(
                    vstd::slice::slice_subrange(bytes, 4, 4 + eff),
                );
                match bytes_to_string(payload) {
                    Some(s) => Ok(
                        FieldVal::StringField(StringField { value: s, len: eff as u32 }),
                    ),
                    None => Err(Error::DecodeError),
                }
            },
        }
    }
}

} // verus!
