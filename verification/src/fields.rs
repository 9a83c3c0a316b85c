//! Field values: the tagged union over the column types, the two concrete
//! field kinds, their on-disk encodings, and the mathematical model that the
//! contracts of the codecs are stated over.

use vstd::prelude::*;

verus! {

use vstd::utf8::encode_utf8;
use vstd::utf8::decode_utf8;
use vstd::utf8::valid_utf8;
use vstd::utf8::encode_utf8_valid_utf8;
use vstd::utf8::encode_utf8_decode_utf8;
use vstd::utf8::decode_utf8_encode_utf8;
use crate::codec::spec_u32_to_be_bytes;
use crate::codec::spec_u32_from_be_bytes;
use crate::codec::spec_i32_to_u32;
use crate::codec::spec_u32_to_i32;
use crate::codec::lemma_u32_be_round_trip;
use crate::codec::clamp_pad;
use crate::codec::zero_bytes;
use crate::codec::push_u32_be;
use crate::codec::i32_to_u32;
use crate::codec::string_to_bytes;
use crate::codec::push_zero_bytes;
use crate::types::Type;
use crate::types::STRING_SIZE;

/// The mathematical value of a field: either a signed 32-bit integer, or a
/// character sequence together with its declared byte length.
pub enum FieldModel {
    Int(i32),
    Str { chars: Seq<char>, len: u32 },
}

/// Wrapper over the two concrete kinds of field values.
#[derive(Debug, PartialEq, Eq)]
pub enum FieldVal {
    IntField(IntField),
    StringField(StringField),
}

impl Clone for FieldVal {
    /// A clone is the same field value.
    fn clone(&self) -> (r: Self)
        ensures
            r == *self,
    {
        match self {
            FieldVal::IntField(f) => FieldVal::IntField(*f),
            FieldVal::StringField(s) => FieldVal::StringField(s.clone()),
        }
    }
}

/// The model of a field value.
pub open spec fn field_model(f: FieldVal) -> FieldModel {
    match f {
        FieldVal::IntField(g) => FieldModel::Int(g.value),
        FieldVal::StringField(s) => FieldModel::Str { chars: s.value@, len: s.len },
    }
}

/// The column type a field value belongs to.
pub open spec fn spec_type_of(m: FieldModel) -> Type {
    match m {
        FieldModel::Int(_) => Type::IntType,
        FieldModel::Str { .. } => Type::StringType,
    }
}

/// A field is well formed when its declared length is the actual byte
/// length of its payload and fits the fixed string capacity. Integer fields
/// are always well formed. Encoding a well-formed field and decoding the
/// bytes yields the field back.
pub open spec fn spec_field_wf(m: FieldModel) -> bool {
    match m {
        FieldModel::Int(_) => true,
        FieldModel::Str { chars, len } => {
            &&& len <= STRING_SIZE as u32
            &&& encode_utf8(chars).len() == len
        },
    }
}

/// The on-disk bytes of a field value: integers are 4 big-endian bytes of
/// the two's-complement value; strings are a 4-byte big-endian declared
/// length followed by the UTF-8 payload truncated or zero-padded to exactly
/// `STRING_SIZE` bytes.
pub open spec fn spec_field_bytes(m: FieldModel) -> Seq<u8> {
    match m {
        FieldModel::Int(v) => spec_u32_to_be_bytes(spec_i32_to_u32(v)),
        FieldModel::Str { chars, len } => spec_u32_to_be_bytes(len) + clamp_pad(
            encode_utf8(chars),
            STRING_SIZE as int,
        ),
    }
}

/// The field value decoded from the front of `bytes`, when the payload is
/// well formed. A declared string length beyond `STRING_SIZE` is clamped.
pub open spec fn spec_parse_field(t: Type, bytes: Seq<u8>) -> Option<FieldModel>
    recommends
        bytes.len() >= t.spec_len(),
{
    match t {
        Type::IntType => Some(
            FieldModel::Int(spec_u32_to_i32(spec_u32_from_be_bytes(bytes.take(4)))),
        ),
        Type::StringType => {
            let len = spec_u32_from_be_bytes(bytes.take(4));
            let eff = if len < STRING_SIZE as u32 {
                len as int
            } else {
                STRING_SIZE as int
            };
            let payload = bytes.subrange(4, 4 + eff);
            if valid_utf8(payload) {
                Some(FieldModel::Str { chars: decode_utf8(payload), len: eff as u32 })
            } else {
                None
            }
        },
    }
}

/// Encoded fields occupy exactly the byte length their type declares.
pub proof fn lemma_field_bytes_len(m: FieldModel)
    ensures
        spec_field_bytes(m).len() == spec_type_of(m).spec_len(),
{
}

/// Whatever a successful parse yields is well formed.
pub proof fn lemma_parse_field_wf(t: Type, bytes: Seq<u8>)
    requires
        bytes.len() >= t.spec_len(),
        spec_parse_field(t, bytes) is Some,
    ensures
        spec_field_wf(spec_parse_field(t, bytes).unwrap()),
{
    match t {
        Type::IntType => {},
        Type::StringType => {
            let len = spec_u32_from_be_bytes(bytes.take(4));
            let eff = if len < STRING_SIZE as u32 {
                len as int
            } else {
                STRING_SIZE as int
            };
            let payload = bytes.subrange(4, 4 + eff);
            decode_utf8_encode_utf8(payload);
        },
    }
}

/// Decoding the encoding of a well-formed field yields the field back,
/// whatever bytes follow it.
pub proof fn lemma_field_round_trip(m: FieldModel, rest: Seq<u8>)
    requires
        spec_field_wf(m),
    ensures
        spec_parse_field(spec_type_of(m), spec_field_bytes(m) + rest) == Some(m),
{
    let bytes = spec_field_bytes(m) + rest;
    match m {
        FieldModel::Int(v) => {
            lemma_u32_be_round_trip(spec_i32_to_u32(v));
            assert(bytes.take(4) =~= spec_u32_to_be_bytes(spec_i32_to_u32(v)));
        },
        FieldModel::Str { chars, len } => {
            lemma_u32_be_round_trip(len);
            assert(bytes.take(4) =~= spec_u32_to_be_bytes(len));
            let enc = encode_utf8(chars);
            let payload = bytes.subrange(4, 4 + len as int);
            assert(payload =~= enc);
            encode_utf8_valid_utf8(chars);
            encode_utf8_decode_utf8(chars);
        },
    }
}

/// A 32-bit signed integer field.
#[derive(Debug, PartialEq, Eq, Clone, Copy, Structural)]
pub struct IntField {
    pub value: i32,
}

/// A string field: the characters together with the byte length declared at
/// construction, encoded as a length prefix plus a fixed-capacity payload.
#[derive(Debug, PartialEq, Eq)]
pub struct StringField {
    pub value: String,
    pub len: u32,
}

impl Clone for StringField {
    /// A clone is the same field value.
    fn clone(&self) -> (r: Self)
        ensures
            r == *self,
    {
        StringField { value: self.value.clone(), len: self.len }
    }
}

impl FieldVal {
    /// Extracts the inner integer field, if this is one.
    pub fn into_int(self) -> (r: Option<IntField>)
        ensures
            match self {
                FieldVal::IntField(f) => r == Some(f),
                FieldVal::StringField(_) => r is None,
            },
    {
        match self {
            FieldVal::IntField(f) => Some(f),
            FieldVal::StringField(_) => None,
        }
    }

    /// Extracts the inner string field, if this is one.
    pub fn into_string(self) -> (r: Option<StringField>)
        ensures
            match self {
                FieldVal::StringField(f) => r == Some(f),
                FieldVal::IntField(_) => r is None,
            },
    {
        match self {
            FieldVal::StringField(f) => Some(f),
            FieldVal::IntField(_) => None,
        }
    }

    /// The on-disk bytes of this field value.
    pub fn serialize(&self) -> (r: Vec<u8>)
        ensures
            r@ == spec_field_bytes(field_model(*self)),
    {
        match self {
            FieldVal::IntField(f) => f.serialize(),
            FieldVal::StringField(f) => f.serialize(),
        }
    }

    /// True exactly when this field has type `t` and is well formed, so
    /// that its encoding decodes back to it.
    pub fn fits_type(&self, t: Type) -> (ok: bool)
        ensures
            ok == (spec_type_of(field_model(*self)) == t && spec_field_wf(field_model(*self))),
    {
        match self {
            FieldVal::IntField(_) => matches!(t, Type::IntType),
            FieldVal::StringField(sf) => {
                if !matches!(t, Type::StringType) {
                    false
                } else if sf.len as usize > STRING_SIZE {
                    false
                } else {
                    let b = string_to_bytes(&sf.value);
                    b.len() == sf.len as usize
                }
            },
        }
    }
}

/// Common behaviour of the concrete field kinds: they know their column
/// type and their on-disk byte encoding.
pub trait Field {
    /// The column type of this field.
    spec fn spec_type(&self) -> Type;

    /// The on-disk bytes of this field.
    spec fn spec_serialized(&self) -> Seq<u8>;

    /// The column type of this field.
    fn get_type(&self) -> (t: Type)
        ensures
            t == self.spec_type(),
    ;

    /// Encodes this field into its on-disk bytes.
    fn serialize(&self) -> (r: Vec<u8>)
        ensures
            r@ == self.spec_serialized(),
    ;
}

impl IntField {
    pub fn new(value: i32) -> (f: Self)
        ensures
            f.value == value,
    {
        IntField { value }
    }

    pub fn get_value(&self) -> (v: i32)
        ensures
            v == self.value,
    {
        self.value
    }
}

impl Field for IntField {
    open spec fn spec_type(&self) -> Type {
        Type::IntType
    }

    open spec fn spec_serialized(&self) -> Seq<u8> {
        spec_field_bytes(FieldModel::Int(self.value))
    }

    fn get_type(&self) -> (t: Type) {
        Type::IntType
    }

    fn serialize(&self) -> (r: Vec<u8>) {
        let mut out: Vec<u8> = Vec::new();
        push_u32_be(&mut out, i32_to_u32(self.value));
        assert(out@ =~= spec_field_bytes(FieldModel::Int(self.value)));
        out
    }
}

impl StringField {
    pub fn new(value: String, len: u32) -> (f: Self)
        ensures
            f.value == value,
            f.len == len,
    {
        StringField { value, len }
    }

    pub fn get_value(&self) -> (v: String)
        ensures
            v == self.value,
    {
        self.value.clone()
    }
}

impl Field for StringField {
    open spec fn spec_type(&self) -> Type {
        Type::StringType
    }

    open spec fn spec_serialized(&self) -> Seq<u8> {
        spec_field_bytes(FieldModel::Str { chars: self.value@, len: self.len })
    }

    fn get_type(&self) -> (t: Type) {
        Type::StringType
    }

    fn serialize(&self) -> (r: Vec<u8>) {
        let mut out: Vec<u8> = Vec::new();
        push_u32_be(&mut out, self.len);
        let bytes = string_to_bytes(&self.value);
        let copy_len: usize = if bytes.len() < STRING_SIZE {
            bytes.len()
        } else {
            STRING_SIZE
        };
        let mut i: usize = 0;
        while i < copy_len
            invariant
                i <= copy_len,
                copy_len <= bytes@.len(),
                bytes@ == encode_utf8(self.value@),
                out@ == spec_u32_to_be_bytes(self.len) + bytes@.take(i as int),
            decreases copy_len - i,
        {
            out.push(bytes[i]);
            assert(out@ =~= spec_u32_to_be_bytes(self.len) + bytes@.take(i + 1));
            i = i + 1;
        }
        push_zero_bytes(&mut out, STRING_SIZE - copy_len);
        assert(out@ =~= spec_field_bytes(FieldModel::Str { chars: self.value@, len: self.len }));
        out
    }
}

} // verus!
