use heapstore::fields::Field;
use heapstore::fields::FieldVal;
use heapstore::fields::IntField;
use heapstore::fields::StringField;
use heapstore::types::Type;
use heapstore::types::STRING_SIZE;

#[test]
fn test_int_field() {
    let int_field = IntField::new(1);
    assert_eq!(int_field.get_type(), Type::IntType);
    assert_eq!(int_field.serialize(), vec![0, 0, 0, 1]);
}

#[test]
fn test_string_field() {
    let string_field = StringField::new("hello".to_string(), 5);
    assert_eq!(string_field.get_type(), Type::StringType);
    let mut serialized = [0; STRING_SIZE + 4];
    serialized[3] = 5;
    serialized[4..9].copy_from_slice("hello".as_bytes());

    assert_eq!(string_field.serialize(), serialized);
}

#[test]
fn test_negative_int_field_round_trip() {
    let f = IntField::new(-2);
    let bytes = f.serialize();
    assert_eq!(bytes, vec![0xff, 0xff, 0xff, 0xfe]);
    let parsed = Type::IntType.parse(&bytes).unwrap();
    assert_eq!(parsed, FieldVal::IntField(IntField::new(-2)));
}

#[test]
fn test_parse_rejects_invalid_utf8() {
    let mut bytes = vec![0u8; STRING_SIZE + 4];
    bytes[3] = 2;
    bytes[4] = 0xff;
    bytes[5] = 0xff;
    let r = Type::StringType.parse(&bytes);
    assert_eq!(r, Err(heapstore::Error::DecodeError));
}

#[test]
fn test_parse_clamps_declared_length() {
    // A declared length beyond the fixed capacity is clamped to it.
    let mut bytes = vec![0u8; STRING_SIZE + 8];
    bytes[0..4].copy_from_slice(&(STRING_SIZE as u32 + 7).to_be_bytes());
    for i in 0..STRING_SIZE {
        bytes[4 + i] = b'a';
    }
    let r = Type::StringType.parse(&bytes).unwrap();
    match r {
        FieldVal::StringField(sf) => {
            assert_eq!(sf.len as usize, STRING_SIZE);
            assert_eq!(sf.get_value().len(), STRING_SIZE);
        }
        FieldVal::IntField(_) => panic!("wrong field kind"),
    }
}

#[test]
fn test_into_int_and_into_string() {
    let fv = FieldVal::IntField(IntField::new(7));
    assert_eq!(fv.clone().into_int(), Some(IntField::new(7)));
    assert_eq!(fv.into_string(), None);
    let sv = FieldVal::StringField(StringField::new("x".to_string(), 1));
    assert_eq!(sv.clone().into_int(), None);
    assert_eq!(sv.into_string(), Some(StringField::new("x".to_string(), 1)));
}

#[test]
fn test_type_lengths() {
    assert_eq!(Type::IntType.get_len(), 4);
    assert_eq!(Type::StringType.get_len(), STRING_SIZE + 4);
}
