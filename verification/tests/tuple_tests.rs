use heapstore::fields::FieldVal;
use heapstore::fields::IntField;
use heapstore::fields::StringField;
use heapstore::tuple::Tuple;
use heapstore::tuple::TupleDesc;
use heapstore::types::Type;

#[test]
fn test_tuple_desc_combine() {
    let td1 = TupleDesc::new(
        vec![Type::IntType, Type::StringType],
        vec!["int".to_string(), "string".to_string()],
    );
    let td2 = TupleDesc::new(
        vec![Type::IntType, Type::StringType],
        vec!["int".to_string(), "string".to_string()],
    );
    let td3 = TupleDesc::combine(&td1, &td2);
    assert_eq!(td3.get_num_fields(), 4);
    assert_eq!(td3.get_field_name(0), Some(&"int".to_string()));
    assert_eq!(td3.get_field_name(1), Some(&"string".to_string()));
    assert_eq!(td3.get_field_name(2), Some(&"int".to_string()));
    assert_eq!(td3.get_field_name(3), Some(&"string".to_string()));
}

#[test]
fn test_tuple_desc_len() {
    let td = TupleDesc::new(
        vec![Type::IntType, Type::StringType],
        vec!["int".to_string(), "string".to_string()],
    );
    assert_eq!(td.get_size(), 264);
}

#[test]
fn test_tuple_serialize_deserialize() {
    let td = TupleDesc::new(
        vec![Type::IntType, Type::StringType],
        vec!["int".to_string(), "string".to_string()],
    );
    let tuple = Tuple::new(
        vec![
            FieldVal::IntField(IntField::new(1)),
            FieldVal::StringField(StringField::new("hello".to_string(), 5)),
        ],
        &td,
    );
    let bytes = tuple.serialize();
    let tuple2 = Tuple::deserialize(&bytes, &td).unwrap();
    assert_eq!(tuple, tuple2);
}

#[test]
fn test_name_to_id_first_match_wins() {
    // Duplicate column names resolve to the first occurrence.
    let td = TupleDesc::new(
        vec![Type::IntType, Type::IntType, Type::StringType],
        vec!["a".to_string(), "b".to_string(), "a".to_string()],
    );
    assert_eq!(td.name_to_id("a"), Some(0));
    assert_eq!(td.name_to_id("b"), Some(1));
    assert_eq!(td.name_to_id("c"), None);
}

#[test]
fn test_get_field_and_set_field() {
    let td = TupleDesc::new(vec![Type::IntType], vec!["n".to_string()]);
    let mut t = Tuple::new(vec![FieldVal::IntField(IntField::new(3))], &td);
    assert_eq!(t.get_field(0), Some(&FieldVal::IntField(IntField::new(3))));
    assert_eq!(t.get_field(1), None);
    t.set_field(0, FieldVal::IntField(IntField::new(9)));
    assert_eq!(t.get_field(0), Some(&FieldVal::IntField(IntField::new(9))));
    assert_eq!(t.get_fields(), vec![FieldVal::IntField(IntField::new(9))]);
}

#[test]
fn test_deserialize_rejects_malformed_string() {
    let td = TupleDesc::new(vec![Type::StringType], vec!["s".to_string()]);
    let mut bytes = vec![0u8; td.get_size()];
    bytes[3] = 1;
    bytes[4] = 0xff;
    assert_eq!(
        Tuple::deserialize(&bytes, &td),
        Err(heapstore::Error::DecodeError)
    );
}

#[test]
fn test_serialized_size_matches_descriptor() {
    let td = TupleDesc::new(
        vec![Type::IntType, Type::StringType],
        vec!["id".to_string(), "name".to_string()],
    );
    let t = Tuple::new(
        vec![
            FieldVal::IntField(IntField::new(0)),
            FieldVal::StringField(StringField::new("x".to_string(), 1)),
        ],
        &td,
    );
    assert_eq!(t.serialize().len(), td.get_size());
}
