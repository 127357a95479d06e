use dynamic_message::descriptor::{Descriptors, FieldDescriptor, FieldType, MessageDescriptor};
use dynamic_message::error::Error;
use dynamic_message::input::Input;
use dynamic_message::value::{Field, Message, Value};
use dynamic_message::wire::WireType;

fn field(number: i32, repeated: bool, field_type: FieldType) -> FieldDescriptor {
    FieldDescriptor { number, repeated, field_type, default_value: None }
}

fn schema(fields: Vec<FieldDescriptor>) -> Descriptors {
    Descriptors { messages: vec![MessageDescriptor { fields }] }
}

fn decode(descriptors: &Descriptors, bytes: &[u8]) -> Result<Message, Error> {
    let message = &descriptors.messages[0];
    let mut m = Message::new(message);
    let mut input = Input::new(bytes);
    m.merge_from(descriptors, message, &mut input)?;
    Ok(m)
}

#[test]
fn decodes_and_reencodes_the_concrete_scenario() {
    let descriptors = schema(vec![
        field(1, false, FieldType::Int32),
        field(2, true, FieldType::String),
    ]);
    let bytes = vec![0x08, 42, 0x12, 2, b'a', b'b', 0x12, 2, b'c', b'd'];
    let m = decode(&descriptors, &bytes).unwrap();
    assert_eq!(m.fields.len(), 2);
    match m.fields.get(&1) {
        Some(Field::Singular(Some(Value::I32(42)))) => {}
        other => panic!("field 1 is {:?}", other),
    }
    match m.fields.get(&2) {
        Some(Field::Repeated(values)) => {
            assert_eq!(values.len(), 2);
            assert!(matches!(&values[0], Value::String(s) if s == "ab"));
            assert!(matches!(&values[1], Value::String(s) if s == "cd"));
        }
        other => panic!("field 2 is {:?}", other),
    }
    assert!(m.unknown.is_empty());
    assert_eq!(m.write_to_bytes().unwrap(), bytes);
    assert_eq!(m.compute_size(), Some(10));
}

#[test]
fn bad_wire_type_fails_fast() {
    let descriptors = schema(vec![field(1, false, FieldType::Int32), field(2, false, FieldType::Bytes)]);
    // field 2 with the varint wire type, then a well-formed field 1
    let bytes = vec![0x10, 1, 0x08, 7];
    match decode(&descriptors, &bytes) {
        Err(Error::BadWireType { wire_type }) => assert_eq!(wire_type, WireType::Varint),
        other => panic!("got {:?}", other.map(|_| ())),
    }
}

#[test]
fn length_delimited_int32_is_a_packed_run() {
    let descriptors = schema(vec![field(1, false, FieldType::Int32)]);
    // a packed run of two values into a singular field: the last one stands
    let m = decode(&descriptors, &[0x0a, 2, 5, 6]).unwrap();
    assert!(matches!(m.fields.get(&1), Some(Field::Singular(Some(Value::I32(6))))));
}

#[test]
fn singular_zero_writes_nothing() {
    let descriptors = schema(vec![field(1, false, FieldType::Int32)]);
    let mut m = Message::new(&descriptors.messages[0]);
    m.fields.insert(1, Field::Singular(Some(Value::I32(7))));
    assert_eq!(m.write_to_bytes().unwrap(), vec![0x08, 7]);
    m.fields.insert(1, Field::Singular(Some(Value::I32(0))));
    assert_eq!(m.write_to_bytes().unwrap(), Vec::<u8>::new());
    assert_eq!(m.compute_size(), Some(0));
}

#[test]
fn repeated_zeros_are_written() {
    let descriptors = schema(vec![field(1, true, FieldType::Int32)]);
    let mut m = Message::new(&descriptors.messages[0]);
    m.fields.insert(1, Field::Repeated(vec![Value::I32(0), Value::I32(0)]));
    assert_eq!(m.write_to_bytes().unwrap(), vec![0x08, 0, 0x08, 0]);
    assert_eq!(m.compute_size(), Some(4));
}
