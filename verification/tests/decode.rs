use dynamic_message::{
    Descriptors, Error, Field, FieldDescriptor, FieldType, Input, Message, MessageDescriptor,
    Value, WireType,
};

fn field(number: i32, repeated: bool, field_type: FieldType) -> FieldDescriptor {
    FieldDescriptor { number, repeated, field_type, default_value: None }
}

fn schema(fields: Vec<FieldDescriptor>) -> Descriptors {
    Descriptors { messages: vec![MessageDescriptor { fields }] }
}

fn decode(descriptors: &Descriptors, bytes: &[u8]) -> Result<Message, Error> {
    let message = &descriptors.messages[0];
    let mut m = Message::new(message);
    let mut input = Input::new(bytes);
    m.merge_from(descriptors, message, &mut input)?;
    assert!(input.eof());
    Ok(m)
}

fn single(field_type: FieldType, bytes: &[u8]) -> Value {
    let descriptors = schema(vec![field(1, false, field_type)]);
    let m = decode(&descriptors, bytes).unwrap();
    match m.fields.get(&1) {
        Some(Field::Singular(Some(v))) => v.clone(),
        other => panic!("field 1 is {:?}", other),
    }
}

fn fault(descriptors: &Descriptors, bytes: &[u8]) -> Error {
    match decode(descriptors, bytes) {
        Ok(m) => panic!("decoded {:?}", m),
        Err(e) => e,
    }
}

const MINUS_ONE: [u8; 10] = [0xff, 0xff, 0xff, 0xff, 0xff, 0xff, 0xff, 0xff, 0xff, 0x01];

#[test]
fn reads_bool() {
    assert!(matches!(single(FieldType::Bool, &[0x08, 1]), Value::Bool(true)));
    assert!(matches!(single(FieldType::Bool, &[0x08, 0]), Value::Bool(false)));
    assert!(matches!(single(FieldType::Bool, &[0x08, 0x80, 0x01]), Value::Bool(true)));
    // only the low 32 bits count
    assert!(matches!(
        single(FieldType::Bool, &[0x08, 0x80, 0x80, 0x80, 0x80, 0x10]),
        Value::Bool(false)
    ));
}

#[test]
fn reads_int32() {
    assert!(matches!(single(FieldType::Int32, &[0x08, 0xac, 0x02]), Value::I32(300)));
    let mut bytes = vec![0x08];
    bytes.extend_from_slice(&MINUS_ONE);
    assert!(matches!(single(FieldType::Int32, &bytes), Value::I32(-1)));
    // 2^32 + 5 is cut to its low 32 bits
    assert!(matches!(
        single(FieldType::Int32, &[0x08, 0x85, 0x80, 0x80, 0x80, 0x10]),
        Value::I32(5)
    ));
    assert!(matches!(
        single(FieldType::Int32, &[0x08, 0x80, 0x80, 0x80, 0x80, 0x08]),
        Value::I32(i32::MIN)
    ));
}

#[test]
fn reads_int64() {
    let mut bytes = vec![0x08];
    bytes.extend_from_slice(&MINUS_ONE);
    assert!(matches!(single(FieldType::Int64, &bytes), Value::I64(-1)));
    assert!(matches!(
        single(FieldType::Int64, &[0x08, 0x80, 0x80, 0x80, 0x80, 0x10]),
        Value::I64(0x1_0000_0000)
    ));
}

#[test]
fn reads_zigzag() {
    assert!(matches!(single(FieldType::SInt32, &[0x08, 0]), Value::I32(0)));
    assert!(matches!(single(FieldType::SInt32, &[0x08, 1]), Value::I32(-1)));
    assert!(matches!(single(FieldType::SInt32, &[0x08, 2]), Value::I32(1)));
    assert!(matches!(single(FieldType::SInt32, &[0x08, 3]), Value::I32(-2)));
    assert!(matches!(
        single(FieldType::SInt32, &[0x08, 0xff, 0xff, 0xff, 0xff, 0x0f]),
        Value::I32(i32::MIN)
    ));
    assert!(matches!(
        single(FieldType::SInt32, &[0x08, 0xfe, 0xff, 0xff, 0xff, 0x0f]),
        Value::I32(i32::MAX)
    ));
    assert!(matches!(single(FieldType::SInt64, &[0x08, 3]), Value::I64(-2)));
    let mut bytes = vec![0x08];
    bytes.extend_from_slice(&MINUS_ONE);
    assert!(matches!(single(FieldType::SInt64, &bytes), Value::I64(i64::MIN)));
}

#[test]
fn reads_unsigned() {
    assert!(matches!(single(FieldType::UInt32, &[0x08, 0xac, 0x02]), Value::U32(300)));
    assert!(matches!(
        single(FieldType::UInt32, &[0x08, 0xff, 0xff, 0xff, 0xff, 0x0f]),
        Value::U32(u32::MAX)
    ));
    let mut bytes = vec![0x08];
    bytes.extend_from_slice(&MINUS_ONE);
    assert!(matches!(single(FieldType::UInt64, &bytes), Value::U64(u64::MAX)));
    assert!(matches!(single(FieldType::UInt32, &bytes), Value::U32(u32::MAX)));
}

#[test]
fn reads_fixed() {
    assert!(matches!(
        single(FieldType::Fixed32, &[0x0d, 0x78, 0x56, 0x34, 0x12]),
        Value::U32(0x1234_5678)
    ));
    assert!(matches!(
        single(FieldType::SFixed32, &[0x0d, 0xfe, 0xff, 0xff, 0xff]),
        Value::I32(-2)
    ));
    assert!(matches!(
        single(FieldType::Fixed64, &[0x09, 8, 7, 6, 5, 4, 3, 2, 1]),
        Value::U64(0x0102_0304_0506_0708)
    ));
    assert!(matches!(
        single(FieldType::SFixed64, &[0x09, 0xff, 0xff, 0xff, 0xff, 0xff, 0xff, 0xff, 0xff]),
        Value::I64(-1)
    ));
}

#[test]
fn reads_floats_as_bit_patterns() {
    match single(FieldType::Float, &[0x0d, 0x00, 0x00, 0x80, 0x3f]) {
        Value::F32(bits) => assert_eq!(f32::from_bits(bits), 1.0),
        other => panic!("got {:?}", other),
    }
    match single(FieldType::Double, &[0x09, 0, 0, 0, 0, 0, 0, 0xf0, 0x3f]) {
        Value::F64(bits) => assert_eq!(f64::from_bits(bits), 1.0),
        other => panic!("got {:?}", other),
    }
    // a signalling NaN keeps its bits
    assert!(matches!(
        single(FieldType::Float, &[0x0d, 0x01, 0x00, 0x80, 0x7f]),
        Value::F32(0x7f80_0001)
    ));
}

#[test]
fn reads_bytes_and_text() {
    assert!(matches!(single(FieldType::Bytes, &[0x0a, 3, 1, 0, 255]), Value::Bytes(b) if b == vec![1, 0, 255]));
    assert!(matches!(single(FieldType::Bytes, &[0x0a, 0]), Value::Bytes(b) if b.is_empty()));
    assert!(matches!(single(FieldType::String, &[0x0a, 2, 0xc3, 0xa9]), Value::String(s) if s == "é"));
}

#[test]
fn reads_enum_codes_as_they_are() {
    assert!(matches!(single(FieldType::Enum, &[0x08, 77]), Value::Enum(77)));
    let mut bytes = vec![0x08];
    bytes.extend_from_slice(&MINUS_ONE);
    assert!(matches!(single(FieldType::Enum, &bytes), Value::Enum(-1)));
}

#[test]
fn a_later_single_value_replaces_an_earlier_one() {
    assert!(matches!(single(FieldType::Int32, &[0x08, 1, 0x08, 2]), Value::I32(2)));
}

#[test]
fn packed_and_unpacked_give_one_sequence() {
    let descriptors = schema(vec![field(4, true, FieldType::Int32)]);
    let packed = decode(&descriptors, &[0x22, 4, 3, 0xac, 0x02, 0]).unwrap();
    let unpacked = decode(&descriptors, &[0x20, 3, 0x20, 0xac, 0x02, 0x20, 0]).unwrap();
    let mixed = decode(&descriptors, &[0x20, 3, 0x22, 3, 0xac, 0x02, 0]).unwrap();
    for m in [&packed, &unpacked, &mixed] {
        match m.fields.get(&4) {
            Some(Field::Repeated(values)) => {
                assert_eq!(values.len(), 3);
                assert!(matches!(values[0], Value::I32(3)));
                assert!(matches!(values[1], Value::I32(300)));
                assert!(matches!(values[2], Value::I32(0)));
            }
            other => panic!("field 4 is {:?}", other),
        }
    }
}

#[test]
fn packed_fixed_width_values() {
    let descriptors = schema(vec![field(1, true, FieldType::Fixed32), field(2, true, FieldType::Double)]);
    let m = decode(
        &descriptors,
        &[0x0a, 8, 1, 0, 0, 0, 2, 0, 0, 0, 0x12, 8, 0, 0, 0, 0, 0, 0, 0xf0, 0x3f],
    )
    .unwrap();
    match m.fields.get(&1) {
        Some(Field::Repeated(values)) => {
            assert!(matches!(values[..], [Value::U32(1), Value::U32(2)]));
        }
        other => panic!("field 1 is {:?}", other),
    }
    match m.fields.get(&2) {
        Some(Field::Repeated(values)) => {
            assert!(matches!(values[..], [Value::F64(0x3ff0_0000_0000_0000)]));
        }
        other => panic!("field 2 is {:?}", other),
    }
}

#[test]
fn an_empty_packed_run_adds_nothing() {
    let descriptors = schema(vec![field(1, true, FieldType::Int32)]);
    let m = decode(&descriptors, &[0x0a, 0]).unwrap();
    assert!(matches!(m.fields.get(&1), Some(Field::Repeated(values)) if values.is_empty()));
}

#[test]
fn a_misaligned_packed_run_is_an_error() {
    let descriptors = schema(vec![field(1, true, FieldType::Fixed32)]);
    assert!(matches!(fault(&descriptors, &[0x0a, 5, 1, 0, 0, 0, 2]), Error::Protobuf(_)));
    let descriptors = schema(vec![field(1, true, FieldType::Int32)]);
    assert!(matches!(fault(&descriptors, &[0x0a, 2, 1, 0x80]), Error::Protobuf(_)));
}

#[test]
fn values_before_an_error_in_a_packed_run_stay() {
    let descriptors = schema(vec![field(1, true, FieldType::Int32)]);
    let message = &descriptors.messages[0];
    let mut held = Field::new(&message.fields[0]);
    let bytes = [3, 7, 8, 0x80];
    let mut input = Input::new(&bytes);
    let r = held.merge_from(&descriptors, &message.fields[0], &mut input, WireType::LengthDelimited);
    assert!(matches!(r, Err(Error::Protobuf(_))));
    assert!(matches!(&held, Field::Repeated(values) if matches!(values[..], [Value::I32(7), Value::I32(8)])));
}

#[test]
fn nested_messages_are_decoded() {
    let descriptors = Descriptors {
        messages: vec![
            MessageDescriptor {
                fields: vec![field(1, false, FieldType::Message(1)), field(2, true, FieldType::Message(1))],
            },
            MessageDescriptor { fields: vec![field(1, false, FieldType::Int32)] },
        ],
    };
    let m = decode(&descriptors, &[0x0a, 2, 0x08, 5, 0x12, 2, 0x08, 6, 0x12, 0]).unwrap();
    match m.fields.get(&1) {
        Some(Field::Singular(Some(Value::Message(inner)))) => {
            assert!(matches!(inner.fields.get(&1), Some(Field::Singular(Some(Value::I32(5))))));
        }
        other => panic!("field 1 is {:?}", other),
    }
    match m.fields.get(&2) {
        Some(Field::Repeated(values)) => {
            assert_eq!(values.len(), 2);
            assert!(matches!(&values[0], Value::Message(inner)
                if matches!(inner.fields.get(&1), Some(Field::Singular(Some(Value::I32(6)))))));
            assert!(matches!(&values[1], Value::Message(inner)
                if matches!(inner.fields.get(&1), Some(Field::Singular(None)))));
        }
        other => panic!("field 2 is {:?}", other),
    }
}

#[test]
fn a_second_payload_merges_into_the_single_message() {
    let descriptors = Descriptors {
        messages: vec![
            MessageDescriptor { fields: vec![field(1, false, FieldType::Message(1))] },
            MessageDescriptor {
                fields: vec![field(1, false, FieldType::Int32), field(2, true, FieldType::Int32)],
            },
        ],
    };
    let m = decode(&descriptors, &[0x0a, 4, 0x08, 5, 0x10, 1, 0x0a, 4, 0x08, 6, 0x10, 2]).unwrap();
    match m.fields.get(&1) {
        Some(Field::Singular(Some(Value::Message(inner)))) => {
            assert!(matches!(inner.fields.get(&1), Some(Field::Singular(Some(Value::I32(6))))));
            assert!(matches!(inner.fields.get(&2), Some(Field::Repeated(values))
                if matches!(values[..], [Value::I32(1), Value::I32(2)])));
        }
        other => panic!("field 1 is {:?}", other),
    }
}

#[test]
fn a_message_type_may_hold_itself() {
    let descriptors = Descriptors {
        messages: vec![MessageDescriptor {
            fields: vec![field(1, false, FieldType::Message(0)), field(2, false, FieldType::Int32)],
        }],
    };
    let m = decode(&descriptors, &[0x0a, 6, 0x0a, 2, 0x10, 9, 0x10, 8, 0x10, 7]).unwrap();
    assert!(matches!(m.fields.get(&2), Some(Field::Singular(Some(Value::I32(7))))));
    let Some(Field::Singular(Some(Value::Message(second)))) = m.fields.get(&1) else {
        panic!("no nested message")
    };
    assert!(matches!(second.fields.get(&2), Some(Field::Singular(Some(Value::I32(8))))));
    let Some(Field::Singular(Some(Value::Message(third)))) = second.fields.get(&1) else {
        panic!("no nested message")
    };
    assert!(matches!(third.fields.get(&2), Some(Field::Singular(Some(Value::I32(9))))));
    assert!(matches!(third.fields.get(&1), Some(Field::Singular(None))));
}

#[test]
fn a_merge_makes_a_field_that_the_message_lacks() {
    let descriptors = schema(vec![field(1, false, FieldType::Int32), field(2, true, FieldType::Int32)]);
    let message = &descriptors.messages[0];
    let mut m = Message::new(message);
    m.fields.clear();
    let bytes = [0x08, 1, 0x10, 2];
    m.merge_from(&descriptors, message, &mut Input::new(&bytes)).unwrap();
    assert!(matches!(m.fields.get(&1), Some(Field::Singular(Some(Value::I32(1))))));
    assert!(matches!(m.fields.get(&2), Some(Field::Repeated(v)) if v.len() == 1));
}

#[test]
fn bad_wire_types_are_refused() {
    let kinds = vec![
        (FieldType::Int32, vec![0x0d, 0, 0, 0, 0], WireType::Fixed32),
        (FieldType::Bool, vec![0x09, 0, 0, 0, 0, 0, 0, 0, 0], WireType::Fixed64),
        (FieldType::Fixed32, vec![0x08, 1], WireType::Varint),
        (FieldType::Double, vec![0x0d, 0, 0, 0, 0], WireType::Fixed32),
        (FieldType::Bytes, vec![0x08, 1], WireType::Varint),
        (FieldType::String, vec![0x0d, 0, 0, 0, 0], WireType::Fixed32),
        (FieldType::Enum, vec![0x0a, 1, 1], WireType::LengthDelimited),
        (FieldType::Message(0), vec![0x08, 1], WireType::Varint),
        (FieldType::Int32, vec![0x0b], WireType::StartGroup),
        (FieldType::Int32, vec![0x0c], WireType::EndGroup),
    ];
    for (field_type, bytes, expected) in kinds {
        let descriptors = schema(vec![field(1, false, field_type)]);
        match fault(&descriptors, &bytes) {
            Error::BadWireType { wire_type } => assert_eq!(wire_type, expected),
            other => panic!("got {:?}", other),
        }
    }
}

#[test]
fn a_refused_merge_changes_nothing() {
    let descriptors = schema(vec![field(1, true, FieldType::Int32)]);
    let message = &descriptors.messages[0];
    let mut held = Field::Repeated(vec![Value::I32(4)]);
    let bytes = [1, 2, 3, 4];
    let mut input = Input::new(&bytes);
    let r = held.merge_from(&descriptors, &message.fields[0], &mut input, WireType::Fixed32);
    assert!(matches!(r, Err(Error::BadWireType { wire_type: WireType::Fixed32 })));
    assert!(matches!(&held, Field::Repeated(values) if matches!(values[..], [Value::I32(4)])));
    assert_eq!(input.len(), 4);
}

#[test]
fn a_length_delimited_int32_is_read_as_a_packed_run() {
    // field 1, declared int32, sent length-delimited: a packed run of 104 and 105
    let descriptors = schema(vec![field(1, false, FieldType::Int32)]);
    assert!(matches!(single(FieldType::Int32, &[0x0a, 2, b'h', b'i']), Value::I32(105)));
    // a run whose bytes end inside its second value is malformed
    assert!(matches!(fault(&descriptors, &[0x0a, 2, 1, 0xff, 0x08, 1]), Error::Protobuf(_)));
}

#[test]
fn a_wire_type_that_a_text_cannot_come_with_aborts_the_decode() {
    let descriptors = schema(vec![field(1, false, FieldType::Int32), field(2, false, FieldType::String)]);
    let message = &descriptors.messages[0];
    let mut m = Message::new(message);
    let bytes = [0x08, 0x2a, 0x10, 0x05];
    let r = m.merge_from(&descriptors, message, &mut Input::new(&bytes));
    assert!(matches!(r, Err(Error::BadWireType { wire_type: WireType::Varint })));
    // what was merged before the fault stays, and the field of the fault is as it was
    assert!(matches!(m.fields.get(&1), Some(Field::Singular(Some(Value::I32(42))))));
    assert!(matches!(m.fields.get(&2), Some(Field::Singular(None))));
    assert_eq!(m.fields.len(), 2);
    assert!(m.unknown.is_empty());
}

#[test]
fn unknown_bytes_before_a_fault_stay() {
    let descriptors = schema(vec![field(1, false, FieldType::Int32)]);
    let message = &descriptors.messages[0];
    let mut m = Message::new(message);
    m.unknown = vec![0x28, 1];
    let bytes = [0x10, 7, 0x0d, 0, 0, 0, 0, 0x18, 1];
    let r = m.merge_from(&descriptors, message, &mut Input::new(&bytes));
    assert!(matches!(r, Err(Error::BadWireType { wire_type: WireType::Fixed32 })));
    assert_eq!(m.unknown, vec![0x28, 1, 0x10, 7]);
    assert!(matches!(m.fields.get(&1), Some(Field::Singular(None))));
    // malformed bytes after an unknown field
    let r = m.merge_from(&descriptors, message, &mut Input::new(&[0x20, 9, 0x08, 0x80]));
    assert!(matches!(r, Err(Error::Protobuf(_))));
    assert_eq!(m.unknown, vec![0x28, 1, 0x10, 7, 0x20, 9]);
}

fn nested_schema() -> Descriptors {
    Descriptors {
        messages: vec![
            MessageDescriptor {
                fields: vec![field(1, false, FieldType::Message(1)), field(2, true, FieldType::Message(1))],
            },
            MessageDescriptor {
                fields: vec![field(1, false, FieldType::Int32), field(2, false, FieldType::String)],
            },
        ],
    }
}

#[test]
fn a_held_message_stays_when_a_nested_payload_fails() {
    let descriptors = nested_schema();
    let outer = &descriptors.messages[0];
    let mut inner = Message::new(&descriptors.messages[1]);
    inner.fields.insert(1, Field::Singular(Some(Value::I32(5))));
    let mut held = Field::Singular(Some(Value::Message(inner)));
    // the payload holds field 2 of the nested type with the varint wire type
    let bytes = [0x02, 0x10, 0x07];
    let mut input = Input::new(&bytes);
    let r = held.merge_from(&descriptors, &outer.fields[0], &mut input, WireType::LengthDelimited);
    assert!(matches!(r, Err(Error::BadWireType { wire_type: WireType::Varint })));
    match &held {
        Field::Singular(Some(Value::Message(m))) => {
            assert!(matches!(m.fields.get(&1), Some(Field::Singular(Some(Value::I32(5))))));
            assert!(matches!(m.fields.get(&2), Some(Field::Singular(None))));
        }
        other => panic!("the field is {:?}", other),
    }
    // what the payload merged before its fault stays in the held message
    let bytes = [0x04, 0x08, 0x09, 0x10, 0x07];
    let r = held.merge_from(&descriptors, &outer.fields[0], &mut Input::new(&bytes), WireType::LengthDelimited);
    assert!(matches!(r, Err(Error::BadWireType { wire_type: WireType::Varint })));
    assert!(matches!(&held, Field::Singular(Some(Value::Message(m)))
        if matches!(m.fields.get(&1), Some(Field::Singular(Some(Value::I32(9)))))));
}

#[test]
fn a_failed_nested_payload_adds_nothing_to_a_field_without_a_message() {
    let descriptors = nested_schema();
    let outer = &descriptors.messages[0];
    let bytes = [0x02, 0x10, 0x07];
    let mut absent = Field::Singular(None);
    let r = absent.merge_from(&descriptors, &outer.fields[0], &mut Input::new(&bytes), WireType::LengthDelimited);
    assert!(r.is_err());
    assert!(matches!(absent, Field::Singular(None)));
    let mut many = Field::Repeated(vec![Value::Message(Message::new(&descriptors.messages[1]))]);
    let r = many.merge_from(&descriptors, &outer.fields[1], &mut Input::new(&bytes), WireType::LengthDelimited);
    assert!(r.is_err());
    assert!(matches!(&many, Field::Repeated(values) if values.len() == 1));
    // in a whole decode, the fields before stay and the failed element is not added
    let mut m = Message::new(outer);
    let r = m.merge_from(&descriptors, outer, &mut Input::new(&[0x12, 2, 0x08, 1, 0x12, 2, 0x10, 7]));
    assert!(matches!(r, Err(Error::BadWireType { wire_type: WireType::Varint })));
    assert!(matches!(m.fields.get(&2), Some(Field::Repeated(values)) if values.len() == 1));
}

#[test]
fn a_length_is_read_with_all_its_bits() {
    // a length of 2^32 + 3 before three bytes
    let long = [0x83, 0x80, 0x80, 0x80, 0x10, 1, 2, 3];
    let descriptors = nested_schema();
    let outer = &descriptors.messages[0];
    let mut nested = Field::Singular(None);
    let mut input = Input::new(&long);
    let r = nested.merge_from(&descriptors, &outer.fields[0], &mut input, WireType::LengthDelimited);
    assert!(matches!(r, Err(Error::Protobuf(_))));
    assert_eq!(input.len(), 8);
    let packed = field(1, true, FieldType::Int32);
    let mut run = Field::new(&packed);
    let mut input = Input::new(&long);
    let r = run.merge_from(&descriptors, &packed, &mut input, WireType::LengthDelimited);
    assert!(matches!(r, Err(Error::Protobuf(_))));
    assert!(matches!(&run, Field::Repeated(values) if values.is_empty()));
    assert_eq!(input.len(), 8);
    // a run that ends where the bytes end is read, one byte more is not there
    let mut run = Field::new(&packed);
    run.merge_from(&descriptors, &packed, &mut Input::new(&[3, 1, 2, 3]), WireType::LengthDelimited).unwrap();
    assert!(matches!(&run, Field::Repeated(values) if values.len() == 3));
    let r = run.merge_from(&descriptors, &packed, &mut Input::new(&[4, 1, 2, 3]), WireType::LengthDelimited);
    assert!(matches!(r, Err(Error::Protobuf(_))));
    assert!(matches!(&run, Field::Repeated(values) if values.len() == 3));
    // bytes after the run are left for what follows
    let mut input = Input::new(&[2, 1, 2, 3]);
    run.merge_from(&descriptors, &packed, &mut input, WireType::LengthDelimited).unwrap();
    assert_eq!(input.remaining(), &[3]);
}

#[test]
fn a_lacking_field_is_made_with_its_default() {
    let with_default = FieldDescriptor {
        number: 1,
        repeated: false,
        field_type: FieldType::Int32,
        default_value: Some(Value::I32(3)),
    };
    let descriptors = schema(vec![with_default, field(2, false, FieldType::Int32)]);
    let message = &descriptors.messages[0];
    let mut m = Message::new(message);
    m.fields.clear();
    // field 1 comes with a wire type that it cannot have: the field is made, and the decode fails
    let r = m.merge_from(&descriptors, message, &mut Input::new(&[0x0d, 0, 0, 0, 0]));
    assert!(matches!(r, Err(Error::BadWireType { wire_type: WireType::Fixed32 })));
    assert!(matches!(m.fields.get(&1), Some(Field::Singular(Some(Value::I32(3))))));
    assert!(m.fields.get(&2).is_none());
}

#[test]
fn unsupported_and_unresolved_types_are_errors() {
    let descriptors = schema(vec![field(1, false, FieldType::Group)]);
    assert!(matches!(fault(&descriptors, &[0x0b, 0x0c]), Error::UnsupportedGroup));
    let descriptors = schema(vec![field(1, false, FieldType::UnresolvedEnum("Colour".to_string()))]);
    assert!(matches!(fault(&descriptors, &[0x08, 1]), Error::UnknownEnum { name } if name == "Colour"));
    let descriptors = schema(vec![field(1, false, FieldType::UnresolvedMessage("Point".to_string()))]);
    assert!(matches!(fault(&descriptors, &[0x0a, 0]), Error::UnknownMessage { name } if name == "Point"));
    let descriptors = schema(vec![field(1, false, FieldType::Message(3))]);
    assert!(matches!(fault(&descriptors, &[0x0a, 0]), Error::UnknownMessage { name } if name.is_empty()));
}

#[test]
fn an_unresolved_type_is_no_error_until_a_value_comes() {
    let descriptors = schema(vec![
        field(1, false, FieldType::Int32),
        field(2, false, FieldType::UnresolvedMessage("Point".to_string())),
    ]);
    let m = decode(&descriptors, &[0x08, 1]).unwrap();
    assert!(matches!(m.fields.get(&2), Some(Field::Singular(None))));
}

#[test]
fn malformed_bytes_are_errors() {
    let descriptors = schema(vec![
        field(1, false, FieldType::Int32),
        field(2, false, FieldType::String),
        field(3, false, FieldType::Fixed64),
        field(4, false, FieldType::Message(0)),
    ]);
    // a varint of eleven bytes
    let mut long = vec![0x08];
    long.extend_from_slice(&[0x80; 10]);
    long.push(0);
    assert!(matches!(fault(&descriptors, &long), Error::Protobuf(_)));
    // the bytes end inside a varint
    assert!(matches!(fault(&descriptors, &[0x08, 0x80]), Error::Protobuf(_)));
    // the bytes end after a tag
    assert!(matches!(fault(&descriptors, &[0x08]), Error::Protobuf(_)));
    // fewer bytes than the length says
    assert!(matches!(fault(&descriptors, &[0x12, 3, b'a', b'b']), Error::Protobuf(_)));
    assert!(matches!(fault(&descriptors, &[0x22, 3, 0x08, 1]), Error::Protobuf(_)));
    // not UTF-8
    assert!(matches!(fault(&descriptors, &[0x12, 1, 0xff]), Error::Protobuf(_)));
    // seven of eight bytes
    assert!(matches!(fault(&descriptors, &[0x19, 1, 2, 3, 4, 5, 6, 7]), Error::Protobuf(_)));
    // field number zero, and the wire types 6 and 7
    assert!(matches!(fault(&descriptors, &[0x00, 0]), Error::Protobuf(_)));
    assert!(matches!(fault(&descriptors, &[0x0e]), Error::Protobuf(_)));
    assert!(matches!(fault(&descriptors, &[0x0f]), Error::Protobuf(_)));
    // an error inside a nested message comes out as it is
    assert!(matches!(
        fault(&descriptors, &[0x22, 2, 0x0d, 0]),
        Error::BadWireType { wire_type: WireType::Fixed32 }
    ));
}

#[test]
fn a_varint_of_ten_bytes_keeps_the_lowest_bit_of_the_last() {
    let descriptors = schema(vec![field(1, false, FieldType::UInt64)]);
    let m = decode(
        &descriptors,
        &[0x08, 0x80, 0x80, 0x80, 0x80, 0x80, 0x80, 0x80, 0x80, 0x80, 0x7f],
    )
    .unwrap();
    assert!(matches!(m.fields.get(&1), Some(Field::Singular(Some(Value::U64(0x8000_0000_0000_0000))))));
    let m = decode(
        &descriptors,
        &[0x08, 0x80, 0x80, 0x80, 0x80, 0x80, 0x80, 0x80, 0x80, 0x80, 0x02],
    )
    .unwrap();
    assert!(matches!(m.fields.get(&1), Some(Field::Singular(Some(Value::U64(0))))));
}

#[test]
fn fields_before_an_error_stay_merged() {
    let descriptors = schema(vec![field(1, false, FieldType::Int32), field(2, false, FieldType::Int32)]);
    let message = &descriptors.messages[0];
    let mut m = Message::new(message);
    let bytes = [0x08, 5, 0x15, 0, 0, 0, 0];
    let r = m.merge_from(&descriptors, message, &mut Input::new(&bytes));
    assert!(matches!(r, Err(Error::BadWireType { wire_type: WireType::Fixed32 })));
    assert!(matches!(m.fields.get(&1), Some(Field::Singular(Some(Value::I32(5))))));
    assert!(matches!(m.fields.get(&2), Some(Field::Singular(None))));
}

#[test]
fn unknown_fields_are_kept_as_they_came() {
    let descriptors = schema(vec![field(1, false, FieldType::Int32)]);
    let bytes = [
        0x18, 0x81, 0x00, // field 3, a varint that is longer than it need be
        0x08, 9, // field 1
        0x25, 1, 2, 3, 4, // field 4, four bytes
        0x12, 2, b'h', b'i', // field 2, length-delimited
        0x31, 1, 2, 3, 4, 5, 6, 7, 8, // field 6, eight bytes
    ];
    let m = decode(&descriptors, &bytes).unwrap();
    assert!(matches!(m.fields.get(&1), Some(Field::Singular(Some(Value::I32(9))))));
    let mut expected = Vec::new();
    expected.extend_from_slice(&bytes[0..3]);
    expected.extend_from_slice(&bytes[5..]);
    assert_eq!(m.unknown, expected);
}

#[test]
fn unknown_groups_are_passed_over() {
    let descriptors = schema(vec![field(1, false, FieldType::Int32)]);
    // field 2 starts a group that holds a varint and a text, and ends; then field 1
    let m = decode(&descriptors, &[0x13, 0x08, 1, 0x12, 1, b'x', 0x14, 0x08, 4]).unwrap();
    assert!(m.unknown.is_empty());
    assert!(matches!(m.fields.get(&1), Some(Field::Singular(Some(Value::I32(4))))));
    // a group that does not end, a group within a group, an end without a start
    assert!(matches!(fault(&descriptors, &[0x13, 0x08, 1]), Error::Protobuf(_)));
    assert!(matches!(fault(&descriptors, &[0x13, 0x1b, 0x1c, 0x14]), Error::Protobuf(_)));
    assert!(matches!(fault(&descriptors, &[0x14]), Error::Protobuf(_)));
    // an unknown field whose value is cut short
    assert!(matches!(fault(&descriptors, &[0x12, 5, 1]), Error::Protobuf(_)));
}

#[test]
fn input_is_read_from_front_to_back() {
    let bytes = [1, 2, 3];
    let mut input = Input::new(&bytes);
    assert_eq!(input.len(), 3);
    assert!(!input.eof());
    assert_eq!(input.remaining(), &[1, 2, 3]);
    let descriptors = schema(vec![field(1, true, FieldType::Fixed32)]);
    let message = &descriptors.messages[0];
    let mut held = Field::new(&message.fields[0]);
    held.merge_from(&descriptors, &message.fields[0], &mut input, WireType::Varint).unwrap_err();
    assert_eq!(input.remaining(), &[1, 2, 3]);
    let mut held = Field::new(&field(1, true, FieldType::Int32));
    held.merge_from(&descriptors, &field(1, true, FieldType::Int32), &mut input, WireType::Varint).unwrap();
    assert_eq!(input.remaining(), &[2, 3]);
    assert_eq!(input.len(), 2);
    held.merge_from(&descriptors, &field(1, true, FieldType::Int32), &mut input, WireType::LengthDelimited).unwrap_err();
    let mut input = Input::new(&bytes[1..]);
    held.merge_from(&descriptors, &field(1, true, FieldType::Int32), &mut input, WireType::Varint).unwrap();
    held.merge_from(&descriptors, &field(1, true, FieldType::Int32), &mut input, WireType::Varint).unwrap();
    assert!(input.eof());
    assert_eq!(input.len(), 0);
    assert!(Input::new(&[]).eof());
    assert!(matches!(&held, Field::Repeated(values)
        if matches!(values[..], [Value::I32(1), Value::I32(2), Value::I32(3)])));
}
