use dynamic_message::{
    Descriptors, Field, FieldDescriptor, FieldType, Input, Message, MessageDescriptor, Value,
};
use std::collections::BTreeMap;

fn message(fields: Vec<(i32, Field)>) -> Message {
    let mut map = BTreeMap::new();
    for (number, field) in fields {
        map.insert(number, field);
    }
    Message { fields: map, unknown: Vec::new() }
}

fn one(value: Value) -> Vec<u8> {
    message(vec![(1, Field::Singular(Some(value)))]).write_to_bytes().unwrap()
}

fn element(value: Value) -> Vec<u8> {
    message(vec![(1, Field::Repeated(vec![value]))]).write_to_bytes().unwrap()
}

const MINUS_ONE: [u8; 10] = [0xff, 0xff, 0xff, 0xff, 0xff, 0xff, 0xff, 0xff, 0xff, 0x01];

fn tagged(tag: u8, body: &[u8]) -> Vec<u8> {
    let mut bytes = vec![tag];
    bytes.extend_from_slice(body);
    bytes
}

#[test]
fn writes_each_kind_of_value() {
    assert_eq!(one(Value::Bool(true)), vec![0x08, 1]);
    assert_eq!(one(Value::I32(300)), vec![0x08, 0xac, 0x02]);
    assert_eq!(one(Value::I32(-1)), tagged(0x08, &MINUS_ONE));
    assert_eq!(one(Value::I64(-1)), tagged(0x08, &MINUS_ONE));
    assert_eq!(one(Value::I64(0x1_0000_0000)), vec![0x08, 0x80, 0x80, 0x80, 0x80, 0x10]);
    assert_eq!(one(Value::U32(u32::MAX)), vec![0x08, 0xff, 0xff, 0xff, 0xff, 0x0f]);
    assert_eq!(one(Value::U64(u64::MAX)), tagged(0x08, &MINUS_ONE));
    assert_eq!(one(Value::F32(1.0f32.to_bits())), vec![0x0d, 0, 0, 0x80, 0x3f]);
    assert_eq!(one(Value::F64(1.0f64.to_bits())), vec![0x09, 0, 0, 0, 0, 0, 0, 0xf0, 0x3f]);
    assert_eq!(one(Value::Bytes(vec![1, 0, 255])), vec![0x0a, 3, 1, 0, 255]);
    assert_eq!(one(Value::String("é".to_string())), vec![0x0a, 2, 0xc3, 0xa9]);
    assert_eq!(one(Value::Enum(77)), vec![0x08, 77]);
    assert_eq!(one(Value::Enum(-1)), tagged(0x08, &MINUS_ONE));
    assert_eq!(
        one(Value::Message(message(vec![(2, Field::Singular(Some(Value::I32(5))))]))),
        vec![0x0a, 2, 0x10, 5]
    );
}

#[test]
fn a_single_default_is_left_out() {
    for value in [
        Value::Bool(false),
        Value::I32(0),
        Value::I64(0),
        Value::U32(0),
        Value::U64(0),
        Value::F32(0),
        Value::F32(0x8000_0000),
        Value::F64(0),
        Value::F64(0x8000_0000_0000_0000),
        Value::Bytes(Vec::new()),
        Value::String(String::new()),
        Value::Enum(0),
    ] {
        assert!(value.is_default());
        let m = message(vec![(1, Field::Singular(Some(value)))]);
        assert_eq!(m.compute_size(), Some(0));
        assert_eq!(m.write_to_bytes().unwrap(), Vec::<u8>::new());
    }
    assert_eq!(message(vec![(1, Field::Singular(None))]).write_to_bytes().unwrap(), Vec::<u8>::new());
}

#[test]
fn a_single_value_that_is_no_default_is_written() {
    // a NaN and the smallest positive number are no zeros
    assert_eq!(one(Value::F32(0x7fc0_0000)), vec![0x0d, 0, 0, 0xc0, 0x7f]);
    assert_eq!(one(Value::F32(1)), vec![0x0d, 1, 0, 0, 0]);
    assert!(!Value::F64(1).is_default());
    assert!(!Value::Message(message(vec![])).is_default());
    // an empty message is written, as a length of zero
    assert_eq!(one(Value::Message(message(vec![]))), vec![0x0a, 0]);
}

#[test]
fn an_element_is_written_even_as_a_default() {
    assert_eq!(element(Value::Bool(false)), vec![0x08, 0]);
    assert_eq!(element(Value::I32(0)), vec![0x08, 0]);
    assert_eq!(element(Value::I64(0)), vec![0x08, 0]);
    assert_eq!(element(Value::U32(0)), vec![0x08, 0]);
    assert_eq!(element(Value::U64(0)), vec![0x08, 0]);
    assert_eq!(element(Value::F32(0)), vec![0x0d, 0, 0, 0, 0]);
    assert_eq!(element(Value::F64(0)), vec![0x09, 0, 0, 0, 0, 0, 0, 0, 0]);
    assert_eq!(element(Value::Bytes(Vec::new())), vec![0x0a, 0]);
    assert_eq!(element(Value::String(String::new())), vec![0x0a, 0]);
    assert_eq!(element(Value::Enum(0)), vec![0x08, 0]);
    assert_eq!(element(Value::Bool(true)), vec![0x08, 1]);
}

#[test]
fn the_current_value_decides_not_what_was_there_before() {
    let mut m = message(vec![(1, Field::Singular(Some(Value::I32(7))))]);
    assert_eq!(m.write_to_bytes().unwrap(), vec![0x08, 7]);
    m.fields.insert(1, Field::Singular(Some(Value::I32(0))));
    assert_eq!(m.write_to_bytes().unwrap(), Vec::<u8>::new());
    m.fields.insert(1, Field::Singular(Some(Value::I32(7))));
    assert_eq!(m.write_to_bytes().unwrap(), vec![0x08, 7]);
}

#[test]
fn fields_are_written_in_ascending_order_then_the_unknown_bytes() {
    let mut m = message(vec![
        (300, Field::Singular(Some(Value::I32(3)))),
        (2, Field::Repeated(vec![Value::I32(0), Value::I32(2)])),
        (1, Field::Singular(Some(Value::I32(1)))),
        (16, Field::Singular(Some(Value::Bool(true)))),
    ]);
    m.unknown = vec![0x28, 9];
    assert_eq!(
        m.write_to_bytes().unwrap(),
        vec![0x08, 1, 0x10, 0, 0x10, 2, 0x80, 0x01, 1, 0xe0, 0x12, 3, 0x28, 9]
    );
    assert_eq!(m.compute_size(), Some(14));
}

#[test]
fn write_to_appends_to_what_is_there() {
    let m = message(vec![(1, Field::Singular(Some(Value::I32(1))))]);
    let mut out = vec![9, 9];
    m.write_to(&mut out).unwrap();
    m.write_to(&mut out).unwrap();
    assert_eq!(out, vec![9, 9, 0x08, 1, 0x08, 1]);
}

#[test]
fn a_field_is_written_under_the_tag_that_is_given() {
    let mut out = Vec::new();
    let single = Field::Singular(Some(Value::I32(0)));
    single.write_to_with_tag(5, &mut out, false).unwrap();
    assert!(out.is_empty());
    single.write_to_with_tag(5, &mut out, true).unwrap();
    assert_eq!(out, vec![0x28, 0]);
    let many = Field::Repeated(vec![Value::String("a".to_string()), Value::String(String::new())]);
    let mut out = Vec::new();
    many.write_to_with_tag(0x1fff_ffff, &mut out, false).unwrap();
    assert_eq!(out, vec![0xfa, 0xff, 0xff, 0xff, 0x0f, 1, b'a', 0xfa, 0xff, 0xff, 0xff, 0x0f, 0]);
    assert_eq!(many.size_with_tag(0x1fff_ffff), Some(13));
    assert_eq!(Field::Singular(None).size_with_tag(1), Some(0));
    assert_eq!(single.size_with_tag(1), Some(0));
}

#[test]
fn the_size_is_the_number_of_bytes_written() {
    let inner = message(vec![
        (1, Field::Singular(Some(Value::String("x".repeat(200))))),
        (2, Field::Repeated(vec![Value::F64(0), Value::F32(5), Value::Bytes(vec![0; 130])])),
    ]);
    let mut m = message(vec![
        (1, Field::Singular(Some(Value::Message(inner.clone())))),
        (2, Field::Repeated(vec![Value::Message(inner.clone()), Value::Message(message(vec![]))])),
        (3, Field::Singular(Some(Value::I64(i64::MIN)))),
        (4, Field::Singular(Some(Value::U64(1 << 35)))),
        (5, Field::Singular(Some(Value::Enum(-5)))),
        (6, Field::Singular(Some(Value::Bool(true)))),
        (7, Field::Singular(Some(Value::U32(128)))),
        (70000, Field::Singular(Some(Value::I32(1 << 14)))),
    ]);
    m.unknown = vec![0x78, 1];
    let first = m.compute_size().unwrap();
    let second = m.compute_size().unwrap();
    assert_eq!(first, second);
    let bytes = m.write_to_bytes().unwrap();
    assert_eq!(bytes.len(), first as usize);
    let mut out = vec![1, 2, 3];
    m.write_to(&mut out).unwrap();
    assert_eq!(out.len(), 3 + first as usize);
    assert_eq!(inner.compute_size(), Some(3 + 200 + 9 + 5 + 3 + 130));
}

#[test]
fn sizes_of_varints_at_their_borders() {
    for (value, len) in [
        (0u64, 1u32),
        (127, 1),
        (128, 2),
        (16383, 2),
        (16384, 3),
        ((1 << 21) - 1, 3),
        (1 << 21, 4),
        ((1 << 28) - 1, 4),
        (1 << 28, 5),
        ((1 << 35) - 1, 5),
        (1 << 35, 6),
        ((1 << 42) - 1, 6),
        (1 << 42, 7),
        ((1 << 49) - 1, 7),
        (1 << 49, 8),
        ((1 << 56) - 1, 8),
        (1 << 56, 9),
        ((1 << 63) - 1, 9),
        (1 << 63, 10),
        (u64::MAX, 10),
    ] {
        let many = Field::Repeated(vec![Value::U64(value)]);
        assert_eq!(many.size_with_tag(1), Some(1 + len));
        let mut out = Vec::new();
        many.write_to_with_tag(1, &mut out, false).unwrap();
        assert_eq!(out.len() as u32, 1 + len);
    }
    for (number, len) in [(1u32, 1u32), (15, 1), (16, 2), (2047, 2), (2048, 3), (0x1fff_ffff, 5)] {
        assert_eq!(Field::Repeated(vec![Value::Bool(false)]).size_with_tag(number), Some(len + 1));
        assert_eq!(Field::Repeated(vec![Value::F32(0)]).size_with_tag(number), Some(len + 4));
        assert_eq!(Field::Repeated(vec![Value::F64(0)]).size_with_tag(number), Some(len + 8));
        assert_eq!(Field::Repeated(vec![Value::I32(-1)]).size_with_tag(number), Some(len + 10));
        assert_eq!(Field::Repeated(vec![Value::U32(300)]).size_with_tag(number), Some(len + 2));
        assert_eq!(Field::Repeated(vec![Value::I64(1)]).size_with_tag(number), Some(len + 1));
        assert_eq!(Field::Repeated(vec![Value::Enum(1)]).size_with_tag(number), Some(len + 1));
    }
}

#[test]
fn agrees_with_the_coded_output_stream() {
    let mut expected = Vec::new();
    {
        let mut os = protobuf::CodedOutputStream::vec(&mut expected);
        os.write_int32(1, -7).unwrap();
        os.write_string(2, "hello").unwrap();
        os.write_double(3, 2.5).unwrap();
        os.write_float(4, -1.5).unwrap();
        os.write_bool(5, true).unwrap();
        os.write_uint64(6, 1 << 40).unwrap();
        os.write_bytes(7, &[1, 2, 3]).unwrap();
        os.write_sint32(8, -3).unwrap();
        os.flush().unwrap();
    }
    let m = message(vec![
        (1, Field::Singular(Some(Value::I32(-7)))),
        (2, Field::Singular(Some(Value::String("hello".to_string())))),
        (3, Field::Singular(Some(Value::F64(2.5f64.to_bits())))),
        (4, Field::Singular(Some(Value::F32((-1.5f32).to_bits())))),
        (5, Field::Singular(Some(Value::Bool(true)))),
        (6, Field::Singular(Some(Value::U64(1 << 40)))),
        (7, Field::Singular(Some(Value::Bytes(vec![1, 2, 3])))),
        // a zigzag code is a plain unsigned number on the wire
        (8, Field::Singular(Some(Value::U32(5)))),
    ]);
    assert_eq!(m.write_to_bytes().unwrap(), expected);

    let descriptors = Descriptors {
        messages: vec![MessageDescriptor {
            fields: vec![
                FieldDescriptor { number: 3, repeated: false, field_type: FieldType::Double, default_value: None },
                FieldDescriptor { number: 8, repeated: false, field_type: FieldType::SInt32, default_value: None },
            ],
        }],
    };
    let mut decoded = Message::new(&descriptors.messages[0]);
    decoded.merge_from(&descriptors, &descriptors.messages[0], &mut Input::new(&expected)).unwrap();
    assert!(matches!(decoded.fields.get(&3), Some(Field::Singular(Some(Value::F64(bits))))
        if f64::from_bits(*bits) == 2.5));
    assert!(matches!(decoded.fields.get(&8), Some(Field::Singular(Some(Value::I32(-3))))));
}

#[test]
fn a_clone_is_equal_and_apart() {
    let inner = message(vec![(1, Field::Repeated(vec![Value::String("a".to_string())]))]);
    let mut m = message(vec![
        (1, Field::Singular(Some(Value::Message(inner)))),
        (2, Field::Singular(Some(Value::Bytes(vec![1, 2])))),
        (3, Field::Singular(None)),
    ]);
    m.unknown = vec![0x20, 1];
    let copy = m.clone();
    assert_eq!(copy.write_to_bytes().unwrap(), m.write_to_bytes().unwrap());
    assert_eq!(format!("{:?}", copy), format!("{:?}", m));
    m.fields.insert(2, Field::Singular(Some(Value::Bytes(vec![3]))));
    assert!(matches!(copy.fields.get(&2), Some(Field::Singular(Some(Value::Bytes(b)))) if b == &vec![1, 2]));
    let field = Field::Repeated(vec![Value::I32(1), Value::I32(2)]);
    assert!(matches!(field.clone(), Field::Repeated(values) if matches!(values[..], [Value::I32(1), Value::I32(2)])));
}

#[test]
fn put_replaces_or_appends() {
    let mut single = Field::Singular(Some(Value::I32(1)));
    single.put(Value::I32(2));
    assert!(matches!(single, Field::Singular(Some(Value::I32(2)))));
    let mut many = Field::Repeated(vec![Value::I32(1)]);
    many.put(Value::I32(2));
    assert!(matches!(&many, Field::Repeated(values) if matches!(values[..], [Value::I32(1), Value::I32(2)])));
}

#[test]
fn a_message_is_well_formed_when_a_tag_can_carry_its_numbers() {
    let good = message(vec![
        (1, Field::Singular(None)),
        (0x1fff_ffff, Field::Repeated(vec![Value::Message(message(vec![(2, Field::Singular(Some(Value::I32(0))))]))])),
    ]);
    assert!(good.is_well_formed());
    assert!(message(vec![]).is_well_formed());
    for number in [0, -1, 0x2000_0000, i32::MIN, i32::MAX] {
        let bad = message(vec![(1, Field::Singular(None)), (number, Field::Singular(None))]);
        assert!(!bad.is_well_formed());
        let nested = Value::Message(bad.clone());
        assert!(!nested.is_well_formed());
        assert!(!Field::Singular(Some(nested.clone())).is_well_formed());
        assert!(!Field::Repeated(vec![Value::I32(1), nested.clone()]).is_well_formed());
        assert!(!message(vec![(3, Field::Repeated(vec![nested]))]).is_well_formed());
    }
    assert!(Value::I32(1).is_well_formed());
    assert!(Field::Repeated(vec![]).is_well_formed());
}
