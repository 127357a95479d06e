use dynamic_message::{
    Descriptors, Field, FieldDescriptor, FieldType, Message, MessageDescriptor, Value, WireType,
};

fn field(number: i32, repeated: bool, field_type: FieldType) -> FieldDescriptor {
    FieldDescriptor { number, repeated, field_type, default_value: None }
}

#[test]
fn a_new_message_has_the_fields_of_its_type() {
    let message = MessageDescriptor {
        fields: vec![
            field(7, true, FieldType::Int32),
            field(2, false, FieldType::String),
            FieldDescriptor {
                number: 5,
                repeated: false,
                field_type: FieldType::String,
                default_value: Some(Value::String("none".to_string())),
            },
            FieldDescriptor {
                number: 6,
                repeated: true,
                field_type: FieldType::Int32,
                default_value: Some(Value::I32(1)),
            },
        ],
    };
    let m = Message::new(&message);
    assert_eq!(m.fields.keys().copied().collect::<Vec<i32>>(), vec![2, 5, 6, 7]);
    assert!(matches!(m.fields.get(&7), Some(Field::Repeated(values)) if values.is_empty()));
    assert!(matches!(m.fields.get(&2), Some(Field::Singular(None))));
    assert!(matches!(m.fields.get(&5), Some(Field::Singular(Some(Value::String(s)))) if s == "none"));
    assert!(matches!(m.fields.get(&6), Some(Field::Repeated(values)) if values.is_empty()));
    assert!(m.unknown.is_empty());
    assert_eq!(m.write_to_bytes().unwrap(), vec![0x2a, 4, b'n', b'o', b'n', b'e']);
}

#[test]
fn of_two_fields_of_one_number_the_later_gives_the_new_field() {
    let message = MessageDescriptor {
        fields: vec![field(1, true, FieldType::Int32), field(1, false, FieldType::String)],
    };
    let m = Message::new(&message);
    assert_eq!(m.fields.len(), 1);
    assert!(matches!(m.fields.get(&1), Some(Field::Singular(None))));
    assert!(matches!(message.field_by_number(1), Some(found) if found.repeated));
}

#[test]
fn a_new_field_is_empty_or_holds_the_declared_default() {
    assert!(matches!(Field::new(&field(1, true, FieldType::Int32)), Field::Repeated(values) if values.is_empty()));
    assert!(matches!(Field::new(&field(1, false, FieldType::Int32)), Field::Singular(None)));
    let with_default = FieldDescriptor {
        number: 1,
        repeated: false,
        field_type: FieldType::Int32,
        default_value: Some(Value::I32(3)),
    };
    assert!(matches!(Field::new(&with_default), Field::Singular(Some(Value::I32(3)))));
    let repeated_with_default = FieldDescriptor { repeated: true, ..with_default.clone() };
    assert!(matches!(Field::new(&repeated_with_default), Field::Repeated(values) if values.is_empty()));
    let text = FieldDescriptor {
        number: 2,
        repeated: false,
        field_type: FieldType::String,
        default_value: Some(Value::String("none".to_string())),
    };
    assert!(matches!(Field::new(&text), Field::Singular(Some(Value::String(s))) if s == "none"));
}

#[test]
fn a_wire_type_is_accepted_or_not() {
    assert!(FieldType::Int32.accepts(WireType::Varint, 0));
    assert!(FieldType::Int32.accepts(WireType::LengthDelimited, 0));
    assert!(!FieldType::Int32.accepts(WireType::Fixed32, 0));
    assert!(FieldType::Float.accepts(WireType::Fixed32, 0));
    assert!(FieldType::Float.accepts(WireType::LengthDelimited, 0));
    assert!(!FieldType::Float.accepts(WireType::Fixed64, 0));
    assert!(FieldType::SFixed64.accepts(WireType::Fixed64, 0));
    assert!(!FieldType::SFixed64.accepts(WireType::Varint, 0));
    assert!(FieldType::Bytes.accepts(WireType::LengthDelimited, 0));
    assert!(!FieldType::String.accepts(WireType::Varint, 0));
    assert!(FieldType::Enum.accepts(WireType::Varint, 0));
    assert!(!FieldType::Enum.accepts(WireType::LengthDelimited, 0));
    assert!(FieldType::Message(1).accepts(WireType::LengthDelimited, 2));
    assert!(!FieldType::Message(2).accepts(WireType::LengthDelimited, 2));
    assert!(!FieldType::Message(1).accepts(WireType::Varint, 2));
    assert!(!FieldType::Group.accepts(WireType::StartGroup, 2));
    assert!(!FieldType::UnresolvedEnum("E".to_string()).accepts(WireType::Varint, 2));
    assert!(!FieldType::UnresolvedMessage("M".to_string()).accepts(WireType::LengthDelimited, 2));
}

#[test]
fn fields_are_found_by_number() {
    let message = MessageDescriptor {
        fields: vec![field(3, false, FieldType::Int32), field(1, true, FieldType::Bytes)],
    };
    assert!(matches!(message.field_by_number(1), Some(found) if found.number() == 1 && found.is_repeated()));
    assert!(matches!(message.field_by_number(3), Some(found)
        if matches!(found.field_type(), FieldType::Int32) && found.default_value().is_none()));
    assert!(message.field_by_number(2).is_none());
    assert!(message.field_by_number(-1).is_none());
    assert_eq!(message.fields().len(), 2);
}

#[test]
fn message_types_are_found_by_index() {
    let descriptors = Descriptors {
        messages: vec![MessageDescriptor { fields: vec![] }, MessageDescriptor { fields: vec![field(1, false, FieldType::Bool)] }],
    };
    assert!(matches!(descriptors.message(1), Some(found) if found.fields.len() == 1));
    assert!(descriptors.message(2).is_none());
}

#[test]
fn a_schema_is_checked() {
    let good = Descriptors {
        messages: vec![MessageDescriptor {
            fields: vec![
                field(1, false, FieldType::Message(0)),
                field(0x1fff_ffff, true, FieldType::UnresolvedMessage("X".to_string())),
            ],
        }],
    };
    assert!(good.is_well_formed());
    assert!(good.messages[0].is_well_formed(1));
    assert!(!good.messages[0].is_well_formed(0));
    for bad in [
        field(0, false, FieldType::Int32),
        field(-4, false, FieldType::Int32),
        field(0x2000_0000, false, FieldType::Int32),
        field(1, false, FieldType::Message(1)),
        FieldDescriptor {
            number: 1,
            repeated: false,
            field_type: FieldType::Message(0),
            default_value: Some(Value::Message(Message::new(&MessageDescriptor { fields: vec![] }))),
        },
    ] {
        assert!(!bad.is_well_formed(1));
        assert!(!Descriptors { messages: vec![MessageDescriptor { fields: vec![bad] }] }.is_well_formed());
    }
    assert!(Descriptors { messages: vec![] }.is_well_formed());
}
