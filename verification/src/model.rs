//! The mathematical model of values, fields and messages, and what encoding
//! and decoding mean on it.
use vstd::prelude::*;
use crate::descriptor::{Descriptors, FieldDescriptor, FieldType, MessageDescriptor};
use crate::error::Fault;
use crate::value::value_view;
use crate::wire::{
    bool_at, bytes_at, delimited_bytes, fixed32_at, fixed64_at, int32_at, int64_at, le32_bytes,
    le64_bytes, lemma_varint_at_bounds, lemma_varint_bytes_len, run_at, sfixed32_at, sfixed64_at,
    sint32_at, sint64_at, skip_extent, string_at, tag_at, tag_bytes, tag_len, uint32_at, uint64_at,
    unsigned64, valid_number, value_extent, varint_bytes, FIELD_NUMBER_MAX, Read, WireType,
};

verus! {

/// A value: a scalar, a run of bytes, a text, an enum code or a message.
pub ghost enum ValueView {
    Bool(bool),
    I32(i32),
    I64(i64),
    U32(u32),
    U64(u64),
    /// The bit pattern of a 32-bit floating point number.
    F32(u32),
    /// The bit pattern of a 64-bit floating point number.
    F64(u64),
    Bytes(Seq<u8>),
    String(Seq<char>),
    Enum(i32),
    Message(MessageView),
}

/// A field: one value that may be absent, or a sequence of values.
pub ghost enum FieldView {
    Singular(Option<ValueView>),
    Repeated(Seq<ValueView>),
}

/// A message: its known fields by number, and the raw bytes of the others.
pub ghost struct MessageView {
    pub fields: Map<i32, FieldView>,
    pub unknown: Seq<u8>,
}

impl ValueView {
    /// Whether a singular field that holds this value is left out of the
    /// encoding: the value is the zero of its kind, or empty. A floating
    /// point number is zero with either sign. A message is never left out.
    pub open spec fn is_default(self) -> bool {
        match self {
            ValueView::Bool(b) => !b,
            ValueView::I32(x) => x == 0,
            ValueView::I64(x) => x == 0,
            ValueView::U32(x) => x == 0,
            ValueView::U64(x) => x == 0,
            ValueView::F32(bits) => bits % 0x8000_0000 == 0,
            ValueView::F64(bits) => bits % 0x8000_0000_0000_0000 == 0,
            ValueView::Bytes(b) => b.len() == 0,
            ValueView::String(s) => s.len() == 0,
            ValueView::Enum(x) => x == 0,
            ValueView::Message(_) => false,
        }
    }

    /// The wire type that this value is written with.
    pub open spec fn wire_type(self) -> WireType {
        match self {
            ValueView::F32(_) => WireType::Fixed32,
            ValueView::F64(_) => WireType::Fixed64,
            ValueView::Bytes(_) | ValueView::String(_) | ValueView::Message(_) => {
                WireType::LengthDelimited
            },
            _ => WireType::Varint,
        }
    }

    /// The bytes of this value as they follow its tag. A signed integer is
    /// written as the varint of its 64 bits in two's complement, a floating
    /// point number as the bytes of its bit pattern, and bytes, a text and a
    /// message behind their length.
    pub open spec fn body(self) -> Seq<u8>
        decreases self, 0nat,
    {
        match self {
            ValueView::Bool(b) => varint_bytes(
                if b {
                    1
                } else {
                    0
                },
            ),
            ValueView::I32(x) => varint_bytes(unsigned64(x as int) as nat),
            ValueView::I64(x) => varint_bytes(unsigned64(x as int) as nat),
            ValueView::U32(x) => varint_bytes(x as nat),
            ValueView::U64(x) => varint_bytes(x as nat),
            ValueView::F32(bits) => le32_bytes(bits),
            ValueView::F64(bits) => le64_bytes(bits),
            ValueView::Bytes(b) => delimited_bytes(b),
            ValueView::String(s) => delimited_bytes(vstd::utf8::encode_utf8(s)),
            ValueView::Enum(x) => varint_bytes(unsigned64(x as int) as nat),
            ValueView::Message(m) => delimited_bytes(m.wire()),
        }
    }

    /// The bytes of one complete entry for this value under the field
    /// number `number`: the tag, then the value.
    pub open spec fn entry(self, number: u32) -> Seq<u8>
        decreases self, 1nat,
    {
        tag_bytes(number, self.wire_type()) + self.body()
    }
}

/// The entries of the first `count` values of `values`, one after another.
pub open spec fn entries(values: Seq<ValueView>, number: u32, count: nat) -> Seq<u8>
    decreases values, count,
{
    if count == 0 || count > values.len() {
        Seq::empty()
    } else {
        entries(values, number, (count - 1) as nat) + values[count - 1].entry(number)
    }
}

impl FieldView {
    /// The bytes that a field writes under the field number `number`. A
    /// singular field writes nothing when it is absent or holds a default,
    /// else one entry. A repeated field writes an entry for each of its
    /// values, defaults too.
    pub open spec fn wire(self, number: u32) -> Seq<u8>
        decreases self, 0nat,
    {
        match self {
            FieldView::Singular(None) => Seq::empty(),
            FieldView::Singular(Some(v)) => if v.is_default() {
                Seq::empty()
            } else {
                v.entry(number)
            },
            FieldView::Repeated(values) => entries(values, number, values.len()),
        }
    }

    /// The field after it took in `v`: a singular field holds `v` in place
    /// of what it held, a repeated field holds it after the others.
    pub open spec fn put(self, v: ValueView) -> FieldView {
        match self {
            FieldView::Singular(_) => FieldView::Singular(Some(v)),
            FieldView::Repeated(values) => FieldView::Repeated(values.push(v)),
        }
    }
}

/// The bytes of the fields of `fields` whose number is below `bound`, in
/// ascending order of field number.
pub open spec fn fields_wire(fields: Map<i32, FieldView>, bound: nat) -> Seq<u8>
    decreases fields, bound,
{
    if bound == 0 {
        Seq::empty()
    } else {
        let number = (bound - 1) as i32;
        fields_wire(fields, (bound - 1) as nat) + if fields.dom().finite() && fields.contains_key(
            number,
        ) {
            fields[number].wire(number as u32)
        } else {
            Seq::empty()
        }
    }
}

impl MessageView {
    /// The encoding of a message: its known fields in ascending order of
    /// field number, then the bytes of its unknown fields as they came.
    pub open spec fn wire(self) -> Seq<u8>
        decreases self, 0nat,
    {
        fields_wire(self.fields, (FIELD_NUMBER_MAX + 1) as nat) + self.unknown
    }

    /// The message with `field` under `number`.
    pub open spec fn with_field(self, number: i32, field: FieldView) -> MessageView {
        MessageView { fields: self.fields.insert(number, field), unknown: self.unknown }
    }

    /// The message with `bytes` after its unknown bytes.
    pub open spec fn with_unknown(self, bytes: Seq<u8>) -> MessageView {
        MessageView { fields: self.fields, unknown: self.unknown + bytes }
    }
}


/// A value of the model made of what was read.
pub open spec fn read_as<T>(read: Read<T>, make: spec_fn(T) -> ValueView) -> Read<ValueView> {
    match read {
        Some((v, n)) => Some((make(v), n)),
        None => None,
    }
}

/// One value of the declared type `t` at the start of `s`, for the types
/// whose values are scalars, bytes, text or enum codes.
pub open spec fn scalar_at(t: FieldType, s: Seq<u8>) -> Read<ValueView> {
    match t {
        FieldType::Bool => read_as(bool_at(s), |v: bool| ValueView::Bool(v)),
        FieldType::Int32 => read_as(int32_at(s), |v: i32| ValueView::I32(v)),
        FieldType::Int64 => read_as(int64_at(s), |v: i64| ValueView::I64(v)),
        FieldType::SInt32 => read_as(sint32_at(s), |v: i32| ValueView::I32(v)),
        FieldType::SInt64 => read_as(sint64_at(s), |v: i64| ValueView::I64(v)),
        FieldType::UInt32 => read_as(uint32_at(s), |v: u32| ValueView::U32(v)),
        FieldType::UInt64 => read_as(uint64_at(s), |v: u64| ValueView::U64(v)),
        FieldType::Fixed32 => read_as(fixed32_at(s), |v: u32| ValueView::U32(v)),
        FieldType::Fixed64 => read_as(fixed64_at(s), |v: u64| ValueView::U64(v)),
        FieldType::SFixed32 => read_as(sfixed32_at(s), |v: i32| ValueView::I32(v)),
        FieldType::SFixed64 => read_as(sfixed64_at(s), |v: i64| ValueView::I64(v)),
        FieldType::Float => read_as(fixed32_at(s), |v: u32| ValueView::F32(v)),
        FieldType::Double => read_as(fixed64_at(s), |v: u64| ValueView::F64(v)),
        FieldType::Bytes => read_as(bytes_at(s), |v: Seq<u8>| ValueView::Bytes(v)),
        FieldType::String => read_as(string_at(s), |v: Seq<char>| ValueView::String(v)),
        FieldType::Enum => read_as(int32_at(s), |v: i32| ValueView::Enum(v)),
        _ => None,
    }
}

/// Whatever is read takes at least one byte and no more than there are.
pub proof fn lemma_scalar_bounds(t: FieldType, s: Seq<u8>)
    ensures
        match scalar_at(t, s) {
            Some((_, n)) => 1 <= n <= s.len(),
            None => true,
        },
        match bytes_at(s) {
            Some((payload, n)) => 1 <= n <= s.len() && payload.len() < n,
            None => true,
        },
        match run_at(s) {
            Some((payload, n)) => 1 <= n <= s.len() && payload.len() < n,
            None => true,
        },
        match tag_at(s) {
            Some((_, n)) => 1 <= n <= s.len(),
            None => true,
        },
        forall|wire_type: WireType|
            match #[trigger] crate::wire::value_extent(wire_type, s) {
                Some(n) => 1 <= n <= s.len(),
                None => true,
            },
{
    crate::wire::lemma_read_bounds(s);
    lemma_varint_at_bounds(s);
}

/// A group that is passed over takes at least one byte and no more than
/// there are.
pub proof fn lemma_group_bounds(s: Seq<u8>)
    ensures
        match crate::wire::group_extent(s) {
            Some(n) => 1 <= n <= s.len(),
            None => true,
        },
    decreases s.len(),
{
    lemma_scalar_bounds(FieldType::Bool, s);
    match tag_at(s) {
        Some(((_, wire_type), n)) => {
            lemma_scalar_bounds(FieldType::Bool, s.skip(n as int));
            match crate::wire::value_extent(wire_type, s.skip(n as int)) {
                Some(k) => {
                    if wire_type != WireType::EndGroup {
                        lemma_group_bounds(s.skip((n + k) as int));
                    }
                },
                None => {},
            }
        },
        None => {},
    }
}

/// The field after a packed run was read into it: the values of type `t`
/// that `payload` holds one after another, each put into the field. `None`
/// where the bytes end inside a value.
pub open spec fn packed(field: FieldView, t: FieldType, payload: Seq<u8>) -> Option<FieldView>
    decreases payload.len(),
    via packed_decreases
{
    if payload.len() == 0 {
        Some(field)
    } else {
        match scalar_at(t, payload) {
            Some((v, n)) => packed(field.put(v), t, payload.skip(n as int)),
            None => None,
        }
    }
}

#[via_fn]
proof fn packed_decreases(field: FieldView, t: FieldType, payload: Seq<u8>) {
    lemma_scalar_bounds(t, payload);
}

/// The field that the schema starts a message with, and that is made for a
/// message that lacks it: empty where the field is repeated, else the
/// declared default, or absent where the schema declares none.
pub open spec fn initial(field: FieldDescriptor) -> FieldView {
    if field.repeated {
        FieldView::Repeated(Seq::empty())
    } else {
        FieldView::Singular(
            match field.default_value {
                Some(v) => Some(value_view(v)),
                None => None,
            },
        )
    }
}

/// The fields that the first `count` of `fields` give a new message. Where
/// two have one number, the later one stands.
pub open spec fn fresh_fields(fields: Seq<FieldDescriptor>, count: nat) -> Map<i32, FieldView>
    decreases count,
{
    if count == 0 || count > fields.len() {
        Map::empty()
    } else {
        fresh_fields(fields, (count - 1) as nat).insert(
            fields[count - 1].number,
            initial(fields[count - 1]),
        )
    }
}

/// The message that the schema gives before anything is decoded into it.
pub open spec fn fresh(message: MessageDescriptor) -> MessageView {
    MessageView {
        fields: fresh_fields(message.fields@, message.fields@.len()),
        unknown: Seq::empty(),
    }
}

/// The message that a nested payload is merged into: the one that a singular
/// field holds, else a new one.
pub open spec fn nested_base(field: FieldView, message: MessageDescriptor) -> MessageView {
    match field {
        FieldView::Singular(Some(ValueView::Message(m))) => m,
        _ => fresh(message),
    }
}

/// What reading changes in a field whose declared type `t` is a number,
/// bytes, a text or an enum. A number may come packed, many to one
/// length-delimited run, or alone with the wire type of its own; both are
/// taken. Any other wire type is refused. The length of a run is read with
/// all its 64 bits, and a run that is longer than the bytes that are left
/// is malformed.
pub open spec fn merged_scalar(
    field: FieldView,
    t: FieldType,
    wire_type: WireType,
    s: Seq<u8>,
) -> Result<(FieldView, nat), Fault> {
    if t.packable() && wire_type == WireType::LengthDelimited {
        match run_at(s) {
            Some((payload, n)) => match packed(field, t, payload) {
                Some(f) => Ok((f, n)),
                None => Err(Fault::Malformed),
            },
            None => Err(Fault::Malformed),
        }
    } else if wire_type == t.wire_type() {
        match scalar_at(t, s) {
            Some((v, n)) => Ok((field.put(v), n)),
            None => Err(Fault::Malformed),
        }
    } else {
        Err(Fault::BadWireType(wire_type))
    }
}

/// The number of bytes that the value of a known field takes: a run behind
/// a length of 64 bits for a packed run and a nested message, else what the
/// wire type says.
pub open spec fn taken(t: FieldType, wire_type: WireType, s: Seq<u8>) -> Option<nat> {
    if wire_type == WireType::LengthDelimited && (t.packable() || t is Message) {
        match run_at(s) {
            Some((_, n)) => Some(n),
            None => None,
        }
    } else {
        value_extent(wire_type, s)
    }
}

/// Whether a value of the declared type `t` can be read from the wire type
/// `wire_type`, in a schema of `count` message types. Where it cannot,
/// merging is refused before anything is read or changed.
pub open spec fn accepts(t: FieldType, wire_type: WireType, count: nat) -> bool {
    match t {
        FieldType::Message(index) => index < count && wire_type == WireType::LengthDelimited,
        FieldType::Group => false,
        FieldType::UnresolvedEnum(_) => false,
        FieldType::UnresolvedMessage(_) => false,
        _ => (t.packable() && wire_type == WireType::LengthDelimited) || wire_type
            == t.wire_type(),
    }
}

/// What reading one value changes in a field: the field as it is afterwards
/// and the number of bytes that were read, or the fault that ended it.
///
/// A nested message must come length-delimited; its payload is merged into
/// the message that a singular field holds, else into a new one. A message
/// type that the set of descriptors does not hold is reported as unknown,
/// without a name.
///
/// `s` is what follows the tag, `wire_type` the wire type that the tag
/// carried, `t` the declared type of the field.
pub open spec fn merged_field(
    field: FieldView,
    descriptors: Descriptors,
    t: FieldType,
    wire_type: WireType,
    s: Seq<u8>,
) -> Result<(FieldView, nat), Fault>
    decreases s.len(), 2nat,
    via merged_field_decreases
{
    match t {
        FieldType::Message(index) => if index >= descriptors.messages@.len() {
            Err(Fault::UnknownMessage(Seq::empty()))
        } else if wire_type != WireType::LengthDelimited {
            Err(Fault::BadWireType(wire_type))
        } else {
            let message = descriptors.messages@[index as int];
            match run_at(s) {
                Some((payload, n)) => match merged(
                    nested_base(field, message),
                    descriptors,
                    message,
                    payload,
                ) {
                    Ok(m) => Ok((field.put(ValueView::Message(m)), n)),
                    Err(fault) => Err(fault),
                },
                None => Err(Fault::Malformed),
            }
        },
        FieldType::Group => Err(Fault::UnsupportedGroup),
        FieldType::UnresolvedEnum(name) => Err(Fault::UnknownEnum(name@)),
        FieldType::UnresolvedMessage(name) => Err(Fault::UnknownMessage(name@)),
        _ => merged_scalar(field, t, wire_type, s),
    }
}

/// What decoding `s` changes in a message of the type `message`: the
/// message as it is when every byte has been read, or the fault that ended
/// the decode.
///
/// The bytes are read tag by tag. A field that the schema knows is merged
/// into the field of that number, which is made as a new message has it if
/// the message lacks it. A
/// field that it does not know is passed over, and its bytes, tag and all,
/// are kept after the unknown bytes of the message; a group is passed over
/// and not kept.
pub open spec fn merged(
    m: MessageView,
    descriptors: Descriptors,
    message: MessageDescriptor,
    s: Seq<u8>,
) -> Result<MessageView, Fault>
    decreases s.len(), 1nat,
    via merged_decreases
{
    if s.len() == 0 {
        Ok(m)
    } else {
        match tag_at(s) {
            Some(((number, wire_type), n)) => {
                let rest = s.skip(n as int);
                match message.field(number as i32) {
                    Some(field) => {
                        let held = if m.fields.contains_key(field.number) {
                            m.fields[field.number]
                        } else {
                            initial(field)
                        };
                        match merged_field(held, descriptors, field.field_type, wire_type, rest) {
                            Ok((f, k)) => if k <= rest.len() {
                                merged(
                                    m.with_field(field.number, f),
                                    descriptors,
                                    message,
                                    rest.skip(k as int),
                                )
                            } else {
                                // A field reads no more than there is.
                                Err(Fault::Malformed)
                            },
                            Err(fault) => Err(fault),
                        }
                    },
                    None => match skip_extent(wire_type, rest) {
                        Some(k) => merged(
                            if wire_type == WireType::StartGroup {
                                m
                            } else {
                                m.with_unknown(s.take((n + k) as int))
                            },
                            descriptors,
                            message,
                            rest.skip(k as int),
                        ),
                        None => Err(Fault::Malformed),
                    },
                }
            },
            None => Err(Fault::Malformed),
        }
    }
}

#[via_fn]
proof fn merged_field_decreases(
    field: FieldView,
    descriptors: Descriptors,
    t: FieldType,
    wire_type: WireType,
    s: Seq<u8>,
) {
    lemma_scalar_bounds(t, s);
}

#[via_fn]
proof fn merged_decreases(
    m: MessageView,
    descriptors: Descriptors,
    message: MessageDescriptor,
    s: Seq<u8>,
) {
    lemma_scalar_bounds(FieldType::Bool, s);
    match tag_at(s) {
        Some((_, n)) => {
            lemma_scalar_bounds(FieldType::Bool, s.skip(n as int));
            lemma_group_bounds(s.skip(n as int));
        },
        None => {},
    }
}


/// The field as a packed run leaves it, whether the run was read to its end
/// or reading stopped inside it: the values that were read before are in
/// the field.
pub open spec fn packed_left(field: FieldView, t: FieldType, payload: Seq<u8>) -> FieldView
    decreases payload.len(),
    via packed_left_decreases
{
    if payload.len() == 0 {
        field
    } else {
        match scalar_at(t, payload) {
            Some((v, n)) => packed_left(field.put(v), t, payload.skip(n as int)),
            None => field,
        }
    }
}

#[via_fn]
proof fn packed_left_decreases(field: FieldView, t: FieldType, payload: Seq<u8>) {
    lemma_scalar_bounds(t, payload);
}

/// The field as `merged_scalar` leaves it, whether it succeeds or fails.
pub open spec fn merged_scalar_left(
    field: FieldView,
    t: FieldType,
    wire_type: WireType,
    s: Seq<u8>,
) -> FieldView {
    if t.packable() && wire_type == WireType::LengthDelimited {
        match run_at(s) {
            Some((payload, _)) => packed_left(field, t, payload),
            None => field,
        }
    } else if wire_type == t.wire_type() {
        match scalar_at(t, s) {
            Some((v, _)) => field.put(v),
            None => field,
        }
    } else {
        field
    }
}

/// The field as `merged_field` leaves it, whether it succeeds or fails.
///
/// A merge that is refused, or that cannot read its value, leaves the field
/// as it was. A packed run that fails leaves the values that it read. A
/// nested message that fails to decode is given up, but for what was merged
/// into the message that a singular field held: that message stays in the
/// field as the decode left it.
pub open spec fn merged_field_left(
    field: FieldView,
    descriptors: Descriptors,
    t: FieldType,
    wire_type: WireType,
    s: Seq<u8>,
) -> FieldView
    decreases s.len(), 2nat,
    via merged_field_left_decreases
{
    match t {
        FieldType::Message(index) => if index >= descriptors.messages@.len() || wire_type
            != WireType::LengthDelimited {
            field
        } else {
            let message = descriptors.messages@[index as int];
            let base = nested_base(field, message);
            match run_at(s) {
                Some((payload, _)) => match merged(base, descriptors, message, payload) {
                    Ok(m) => field.put(ValueView::Message(m)),
                    Err(_) => if field matches FieldView::Singular(Some(ValueView::Message(_))) {
                        field.put(
                            ValueView::Message(merged_left(base, descriptors, message, payload)),
                        )
                    } else {
                        field
                    },
                },
                None => field,
            }
        },
        FieldType::Group => field,
        FieldType::UnresolvedEnum(_) => field,
        FieldType::UnresolvedMessage(_) => field,
        _ => merged_scalar_left(field, t, wire_type, s),
    }
}

/// The message as `merged` leaves it, whether it succeeds or fails: what
/// was merged before a fault stays merged. The field that a fault came in
/// is in the message as its own merge left it.
pub open spec fn merged_left(
    m: MessageView,
    descriptors: Descriptors,
    message: MessageDescriptor,
    s: Seq<u8>,
) -> MessageView
    decreases s.len(), 1nat,
    via merged_left_decreases
{
    if s.len() == 0 {
        m
    } else {
        match tag_at(s) {
            Some(((number, wire_type), n)) => {
                let rest = s.skip(n as int);
                match message.field(number as i32) {
                    Some(field) => {
                        let held = if m.fields.contains_key(field.number) {
                            m.fields[field.number]
                        } else {
                            initial(field)
                        };
                        let left = m.with_field(
                            field.number,
                            merged_field_left(held, descriptors, field.field_type, wire_type, rest),
                        );
                        match merged_field(held, descriptors, field.field_type, wire_type, rest) {
                            Ok((_, k)) => merged_left(
                                left,
                                descriptors,
                                message,
                                rest.skip(k as int),
                            ),
                            Err(_) => left,
                        }
                    },
                    None => match skip_extent(wire_type, rest) {
                        Some(k) => merged_left(
                            if wire_type == WireType::StartGroup {
                                m
                            } else {
                                m.with_unknown(s.take((n + k) as int))
                            },
                            descriptors,
                            message,
                            rest.skip(k as int),
                        ),
                        None => m,
                    },
                }
            },
            None => m,
        }
    }
}

#[via_fn]
proof fn merged_field_left_decreases(
    field: FieldView,
    descriptors: Descriptors,
    t: FieldType,
    wire_type: WireType,
    s: Seq<u8>,
) {
    lemma_scalar_bounds(t, s);
}

#[via_fn]
proof fn merged_left_decreases(
    m: MessageView,
    descriptors: Descriptors,
    message: MessageDescriptor,
    s: Seq<u8>,
) {
    lemma_scalar_bounds(FieldType::Bool, s);
    match tag_at(s) {
        Some(((number, wire_type), n)) => {
            let rest = s.skip(n as int);
            lemma_scalar_bounds(FieldType::Bool, rest);
            lemma_group_bounds(rest);
            match message.field(number as i32) {
                Some(field) => {
                    let held = if m.fields.contains_key(field.number) {
                        m.fields[field.number]
                    } else {
                        initial(field)
                    };
                    lemma_merged_field_taken(held, descriptors, field.field_type, wire_type, rest);
                },
                None => {},
            }
        },
        None => {},
    }
}

/// A value that was merged into a field took the bytes that `taken` says,
/// and no more than there were.
pub proof fn lemma_merged_field_taken(
    field: FieldView,
    descriptors: Descriptors,
    t: FieldType,
    wire_type: WireType,
    s: Seq<u8>,
)
    ensures
        match merged_field(field, descriptors, t, wire_type, s) {
            Ok((_, n)) => 1 <= n <= s.len() && taken(t, wire_type, s) == Some(n),
            Err(_) => true,
        },
{
    lemma_scalar_bounds(t, s);
    lemma_scalar_extent(t, s);
}

/// Where a packed run is read to its end, the field is left as it was read.
pub proof fn lemma_packed_left(field: FieldView, t: FieldType, payload: Seq<u8>)
    ensures
        match packed(field, t, payload) {
            Some(f) => packed_left(field, t, payload) == f,
            None => true,
        },
    decreases payload.len(),
{
    if payload.len() > 0 {
        lemma_scalar_bounds(t, payload);
        match scalar_at(t, payload) {
            Some((v, n)) => {
                lemma_packed_left(field.put(v), t, payload.skip(n as int));
            },
            None => {},
        }
    }
}

/// Where a merge into a field succeeds, the field is left as it was merged.
pub proof fn lemma_merged_field_left(
    field: FieldView,
    descriptors: Descriptors,
    t: FieldType,
    wire_type: WireType,
    s: Seq<u8>,
)
    ensures
        match merged_field(field, descriptors, t, wire_type, s) {
            Ok((f, _)) => merged_field_left(field, descriptors, t, wire_type, s) == f,
            Err(_) => true,
        },
{
    match run_at(s) {
        Some((payload, _)) => {
            lemma_packed_left(field, t, payload);
        },
        None => {},
    }
}

/// Where a decode succeeds, the message is left as it was decoded.
pub proof fn lemma_merged_left(
    m: MessageView,
    descriptors: Descriptors,
    message: MessageDescriptor,
    s: Seq<u8>,
)
    ensures
        match merged(m, descriptors, message, s) {
            Ok(r) => merged_left(m, descriptors, message, s) == r,
            Err(_) => true,
        },
    decreases s.len(),
{
    if s.len() > 0 {
        lemma_scalar_bounds(FieldType::Bool, s);
        match tag_at(s) {
            Some(((number, wire_type), n)) => {
                let rest = s.skip(n as int);
                lemma_scalar_bounds(FieldType::Bool, rest);
                lemma_group_bounds(rest);
                match message.field(number as i32) {
                    Some(field) => {
                        let held = if m.fields.contains_key(field.number) {
                            m.fields[field.number]
                        } else {
                            initial(field)
                        };
                        lemma_merged_field_taken(
                            held,
                            descriptors,
                            field.field_type,
                            wire_type,
                            rest,
                        );
                        lemma_merged_field_left(
                            held,
                            descriptors,
                            field.field_type,
                            wire_type,
                            rest,
                        );
                        match merged_field(held, descriptors, field.field_type, wire_type, rest) {
                            Ok((f, k)) => {
                                lemma_merged_left(
                                    m.with_field(field.number, f),
                                    descriptors,
                                    message,
                                    rest.skip(k as int),
                                );
                            },
                            Err(_) => {},
                        }
                    },
                    None => match skip_extent(wire_type, rest) {
                        Some(k) => {
                            lemma_merged_left(
                                if wire_type == WireType::StartGroup {
                                    m
                                } else {
                                    m.with_unknown(s.take((n + k) as int))
                                },
                                descriptors,
                                message,
                                rest.skip(k as int),
                            );
                        },
                        None => {},
                    },
                }
            },
            None => {},
        }
    }
}

/// Whether a field is of the kind of `before` and has kept what `before`
/// held: a repeated field has the values of `before` first and in their
/// order.
pub open spec fn keeps(before: FieldView, after: FieldView) -> bool {
    match before {
        FieldView::Singular(_) => after is Singular,
        FieldView::Repeated(values) => after matches FieldView::Repeated(all) && values.len()
            <= all.len() && all.take(values.len() as int) == values,
    }
}

/// A field that takes a value in keeps what it held.
pub proof fn lemma_put_keeps(before: FieldView, field: FieldView, v: ValueView)
    requires
        keeps(before, field),
    ensures
        keeps(before, field.put(v)),
{
    match (before, field) {
        (FieldView::Repeated(values), FieldView::Repeated(all)) => {
            assert(all.push(v).take(values.len() as int) =~= all.take(values.len() as int));
        },
        _ => {},
    }
}

/// A packed run, read to its end or not, leaves a field what it held.
pub proof fn lemma_packed_keeps(before: FieldView, field: FieldView, t: FieldType, payload: Seq<u8>)
    requires
        keeps(before, field),
    ensures
        keeps(before, packed_left(field, t, payload)),
    decreases payload.len(),
{
    if payload.len() > 0 {
        lemma_scalar_bounds(t, payload);
        match scalar_at(t, payload) {
            Some((v, n)) => {
                lemma_put_keeps(before, field, v);
                lemma_packed_keeps(before, field.put(v), t, payload.skip(n as int));
            },
            None => {},
        }
    }
}

/// Merging never takes from a field. Whether it succeeds or fails, a
/// singular field stays singular, and a repeated field stays repeated with
/// the values that it held first and in their order.
pub proof fn lemma_field_keeps(
    field: FieldView,
    descriptors: Descriptors,
    t: FieldType,
    wire_type: WireType,
    s: Seq<u8>,
)
    ensures
        keeps(field, merged_field_left(field, descriptors, t, wire_type, s)),
        merged_field_left(field, descriptors, t, wire_type, s) is Repeated <==> field is Repeated,
{
    match field {
        FieldView::Repeated(values) => {
            assert(values.take(values.len() as int) =~= values);
        },
        _ => {},
    }
    assert(keeps(field, field));
    match run_at(s) {
        Some((payload, _)) => {
            lemma_packed_keeps(field, field, t, payload);
        },
        None => {},
    }
    match scalar_at(t, s) {
        Some((v, _)) => {
            lemma_put_keeps(field, field, v);
        },
        None => {},
    }
    match t {
        FieldType::Message(index) => {
            if index < descriptors.messages@.len() {
                let message = descriptors.messages@[index as int];
                match run_at(s) {
                    Some((payload, _)) => {
                        let base = nested_base(field, message);
                        match merged(base, descriptors, message, payload) {
                            Ok(m) => {
                                lemma_put_keeps(field, field, ValueView::Message(m));
                            },
                            Err(_) => {
                                lemma_put_keeps(
                                    field,
                                    field,
                                    ValueView::Message(
                                        merged_left(base, descriptors, message, payload),
                                    ),
                                );
                            },
                        }
                    },
                    None => {},
                }
            }
        },
        _ => {},
    }
}

/// A length as the 32 bits that the wire format gives it, where it fits.
pub open spec fn fit(n: nat) -> Option<u32> {
    if n <= u32::MAX {
        Some(n as u32)
    } else {
        None
    }
}

impl ValueView {
    /// Whether a tag can carry every field number within the value.
    pub open spec fn wf(self) -> bool
        decreases self,
    {
        match self {
            ValueView::Message(m) => m.wf(),
            _ => true,
        }
    }

    /// The bytes that the value writes under the field number `number`:
    /// nothing where it is a default and not an element of a repeated field,
    /// else its entry.
    pub open spec fn written(self, number: u32, repeated_elem: bool) -> Seq<u8> {
        if self.is_default() && !repeated_elem {
            Seq::empty()
        } else {
            self.entry(number)
        }
    }

    /// Whether the length that goes before the value fits in 32 bits. A
    /// value that is not length-delimited has none.
    pub open spec fn framed(self) -> bool {
        match self {
            ValueView::Bytes(b) => b.len() <= u32::MAX,
            ValueView::String(s) => vstd::utf8::encode_utf8(s).len() <= u32::MAX,
            ValueView::Message(m) => m.wire().len() <= u32::MAX,
            _ => true,
        }
    }
}

impl FieldView {
    /// Whether a tag can carry every field number within the field.
    pub open spec fn wf(self) -> bool
        decreases self,
    {
        match self {
            FieldView::Singular(None) => true,
            FieldView::Singular(Some(v)) => v.wf(),
            FieldView::Repeated(values) => forall|i: int|
                0 <= i < values.len() ==> (#[trigger] values[i]).wf(),
        }
    }

    /// Whether the length of every value of the field fits in 32 bits.
    pub open spec fn framed(self) -> bool {
        match self {
            FieldView::Singular(None) => true,
            FieldView::Singular(Some(v)) => v.framed(),
            FieldView::Repeated(values) => forall|i: int|
                0 <= i < values.len() ==> (#[trigger] values[i]).framed(),
        }
    }

    /// The bytes that the field writes under the field number `number`. As
    /// an element of a repeated field, a single value is written even where
    /// it is a default.
    pub open spec fn written(self, number: u32, repeated_elem: bool) -> Seq<u8> {
        match self {
            FieldView::Singular(Some(v)) => v.written(number, repeated_elem),
            _ => self.wire(number),
        }
    }
}

impl MessageView {
    /// Whether the message has finitely many fields and a tag can carry
    /// every field number in it and within its fields.
    pub open spec fn wf(self) -> bool
        decreases self,
    {
        &&& self.fields.dom().finite()
        &&& forall|number: i32| #[trigger]
            self.fields.contains_key(number) ==> valid_number(number as int)
                && self.fields[number].wf()
    }
}

/// The bytes of a tag are as many as `tag_len` says, one to five of them.
pub proof fn lemma_tag_len(number: u32, wire_type: WireType)
    requires
        valid_number(number as int),
    ensures
        tag_bytes(number, wire_type).len() == tag_len(number),
        1 <= tag_len(number) <= 5,
{
    let v = crate::wire::tag_value(number, wire_type);
    lemma_varint_bytes_len(v);
    lemma_short_varint((number * 8) as nat);
    lemma_same_len(v, (number * 8) as nat);
    lemma_same_len(crate::wire::tag_value(number, WireType::Fixed64), (number * 8) as nat);
}

/// Two numbers that differ below their lowest three bits have varints of
/// one length.
proof fn lemma_same_len(a: nat, b: nat)
    requires
        b % 8 == 0,
        b <= a < b + 8,
    ensures
        crate::wire::varint_len(a) == crate::wire::varint_len(b),
{
    assert(a / 128 == b / 128 && (a < 128 <==> b < 128)) by {
        let q = b / 8;
        assert(b == 8 * q);
        assert(q / 16 == b / 128);
        assert(q / 16 == a / 128);
    }
}

/// A number below 2^35 has a varint of at most five bytes.
proof fn lemma_short_varint(v: nat)
    requires
        v < 0x8_0000_0000,
    ensures
        crate::wire::varint_len(v) <= 5,
{
    reveal_with_fuel(crate::wire::varint_len, 6);
}

/// The first values of a sequence are written before the later ones.
pub proof fn lemma_entries_grow(values: Seq<ValueView>, number: u32, i: nat, j: nat)
    requires
        i <= j <= values.len(),
    ensures
        entries(values, number, i).len() <= entries(values, number, j).len(),
        i < j ==> entries(values, number, i).len() + values[i as int].entry(number).len()
            <= entries(values, number, j).len(),
    decreases j - i,
{
    if i < j {
        lemma_entries_grow(values, number, i, (j - 1) as nat);
    }
}

/// Fields are written in ascending order: what is written up to a bound
/// does not shrink as the bound grows.
pub proof fn lemma_fields_wire_grow(fields: Map<i32, FieldView>, from: nat, to: nat)
    requires
        from <= to,
    ensures
        fields_wire(fields, from).len() <= fields_wire(fields, to).len(),
    decreases to - from,
{
    if from < to {
        lemma_fields_wire_grow(fields, from, (to - 1) as nat);
    }
}

/// Where no field has a number between two bounds, nothing is written
/// between them.
pub proof fn lemma_fields_wire_gap(fields: Map<i32, FieldView>, from: nat, to: nat)
    requires
        from <= to <= FIELD_NUMBER_MAX + 1,
        forall|number: i32| from <= number < to ==> !fields.contains_key(number),
    ensures
        fields_wire(fields, to) == fields_wire(fields, from),
    decreases to - from,
{
    if from < to {
        lemma_fields_wire_gap(fields, from, (to - 1) as nat);
        assert(!fields.contains_key((to - 1) as i32));
    }
}

/// A field is written right after the fields of lower number.
pub proof fn lemma_fields_wire_step(fields: Map<i32, FieldView>, number: i32)
    requires
        fields.dom().finite(),
        fields.contains_key(number),
        valid_number(number as int),
    ensures
        fields_wire(fields, (number + 1) as nat) == fields_wire(fields, number as nat)
            + fields[number].wire(number as u32),
{
}

/// The step of a walk through the fields in ascending order of their
/// numbers: with everything below `bound` written, and no field between
/// `bound` and `number`, the field `number` comes next.
pub proof fn lemma_next_field(fields: Map<i32, FieldView>, bound: nat, number: i32)
    requires
        fields.dom().finite(),
        fields.contains_key(number),
        valid_number(number as int),
        bound <= number,
        forall|other: i32| bound <= other < number ==> !fields.contains_key(other),
    ensures
        fields_wire(fields, (number + 1) as nat) == fields_wire(fields, bound)
            + fields[number].wire(number as u32),
{
    lemma_fields_wire_gap(fields, bound, number as nat);
    lemma_fields_wire_step(fields, number);
}

/// Every field of a message is part of what the message writes.
pub proof fn lemma_field_within(m: MessageView, number: i32)
    requires
        m.wf(),
        m.fields.contains_key(number),
    ensures
        m.fields[number].wire(number as u32).len() <= m.wire().len(),
{
    lemma_fields_wire_step(m.fields, number);
    lemma_fields_wire_grow(m.fields, (number + 1) as nat, (FIELD_NUMBER_MAX + 1) as nat);
}

/// A field whose bytes fit in 32 bits holds no value whose length does not.
pub proof fn lemma_field_framed(field: FieldView, number: u32)
    requires
        valid_number(number as int),
        field.wire(number).len() <= u32::MAX,
    ensures
        field.framed(),
{
    match field {
        FieldView::Singular(None) => {},
        FieldView::Singular(Some(v)) => {
            if !v.is_default() {
                lemma_entry_framed(v, number);
            }
        },
        FieldView::Repeated(values) => {
            assert forall|i: int| 0 <= i < values.len() implies (#[trigger] values[i]).framed() by {
                lemma_entries_grow(values, number, i as nat, values.len());
                lemma_entry_framed(values[i], number);
            }
        },
    }
}

/// A field that writes bytes that fit in 32 bits holds no value whose
/// length does not.
pub proof fn lemma_written_framed(field: FieldView, number: u32, repeated_elem: bool)
    requires
        valid_number(number as int),
        field.written(number, repeated_elem).len() <= u32::MAX,
    ensures
        field.framed(),
{
    match field {
        FieldView::Singular(Some(v)) => {
            if !v.is_default() || repeated_elem {
                lemma_entry_framed(v, number);
            }
        },
        _ => {
            lemma_field_framed(field, number);
        },
    }
}

/// An entry is longer than the payload that it frames.
pub proof fn lemma_entry_framed(v: ValueView, number: u32)
    requires
        valid_number(number as int),
    ensures
        v.entry(number).len() <= u32::MAX ==> v.framed(),
        v.entry(number).len() >= 2,
{
    lemma_tag_len(number, WireType::Varint);
    lemma_tag_len(number, WireType::LengthDelimited);
    lemma_tag_len(number, WireType::Fixed32);
    lemma_tag_len(number, WireType::Fixed64);
    match v {
        ValueView::Bool(b) => {
            lemma_varint_bytes_len(if b { 1 } else { 0 });
        },
        ValueView::I32(x) => {
            lemma_varint_bytes_len(unsigned64(x as int) as nat);
        },
        ValueView::I64(x) => {
            lemma_varint_bytes_len(unsigned64(x as int) as nat);
        },
        ValueView::U32(x) => {
            lemma_varint_bytes_len(x as nat);
        },
        ValueView::U64(x) => {
            lemma_varint_bytes_len(x as nat);
        },
        ValueView::Enum(x) => {
            lemma_varint_bytes_len(unsigned64(x as int) as nat);
        },
        ValueView::Bytes(b) => {
            lemma_varint_bytes_len(b.len());
        },
        ValueView::String(s) => {
            lemma_varint_bytes_len(vstd::utf8::encode_utf8(s).len());
        },
        ValueView::Message(m) => {
            lemma_varint_bytes_len(m.wire().len());
        },
        _ => {},
    }
}


/// The first field of a number is one of the fields.
pub proof fn lemma_lookup_is_field(fields: Seq<FieldDescriptor>, number: i32)
    ensures
        match crate::descriptor::lookup(fields, number) {
            Some(field) => field.number == number && exists|i: int|
                0 <= i < fields.len() && fields[i] == field,
            None => forall|i: int|
                0 <= i < fields.len() ==> (#[trigger] fields[i]).number != number,
        },
    decreases fields.len(),
{
    if fields.len() > 0 && fields[0].number != number {
        lemma_lookup_is_field(fields.drop_first(), number);
        match crate::descriptor::lookup(fields.drop_first(), number) {
            Some(field) => {
                let i = choose|i: int|
                    0 <= i < fields.drop_first().len() && fields.drop_first()[i] == field;
                assert(fields[i + 1] == field);
            },
            None => {
                assert forall|i: int| 0 <= i < fields.len() implies (#[trigger] fields[i]).number
                    != number by {
                    if i > 0 {
                        assert(fields.drop_first()[i - 1] == fields[i]);
                    }
                }
            },
        }
    }
}

/// A new message of a well-formed type is well formed.
pub proof fn lemma_fresh_wf(message: MessageDescriptor, count: nat)
    requires
        message.wf(count),
    ensures
        fresh(message).wf(),
{
    lemma_fresh_fields_wf(message, count, message.fields@.len());
}

proof fn lemma_fresh_fields_wf(message: MessageDescriptor, count: nat, upto: nat)
    requires
        message.wf(count),
        upto <= message.fields@.len(),
    ensures
        fresh_fields(message.fields@, upto).dom().finite(),
        forall|number: i32| #[trigger]
            fresh_fields(message.fields@, upto).contains_key(number) ==> valid_number(
                number as int,
            ) && fresh_fields(message.fields@, upto)[number].wf(),
    decreases upto,
{
    if upto > 0 {
        lemma_fresh_fields_wf(message, count, (upto - 1) as nat);
        let field = message.fields@[upto - 1];
        assert(field.wf(count));
        assert(initial(field).wf());
    }
}

/// A field stays well formed when well-formed bytes of a well-formed schema
/// are merged into it.
pub proof fn lemma_merged_field_wf(
    field: FieldView,
    descriptors: Descriptors,
    t: FieldType,
    wire_type: WireType,
    s: Seq<u8>,
)
    requires
        field.wf(),
        descriptors.wf(),
    ensures
        match merged_field(field, descriptors, t, wire_type, s) {
            Ok((f, n)) => f.wf() && n <= s.len() && taken(t, wire_type, s) == Some(n),
            Err(_) => true,
        },
    decreases s.len(), 2nat,
{
    lemma_scalar_bounds(t, s);
    lemma_scalar_extent(t, s);
    match t {
        FieldType::Message(index) => {
            if index < descriptors.messages@.len() && wire_type == WireType::LengthDelimited {
                let message = descriptors.messages@[index as int];
                assert(message.wf(descriptors.messages@.len()));
                match run_at(s) {
                    Some((payload, n)) => {
                        lemma_fresh_wf(message, descriptors.messages@.len());
                        lemma_merged_wf(
                            nested_base(field, message),
                            descriptors,
                            message,
                            payload,
                        );
                        match merged(nested_base(field, message), descriptors, message, payload) {
                            Ok(m) => {
                                lemma_put_wf(field, ValueView::Message(m));
                            },
                            Err(_) => {},
                        }
                    },
                    None => {},
                }
            }
        },
        FieldType::Group => {},
        FieldType::UnresolvedEnum(_) => {},
        FieldType::UnresolvedMessage(_) => {},
        _ => {
            if t.packable() && wire_type == WireType::LengthDelimited {
                match run_at(s) {
                    Some((payload, n)) => {
                        lemma_packed_wf(field, t, payload);
                    },
                    None => {},
                }
            } else if wire_type == t.wire_type() {
                match scalar_at(t, s) {
                    Some((v, n)) => {
                        lemma_put_wf(field, v);
                    },
                    None => {},
                }
            }
        },
    }
}

/// One value of a type takes the bytes that its wire type says.
pub proof fn lemma_scalar_extent(t: FieldType, s: Seq<u8>)
    ensures
        match scalar_at(t, s) {
            Some((v, n)) => crate::wire::value_extent(t.wire_type(), s) == Some(n) && v.wf()
                && !(v is Message),
            None => true,
        },
{
}

/// A field that takes a well-formed value in stays well formed.
pub proof fn lemma_put_wf(field: FieldView, v: ValueView)
    requires
        field.wf(),
        v.wf(),
    ensures
        field.put(v).wf(),
{
}

/// A field stays well formed when a packed run is read into it.
pub proof fn lemma_packed_wf(field: FieldView, t: FieldType, payload: Seq<u8>)
    requires
        field.wf(),
    ensures
        match packed(field, t, payload) {
            Some(f) => f.wf(),
            None => true,
        },
    decreases payload.len(),
{
    if payload.len() > 0 {
        lemma_scalar_bounds(t, payload);
        lemma_scalar_extent(t, payload);
        match scalar_at(t, payload) {
            Some((v, n)) => {
                lemma_put_wf(field, v);
                lemma_packed_wf(field.put(v), t, payload.skip(n as int));
            },
            None => {},
        }
    }
}

/// A message stays well formed when bytes are decoded into it by a
/// well-formed schema.
pub proof fn lemma_merged_wf(
    m: MessageView,
    descriptors: Descriptors,
    message: MessageDescriptor,
    s: Seq<u8>,
)
    requires
        m.wf(),
        descriptors.wf(),
        message.wf(descriptors.messages@.len()),
    ensures
        match merged(m, descriptors, message, s) {
            Ok(r) => r.wf(),
            Err(_) => true,
        },
    decreases s.len(), 1nat,
{
    if s.len() > 0 {
        lemma_scalar_bounds(FieldType::Bool, s);
        match tag_at(s) {
            Some(((number, wire_type), n)) => {
                let rest = s.skip(n as int);
                lemma_scalar_bounds(FieldType::Bool, rest);
                lemma_group_bounds(rest);
                match message.field(number as i32) {
                    Some(field) => {
                        lemma_lookup_is_field(message.fields@, number as i32);
                        assert(field.wf(descriptors.messages@.len()));
                        let held = if m.fields.contains_key(field.number) {
                            m.fields[field.number]
                        } else {
                            initial(field)
                        };
                        lemma_merged_field_wf(held, descriptors, field.field_type, wire_type, rest);
                        match merged_field(held, descriptors, field.field_type, wire_type, rest) {
                            Ok((f, k)) => {
                                lemma_merged_wf(
                                    m.with_field(field.number, f),
                                    descriptors,
                                    message,
                                    rest.skip(k as int),
                                );
                            },
                            Err(_) => {},
                        }
                    },
                    None => match skip_extent(wire_type, rest) {
                        Some(k) => {
                            lemma_merged_wf(
                                if wire_type == WireType::StartGroup {
                                    m
                                } else {
                                    m.with_unknown(s.take((n + k) as int))
                                },
                                descriptors,
                                message,
                                rest.skip(k as int),
                            );
                        },
                        None => {},
                    },
                }
            },
            None => {},
        }
    }
}

} // verus!
