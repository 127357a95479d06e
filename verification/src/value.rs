//! Values, fields and messages whose shape is known only at run time.
use vstd::prelude::*;
use std::collections::BTreeMap;
use crate::codec::{
    compute_raw_varint64_size, push_limit, read_bool, read_bytes, read_double, read_fixed32,
    read_fixed64, read_float, read_int32, read_int64, read_sfixed32, read_sfixed64, read_sint32,
    read_sint64, read_string, read_tag_unpack, read_uint32, read_uint64, read_unknown_or_skip_group,
    tag_size, value_size_i32, value_size_i64, value_size_u32, value_size_u64, write_bool,
    write_bytes, write_enum, write_fixed32, write_fixed64, write_int32, write_int64,
    write_raw_varint32, write_string, write_tag, write_uint32, write_uint64,
};
use crate::descriptor::{Descriptors, FieldDescriptor, FieldType, MessageDescriptor};
use crate::error::{Error, Fault};
use crate::input::Input;
use crate::model::{
    accepts, entries, fields_wire, fit, fresh, fresh_fields, initial, lemma_field_keeps,
    lemma_field_within, lemma_fields_wire_gap, lemma_fresh_wf, lemma_group_bounds,
    lemma_merged_field_left, lemma_merged_field_taken, lemma_merged_wf, lemma_next_field,
    lemma_packed_left, lemma_scalar_bounds, lemma_tag_len, lemma_written_framed, merged,
    merged_field, merged_field_left, merged_left, merged_scalar, merged_scalar_left, nested_base,
    packed, packed_left, scalar_at, FieldView, MessageView, ValueView,
};
use crate::order::lemma_increasing;
use crate::wire::{
    lemma_read_bounds, lemma_varint_bytes_len, run_at, unsigned64, valid_number, FIELD_NUMBER_MAX,
    WireType,
};
use protobuf::ProtobufError;
use vstd::slice::slice_subrange;
use crate::order::lemma_int_keys;
use vstd::std_specs::iter::IteratorSpec;

verus! {

/// Any value that a field can hold.
#[derive(Debug)]
pub enum Value {
    /// A boolean value.
    Bool(bool),
    /// A 32-bit signed integer.
    I32(i32),
    /// A 64-bit signed integer.
    I64(i64),
    /// A 32-bit unsigned integer.
    U32(u32),
    /// A 64-bit unsigned integer.
    U64(u64),
    /// A 32-bit floating point value, as its IEEE 754 bit pattern.
    F32(u32),
    /// A 64-bit floating point value, as its IEEE 754 bit pattern.
    F64(u64),
    /// A byte vector.
    Bytes(Vec<u8>),
    /// A string.
    String(String),
    /// An enum value, as its raw code.
    Enum(i32),
    /// A message.
    Message(Message),
}

/// A message value.
#[derive(Debug)]
pub struct Message {
    /// Known fields on the message, by field number.
    pub fields: BTreeMap<i32, Field>,
    /// The raw bytes of the fields that the schema does not know, in the
    /// order in which they came.
    pub unknown: Vec<u8>,
}

/// A message field value.
#[derive(Debug)]
pub enum Field {
    /// A field with a single value.
    Singular(Option<Value>),
    /// A field with several (repeated) values.
    Repeated(Vec<Value>),
}

/// What a value is, whatever memory holds it.
pub open spec fn value_view(v: Value) -> ValueView
    decreases v,
{
    match v {
        Value::Bool(b) => ValueView::Bool(b),
        Value::I32(x) => ValueView::I32(x),
        Value::I64(x) => ValueView::I64(x),
        Value::U32(x) => ValueView::U32(x),
        Value::U64(x) => ValueView::U64(x),
        Value::F32(bits) => ValueView::F32(bits),
        Value::F64(bits) => ValueView::F64(bits),
        Value::Bytes(b) => ValueView::Bytes(b@),
        Value::String(s) => ValueView::String(s@),
        Value::Enum(x) => ValueView::Enum(x),
        Value::Message(m) => ValueView::Message(message_view(m)),
    }
}

/// What a field is.
pub open spec fn field_view(f: Field) -> FieldView
    decreases f,
{
    match f {
        Field::Singular(None) => FieldView::Singular(None),
        Field::Singular(Some(v)) => FieldView::Singular(Some(value_view(v))),
        Field::Repeated(vs) => FieldView::Repeated(
            Seq::new(
                vs@.len(),
                |i: int|
                    if 0 <= i < vs@.len() {
                        value_view(vs@[i])
                    } else {
                        ValueView::Bool(false)
                    },
            ),
        ),
    }
}

/// What a message is.
pub open spec fn message_view(m: Message) -> MessageView
    decreases m,
{
    MessageView {
        fields: Map::new(
            |k: i32| m.fields@.contains_key(k),
            |k: i32|
                if m.fields@.contains_key(k) {
                    field_view(m.fields@[k])
                } else {
                    FieldView::Singular(None)
                },
        ),
        unknown: m.unknown@,
    }
}

impl View for Value {
    type V = ValueView;

    open spec fn view(&self) -> ValueView {
        value_view(*self)
    }
}

impl View for Field {
    type V = FieldView;

    open spec fn view(&self) -> FieldView {
        field_view(*self)
    }
}

impl View for Message {
    type V = MessageView;

    open spec fn view(&self) -> MessageView {
        message_view(*self)
    }
}


impl Clone for Value {
    /// A copy that stands for the same value.
    fn clone(&self) -> (copy: Self)
        ensures
            copy@ == self@,
        decreases self,
    {
        match self {
            Value::Bool(b) => Value::Bool(*b),
            Value::I32(x) => Value::I32(*x),
            Value::I64(x) => Value::I64(*x),
            Value::U32(x) => Value::U32(*x),
            Value::U64(x) => Value::U64(*x),
            Value::F32(bits) => Value::F32(*bits),
            Value::F64(bits) => Value::F64(*bits),
            Value::Bytes(b) => {
                let copy = b.clone();
                assert(copy@ =~= b@);
                Value::Bytes(copy)
            },
            Value::String(s) => Value::String(s.clone()),
            Value::Enum(x) => Value::Enum(*x),
            Value::Message(m) => Value::Message(m.clone()),
        }
    }
}

impl Clone for Field {
    /// A copy that stands for the same field.
    fn clone(&self) -> (copy: Self)
        ensures
            copy@ == self@,
        decreases self,
    {
        match self {
            Field::Singular(None) => Field::Singular(None),
            Field::Singular(Some(v)) => Field::Singular(Some(v.clone())),
            Field::Repeated(values) => {
                let mut copies: Vec<Value> = Vec::new();
                let mut i: usize = 0;
                while i < values.len()
                    invariant
                        i <= values.len(),
                        copies@.len() == i,
                        forall|j: int| 0 <= j < i ==> (#[trigger] copies@[j])@ == values@[j]@,
                        *self is Repeated,
                        self->Repeated_0 == *values,
                    decreases values.len() - i,
                {
                    proof {
                        vstd::std_specs::vec::axiom_vec_index_decreases(*values, i as int);
                        assert(decreases_to!(*self => self->Repeated_0));
                    }
                    copies.push(values[i].clone());
                    i = i + 1;
                }
                let copy = Field::Repeated(copies);
                assert(copy@->Repeated_0 =~= self@->Repeated_0);
                copy
            },
        }
    }
}

impl Clone for Message {
    /// A copy that stands for the same message.
    fn clone(&self) -> (copy: Self)
        ensures
            copy@ == self@,
        decreases self,
    {
        let mut fields: BTreeMap<i32, Field> = BTreeMap::new();
        let walk = self.fields.iter();
        proof {
            lemma_int_keys();
        }
        for entry in it: walk
            invariant
                vstd::std_specs::btree::key_obeys_cmp_spec::<i32>(),
                forall|i: int|
                    0 <= i < it.seq().len() ==> self.fields@.contains_key(
                        *(#[trigger] it.seq()[i]).0,
                    )
                        && self.fields@[*it.seq()[i].0] == *it.seq()[i].1,
                forall|k: i32|
                    self.fields@.contains_key(k) ==> exists|i: int|
                        0 <= i < it.seq().len() && *(#[trigger] it.seq()[i]).0 == k,
                forall|k: i32|
                    fields@.contains_key(k) <==> exists|i: int|
                        0 <= i < it.index() && *(#[trigger] it.seq()[i]).0 == k,
                forall|k: i32| #[trigger]
                    fields@.contains_key(k) ==> self.fields@.contains_key(k) && fields@[k]@
                        == self.fields@[k]@,
        {
            let (number, field) = entry;
            let copy = field.clone();
            fields.insert(*number, copy);
        }
        let unknown = self.unknown.clone();
        assert(unknown@ =~= self.unknown@);
        let copy = Message { fields, unknown };
        assert(copy@.fields =~= self@.fields);
        copy
    }
}

/// Whether `r` holds the value and the length that `want` gives, or fails
/// where `want` gives none.
pub open spec fn reads_value(
    r: Result<(Value, usize), ProtobufError>,
    want: Option<(ValueView, nat)>,
) -> bool {
    match (r, want) {
        (Ok((v, n)), Some((w, m))) => v@ == w && n == m,
        (Err(_), None) => true,
        _ => false,
    }
}

/// Reads one value of the declared type `t` from the start of `bytes`.
fn read_scalar(t: &FieldType, bytes: &[u8]) -> (r: Result<(Value, usize), ProtobufError>)
    requires
        t.scalar(),
    ensures
        reads_value(r, scalar_at(*t, bytes@)),
{
    match t {
        FieldType::Bool => {
            let (v, n) = read_bool(bytes)?;
            Ok((Value::Bool(v), n))
        },
        FieldType::Int32 => {
            let (v, n) = read_int32(bytes)?;
            Ok((Value::I32(v), n))
        },
        FieldType::Int64 => {
            let (v, n) = read_int64(bytes)?;
            Ok((Value::I64(v), n))
        },
        FieldType::SInt32 => {
            let (v, n) = read_sint32(bytes)?;
            Ok((Value::I32(v), n))
        },
        FieldType::SInt64 => {
            let (v, n) = read_sint64(bytes)?;
            Ok((Value::I64(v), n))
        },
        FieldType::UInt32 => {
            let (v, n) = read_uint32(bytes)?;
            Ok((Value::U32(v), n))
        },
        FieldType::UInt64 => {
            let (v, n) = read_uint64(bytes)?;
            Ok((Value::U64(v), n))
        },
        FieldType::Fixed32 => {
            let (v, n) = read_fixed32(bytes)?;
            Ok((Value::U32(v), n))
        },
        FieldType::Fixed64 => {
            let (v, n) = read_fixed64(bytes)?;
            Ok((Value::U64(v), n))
        },
        FieldType::SFixed32 => {
            let (v, n) = read_sfixed32(bytes)?;
            Ok((Value::I32(v), n))
        },
        FieldType::SFixed64 => {
            let (v, n) = read_sfixed64(bytes)?;
            Ok((Value::I64(v), n))
        },
        FieldType::Float => {
            let (v, n) = read_float(bytes)?;
            Ok((Value::F32(v), n))
        },
        FieldType::Double => {
            let (v, n) = read_double(bytes)?;
            Ok((Value::F64(v), n))
        },
        FieldType::Bytes => {
            let (v, n) = read_bytes(bytes)?;
            Ok((Value::Bytes(v), n))
        },
        FieldType::String => {
            let (v, n) = read_string(bytes)?;
            Ok((Value::String(v), n))
        },
        _ => {
            let (v, n) = read_int32(bytes)?;
            Ok((Value::Enum(v), n))
        },
    }
}

/// Reads the length of a run and passes over the run: the bytes of the run.
/// A length that exceeds the bytes that are left is refused, and nothing is
/// passed over.
fn read_run<'a>(input: &mut Input<'a>) -> (r: Result<&'a [u8], Error>)
    ensures
        match run_at(old(input)@) {
            Some((payload, n)) => r is Ok && r->Ok_0@ == payload && final(input)@ == old(
                input,
            )@.skip(n as int) && n <= old(input)@.len(),
            None => r is Err && r->Err_0@ == Fault::Malformed && final(input)@ == old(input)@,
        },
{
    let rest = input.remaining();
    proof {
        crate::wire::lemma_varint_at_bounds(rest@);
    }
    let (len, n) = match read_uint64(rest) {
        Ok(read) => read,
        Err(e) => {
            return Err(Error::Protobuf(e));
        },
    };
    let after = slice_subrange(rest, n, rest.len());
    match push_limit(after, len) {
        Ok(()) => {},
        Err(e) => {
            return Err(Error::Protobuf(e));
        },
    }
    let total = rest.len();
    assert(n + len <= total);
    let size = len as usize;
    let payload = slice_subrange(after, 0, size);
    input.advance(n + size);
    assert(payload@ =~= rest@.subrange(n as int, n + len));
    Ok(payload)
}

impl Field {
    /// Creates a field given a descriptor: an empty sequence for a repeated
    /// field; for a singular one the declared default, or an absent value
    /// where the schema declares none.
    pub fn new(field: &FieldDescriptor) -> (made: Field)
        ensures
            made@ == initial(*field),
    {
        if field.is_repeated() {
            let made = Field::Repeated(Vec::new());
            assert(made@->Repeated_0 =~= Seq::empty());
            made
        } else {
            match field.default_value() {
                Some(v) => Field::Singular(Some(v.clone())),
                None => Field::Singular(None),
            }
        }
    }

    /// Takes a value in: a singular field holds it in place of what it
    /// held, a repeated field holds it after the others.
    pub fn put(&mut self, value: Value)
        ensures
            final(self)@ == old(self)@.put(value@),
    {
        match self {
            Field::Singular(slot) => {
                *slot = Some(value);
            },
            Field::Repeated(values) => {
                let ghost before = values@;
                values.push(value);
                assert(forall|i: int| 0 <= i < before.len() ==> values@[i] == before[i]);
            },
        }
        assert(*old(self) is Repeated ==> self@->Repeated_0 =~= old(self)@->Repeated_0.push(
            value@,
        ));
    }

    /// Reads one value of the declared type `t`, which must have come with
    /// the wire type `expected_wire_type`, and takes it in.
    fn merge_scalar(
        &mut self,
        input: &mut Input,
        actual_wire_type: WireType,
        expected_wire_type: WireType,
        t: &FieldType,
    ) -> (r: Result<(), Error>)
        requires
            t.scalar(),
        ensures
            match r {
                Ok(()) => actual_wire_type == expected_wire_type && match scalar_at(
                    *t,
                    old(input)@,
                ) {
                    Some((v, n)) => final(self)@ == old(self)@.put(v) && final(input)@ == old(
                        input,
                    )@.skip(n as int) && n <= old(input)@.len(),
                    None => false,
                },
                Err(Error::BadWireType { wire_type }) => wire_type == actual_wire_type
                    && actual_wire_type != expected_wire_type && final(self)@ == old(self)@
                    && final(input)@ == old(input)@,
                Err(Error::Protobuf(_)) => actual_wire_type == expected_wire_type && scalar_at(
                    *t,
                    old(input)@,
                ) is None && final(self)@ == old(self)@ && final(input)@ == old(input)@,
                Err(_) => false,
            },
    {
        if expected_wire_type == actual_wire_type {
            proof {
                lemma_scalar_bounds(*t, input@);
            }
            match read_scalar(t, input.remaining()) {
                Ok((value, n)) => {
                    input.advance(n);
                    self.put(value);
                    Ok(())
                },
                Err(e) => Err(Error::Protobuf(e)),
            }
        } else {
            Err(Error::BadWireType { wire_type: actual_wire_type })
        }
    }

    /// Reads values of the packable type `t`: a packed run of them where the
    /// wire type is length-delimited, else one value.
    fn merge_packable_scalar(
        &mut self,
        input: &mut Input,
        actual_wire_type: WireType,
        expected_wire_type: WireType,
        t: &FieldType,
    ) -> (r: Result<(), Error>)
        requires
            t.packable(),
            expected_wire_type == t.wire_type(),
        ensures
            match merged_scalar(old(self)@, *t, actual_wire_type, old(input)@) {
                Ok((f, n)) => r is Ok && final(self)@ == f && final(input)@ == old(input)@.skip(
                    n as int,
                ) && n <= old(input)@.len(),
                Err(fault) => r is Err && r->Err_0@ == fault,
            },
            final(self)@ == merged_scalar_left(old(self)@, *t, actual_wire_type, old(input)@),
            r is Err && r->Err_0 is BadWireType ==> final(self)@ == old(self)@ && final(input)@
                == old(input)@,
    {
        if actual_wire_type == WireType::LengthDelimited {
            let payload = read_run(input)?;
            let mut pos: usize = 0;
            assert(payload@.skip(0) == payload@);
            proof {
                lemma_packed_left(old(self)@, *t, payload@);
            }
            while pos < payload.len()
                invariant
                    t.packable(),
                    actual_wire_type == WireType::LengthDelimited,
                    match run_at(old(input)@) {
                        Some((run, _)) => run == payload@,
                        None => false,
                    },
                    pos <= payload.len(),
                    packed(old(self)@, *t, payload@) == packed(
                        self@,
                        *t,
                        payload@.skip(pos as int),
                    ),
                    packed_left(old(self)@, *t, payload@) == packed_left(
                        self@,
                        *t,
                        payload@.skip(pos as int),
                    ),
                decreases payload.len() - pos,
            {
                let rest = slice_subrange(payload, pos, payload.len());
                assert(rest@ == payload@.skip(pos as int));
                proof {
                    lemma_scalar_bounds(*t, rest@);
                }
                match read_scalar(t, rest) {
                    Ok((value, k)) => {
                        self.put(value);
                        assert(payload@.skip(pos as int).skip(k as int) == payload@.skip(
                            pos + k,
                        ));
                        pos = pos + k;
                    },
                    Err(e) => {
                        assert(packed(self@, *t, rest@) is None);
                        return Err(Error::Protobuf(e));
                    },
                }
            }
            assert(payload@.skip(pos as int).len() == 0);
            Ok(())
        } else {
            self.merge_scalar(input, actual_wire_type, expected_wire_type, t)
        }
    }

    /// Reads an enum code, which must have come as a varint, and takes it
    /// in, whatever the enum declares.
    fn merge_enum(&mut self, input: &mut Input, actual_wire_type: WireType) -> (r: Result<
        (),
        Error,
    >)
        ensures
            match merged_scalar(old(self)@, FieldType::Enum, actual_wire_type, old(input)@) {
                Ok((f, n)) => r is Ok && final(self)@ == f && final(input)@ == old(input)@.skip(
                    n as int,
                ) && n <= old(input)@.len(),
                Err(fault) => r is Err && r->Err_0@ == fault,
            },
            final(self)@ == merged_scalar_left(
                old(self)@,
                FieldType::Enum,
                actual_wire_type,
                old(input)@,
            ),
            r is Err && r->Err_0 is BadWireType ==> final(self)@ == old(self)@ && final(input)@
                == old(input)@,
    {
        self.merge_scalar(input, actual_wire_type, WireType::Varint, &FieldType::Enum)
    }

    /// Whether this is a singular field that holds a message.
    fn holds_message(&self) -> (b: bool)
        ensures
            b == (self@ matches FieldView::Singular(Some(ValueView::Message(_)))),
    {
        match self {
            Field::Singular(Some(Value::Message(_))) => true,
            _ => false,
        }
    }

    /// The message that a nested payload is to be merged into: the one that
    /// a singular field holds, which is taken out of the field, else a new
    /// one.
    fn take_nested(&mut self, message: &MessageDescriptor) -> (base: Message)
        ensures
            base@ == nested_base(old(self)@, *message),
            forall|v: ValueView| final(self)@.put(v) == old(self)@.put(v),
            !(old(self)@ matches FieldView::Singular(Some(ValueView::Message(_)))) ==> final(self)@
                == old(self)@,
    {
        if self.holds_message() {
            match self {
                Field::Singular(slot) => match slot.take() {
                    Some(Value::Message(m)) => m,
                    _ => Message::new(message),
                },
                _ => Message::new(message),
            }
        } else {
            Message::new(message)
        }
    }

    /// Reads a nested message, which must have come length-delimited, and
    /// takes it in. A payload that fails to decode is given up; the message
    /// that a singular field held stays in the field, with what was merged
    /// into it before the fault.
    fn merge_message(
        &mut self,
        input: &mut Input,
        descriptors: &Descriptors,
        message: &MessageDescriptor,
        actual_wire_type: WireType,
    ) -> (r: Result<(), Error>)
        ensures
            actual_wire_type != WireType::LengthDelimited ==> r is Err && r->Err_0@
                == Fault::BadWireType(actual_wire_type) && final(self)@ == old(self)@
                && final(input)@ == old(input)@,
            actual_wire_type == WireType::LengthDelimited ==> match run_at(old(input)@) {
                Some((payload, n)) => match merged(
                    nested_base(old(self)@, *message),
                    *descriptors,
                    *message,
                    payload,
                ) {
                    Ok(m) => r is Ok && final(self)@ == old(self)@.put(ValueView::Message(m))
                        && final(input)@ == old(input)@.skip(n as int) && n <= old(input)@.len(),
                    Err(fault) => r is Err && r->Err_0@ == fault && final(self)@ == if old(
                        self,
                    )@ matches FieldView::Singular(Some(ValueView::Message(_))) {
                        old(self)@.put(
                            ValueView::Message(
                                merged_left(
                                    nested_base(old(self)@, *message),
                                    *descriptors,
                                    *message,
                                    payload,
                                ),
                            ),
                        )
                    } else {
                        old(self)@
                    },
                },
                None => r is Err && r->Err_0@ == Fault::Malformed && final(self)@ == old(self)@,
            },
        decreases old(input)@.len(), 2nat,
    {
        if actual_wire_type == WireType::LengthDelimited {
            proof {
                lemma_read_bounds(input@);
            }
            let payload = read_run(input)?;
            let held = self.holds_message();
            let mut nested = self.take_nested(message);
            let mut inner = Input::new(payload);
            match nested.merge_from(descriptors, message, &mut inner) {
                Ok(()) => {
                    self.put(Value::Message(nested));
                    Ok(())
                },
                Err(e) => {
                    if held {
                        self.put(Value::Message(nested));
                    }
                    Err(e)
                },
            }
        } else {
            Err(Error::BadWireType { wire_type: actual_wire_type })
        }
    }

    /// Merge data from the given input into this field: one value of the
    /// declared type, or a packed run of them, as the wire type says.
    /// Whether it succeeds or fails, the field keeps what it held: a
    /// singular field stays singular, and a repeated field has its values
    /// first and in their order.
    pub fn merge_from(
        &mut self,
        descriptors: &Descriptors,
        field: &FieldDescriptor,
        input: &mut Input,
        wire_type: WireType,
    ) -> (r: Result<(), Error>)
        ensures
            match merged_field(
                old(self)@,
                *descriptors,
                field.field_type,
                wire_type,
                old(input)@,
            ) {
                Ok((f, n)) => r is Ok && final(self)@ == f && final(input)@ == old(input)@.skip(
                    n as int,
                ) && n <= old(input)@.len(),
                Err(fault) => r is Err && r->Err_0@ == fault,
            },
            final(self)@ == merged_field_left(
                old(self)@,
                *descriptors,
                field.field_type,
                wire_type,
                old(input)@,
            ),
            !accepts(field.field_type, wire_type, descriptors.messages@.len()) ==> r is Err
                && final(self)@ == old(self)@ && final(input)@ == old(input)@,
            final(self)@ is Repeated <==> old(self)@ is Repeated,
            old(self)@ matches FieldView::Repeated(before) ==> final(self)@->Repeated_0.len()
                >= before.len() && final(self)@->Repeated_0.take(before.len() as int) == before,
        decreases old(input)@.len(), 3nat,
    {
        proof {
            lemma_merged_field_left(
                old(self)@,
                *descriptors,
                field.field_type,
                wire_type,
                old(input)@,
            );
            lemma_field_keeps(old(self)@, *descriptors, field.field_type, wire_type, old(input)@);
        }
        let t = &field.field_type;
        match t {
            FieldType::Bool
            | FieldType::Int32
            | FieldType::Int64
            | FieldType::SInt32
            | FieldType::SInt64
            | FieldType::UInt32
            | FieldType::UInt64 => {
                self.merge_packable_scalar(input, wire_type, WireType::Varint, t)
            },
            FieldType::Fixed32 | FieldType::SFixed32 | FieldType::Float => {
                self.merge_packable_scalar(input, wire_type, WireType::Fixed32, t)
            },
            FieldType::Fixed64 | FieldType::SFixed64 | FieldType::Double => {
                self.merge_packable_scalar(input, wire_type, WireType::Fixed64, t)
            },
            FieldType::Bytes | FieldType::String => {
                self.merge_scalar(input, wire_type, WireType::LengthDelimited, t)
            },
            FieldType::Enum => self.merge_enum(input, wire_type),
            FieldType::Message(index) => match descriptors.message(*index) {
                Some(message) => self.merge_message(input, descriptors, message, wire_type),
                None => Err(Error::UnknownMessage { name: String::new() }),
            },
            FieldType::Group => Err(Error::UnsupportedGroup),
            FieldType::UnresolvedEnum(name) => Err(Error::UnknownEnum { name: name.clone() }),
            FieldType::UnresolvedMessage(name) => Err(
                Error::UnknownMessage { name: name.clone() },
            ),
        }
    }
}

impl Message {
    /// Creates a message given a descriptor: a field for each field of the
    /// schema, a repeated one empty, a singular one with the declared
    /// default, if any.
    pub fn new(message: &MessageDescriptor) -> (made: Message)
        ensures
            made@ == fresh(*message),
            forall|count: nat| message.wf(count) ==> made@.wf(),
    {
        proof {
            assert forall|count: nat| message.wf(count) implies fresh(*message).wf() by {
                lemma_fresh_wf(*message, count);
            }
        }
        let mut made = Message { fields: BTreeMap::new(), unknown: Vec::new() };
        assert(made@.fields =~= Map::empty());
        let fields = message.fields();
        let mut i: usize = 0;
        while i < fields.len()
            invariant
                i <= fields.len(),
                *fields == message.fields,
                made@.fields == fresh_fields(fields@, i as nat),
                made@.unknown == Seq::<u8>::empty(),
            decreases fields.len() - i,
        {
            let field = &fields[i];
            made.insert_field(field.number(), Field::new(field));
            i = i + 1;
        }
        made
    }

    /// Puts `field` under `number`, in place of what was there.
    fn insert_field(&mut self, number: i32, field: Field)
        ensures
            final(self)@ == old(self)@.with_field(number, field@),
    {
        proof {
            lemma_int_keys();
        }
        self.fields.insert(number, field);
        assert(self@.fields =~= old(self)@.fields.insert(number, field@));
    }

    /// Takes out the field that `field` describes, to merge into it; a
    /// message that lacks the field gets a new one.
    fn take_field(&mut self, field: &FieldDescriptor) -> (held: Field)
        ensures
            held@ == if old(self)@.fields.contains_key(field.number) {
                old(self)@.fields[field.number]
            } else {
                initial(*field)
            },
            final(self)@.unknown == old(self)@.unknown,
            forall|f: FieldView|
                final(self)@.fields.insert(field.number, f) == old(self)@.fields.insert(
                    field.number,
                    f,
                ),
    {
        proof {
            lemma_int_keys();
        }
        let number = field.number();
        let held = match self.fields.remove(&number) {
            Some(held) => held,
            None => Field::new(field),
        };
        assert(self@.fields =~= old(self)@.fields.remove(number));
        assert forall|f: FieldView|
            self@.fields.insert(field.number, f) == old(self)@.fields.insert(
                field.number,
                f,
            ) by {
            assert(self@.fields.insert(field.number, f) =~= old(self)@.fields.insert(
                field.number,
                f,
            ));
        }
        held
    }

    /// Merge data from the given input into this message, up to the end of
    /// the input. The first fault ends the decode; what was merged before
    /// it stays in the message.
    pub fn merge_from(
        &mut self,
        descriptors: &Descriptors,
        message: &MessageDescriptor,
        input: &mut Input,
    ) -> (r: Result<(), Error>)
        ensures
            match merged(old(self)@, *descriptors, *message, old(input)@) {
                Ok(m) => r is Ok && final(self)@ == m && final(input)@.len() == 0,
                Err(fault) => r is Err && r->Err_0@ == fault,
            },
            final(self)@ == merged_left(old(self)@, *descriptors, *message, old(input)@),
            r is Ok && old(self)@.wf() && descriptors.wf() && message.wf(
                descriptors.messages@.len(),
            ) ==> final(self)@.wf(),
        decreases old(input)@.len(), 1nat,
    {
        proof {
            if old(self)@.wf() && descriptors.wf() && message.wf(descriptors.messages@.len()) {
                lemma_merged_wf(old(self)@, *descriptors, *message, old(input)@);
            }
        }
        while !input.eof()
            invariant
                input@.len() <= old(input)@.len(),
                merged(old(self)@, *descriptors, *message, old(input)@) == merged(
                    self@,
                    *descriptors,
                    *message,
                    input@,
                ),
                merged_left(old(self)@, *descriptors, *message, old(input)@) == merged_left(
                    self@,
                    *descriptors,
                    *message,
                    input@,
                ),
            decreases input@.len(),
        {
            let ghost s = input@;
            let ghost before = self@;
            let start = input.remaining();
            proof {
                lemma_scalar_bounds(FieldType::Bool, s);
            }
            let ((number, wire_type), n) = match read_tag_unpack(start) {
                Ok(read) => read,
                Err(e) => {
                    return Err(Error::Protobuf(e));
                },
            };
            input.advance(n);
            proof {
                lemma_scalar_bounds(FieldType::Bool, input@);
                lemma_group_bounds(input@);
            }
            match message.field_by_number(number as i32) {
                Some(field) => {
                    let mut held = self.take_field(field);
                    proof {
                        lemma_merged_field_taken(
                            held@,
                            *descriptors,
                            field.field_type,
                            wire_type,
                            input@,
                        );
                    }
                    let r = held.merge_from(descriptors, field, input, wire_type);
                    self.insert_field(field.number(), held);
                    match r {
                        Ok(()) => {},
                        Err(e) => {
                            return Err(e);
                        },
                    }
                },
                None => {
                    let k = match read_unknown_or_skip_group(
                        input.remaining(),
                        number,
                        wire_type,
                    ) {
                        Ok(k) => k,
                        Err(e) => {
                            return Err(Error::Protobuf(e));
                        },
                    };
                    let total = start.len();
                    assert(n + k <= total);
                    input.advance(k);
                    if wire_type != WireType::StartGroup {
                        let raw = slice_subrange(start, 0, n + k);
                        self.unknown.extend_from_slice(raw);
                        assert(self@.unknown =~= before.unknown + s.take((n + k) as int));
                        assert(self@.fields =~= before.fields);
                    }
                },
            }
        }
        Ok(())
    }
}


/// The sum of two lengths, where both are there and the sum fits in 32 bits.
fn plus(a: Option<u32>, b: Option<u32>) -> (sum: Option<u32>)
    ensures
        sum == match (a, b) {
            (Some(x), Some(y)) => fit((x + y) as nat),
            _ => None,
        },
{
    match (a, b) {
        (Some(x), Some(y)) => x.checked_add(y),
        _ => None,
    }
}

/// The length of a length-delimited entry with a payload of `len` bytes: the
/// tag, the length as a varint, and the payload.
fn delimited_size(tag: u32, len: usize) -> (size: Option<u32>)
    requires
        valid_number(tag as int),
    ensures
        size == fit(crate::wire::tag_len(tag) + crate::wire::varint_len(len as nat) + len as nat),
{
    if len > 0xffff_ffff {
        None
    } else {
        let head = tag_size(tag) as u64 + compute_raw_varint64_size(len as u64) as u64;
        proof {
            lemma_tag_len(tag, WireType::LengthDelimited);
            lemma_varint_bytes_len(len as nat);
            crate::wire::lemma_varint_len_room(len as nat, 0);
        }
        let total = head + len as u64;
        if total > 0xffff_ffff {
            None
        } else {
            Some(total as u32)
        }
    }
}

/// The result of a write that cannot fail, as a result of this library.
fn passed(r: Result<(), ProtobufError>) -> (out: Result<(), Error>)
    ensures
        r is Ok <==> out is Ok,
{
    match r {
        Ok(()) => Ok(()),
        Err(e) => Err(Error::Protobuf(e)),
    }
}

impl Value {
    /// Whether a singular field that holds this value is left out of the
    /// encoding.
    pub fn is_default(&self) -> (b: bool)
        ensures
            b == self@.is_default(),
    {
        match self {
            Value::Bool(b) => !*b,
            Value::I32(x) => *x == 0,
            Value::I64(x) => *x == 0,
            Value::U32(x) => *x == 0,
            Value::U64(x) => *x == 0,
            Value::F32(bits) => *bits % 0x8000_0000 == 0,
            Value::F64(bits) => *bits % 0x8000_0000_0000_0000 == 0,
            Value::Bytes(b) => b.len() == 0,
            Value::String(s) => s.as_str().is_empty(),
            Value::Enum(x) => *x == 0,
            Value::Message(_) => false,
        }
    }

    /// The number of bytes that this value writes under the field number
    /// `tag`, where it fits in 32 bits.
    fn size_with_tag(&self, tag: u32, repeated_elem: bool) -> (size: Option<u32>)
        requires
            valid_number(tag as int),
            self@.wf(),
        ensures
            size == fit(self@.written(tag, repeated_elem).len()),
        decreases self,
    {
        if !repeated_elem && self.is_default() {
            return Some(0);
        }
        proof {
            lemma_tag_len(tag, WireType::Varint);
            lemma_tag_len(tag, WireType::Fixed32);
            lemma_tag_len(tag, WireType::Fixed64);
            lemma_tag_len(tag, WireType::LengthDelimited);
        }
        match self {
            Value::Bool(b) => {
                proof {
                    lemma_varint_bytes_len(
                        if *b {
                            1
                        } else {
                            0
                        },
                    );
                }
                Some(tag_size(tag) + 1)
            },
            Value::I32(x) => {
                proof {
                    lemma_varint_bytes_len(unsigned64(*x as int) as nat);
                    crate::wire::lemma_varint_len_room(unsigned64(*x as int) as nat, 0);
                }
                Some(value_size_i32(tag, *x))
            },
            Value::I64(x) => {
                proof {
                    lemma_varint_bytes_len(unsigned64(*x as int) as nat);
                    crate::wire::lemma_varint_len_room(unsigned64(*x as int) as nat, 0);
                }
                Some(value_size_i64(tag, *x))
            },
            Value::U32(x) => {
                proof {
                    lemma_varint_bytes_len(*x as nat);
                    crate::wire::lemma_varint_len_room(*x as nat, 0);
                }
                Some(value_size_u32(tag, *x))
            },
            Value::U64(x) => {
                proof {
                    lemma_varint_bytes_len(*x as nat);
                    crate::wire::lemma_varint_len_room(*x as nat, 0);
                }
                Some(value_size_u64(tag, *x))
            },
            Value::F32(_) => Some(tag_size(tag) + 4),
            Value::F64(_) => Some(tag_size(tag) + 8),
            Value::Bytes(b) => {
                proof {
                    lemma_varint_bytes_len(b@.len());
                }
                delimited_size(tag, b.len())
            },
            Value::String(s) => {
                proof {
                    lemma_varint_bytes_len(vstd::utf8::encode_utf8(s@).len());
                }
                delimited_size(tag, s.as_str().as_bytes().len())
            },
            Value::Enum(x) => {
                proof {
                    lemma_varint_bytes_len(unsigned64(*x as int) as nat);
                    crate::wire::lemma_varint_len_room(unsigned64(*x as int) as nat, 0);
                }
                Some(value_size_i32(tag, *x))
            },
            Value::Message(m) => {
                proof {
                    lemma_varint_bytes_len(m@.wire().len());
                }
                match m.compute_size() {
                    Some(len) => delimited_size(tag, len as usize),
                    None => None,
                }
            },
        }
    }


    /// Writes this value under the field number `tag`: nothing where it is a
    /// default and not an element of a repeated field, else its entry.
    fn write_to_with_tag(&self, tag: u32, os: &mut Vec<u8>, repeated_elem: bool) -> (r: Result<
        (),
        Error,
    >)
        requires
            valid_number(tag as int),
            self@.wf(),
        ensures
            match r {
                Ok(()) => self@.framed() && final(os)@ == old(os)@ + self@.written(
                    tag,
                    repeated_elem,
                ),
                Err(e) => !self@.framed() && e@ == Fault::TooLarge,
            },
        decreases self, 0nat,
    {
        match self {
            Value::Bool(b) => {
                if *b || repeated_elem {
                    passed(write_bool(os, tag, *b))
                } else {
                    assert(os@ =~= old(os)@ + Seq::<u8>::empty());
                    Ok(())
                }
            },
            Value::I32(x) => {
                if *x != 0 || repeated_elem {
                    passed(write_int32(os, tag, *x))
                } else {
                    assert(os@ =~= old(os)@ + Seq::<u8>::empty());
                    Ok(())
                }
            },
            Value::I64(x) => {
                if *x != 0 || repeated_elem {
                    passed(write_int64(os, tag, *x))
                } else {
                    assert(os@ =~= old(os)@ + Seq::<u8>::empty());
                    Ok(())
                }
            },
            Value::U32(x) => {
                if *x != 0 || repeated_elem {
                    passed(write_uint32(os, tag, *x))
                } else {
                    assert(os@ =~= old(os)@ + Seq::<u8>::empty());
                    Ok(())
                }
            },
            Value::U64(x) => {
                if *x != 0 || repeated_elem {
                    passed(write_uint64(os, tag, *x))
                } else {
                    assert(os@ =~= old(os)@ + Seq::<u8>::empty());
                    Ok(())
                }
            },
            Value::F32(bits) => {
                if *bits % 0x8000_0000 != 0 || repeated_elem {
                    passed(write_fixed32(os, tag, *bits))
                } else {
                    assert(os@ =~= old(os)@ + Seq::<u8>::empty());
                    Ok(())
                }
            },
            Value::F64(bits) => {
                if *bits % 0x8000_0000_0000_0000 != 0 || repeated_elem {
                    passed(write_fixed64(os, tag, *bits))
                } else {
                    assert(os@ =~= old(os)@ + Seq::<u8>::empty());
                    Ok(())
                }
            },
            Value::Bytes(v) => {
                if v.len() > 0xffff_ffff {
                    Err(Error::TooLarge)
                } else if !(v.len() == 0) || repeated_elem {
                    let r = passed(write_bytes(os, tag, v.as_slice()));
                    assert(os@ =~= old(os)@ + self@.entry(tag));
                    r
                } else {
                    assert(os@ =~= old(os)@ + Seq::<u8>::empty());
                    Ok(())
                }
            },
            Value::String(s) => {
                if s.as_str().as_bytes().len() > 0xffff_ffff {
                    Err(Error::TooLarge)
                } else if !s.as_str().is_empty() || repeated_elem {
                    let r = passed(write_string(os, tag, s.as_str()));
                    assert(os@ =~= old(os)@ + self@.entry(tag));
                    r
                } else {
                    assert(os@ =~= old(os)@ + Seq::<u8>::empty());
                    Ok(())
                }
            },
            Value::Enum(x) => {
                if *x != 0 || repeated_elem {
                    passed(write_enum(os, tag, *x))
                } else {
                    assert(os@ =~= old(os)@ + Seq::<u8>::empty());
                    Ok(())
                }
            },
            Value::Message(m) => {
                let len = match m.compute_size() {
                    Some(len) => len,
                    None => {
                        return Err(Error::TooLarge);
                    },
                };
                match passed(write_tag(os, tag, WireType::LengthDelimited)) {
                    Ok(()) => {},
                    Err(e) => {
                        return Err(e);
                    },
                }
                match passed(write_raw_varint32(os, len)) {
                    Ok(()) => {},
                    Err(e) => {
                        return Err(e);
                    },
                }
                let r = m.write_to(os);
                assert(r is Ok ==> os@ =~= old(os)@ + self@.entry(tag));
                r
            },
        }
    }
}

impl Field {
    /// The number of bytes that this field writes under the field number
    /// `tag`, where it fits in 32 bits.
    pub fn size_with_tag(&self, tag: u32) -> (size: Option<u32>)
        requires
            valid_number(tag as int),
            self@.wf(),
        ensures
            size == fit(self@.wire(tag).len()),
        decreases self,
    {
        match self {
            Field::Singular(Some(v)) => v.size_with_tag(tag, false),
            Field::Repeated(values) => {
                let mut size: Option<u32> = Some(0);
                let mut i: usize = 0;
                while i < values.len()
                    invariant
                        i <= values.len(),
                        valid_number(tag as int),
                        self@.wf(),
                        *self is Repeated,
                        self->Repeated_0 == *values,
                        size == fit(entries(self@->Repeated_0, tag, i as nat).len()),
                    decreases values.len() - i,
                {
                    proof {
                        vstd::std_specs::vec::axiom_vec_index_decreases(*values, i as int);
                        assert(decreases_to!(*self => self->Repeated_0));
                        assert(self@->Repeated_0[i as int] == values@[i as int]@);
                    }
                    size = plus(size, values[i].size_with_tag(tag, true));
                    i = i + 1;
                }
                size
            },
            Field::Singular(None) => Some(0),
        }
    }

    /// The number of bytes that `write_to_with_tag` writes for this field,
    /// where it fits in 32 bits.
    fn size_as(&self, tag: u32, repeated_elem: bool) -> (size: Option<u32>)
        requires
            valid_number(tag as int),
            self@.wf(),
        ensures
            size == fit(self@.written(tag, repeated_elem).len()),
    {
        match self {
            Field::Singular(Some(v)) => v.size_with_tag(tag, repeated_elem),
            _ => self.size_with_tag(tag),
        }
    }

    /// Write this field to the given output under the field number `tag`.
    /// Every value of a repeated field is written; a single value is left
    /// out where it is a default, unless it stands for an element of a
    /// repeated field. A field whose bytes do not fit in 32 bits is not
    /// written.
    pub fn write_to_with_tag(&self, tag: u32, os: &mut Vec<u8>, repeated_elem: bool) -> (r:
        Result<(), Error>)
        requires
            valid_number(tag as int),
            self@.wf(),
        ensures
            match r {
                Ok(()) => self@.written(tag, repeated_elem).len() <= u32::MAX && final(os)@
                    == old(os)@ + self@.written(tag, repeated_elem),
                Err(e) => self@.written(tag, repeated_elem).len() > u32::MAX && e@
                    == Fault::TooLarge && final(os)@ == old(os)@,
            },
        decreases self, 1nat,
    {
        match self.size_as(tag, repeated_elem) {
            Some(_) => {},
            None => {
                return Err(Error::TooLarge);
            },
        }
        proof {
            lemma_written_framed(self@, tag, repeated_elem);
        }
        self.write_values(tag, os, repeated_elem)
    }

    /// Writes the values of this field, one after another, until one has a
    /// length that does not fit in 32 bits.
    fn write_values(&self, tag: u32, os: &mut Vec<u8>, repeated_elem: bool) -> (r: Result<
        (),
        Error,
    >)
        requires
            valid_number(tag as int),
            self@.wf(),
        ensures
            match r {
                Ok(()) => self@.framed() && final(os)@ == old(os)@ + self@.written(
                    tag,
                    repeated_elem,
                ),
                Err(e) => !self@.framed() && e@ == Fault::TooLarge,
            },
        decreases self, 0nat,
    {
        match self {
            Field::Singular(Some(v)) => v.write_to_with_tag(tag, os, repeated_elem),
            Field::Repeated(values) => {
                let mut i: usize = 0;
                assert(os@ =~= old(os)@ + entries(self@->Repeated_0, tag, 0));
                while i < values.len()
                    invariant
                        i <= values.len(),
                        valid_number(tag as int),
                        self@.wf(),
                        *self is Repeated,
                        self->Repeated_0 == *values,
                        os@ == old(os)@ + entries(self@->Repeated_0, tag, i as nat),
                        forall|j: int| 0 <= j < i ==> (#[trigger] self@->Repeated_0[j]).framed(),
                    decreases values.len() - i,
                {
                    proof {
                        vstd::std_specs::vec::axiom_vec_index_decreases(*values, i as int);
                        assert(decreases_to!(*self => self->Repeated_0));
                        assert(self@->Repeated_0[i as int] == values@[i as int]@);
                    }
                    let ghost before = os@;
                    match values[i].write_to_with_tag(tag, os, true) {
                        Ok(()) => {},
                        Err(e) => {
                            return Err(e);
                        },
                    }
                    assert(os@ =~= old(os)@ + entries(self@->Repeated_0, tag, (i + 1) as nat));
                    i = i + 1;
                }
                Ok(())
            },
            Field::Singular(None) => {
                assert(os@ =~= old(os)@ + Seq::<u8>::empty());
                Ok(())
            },
        }
    }
}

impl Message {
    /// The number of bytes that this message writes, where it fits in 32
    /// bits: the sum over its fields, in ascending order of their numbers,
    /// and the bytes of its unknown fields. It is a function of what the
    /// message is, so it is the same whenever it is asked for, and it is the
    /// number of bytes by which `write_to` makes an output grow.
    pub fn compute_size(&self) -> (size: Option<u32>)
        requires
            self@.wf(),
        ensures
            size == fit(self@.wire().len()),
        decreases self,
    {
        let mut size: Option<u32> = Some(0);
        let ghost mut bound: nat = 0;
        let ghost mut done: int = 0;
        let walk = self.fields.iter();
        let ghost all = walk.remaining();
        proof {
            lemma_walk(self.fields, all);
        }
        for entry in it: walk
            invariant
                self@.wf(),
                it.seq() == all,
                done == it.index(),
                ascending(self.fields@, all),
                bound == reached(all, done),
                bound <= FIELD_NUMBER_MAX + 1,
                size == fit(fields_wire(self@.fields, bound).len()),
        {
            let (number, field) = entry;
            proof {
                lemma_walk_step(*self, all, done);
                lemma_next_field(self@.fields, bound, *number);
            }
            size = plus(size, field.size_with_tag(*number as u32));
            proof {
                bound = (*number + 1) as nat;
                done = done + 1;
            }
        }
        proof {
            lemma_walk_end(*self, all);
            lemma_fields_wire_gap(self@.fields, bound, (FIELD_NUMBER_MAX + 1) as nat);
        }
        if self.unknown.len() > 0xffff_ffff {
            None
        } else {
            plus(size, Some(self.unknown.len() as u32))
        }
    }

    /// Write this message to the given output: its fields in ascending
    /// order of their numbers, then the bytes of its unknown fields as they
    /// came. A message whose encoding does not fit in 32 bits is not
    /// written.
    pub fn write_to(&self, os: &mut Vec<u8>) -> (r: Result<(), Error>)
        requires
            self@.wf(),
        ensures
            match r {
                Ok(()) => self@.wire().len() <= u32::MAX && final(os)@ == old(os)@
                    + self@.wire() && final(os)@.len() == old(os)@.len() + self@.wire().len(),
                Err(e) => self@.wire().len() > u32::MAX && e@ == Fault::TooLarge && final(os)@
                    == old(os)@,
            },
        decreases self, 0nat,
    {
        match self.compute_size() {
            Some(_) => {},
            None => {
                return Err(Error::TooLarge);
            },
        }
        let ghost mut bound: nat = 0;
        let ghost mut done: int = 0;
        let walk = self.fields.iter();
        let ghost all = walk.remaining();
        proof {
            lemma_walk(self.fields, all);
            assert(os@ =~= old(os)@ + fields_wire(self@.fields, 0));
        }
        for entry in it: walk
            invariant
                self@.wf(),
                self@.wire().len() <= u32::MAX,
                it.seq() == all,
                done == it.index(),
                ascending(self.fields@, all),
                bound == reached(all, done),
                bound <= FIELD_NUMBER_MAX + 1,
                os@ == old(os)@ + fields_wire(self@.fields, bound),
        {
            let (number, field) = entry;
            proof {
                lemma_walk_step(*self, all, done);
                lemma_next_field(self@.fields, bound, *number);
                lemma_field_within(self@, *number);
            }
            match field.write_to_with_tag(*number as u32, os, false) {
                Ok(()) => {},
                Err(e) => {
                    return Err(e);
                },
            }
            proof {
                assert(os@ =~= old(os)@ + fields_wire(self@.fields, (*number + 1) as nat));
                bound = (*number + 1) as nat;
                done = done + 1;
            }
        }
        proof {
            lemma_walk_end(*self, all);
            lemma_fields_wire_gap(self@.fields, bound, (FIELD_NUMBER_MAX + 1) as nat);
        }
        os.extend_from_slice(self.unknown.as_slice());
        assert(os@ =~= old(os)@ + self@.wire());
        Ok(())
    }

    /// Write this message to a byte vector.
    pub fn write_to_bytes(&self) -> (r: Result<Vec<u8>, Error>)
        requires
            self@.wf(),
        ensures
            match r {
                Ok(bytes) => self@.wire().len() <= u32::MAX && bytes@ == self@.wire()
                    && fit(bytes@.len()) == fit(self@.wire().len()),
                Err(e) => self@.wire().len() > u32::MAX && e@ == Fault::TooLarge,
            },
    {
        let mut v: Vec<u8> = Vec::new();
        match self.write_to(&mut v) {
            Ok(()) => {
                assert(v@ =~= self@.wire());
                Ok(v)
            },
            Err(e) => Err(e),
        }
    }
}

impl Value {
    /// Whether a tag can carry every field number within this value.
    pub fn is_well_formed(&self) -> (b: bool)
        ensures
            b == self@.wf(),
        decreases self,
    {
        match self {
            Value::Message(m) => m.is_well_formed(),
            _ => true,
        }
    }
}

impl Field {
    /// Whether a tag can carry every field number within this field.
    pub fn is_well_formed(&self) -> (b: bool)
        ensures
            b == self@.wf(),
        decreases self,
    {
        match self {
            Field::Singular(None) => true,
            Field::Singular(Some(v)) => v.is_well_formed(),
            Field::Repeated(values) => {
                let mut i: usize = 0;
                while i < values.len()
                    invariant
                        i <= values.len(),
                        *self is Repeated,
                        self->Repeated_0 == *values,
                        forall|j: int| 0 <= j < i ==> (#[trigger] self@->Repeated_0[j]).wf(),
                    decreases values.len() - i,
                {
                    proof {
                        vstd::std_specs::vec::axiom_vec_index_decreases(*values, i as int);
                        assert(decreases_to!(*self => self->Repeated_0));
                        assert(self@->Repeated_0[i as int] == values@[i as int]@);
                    }
                    if !values[i].is_well_formed() {
                        return false;
                    }
                    i = i + 1;
                }
                true
            },
        }
    }
}

impl Message {
    /// Whether a tag can carry every field number of this message and of
    /// the messages within it, as writing the message requires.
    pub fn is_well_formed(&self) -> (b: bool)
        ensures
            b == self@.wf(),
        decreases self,
    {
        let ghost mut done: int = 0;
        let walk = self.fields.iter();
        let ghost all = walk.remaining();
        proof {
            lemma_walk(self.fields, all);
        }
        for entry in it: walk
            invariant
                it.seq() == all,
                done == it.index(),
                ascending(self.fields@, all),
                forall|i: int|
                    0 <= i < done ==> valid_number(*(#[trigger] all[i]).0 as int)
                        && all[i].1@.wf(),
        {
            let (number, field) = entry;
            proof {
                lemma_walk_entry(*self, all, done);
            }
            if *number < 1 || *number > 0x1fff_ffff || !field.is_well_formed() {
                return false;
            }
            proof {
                done = done + 1;
            }
        }
        proof {
            assert forall|number: i32| #[trigger]
                self@.fields.contains_key(number) implies valid_number(number as int)
                && self@.fields[number].wf() by {
                let i = choose|i: int| 0 <= i < all.len() && *(#[trigger] all[i]).0 == number;
                lemma_walk_entry(*self, all, i);
            }
            assert(self@.fields.dom() =~= self.fields@.dom());
        }
        true
    }
}

/// What a walk through the fields of a message gives: every entry is a
/// field of the message, every field of the message is an entry, and the
/// numbers ascend.
pub open spec fn ascending(fields: Map<i32, Field>, all: Seq<(&i32, &Field)>) -> bool {
    &&& forall|i: int, j: int| 0 <= i < j < all.len() ==> *all[i].0 < *all[j].0
    &&& forall|i: int|
        0 <= i < all.len() ==> fields.contains_key(*(#[trigger] all[i]).0) && fields[*all[i].0]
            == *all[i].1
    &&& forall|k: i32|
        fields.contains_key(k) ==> exists|i: int|
            0 <= i < all.len() && *(#[trigger] all[i]).0 == k
}

/// The bound below which every field has been walked through when `done`
/// entries have been.
pub open spec fn reached(all: Seq<(&i32, &Field)>, done: int) -> nat {
    if done <= 0 || done > all.len() {
        0
    } else {
        (*all[done - 1].0 + 1) as nat
    }
}

/// The entries that the iterator of a map of fields hands out are in
/// ascending order and are the fields of the map.
proof fn lemma_walk(fields: BTreeMap<i32, Field>, all: Seq<(&i32, &Field)>)
    requires
        vstd::std_specs::btree::increasing_seq(all.map_values(|kv: (&i32, &Field)| *kv.0)),
        all == fields.iter().remaining(),
    ensures
        ascending(fields@, all),
{
    lemma_int_keys();
    let keys = all.map_values(|kv: (&i32, &Field)| *kv.0);
    lemma_increasing(keys);
    assert forall|i: int, j: int| 0 <= i < j < all.len() implies *all[i].0 < *all[j].0 by {
        assert(keys[i] < keys[j]);
    }
    assert forall|k: i32| fields@.contains_key(k) implies exists|i: int|
        0 <= i < all.len() && *(#[trigger] all[i]).0 == k by {
        assert(all.contains((&k, &fields@[k])));
    }
}

/// An entry of a walk is a field of the message, and smaller than the
/// message.
proof fn lemma_walk_entry(m: Message, all: Seq<(&i32, &Field)>, i: int)
    requires
        ascending(m.fields@, all),
        0 <= i < all.len(),
    ensures
        m@.fields.contains_key(*all[i].0),
        m@.fields[*all[i].0] == all[i].1@,
        decreases_to!(m => *all[i].1),
{
    let number = *all[i].0;
    assert(m.fields@.contains_key(number));
    assert(decreases_to!(m => m.fields));
    assert(decreases_to!(m.fields => m.fields@));
    assert(decreases_to!(m.fields@ => m.fields@[number]));
}

/// The next entry of a walk is a field of the message, smaller than the
/// message, with no field between the bound that was reached and it.
proof fn lemma_walk_step(m: Message, all: Seq<(&i32, &Field)>, done: int)
    requires
        m@.wf(),
        ascending(m.fields@, all),
        0 <= done < all.len(),
    ensures
        m@.fields.contains_key(*all[done].0),
        m@.fields[*all[done].0] == all[done].1@,
        valid_number(*all[done].0 as int),
        all[done].1@.wf(),
        reached(all, done) <= *all[done].0,
        forall|other: i32|
            reached(all, done) <= other < *all[done].0 ==> !m@.fields.contains_key(other),
        decreases_to!(m => *all[done].1),
{
    let number = *all[done].0;
    assert(m.fields@.contains_key(number));
    assert(m@.fields.contains_key(number));
    assert forall|other: i32| reached(all, done) <= other < number implies !m@.fields.contains_key(
        other,
    ) by {
        if m.fields@.contains_key(other) {
            let i = choose|i: int| 0 <= i < all.len() && *(#[trigger] all[i]).0 == other;
            if i < done {
                assert(i == done - 1 || *all[i].0 < *all[done - 1].0);
            } else if i > done {
                assert(*all[done].0 < *all[i].0);
            }
        }
    }
    if done > 0 {
        assert(*all[done - 1].0 < *all[done].0);
        assert(m@.fields.contains_key(*all[done - 1].0));
    }
    assert(decreases_to!(m => m.fields));
    assert(decreases_to!(m.fields => m.fields@));
    assert(decreases_to!(m.fields@ => m.fields@[number]));
}

/// When a walk is over, no field is left above the bound that was reached.
proof fn lemma_walk_end(m: Message, all: Seq<(&i32, &Field)>)
    requires
        m@.wf(),
        ascending(m.fields@, all),
    ensures
        reached(all, all.len() as int) <= FIELD_NUMBER_MAX + 1,
        forall|other: i32|
            reached(all, all.len() as int) <= other < FIELD_NUMBER_MAX + 1
                ==> !m@.fields.contains_key(other),
{
    let bound = reached(all, all.len() as int);
    if all.len() > 0 {
        assert(m@.fields.contains_key(*all[all.len() - 1].0));
    }
    assert forall|other: i32| bound <= other < FIELD_NUMBER_MAX + 1 implies !m@.fields.contains_key(
        other,
    ) by {
        if m.fields@.contains_key(other) {
            let i = choose|i: int| 0 <= i < all.len() && *(#[trigger] all[i]).0 == other;
            assert(i == all.len() - 1 || *all[i].0 < *all[all.len() - 1].0);
        }
    }
}

} // verus!
